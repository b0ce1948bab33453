//! Bundle-relative paths: splitting a `/`-separated byte path into its
//! components, testing whether one path lies under another, and turning the
//! remainder into a relative path.
use vstd::prelude::*;

verus! {

/// The separator byte of a path.
pub const SEP: u8 = 47;

/// The components of `p` that start at `i`, where `cur` holds the bytes of the
/// component that is being read. Empty components (a doubled or trailing
/// separator) are dropped.
pub open spec fn split_from(p: Seq<u8>, i: int, cur: Seq<u8>) -> Seq<Seq<u8>>
    decreases p.len() - i,
{
    if i >= p.len() {
        if cur.len() > 0 { seq![cur] } else { seq![] }
    } else if p[i] == SEP {
        (if cur.len() > 0 { seq![cur] } else { seq![] }) + split_from(p, i + 1, seq![])
    } else {
        split_from(p, i + 1, cur.push(p[i]))
    }
}

/// The non-empty components of the path `p`.
pub open spec fn components(p: Seq<u8>) -> Seq<Seq<u8>> {
    split_from(p, 0, seq![])
}

/// The components joined with single separators.
pub open spec fn join(cs: Seq<Seq<u8>>) -> Seq<u8>
    decreases cs.len(),
{
    if cs.len() == 0 {
        seq![]
    } else if cs.len() == 1 {
        cs[0]
    } else {
        join(cs.drop_last()) + seq![SEP] + cs.last()
    }
}

/// The components of `p` after those of `root`, when the components of `root`
/// are a prefix of those of `p`.
pub open spec fn relative_components(p: Seq<u8>, root: Seq<u8>) -> Option<Seq<Seq<u8>>> {
    let pc = components(p);
    let rc = components(root);
    if rc.len() <= pc.len() && pc.subrange(0, rc.len() as int) == rc {
        Some(pc.subrange(rc.len() as int, pc.len() as int))
    } else {
        None
    }
}

/// The path of `p` relative to `root`, with single forward separators, or
/// `None` when `p` does not lie under `root`.
pub open spec fn relative_path(p: Seq<u8>, root: Seq<u8>) -> Option<Seq<u8>> {
    match relative_components(p, root) {
        Some(cs) => Some(join(cs)),
        None => None,
    }
}

/// What the UTF-8 decoding of a byte string gives: `None` when the bytes are
/// not valid UTF-8.
pub uninterp spec fn utf8_text(b: Seq<u8>) -> Option<Seq<char>>;

/// Relies on `std::str::from_utf8`: it succeeds exactly when the bytes are
/// valid UTF-8, and the decoded text depends on the bytes alone.
#[verifier::external_body]
pub(crate) fn decode_utf8(b: &[u8]) -> (r: Option<String>)
    ensures
        match r {
            Some(s) => utf8_text(b@) == Some(s@),
            None => utf8_text(b@).is_none(),
        },
{
    std::str::from_utf8(b).ok().map(|s| s.to_string())
}

/// Whether two byte strings are equal.
pub fn bytes_equal(a: &Vec<u8>, b: &Vec<u8>) -> (r: bool)
    ensures
        r == (a@ == b@),
{
    if a.len() != b.len() {
        return false;
    }
    let mut i: usize = 0;
    while i < a.len()
        invariant
            a@.len() == b@.len(),
            i <= a@.len(),
            a@.subrange(0, i as int) == b@.subrange(0, i as int),
        decreases a@.len() - i,
    {
        if a[i] != b[i] {
            assert(a@[i as int] != b@[i as int]);
            return false;
        }
        assert(a@.subrange(0, i + 1) == a@.subrange(0, i as int).push(a@[i as int]));
        assert(b@.subrange(0, i + 1) == b@.subrange(0, i as int).push(b@[i as int]));
        i = i + 1;
    }
    assert(a@ == a@.subrange(0, i as int));
    assert(b@ == b@.subrange(0, i as int));
    true
}

/// Splits `p` into its non-empty components.
pub fn split_components(p: &Vec<u8>) -> (r: Vec<Vec<u8>>)
    ensures
        r@.map_values(|c: Vec<u8>| c@) == components(p@),
{
    let mut out: Vec<Vec<u8>> = Vec::new();
    let mut cur: Vec<u8> = Vec::new();
    let mut i: usize = 0;
    while i < p.len()
        invariant
            i <= p@.len(),
            out@.map_values(|c: Vec<u8>| c@) + split_from(p@, i as int, cur@) == components(p@),
        decreases p@.len() - i,
    {
        let ghost before = out@.map_values(|c: Vec<u8>| c@);
        if p[i] == SEP {
            if cur.len() > 0 {
                let done = cur;
                cur = Vec::new();
                proof {
                    assert(split_from(p@, i as int, done@) == seq![done@] + split_from(
                        p@,
                        i + 1,
                        seq![],
                    ));
                }
                out.push(done);
                assert(out@.map_values(|c: Vec<u8>| c@) == before.push(done@));
                assert(before + (seq![done@] + split_from(p@, i + 1, seq![])) == before.push(
                    done@,
                ) + split_from(p@, i + 1, seq![]));
            } else {
                assert(split_from(p@, i as int, cur@) == seq![] + split_from(p@, i + 1, seq![]));
                assert(cur@ == Seq::<u8>::empty());
                assert(seq![] + split_from(p@, i + 1, seq![]) == split_from(p@, i + 1, seq![]));
            }
        } else {
            let ghost old_cur = cur@;
            cur.push(p[i]);
            assert(cur@ == old_cur.push(p@[i as int]));
        }
        i = i + 1;
    }
    let ghost before = out@.map_values(|c: Vec<u8>| c@);
    if cur.len() > 0 {
        assert(split_from(p@, i as int, cur@) == seq![cur@]);
        out.push(cur);
        assert(out@.map_values(|c: Vec<u8>| c@) == before.push(cur@));
        assert(before + seq![cur@] == before.push(cur@));
    } else {
        assert(split_from(p@, i as int, cur@) == Seq::<Seq<u8>>::empty());
        assert(before + Seq::<Seq<u8>>::empty() == before);
    }
    out
}

/// Joins `cs[from..]` with single separators.
pub fn join_components(cs: &Vec<Vec<u8>>, from: usize) -> (r: Vec<u8>)
    requires
        from <= cs@.len(),
    ensures
        r@ == join(cs@.map_values(|c: Vec<u8>| c@).subrange(from as int, cs@.len() as int)),
{
    let ghost v = cs@.map_values(|c: Vec<u8>| c@);
    let mut out: Vec<u8> = Vec::new();
    let mut i: usize = from;
    while i < cs.len()
        invariant
            from <= i <= cs@.len(),
            v == cs@.map_values(|c: Vec<u8>| c@),
            out@ == join(v.subrange(from as int, i as int)),
        decreases cs@.len() - i,
    {
        let ghost prev = out@;
        if i > from {
            out.push(SEP);
        }
        let c = &cs[i];
        let mut j: usize = 0;
        let ghost mid = out@;
        while j < c.len()
            invariant
                j <= c@.len(),
                out@ == mid + c@.subrange(0, j as int),
            decreases c@.len() - j,
        {
            out.push(c[j]);
            assert(c@.subrange(0, j + 1) == c@.subrange(0, j as int).push(c@[j as int]));
            j = j + 1;
        }
        proof {
            let s = v.subrange(from as int, i + 1);
            assert(s.drop_last() == v.subrange(from as int, i as int));
            assert(s.last() == c@);
            assert(c@.subrange(0, j as int) == c@);
            if i > from {
                assert(mid == prev + seq![SEP]);
            } else {
                assert(s.len() == 1);
                assert(prev == Seq::<u8>::empty());
                assert(mid == prev);
            }
        }
        i = i + 1;
    }
    out
}

/// The path of `p` relative to `root` (see `relative_path`).
pub fn strip_root(p: &Vec<u8>, root: &Vec<u8>) -> (r: Option<Vec<u8>>)
    ensures
        match r {
            Some(rel) => relative_path(p@, root@) == Some(rel@),
            None => relative_path(p@, root@).is_none(),
        },
{
    let pc = split_components(p);
    let rc = split_components(root);
    let ghost pv = pc@.map_values(|c: Vec<u8>| c@);
    let ghost rv = rc@.map_values(|c: Vec<u8>| c@);
    assert(pv.len() == pc@.len() && rv.len() == rc@.len());
    if rc.len() > pc.len() {
        return None;
    }
    let mut i: usize = 0;
    while i < rc.len()
        invariant
            rc@.len() <= pc@.len(),
            i <= rc@.len(),
            pv == pc@.map_values(|c: Vec<u8>| c@),
            rv == rc@.map_values(|c: Vec<u8>| c@),
            pv.subrange(0, i as int) == rv.subrange(0, i as int),
            pv == components(p@),
            rv == components(root@),
        decreases rc@.len() - i,
    {
        if !bytes_equal(&pc[i], &rc[i]) {
            proof {
                assert(pv[i as int] == pc@[i as int]@);
                assert(rv[i as int] == rc@[i as int]@);
                assert(pv[i as int] != rv[i as int]);
                assert(pv.subrange(0, rv.len() as int)[i as int] == pv[i as int]);
                assert(pv.subrange(0, rv.len() as int) != rv);
            }
            return None;
        }
        assert(pv[i as int] == pc@[i as int]@);
        assert(rv[i as int] == rc@[i as int]@);
        assert(pv.subrange(0, i + 1) == pv.subrange(0, i as int).push(pv[i as int]));
        assert(rv.subrange(0, i + 1) == rv.subrange(0, i as int).push(rv[i as int]));
        i = i + 1;
    }
    assert(rv.subrange(0, i as int) == rv);
    Some(join_components(&pc, rc.len()))
}

/// Whether `c` is a possible path component: non-empty, without separator.
pub open spec fn is_component(c: Seq<u8>) -> bool {
    c.len() > 0 && forall|k: int| 0 <= k < c.len() ==> #[trigger] c[k] != SEP
}

/// What reading ends with when the component being read is `cur`.
pub open spec fn flush(cur: Seq<u8>) -> Seq<Seq<u8>> {
    if cur.len() > 0 { seq![cur] } else { seq![] }
}

proof fn lemma_split_shift(a: Seq<u8>, b: Seq<u8>, j: int, cur: Seq<u8>)
    requires
        0 <= j <= b.len(),
    ensures
        split_from(a + b, a.len() + j, cur) == split_from(b, j, cur),
    decreases b.len() - j,
{
    if j < b.len() {
        assert((a + b)[a.len() + j] == b[j]);
        lemma_split_shift(a, b, j + 1, seq![]);
        lemma_split_shift(a, b, j + 1, cur.push(b[j]));
    }
}

proof fn lemma_split_closed(a: Seq<u8>, b: Seq<u8>, i: int, cur: Seq<u8>)
    requires
        a.len() > 0,
        a.last() == SEP,
        0 <= i < a.len(),
    ensures
        split_from(a + b, i, cur) == split_from(a, i, cur) + split_from(a + b, a.len() as int, seq![]),
    decreases a.len() - i,
{
    assert((a + b)[i] == a[i]);
    let rest = split_from(a + b, a.len() as int, seq![]);
    if a[i] == SEP {
        if i + 1 < a.len() {
            lemma_split_closed(a, b, i + 1, seq![]);
            assert(flush(cur) + (split_from(a, i + 1, seq![]) + rest) == (flush(cur) + split_from(
                a,
                i + 1,
                seq![],
            )) + rest);
        } else {
            assert(split_from(a, i + 1, seq![]) == Seq::<Seq<u8>>::empty());
            assert(flush(cur) + Seq::<Seq<u8>>::empty() == flush(cur));
        }
    } else {
        lemma_split_closed(a, b, i + 1, cur.push(a[i]));
    }
}

proof fn lemma_split_trailing_sep(x: Seq<u8>, i: int, cur: Seq<u8>)
    requires
        0 <= i <= x.len(),
    ensures
        split_from(x + seq![SEP], i, cur) == split_from(x, i, cur),
    decreases x.len() - i,
{
    let a = x + seq![SEP];
    assert(a[i] == if i < x.len() { x[i] } else { SEP });
    if i < x.len() {
        lemma_split_trailing_sep(x, i + 1, seq![]);
        lemma_split_trailing_sep(x, i + 1, cur.push(x[i]));
    } else {
        assert(split_from(a, i + 1, seq![]) == Seq::<Seq<u8>>::empty());
        assert(flush(cur) + Seq::<Seq<u8>>::empty() == flush(cur));
    }
}

proof fn lemma_split_word(c: Seq<u8>, i: int, cur: Seq<u8>)
    requires
        0 <= i <= c.len(),
        forall|k: int| 0 <= k < c.len() ==> #[trigger] c[k] != SEP,
    ensures
        split_from(c, i, cur) == flush(cur + c.subrange(i, c.len() as int)),
    decreases c.len() - i,
{
    if i < c.len() {
        lemma_split_word(c, i + 1, cur.push(c[i]));
        assert(cur.push(c[i]) + c.subrange(i + 1, c.len() as int) == cur + c.subrange(
            i,
            c.len() as int,
        ));
    } else {
        assert(cur + c.subrange(i, c.len() as int) == cur);
    }
}

/// Splitting the joined form of well-formed components gives them back.
pub proof fn lemma_components_of_join(cs: Seq<Seq<u8>>)
    requires
        forall|k: int| 0 <= k < cs.len() ==> is_component(#[trigger] cs[k]),
    ensures
        components(join(cs)) == cs,
    decreases cs.len(),
{
    if cs.len() == 1 {
        assert(is_component(cs[0]));
        lemma_split_word(cs[0], 0, seq![]);
        assert(Seq::<u8>::empty() + cs[0].subrange(0, cs[0].len() as int) == cs[0]);
        assert(cs == seq![cs[0]]);
    } else if cs.len() > 1 {
        let init = cs.drop_last();
        let last = cs.last();
        assert(is_component(cs[cs.len() - 1]));
        assert forall|k: int| 0 <= k < init.len() implies is_component(#[trigger] init[k]) by {
            assert(init[k] == cs[k]);
        }
        lemma_components_of_join(init);
        let a = join(init) + seq![SEP];
        lemma_split_closed(a, last, 0, seq![]);
        lemma_split_shift(a, last, 0, seq![]);
        lemma_split_trailing_sep(join(init), 0, seq![]);
        lemma_split_word(last, 0, seq![]);
        assert(Seq::<u8>::empty() + last.subrange(0, last.len() as int) == last);
        assert(cs == init.push(last));
    }
}

proof fn lemma_split_well_formed(p: Seq<u8>, i: int, cur: Seq<u8>)
    requires
        0 <= i <= p.len(),
        forall|k: int| 0 <= k < cur.len() ==> #[trigger] cur[k] != SEP,
    ensures
        forall|k: int|
            0 <= k < split_from(p, i, cur).len() ==> is_component(#[trigger] split_from(p, i, cur)[k]),
    decreases p.len() - i,
{
    if cur.len() > 0 {
        assert(is_component(cur));
    }
    if i >= p.len() {
        assert(split_from(p, i, cur) == flush(cur));
        if cur.len() > 0 {
            assert(flush(cur)[0] == cur);
        }
    } else {
        if p[i] == SEP {
            lemma_split_well_formed(p, i + 1, seq![]);
            let rest = split_from(p, i + 1, seq![]);
            let all = flush(cur) + rest;
            assert(split_from(p, i, cur) == all);
            assert forall|k: int| 0 <= k < all.len() implies is_component(#[trigger] all[k]) by {
                if k >= flush(cur).len() {
                    assert(all[k] == rest[k - flush(cur).len()]);
                } else {
                    assert(all[k] == cur);
                }
            }
        } else {
            let c2 = cur.push(p[i]);
            assert forall|k: int| 0 <= k < c2.len() implies #[trigger] c2[k] != SEP by {
                if k < cur.len() {
                    assert(c2[k] == cur[k]);
                }
            }
            lemma_split_well_formed(p, i + 1, c2);
            assert(split_from(p, i, cur) == split_from(p, i + 1, c2));
        }
    }
}

/// Every component of a path is non-empty and holds no separator.
pub proof fn lemma_components_well_formed(p: Seq<u8>)
    ensures
        forall|k: int| 0 <= k < components(p).len() ==> is_component(#[trigger] components(p)[k]),
{
    lemma_split_well_formed(p, 0, seq![]);
}

/// Paths with distinct components under a common root have distinct
/// relative paths.
pub proof fn lemma_relative_path_injective(p: Seq<u8>, q: Seq<u8>, root: Seq<u8>)
    requires
        relative_path(p, root) is Some,
        relative_path(p, root) == relative_path(q, root),
    ensures
        components(p) == components(q),
{
    let cp = relative_components(p, root)->Some_0;
    let cq = relative_components(q, root)->Some_0;
    let pc = components(p);
    let qc = components(q);
    let rc = components(root);
    lemma_components_well_formed(p);
    lemma_components_well_formed(q);
    assert forall|k: int| 0 <= k < cp.len() implies is_component(#[trigger] cp[k]) by {
        assert(cp[k] == pc[rc.len() + k]);
    }
    assert forall|k: int| 0 <= k < cq.len() implies is_component(#[trigger] cq[k]) by {
        assert(cq[k] == qc[rc.len() + k]);
    }
    lemma_components_of_join(cp);
    lemma_components_of_join(cq);
    assert(pc == rc + cp);
    assert(qc == rc + cq);
}

} // verus!
