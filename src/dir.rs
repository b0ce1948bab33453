//! A bundle source over a directory tree. The walk itself belongs to the
//! caller; this module decides, for each entry the walk reports, whether it
//! is a file of the bundle and under which relative path.
use vstd::prelude::*;
use crate::entry::{EntryKind, item_view, items_view, maybe_item_view, relative_item, text_item};
use crate::error::BundleError;
use crate::paths::{
    components, join, lemma_relative_path_injective, relative_components, relative_path, strip_root,
    utf8_text,
};

verus! {

/// One step of a recursive directory walk.
pub enum WalkStep {
    /// The walk could not read an entry.
    Failed,
    /// An entry of the given resolved type, with its canonical absolute path,
    /// or `None` when that path could not be resolved.
    Found { kind: EntryKind, canonical: Option<Vec<u8>> },
}

/// The item that a walk step yields under `root`, or `None` when the entry is
/// not a regular file.
pub open spec fn dir_item(root: Seq<u8>, e: WalkStep) -> Option<Result<Seq<char>, BundleError>> {
    match e {
        WalkStep::Failed => Some(Err(BundleError::IoFailure)),
        WalkStep::Found { kind, canonical } => {
            if kind != EntryKind::Regular {
                None
            } else {
                match canonical {
                    None => Some(Err(BundleError::IoFailure)),
                    Some(p) => match relative_path(p@, root) {
                        None => Some(Err(BundleError::PathEscape)),
                        Some(rel) => Some(text_item(rel)),
                    },
                }
            }
        },
    }
}

/// The items that a whole walk yields under `root`, in walk order.
pub open spec fn dir_items(root: Seq<u8>, s: Seq<WalkStep>) -> Seq<Result<Seq<char>, BundleError>>
    decreases s.len(),
{
    if s.len() == 0 {
        seq![]
    } else {
        let prev = dir_items(root, s.drop_last());
        match dir_item(root, s.last()) {
            Some(x) => prev.push(x),
            None => prev,
        }
    }
}

/// Whether a walk step reports a regular file.
pub open spec fn is_regular(e: WalkStep) -> bool {
    e matches WalkStep::Found { kind: EntryKind::Regular, .. }
}

/// A bundle source over a canonicalized directory root.
pub struct DirBundleInput {
    dir: Vec<u8>,
}

impl DirBundleInput {
    /// The canonical root, as bytes.
    pub closed spec fn root(&self) -> Seq<u8> {
        self.dir@
    }

    /// Opens a directory source on the canonical form of the given path, or
    /// fails with `PathResolution` when the path could not be resolved.
    pub fn new(resolved: Option<Vec<u8>>) -> (r: Result<Self, BundleError>)
        ensures
            match resolved {
                None => r == Err::<Self, BundleError>(BundleError::PathResolution),
                Some(d) => r is Ok && r->Ok_0.root() == d@,
            },
    {
        match resolved {
            None => Err(BundleError::PathResolution),
            Some(d) => Ok(DirBundleInput { dir: d }),
        }
    }

    /// The canonical root.
    pub fn dir(&self) -> (r: &Vec<u8>)
        ensures
            r@ == self.root(),
    {
        &self.dir
    }

    /// The item for one walk step, or `None` when the step is to be skipped.
    pub fn entry_item(&self, step: &WalkStep) -> (r: Option<Result<String, BundleError>>)
        ensures
            maybe_item_view(r) == dir_item(self.root(), *step),
    {
        match step {
            WalkStep::Failed => Some(Err(BundleError::IoFailure)),
            WalkStep::Found { kind, canonical } => {
                if *kind != EntryKind::Regular {
                    return None;
                }
                match canonical {
                    None => Some(Err(BundleError::IoFailure)),
                    Some(p) => match strip_root(p, &self.dir) {
                        None => Some(Err(BundleError::PathEscape)),
                        Some(rel) => Some(relative_item(&rel)),
                    },
                }
            },
        }
    }

    /// The items of a whole walk, in walk order: one for each regular file
    /// and each failure, none for other entries.
    pub fn iter_files(&self, steps: &Vec<WalkStep>) -> (r: Vec<Result<String, BundleError>>)
        ensures
            items_view(r@) == dir_items(self.root(), steps@),
    {
        let mut out: Vec<Result<String, BundleError>> = Vec::new();
        let mut i: usize = 0;
        while i < steps.len()
            invariant
                i <= steps@.len(),
                items_view(out@) == dir_items(self.root(), steps@.subrange(0, i as int)),
            decreases steps@.len() - i,
        {
            let ghost prev = out@;
            let item = self.entry_item(&steps[i]);
            proof {
                let s = steps@.subrange(0, i + 1);
                assert(s.drop_last() == steps@.subrange(0, i as int));
                assert(s.last() == steps@[i as int]);
            }
            match item {
                Some(x) => {
                    out.push(x);
                    assert(items_view(out@) == items_view(prev).push(item_view(x)));
                },
                None => {},
            }
            i = i + 1;
        }
        assert(steps@.subrange(0, i as int) == steps@);
        out
    }
}

/// The number of steps of `s` that report a regular file.
pub open spec fn regular_count(s: Seq<WalkStep>) -> nat
    decreases s.len(),
{
    if s.len() == 0 {
        0
    } else {
        regular_count(s.drop_last()) + if is_regular(s.last()) { 1nat } else { 0nat }
    }
}

/// An item is among those of a walk exactly when some step of the walk
/// yields it.
pub proof fn lemma_dir_items_members(root: Seq<u8>, s: Seq<WalkStep>)
    ensures
        forall|x: Result<Seq<char>, BundleError>|
            #[trigger] dir_items(root, s).contains(x) <==> exists|i: int|
                0 <= i < s.len() && dir_item(root, #[trigger] s[i]) == Some(x),
    decreases s.len(),
{
    if s.len() > 0 {
        let t = s.drop_last();
        lemma_dir_items_members(root, t);
        assert forall|x: Result<Seq<char>, BundleError>|
            #[trigger] dir_items(root, s).contains(x) <==> exists|i: int|
                0 <= i < s.len() && dir_item(root, #[trigger] s[i]) == Some(x) by {
            if dir_items(root, s).contains(x) {
                if dir_items(root, t).contains(x) {
                    let i = choose|i: int| 0 <= i < t.len() && dir_item(root, #[trigger] t[i]) == Some(x);
                    assert(s[i] == t[i]);
                } else {
                    let j = choose|j: int| 0 <= j < dir_items(root, s).len() && dir_items(root, s)[j] == x;
                    assert(dir_item(root, s[s.len() - 1]) == Some(x));
                }
            }
            if exists|i: int| 0 <= i < s.len() && dir_item(root, #[trigger] s[i]) == Some(x) {
                let i = choose|i: int| 0 <= i < s.len() && dir_item(root, #[trigger] s[i]) == Some(x);
                if i < s.len() - 1 {
                    assert(t[i] == s[i]);
                    assert(dir_items(root, t).contains(x));
                    let j = choose|j: int| 0 <= j < dir_items(root, t).len() && dir_items(root, t)[j] == x;
                    assert(dir_items(root, s)[j] == x);
                } else {
                    let n = dir_items(root, t).len();
                    assert(dir_items(root, s)[n as int] == x);
                }
            }
        }
    }
}

/// For a walk that meets no failure, in which every regular file resolves
/// under the root to a UTF-8 relative path, the items are exactly one success
/// per regular file, the other entries being left out, and the successful
/// paths are those of the regular files.
pub proof fn lemma_dir_yields_regular_files(root: Seq<u8>, s: Seq<WalkStep>)
    requires
        forall|i: int|
            0 <= i < s.len() ==> (#[trigger] s[i] is Found && (is_regular(s[i]) ==> dir_item(
                root,
                s[i],
            ) matches Some(Ok(_)))),
    ensures
        dir_items(root, s).len() == regular_count(s),
        forall|j: int| 0 <= j < dir_items(root, s).len() ==> #[trigger] dir_items(root, s)[j] is Ok,
        forall|x: Seq<char>|
            #[trigger] dir_items(root, s).contains(Ok(x)) <==> exists|i: int|
                0 <= i < s.len() && is_regular(#[trigger] s[i]) && dir_item(root, s[i]) == Some(
                    Ok::<Seq<char>, BundleError>(x),
                ),
    decreases s.len(),
{
    lemma_dir_items_members(root, s);
    if s.len() > 0 {
        let t = s.drop_last();
        assert forall|i: int|
            0 <= i < t.len() implies (#[trigger] t[i] is Found && (is_regular(t[i]) ==> dir_item(
                root,
                t[i],
            ) matches Some(Ok(_)))) by {
            assert(t[i] == s[i]);
        }
        lemma_dir_yields_regular_files(root, t);
        assert(s.last() == s[s.len() - 1]);
    }
}

/// A yielded relative path, put back onto the root, names the canonical path
/// of the regular file it came from: the root's components followed by the
/// relative path's components are that path's components.
pub proof fn lemma_yielded_path_rejoins(root: Seq<u8>, e: WalkStep, x: Seq<char>)
    requires
        dir_item(root, e) == Some(Ok::<Seq<char>, BundleError>(x)),
    ensures
        is_regular(e),
        e->canonical is Some,
        exists|cs: Seq<Seq<u8>>|
            relative_components(e->canonical->Some_0@, root) == Some(cs) && components(root) + cs
                == components(e->canonical->Some_0@) && utf8_text(join(cs)) == Some(x),
{
    let p = e->canonical->Some_0@;
    let cs = relative_components(p, root)->Some_0;
    let pc = components(p);
    let rc = components(root);
    assert(rc + cs == pc);
}

/// Walks that report the same entries, in whatever order, yield the same
/// items.
pub proof fn lemma_dir_rewalk_same_items(root: Seq<u8>, s1: Seq<WalkStep>, s2: Seq<WalkStep>)
    requires
        s1.to_set() == s2.to_set(),
    ensures
        forall|x: Result<Seq<char>, BundleError>|
            dir_items(root, s1).contains(x) <==> #[trigger] dir_items(root, s2).contains(x),
{
    lemma_dir_items_members(root, s1);
    lemma_dir_items_members(root, s2);
    assert forall|x: Result<Seq<char>, BundleError>|
        dir_items(root, s1).contains(x) <==> #[trigger] dir_items(root, s2).contains(x) by {
        if dir_items(root, s1).contains(x) {
            let i = choose|i: int| 0 <= i < s1.len() && dir_item(root, #[trigger] s1[i]) == Some(x);
            assert(s1.to_set().contains(s1[i]));
            assert(s2.contains(s1[i]));
            let j = choose|j: int| 0 <= j < s2.len() && s2[j] == s1[i];
            assert(dir_item(root, s2[j]) == Some(x));
        }
        if dir_items(root, s2).contains(x) {
            let i = choose|i: int| 0 <= i < s2.len() && dir_item(root, #[trigger] s2[i]) == Some(x);
            assert(s2.to_set().contains(s2[i]));
            assert(s1.contains(s2[i]));
            let j = choose|j: int| 0 <= j < s1.len() && s1[j] == s2[i];
            assert(dir_item(root, s1[j]) == Some(x));
        }
    }
}

/// Two distinct regular files of a walk, that is two whose canonical paths
/// have different components, are given different relative paths.
pub proof fn lemma_distinct_files_distinct_paths(root: Seq<u8>, e1: WalkStep, e2: WalkStep)
    requires
        is_regular(e1),
        is_regular(e2),
        e1->canonical is Some,
        e2->canonical is Some,
        components(e1->canonical->Some_0@) != components(e2->canonical->Some_0@),
        relative_path(e1->canonical->Some_0@, root) is Some,
    ensures
        relative_path(e1->canonical->Some_0@, root) != relative_path(e2->canonical->Some_0@, root),
{
    let p = e1->canonical->Some_0@;
    let q = e2->canonical->Some_0@;
    if relative_path(p, root) == relative_path(q, root) {
        lemma_relative_path_injective(p, q, root);
    }
}

} // verus!
