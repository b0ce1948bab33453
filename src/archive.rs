//! A bundle source over a tar archive, optionally scoped to a root inside
//! it. Decoding the archive belongs to the caller; this module holds the
//! archive's content hash and decides, for each decoded entry, whether it is
//! a file of the bundle and under which relative path.
use vstd::prelude::*;
use crate::digest::{content_hash, hash_contents};
use crate::entry::{EntryKind, item_view, items_view, maybe_item_view, relative_item, text_item};
use crate::error::BundleError;
use crate::paths::{relative_path, strip_root};

verus! {

/// One step of decoding an archive, in archive order.
pub enum ArchiveStep {
    /// The framing of the archive could not be decoded.
    DecodeFailed,
    /// An entry of the given declared type, with its raw declared path, or
    /// `None` when that path could not be decoded.
    Entry { kind: EntryKind, path: Option<Vec<u8>> },
}

/// The item that one archive entry yields under `root`, or `None` when the
/// entry is skipped: not a regular file, or not under `root`.
pub open spec fn archive_item(root: Seq<u8>, e: ArchiveStep) -> Option<
    Result<Seq<char>, BundleError>,
> {
    match e {
        ArchiveStep::DecodeFailed => Some(Err(BundleError::ArchiveDecodeFailure)),
        ArchiveStep::Entry { kind, path } => {
            if kind != EntryKind::Regular {
                None
            } else {
                match path {
                    None => Some(Err(BundleError::InvalidArchivePath)),
                    Some(p) => match relative_path(p@, root) {
                        None => None,
                        Some(rel) => Some(text_item(rel)),
                    },
                }
            }
        },
    }
}

/// Whether decoding failed somewhere in `s`.
pub open spec fn halted(s: Seq<ArchiveStep>) -> bool {
    exists|i: int| 0 <= i < s.len() && #[trigger] s[i] is DecodeFailed
}

/// The items that a pass over the archive yields under `root`: one for each
/// regular file under `root` and each failure, ending with the first decode
/// failure.
pub open spec fn archive_items(root: Seq<u8>, s: Seq<ArchiveStep>) -> Seq<
    Result<Seq<char>, BundleError>,
>
    decreases s.len(),
{
    if s.len() == 0 {
        seq![]
    } else {
        let prev = archive_items(root, s.drop_last());
        if halted(s.drop_last()) {
            prev
        } else {
            match archive_item(root, s.last()) {
                Some(x) => prev.push(x),
                None => prev,
            }
        }
    }
}

/// A bundle source over a tar archive.
pub struct TarBundleInput {
    root: Vec<u8>,
    hash: String,
}

impl TarBundleInput {
    /// The root inside the archive; empty when none was given.
    pub closed spec fn root(&self) -> Seq<u8> {
        self.root@
    }

    /// The content hash of the archive.
    pub closed spec fn hash_spec(&self) -> Seq<char> {
        self.hash@
    }

    /// Opens an archive source on the archive's bytes, or passes on the
    /// failure met while resolving or reading it. The content hash is computed
    /// here, once.
    pub fn new(contents: Result<Vec<u8>, BundleError>, root: Option<Vec<u8>>) -> (r: Result<
        Self,
        BundleError,
    >)
        ensures
            match contents {
                Err(e) => r == Err::<Self, BundleError>(e),
                Ok(c) => r is Ok && r->Ok_0.hash_spec() == content_hash(c@) && r->Ok_0.root()
                    == match root {
                    Some(x) => x@,
                    None => Seq::<u8>::empty(),
                },
            },
    {
        match contents {
            Err(e) => Err(e),
            Ok(c) => {
                let hash = hash_contents(c.as_slice());
                let root = match root {
                    Some(x) => x,
                    None => Vec::new(),
                };
                Ok(TarBundleInput { root, hash })
            },
        }
    }

    /// The content hash: 64 lowercase hexadecimal digits.
    pub fn hash(&self) -> (r: &str)
        ensures
            r@ == self.hash_spec(),
    {
        self.hash.as_str()
    }

    /// The item for one archive entry, or `None` when it is skipped.
    pub fn entry_item(&self, step: &ArchiveStep) -> (r: Option<Result<String, BundleError>>)
        ensures
            maybe_item_view(r) == archive_item(self.root(), *step),
    {
        match step {
            ArchiveStep::DecodeFailed => Some(Err(BundleError::ArchiveDecodeFailure)),
            ArchiveStep::Entry { kind, path } => {
                if *kind != EntryKind::Regular {
                    return None;
                }
                match path {
                    None => Some(Err(BundleError::InvalidArchivePath)),
                    Some(p) => match strip_root(p, &self.root) {
                        None => None,
                        Some(rel) => Some(relative_item(&rel)),
                    },
                }
            },
        }
    }

    /// The items of one pass over the archive's entries, in archive order,
    /// ending with the first decode failure.
    pub fn iter_files(&self, steps: &Vec<ArchiveStep>) -> (r: Vec<Result<String, BundleError>>)
        ensures
            items_view(r@) == archive_items(self.root(), steps@),
    {
        let mut out: Vec<Result<String, BundleError>> = Vec::new();
        let mut i: usize = 0;
        while i < steps.len()
            invariant
                i <= steps@.len(),
                !halted(steps@.subrange(0, i as int)),
                items_view(out@) == archive_items(self.root(), steps@.subrange(0, i as int)),
            decreases steps@.len() - i,
        {
            let ghost prev = out@;
            let item = self.entry_item(&steps[i]);
            proof {
                let s = steps@.subrange(0, i + 1);
                assert(s.drop_last() == steps@.subrange(0, i as int));
                assert(s.last() == steps@[i as int]);
            }
            match item {
                Some(x) => {
                    out.push(x);
                    assert(items_view(out@) == items_view(prev).push(item_view(x)));
                },
                None => {},
            }
            let failed = match &steps[i] {
                ArchiveStep::DecodeFailed => true,
                ArchiveStep::Entry { .. } => false,
            };
            if failed {
                proof {
                    let s = steps@.subrange(0, i + 1);
                    assert(s[i as int] is DecodeFailed);
                    lemma_halted_extend(self.root(), steps@, i + 1);
                }
                return out;
            }
            proof {
                let s = steps@.subrange(0, i + 1);
                assert forall|k: int| 0 <= k < s.len() implies !(#[trigger] s[k] is DecodeFailed) by {
                    if k < i {
                        assert(s[k] == steps@.subrange(0, i as int)[k]);
                    }
                }
            }
            i = i + 1;
        }
        assert(steps@.subrange(0, i as int) == steps@);
        out
    }
}

/// Once decoding has failed within the first `k` steps, later steps add no
/// items.
pub proof fn lemma_halted_extend(root: Seq<u8>, s: Seq<ArchiveStep>, k: int)
    requires
        0 <= k <= s.len(),
        halted(s.subrange(0, k)),
    ensures
        archive_items(root, s) == archive_items(root, s.subrange(0, k)),
    decreases s.len() - k,
{
    if k < s.len() {
        let t = s.subrange(0, k + 1);
        let j = choose|j: int| 0 <= j < k && #[trigger] s.subrange(0, k)[j] is DecodeFailed;
        assert(t[j] == s.subrange(0, k)[j]);
        lemma_halted_extend(root, s, k + 1);
        assert(t.drop_last() == s.subrange(0, k));
    } else {
        assert(s.subrange(0, k) == s);
    }
}

/// Decoding fails within `a + b` exactly where it fails within `b`, when it
/// does not fail within `a`.
proof fn lemma_halted_append(a: Seq<ArchiveStep>, b: Seq<ArchiveStep>)
    requires
        !halted(a),
    ensures
        halted(a + b) == halted(b),
{
    if halted(a + b) {
        let i = choose|i: int| 0 <= i < (a + b).len() && #[trigger] (a + b)[i] is DecodeFailed;
        if i < a.len() {
            assert(a[i] == (a + b)[i]);
        } else {
            assert(b[i - a.len()] == (a + b)[i]);
        }
    }
    if halted(b) {
        let i = choose|i: int| 0 <= i < b.len() && #[trigger] b[i] is DecodeFailed;
        assert((a + b)[i + a.len()] == b[i]);
    }
}

/// When decoding does not fail within `a`, the items of `a + b` are those of
/// `a` followed by those of `b`.
pub proof fn lemma_archive_items_append(root: Seq<u8>, a: Seq<ArchiveStep>, b: Seq<ArchiveStep>)
    requires
        !halted(a),
    ensures
        archive_items(root, a + b) == archive_items(root, a) + archive_items(root, b),
    decreases b.len(),
{
    if b.len() == 0 {
        assert(a + b == a);
    } else {
        let bt = b.drop_last();
        lemma_archive_items_append(root, a, bt);
        assert((a + b).drop_last() == a + bt);
        assert((a + b).last() == b.last());
        lemma_halted_append(a, bt);
    }
}

/// An entry whose relative path is not UTF-8 yields a `NonUtf8Path` failure
/// and the pass goes on: the entries after it yield their items as if it were
/// not there, provided decoding did not fail before it.
pub proof fn lemma_non_utf8_entry_continues(root: Seq<u8>, s: Seq<ArchiveStep>, i: int)
    requires
        0 <= i < s.len(),
        !halted(s.subrange(0, i)),
        archive_item(root, s[i]) == Some(Err::<Seq<char>, BundleError>(BundleError::NonUtf8Path)),
    ensures
        archive_items(root, s) == archive_items(root, s.subrange(0, i)) + seq![
            Err::<Seq<char>, BundleError>(BundleError::NonUtf8Path),
        ] + archive_items(root, s.subrange(i + 1, s.len() as int)),
{
    let a = s.subrange(0, i + 1);
    let b = s.subrange(i + 1, s.len() as int);
    assert(a.drop_last() == s.subrange(0, i));
    assert(a.last() == s[i]);
    assert(!halted(a)) by {
        if halted(a) {
            let k = choose|k: int| 0 <= k < a.len() && #[trigger] a[k] is DecodeFailed;
            if k < i {
                assert(s.subrange(0, i)[k] == a[k]);
            }
        }
    }
    lemma_archive_items_append(root, a, b);
    assert(a + b == s);
}

} // verus!
