//! The failures that opening a bundle source or reading one of its entries
//! can meet, and a weak equivalence test on results that carry them.
use vstd::prelude::*;

verus! {

/// Why a source could not be opened, or why one item of it could not be
/// produced.
#[derive(Clone, Copy, Debug, PartialEq, Eq, Structural)]
pub enum BundleError {
    /// The root directory or the archive path does not exist or cannot be
    /// resolved.
    PathResolution,
    /// A file found under a directory root resolves to a place outside it.
    PathEscape,
    /// The declared path of an archive entry cannot be decoded.
    InvalidArchivePath,
    /// A relative path is not valid UTF-8.
    NonUtf8Path,
    /// Reading, inspecting or opening a file failed.
    IoFailure,
    /// The framing of the archive itself is corrupt; the pass ends here.
    ArchiveDecodeFailure,
}

/// The human-readable text of each failure.
pub open spec fn error_text(e: BundleError) -> Seq<char> {
    match e {
        BundleError::PathResolution => "failed to canonicalize bundle path"@,
        BundleError::PathEscape => "failed to strip prefix"@,
        BundleError::InvalidArchivePath => "invalid tar entry path"@,
        BundleError::NonUtf8Path => "invalid non-UTF8 path"@,
        BundleError::IoFailure => "failed to read file"@,
        BundleError::ArchiveDecodeFailure => "failed to read tar entry"@,
    }
}

impl BundleError {
    /// Whether the failure ends the enumeration pass it occurred in.
    pub open spec fn is_terminal_spec(&self) -> bool {
        *self == BundleError::PathResolution || *self == BundleError::ArchiveDecodeFailure
    }

    /// Whether the failure ends the enumeration pass it occurred in.
    pub fn is_terminal(&self) -> (r: bool)
        ensures
            r == self.is_terminal_spec(),
    {
        match self {
            BundleError::PathResolution => true,
            BundleError::ArchiveDecodeFailure => true,
            _ => false,
        }
    }

    /// The message that describes the failure to a user.
    pub fn message(&self) -> (r: &'static str)
        ensures
            r@ == error_text(*self),
    {
        match self {
            BundleError::PathResolution => "failed to canonicalize bundle path",
            BundleError::PathEscape => "failed to strip prefix",
            BundleError::InvalidArchivePath => "invalid tar entry path",
            BundleError::NonUtf8Path => "invalid non-UTF8 path",
            BundleError::IoFailure => "failed to read file",
            BundleError::ArchiveDecodeFailure => "failed to read tar entry",
        }
    }
}

/// A weak equivalence: `definitely_same` is true only when the two values are
/// certainly equivalent.
pub trait DefinitelySame {
    spec fn same_spec(&self, other: &Self) -> bool;

    fn definitely_same(&self, other: &Self) -> (r: bool)
        ensures
            r == self.same_spec(other),
    ;
}

impl DefinitelySame for BundleError {
    open spec fn same_spec(&self, other: &Self) -> bool {
        *self == *other
    }

    fn definitely_same(&self, other: &Self) -> (r: bool) {
        *self == *other
    }
}

impl DefinitelySame for String {
    open spec fn same_spec(&self, other: &Self) -> bool {
        self@ == other@
    }

    fn definitely_same(&self, other: &Self) -> (r: bool) {
        *self == *other
    }
}

impl<T: DefinitelySame> DefinitelySame for Option<T> {
    open spec fn same_spec(&self, other: &Self) -> bool {
        match (self, other) {
            (None, None) => true,
            (Some(a), Some(b)) => a.same_spec(b),
            _ => false,
        }
    }

    fn definitely_same(&self, other: &Self) -> (r: bool) {
        match (self, other) {
            (None, None) => true,
            (Some(a), Some(b)) => a.definitely_same(b),
            _ => false,
        }
    }
}

impl<T: DefinitelySame, E: DefinitelySame> DefinitelySame for Result<T, E> {
    open spec fn same_spec(&self, other: &Self) -> bool {
        match (self, other) {
            (Ok(a), Ok(b)) => a.same_spec(b),
            (Err(a), Err(b)) => a.same_spec(b),
            _ => false,
        }
    }

    fn definitely_same(&self, other: &Self) -> (r: bool) {
        match self {
            Ok(st) => {
                if let Ok(ot) = other {
                    st.definitely_same(ot)
                } else {
                    false
                }
            },
            Err(se) => {
                if let Err(oe) = other {
                    se.definitely_same(oe)
                } else {
                    false
                }
            },
        }
    }
}

} // verus!
