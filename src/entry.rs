//! What the two kinds of bundle source share: the type of a discovered entry
//! and the item that a relative path becomes.
use vstd::prelude::*;
use crate::error::BundleError;
use crate::paths::{decode_utf8, utf8_text};

verus! {

/// The resolved type of a filesystem entry or the declared type of an archive
/// entry.
#[derive(Clone, Copy, Debug, PartialEq, Eq, Structural)]
pub enum EntryKind {
    Regular,
    Directory,
    Symlink,
    Other,
}

/// The abstract value of an item: a relative path as text, or a failure.
pub open spec fn item_view(x: Result<String, BundleError>) -> Result<Seq<char>, BundleError> {
    match x {
        Ok(s) => Ok(s@),
        Err(e) => Err(e),
    }
}

/// The abstract value of a sequence of items.
pub open spec fn items_view(s: Seq<Result<String, BundleError>>) -> Seq<Result<Seq<char>, BundleError>> {
    s.map_values(|x: Result<String, BundleError>| item_view(x))
}

/// The abstract value of an item that may be skipped.
pub open spec fn maybe_item_view(x: Option<Result<String, BundleError>>) -> Option<
    Result<Seq<char>, BundleError>,
> {
    match x {
        Some(i) => Some(item_view(i)),
        None => None,
    }
}

/// The item for a relative path given as bytes: its text, or `NonUtf8Path`.
pub open spec fn text_item(rel: Seq<u8>) -> Result<Seq<char>, BundleError> {
    match utf8_text(rel) {
        Some(s) => Ok(s),
        None => Err(BundleError::NonUtf8Path),
    }
}

/// The item for a relative path given as bytes.
pub fn relative_item(rel: &Vec<u8>) -> (r: Result<String, BundleError>)
    ensures
        item_view(r) == text_item(rel@),
{
    match decode_utf8(rel.as_slice()) {
        Some(s) => Ok(s),
        None => Err(BundleError::NonUtf8Path),
    }
}

} // verus!
