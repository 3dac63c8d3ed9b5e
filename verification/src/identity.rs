//! The identifier of a bundle, as the bundle's own metadata gives it.

use vstd::prelude::*;
use crate::paths::{join, joined};
use crate::text::{optional_text, trim, trimmed};

verus! {

/// What became of the attempt to read the identifier from the metadata file
/// of a bundle.
#[derive(Debug, PartialEq, Eq)]
pub enum MetadataRead {
    /// The bundle has no metadata file.
    Missing,
    /// The file is there, but the reader could not be run or did not find
    /// the identifier in it.
    Failed,
    /// What the reader printed.
    Output(String),
}

/// The metadata file of a bundle.
pub open spec fn info_plist(app_path: Seq<char>) -> Seq<char> {
    joined(app_path, "Contents/Info.plist"@)
}

/// The identifier that a read of the metadata gives: what the reader
/// printed, without the white space around it; none where it printed
/// nothing because the file is missing or the read failed.
pub open spec fn bundle_id_of(read: MetadataRead) -> Option<Seq<char>> {
    match read {
        MetadataRead::Output(text) => Some(trimmed(text@)),
        _ => None,
    }
}

/// The metadata file of the bundle at `app_path`.
pub fn info_plist_path(app_path: &str) -> (r: String)
    ensures
        r@ == info_plist(app_path@),
{
    join(app_path, "Contents/Info.plist")
}

/// The identifier of a bundle, given what the read of its metadata came to.
pub fn get_bundle_id(read: &MetadataRead) -> (r: Option<String>)
    ensures
        optional_text(r) == bundle_id_of(*read),
{
    match read {
        MetadataRead::Output(text) => Some(trim(text.as_str())),
        _ => None,
    }
}

} // verus!
