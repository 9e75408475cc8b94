//! Mounted volumes, as the drive picker lists them.

use vstd::prelude::*;
use std::path::PathBuf;

verus! {

/// `std::path::PathBuf`, carried through unchanged: nothing here looks inside
/// a path.
#[verifier::external_type_specification]
#[verifier::external_body]
pub struct ExPathBuf(std::path::PathBuf);

/// A mounted volume the user can navigate into. `total` and `used` are in
/// bytes; `used == total - available_space` (saturating).
#[derive(Debug, PartialEq, Eq)]
pub struct DriveInfo {
    pub path: PathBuf,
    pub total: u64,
    pub used: u64,
}

impl DriveInfo {
    /// The volume at `path` of `total` bytes, `available` of them free; a
    /// volume that reports more free space than its size counts as empty.
    pub fn from_space(path: PathBuf, total: u64, available: u64) -> (d: Self)
        ensures
            d.path == path,
            d.total == total,
            d.used == (if available <= total {
                total - available
            } else {
                0
            }),
    {
        let used = total.saturating_sub(available);
        DriveInfo { path, total, used }
    }
}

} // verus!
