//! A running progress snapshot, for consumers that coalesce updates.

use vstd::prelude::*;

verus! {

/// Running totals of a scan as last seen by a consumer: a drained
/// message stream updates this, keeping only the latest values.
#[derive(Debug, Clone, Copy, PartialEq, Eq, Structural)]
pub struct Progress {
    pub files: u64,
    pub dirs: u64,
    pub bytes: u128,
}

impl Default for Progress {
    fn default() -> (r: Self)
        ensures
            r.files == 0 && r.dirs == 0 && r.bytes == 0,
    {
        Progress { files: 0, dirs: 0, bytes: 0 }
    }
}

} // verus!
