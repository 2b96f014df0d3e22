//! Shared scan state: the read-only tables distributed to every worker and
//! the run counters, increment-only while a scan runs and read once after
//! all workers have finished.

use vstd::prelude::*;
use crate::userid::OwnershipTable;

verus! {

/// Read-only rule enrichment data plus the two run counters.
pub struct ScanState {
    /// How many files were evaluated.
    pub num_scanned_files: u64,
    /// How many evaluated files had at least one matching rule.
    pub num_matching_files: u64,
    /// The signature table's entries, in table order.
    pub definitions: Vec<(Vec<u8>, String)>,
    /// The ownership table of the scan root.
    pub users: OwnershipTable,
}

impl ScanState {
    /// Fresh state for one scan root: both counters start at zero.
    pub fn new(definitions: Vec<(Vec<u8>, String)>, users: OwnershipTable) -> (r: Self)
        ensures
            r.num_scanned_files == 0,
            r.num_matching_files == 0,
            r.definitions == definitions,
            r.users == users,
    {
        ScanState { num_scanned_files: 0, num_matching_files: 0, definitions, users }
    }

    /// Accounts for one evaluated file: the scanned counter always moves by
    /// one, the matching counter only when the file had a match. The tables
    /// are untouched.
    pub fn record_file_scanned(&mut self, matched: bool)
        requires
            old(self).num_scanned_files < u64::MAX,
            old(self).num_matching_files < u64::MAX,
        ensures
            final(self).num_scanned_files == old(self).num_scanned_files + 1,
            final(self).num_matching_files == old(self).num_matching_files + if matched {
                1int
            } else {
                0int
            },
            final(self).definitions == old(self).definitions,
            final(self).users == old(self).users,
    {
        self.num_scanned_files = self.num_scanned_files + 1;
        if matched {
            self.num_matching_files = self.num_matching_files + 1;
        }
    }
}

} // verus!
