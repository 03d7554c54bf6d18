use vstd::prelude::*;

use crate::util::div_trunc;

verus! {

/// Statistical information about a table: its number of blocks and of records.
#[derive(Clone, Copy, Debug)]
pub struct StatInfo {
    num_blocks: i32,
    num_recs: i32,
}

impl StatInfo {
    /// The number of blocks of the table.
    pub closed spec fn spec_blocks(&self) -> i32 {
        self.num_blocks
    }

    /// The number of records of the table.
    pub closed spec fn spec_recs(&self) -> i32 {
        self.num_recs
    }

    /// The estimated number of distinct values of a field of the table: one
    /// more than a third of its records.
    pub open spec fn spec_distinct(&self) -> int {
        1 + div_trunc(self.spec_recs() as int, 3)
    }

    pub fn new(numblocks: i32, numrecs: i32) -> (r: Self)
        ensures
            r.spec_blocks() == numblocks,
            r.spec_recs() == numrecs,
    {
        StatInfo { num_blocks: numblocks, num_recs: numrecs }
    }

    /// The estimated number of blocks of the table.
    pub fn blocks_accessed(&self) -> (r: i32)
        ensures
            r == self.spec_blocks(),
    {
        self.num_blocks
    }

    /// The estimated number of records of the table.
    pub fn records_output(&self) -> (r: i32)
        ensures
            r == self.spec_recs(),
    {
        self.num_recs
    }

    /// The estimated number of distinct values of the field `fldname`, the
    /// same guess for every field.
    pub fn distinct_values(&self, fldname: &str) -> (r: i32)
        ensures
            r == self.spec_distinct(),
    {
        1 + self.num_recs / 3
    }
}

} // verus!
