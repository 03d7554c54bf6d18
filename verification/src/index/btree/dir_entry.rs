use vstd::prelude::*;

use crate::query::constant::{ConstVal, Constant};

verus! {

/// A directory entry: the first indexed value of a child block, and the
/// number of that block.
pub struct DirEntry {
    dataval: Constant,
    blocknum: i32,
}

impl DirEntry {
    pub closed spec fn spec_data_val(&self) -> ConstVal {
        self.dataval@
    }

    pub closed spec fn spec_block_number(&self) -> i32 {
        self.blocknum
    }

    /// An entry for the value `dataval` and the block `blocknum`.
    pub fn new(dataval: Constant, blocknum: i32) -> (r: Self)
        ensures
            r.spec_data_val() == dataval@,
            r.spec_block_number() == blocknum,
    {
        DirEntry { dataval, blocknum }
    }

    /// The value part of the entry.
    pub fn data_val(&self) -> (r: &Constant)
        ensures
            r@ == self.spec_data_val(),
    {
        &self.dataval
    }

    /// The block number part of the entry.
    pub fn block_number(&self) -> (r: i32)
        ensures
            r == self.spec_block_number(),
    {
        self.blocknum
    }
}

impl Clone for DirEntry {
    fn clone(&self) -> (r: Self)
        ensures
            r.spec_data_val() == self.spec_data_val(),
            r.spec_block_number() == self.spec_block_number(),
    {
        DirEntry { dataval: self.dataval.clone(), blocknum: self.blocknum }
    }
}

} // verus!
