use vstd::prelude::*;

verus! {

/// The identifier of a record: the number of its block and its slot in that block.
#[derive(PartialEq, Eq, Structural, Clone, Copy, Debug)]
pub struct RID {
    pub blknum: i32,
    pub slot: i32,
}

impl RID {
    pub fn new(blknum: i32, slot: i32) -> (r: Self)
        ensures
            r.blknum == blknum,
            r.slot == slot,
    {
        RID { blknum, slot }
    }

    pub fn block_number(&self) -> (r: i32)
        ensures
            r == self.blknum,
    {
        self.blknum
    }

    pub fn slot(&self) -> (r: i32)
        ensures
            r == self.slot,
    {
        self.slot
    }
}

} // verus!
