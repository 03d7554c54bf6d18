use vstd::prelude::*;

use crate::util::{int_text, int_to_chars, push_str, string_from_chars};

verus! {

/// Identifies a disk block by its file name and its block number.
#[derive(Debug)]
pub struct BlockId {
    filename: String,
    blknum: i32,
}

impl BlockId {
    pub closed spec fn spec_file_name(&self) -> Seq<char> {
        self.filename@
    }

    pub closed spec fn spec_number(&self) -> i32 {
        self.blknum
    }

    pub fn new(filename: String, blknum: i32) -> (r: Self)
        ensures
            r.spec_file_name() == filename@,
            r.spec_number() == blknum,
    {
        BlockId { filename, blknum }
    }

    pub fn file_name(&self) -> (r: &str)
        ensures
            r@ == self.spec_file_name(),
    {
        self.filename.as_str()
    }

    pub fn number(&self) -> (r: i32)
        ensures
            r == self.spec_number(),
    {
        self.blknum
    }

    /// Two block ids are equal when they name the same block of the same file.
    pub fn equals(&self, other: &BlockId) -> (r: bool)
        ensures
            r == (self.spec_file_name() == other.spec_file_name() && self.spec_number()
                == other.spec_number()),
    {
        self.filename == other.filename && self.blknum == other.blknum
    }

    /// The text of the block id: `[file <name>, block <number>]`.
    pub fn to_string(&self) -> (r: String)
        ensures
            r@ == "[file "@ + self.spec_file_name() + ", block "@ + int_text(self.spec_number() as int)
                + "]"@,
    {
        let mut out: Vec<char> = Vec::new();
        push_str("[file ", &mut out);
        push_str(self.filename.as_str(), &mut out);
        push_str(", block ", &mut out);
        let digits = int_to_chars(self.blknum);
        out.append(&mut digits.clone());
        push_str("]", &mut out);
        string_from_chars(&out)
    }
}

impl Clone for BlockId {
    fn clone(&self) -> (r: Self)
        ensures
            r.spec_file_name() == self.spec_file_name(),
            r.spec_number() == self.spec_number(),
    {
        BlockId { filename: self.filename.clone(), blknum: self.blknum }
    }
}

} // verus!
