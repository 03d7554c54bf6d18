use vstd::prelude::*;

use crate::file::page::{int_at, lemma_int_write_other, lemma_int_write_read, with_int};
use crate::file::BlockId;
use crate::tx::Transaction;

verus! {

/// The mask of the low `len` bits.
pub open spec fn low_mask(len: i32) -> i32 {
    ((1i32 << (len as u32)) - 1) as i32
}

/// The directory of an extendable hash index: the block whose `b`-th integer
/// is the number of the block of bucket `b`.
pub struct DirPage {
    blk: BlockId,
}

impl DirPage {
    /// The directory block.
    pub closed spec fn blk(&self) -> BlockId {
        self.blk
    }

    /// The number of buckets the block of `tx` holds.
    pub open spec fn capacity(tx: &Transaction) -> int {
        (tx.spec_block_size() / 4) as int
    }

    /// The block number of bucket `b` in the directory block `blk`.
    pub open spec fn bucket_of(blk: Seq<u8>, b: int) -> i32 {
        int_at(blk, 4 * b)
    }

    /// Opens the directory block `blk`.
    pub fn new(blk: BlockId) -> (r: Self)
        ensures
            r.blk() == blk,
    {
        DirPage { blk }
    }

    /// The block number of bucket `bucket`.
    pub fn get_bucket_blknum(&self, tx: &Transaction, bucket: i32) -> (r: i32)
        requires
            tx.wf(),
            tx.has_block(self.blk()),
            0 <= bucket,
            4 * bucket + 4 <= tx.spec_block_size(),
        ensures
            r == Self::bucket_of(tx.block(self.blk()), bucket as int),
    {
        proof {
            tx.lemma_block_size_bound();
        }
        tx.get_int(&self.blk, 4 * (bucket as usize))
    }

    /// Sets the block number of bucket `bucket`.
    pub fn set_bucket_blknum(&self, tx: &mut Transaction, bucket: i32, blknum: i32)
        requires
            old(tx).wf(),
            old(tx).has_block(self.blk()),
            0 <= bucket,
            4 * bucket + 4 <= old(tx).spec_block_size(),
        ensures
            final(tx).wf(),
            old(tx).same_but(*final(tx), self.blk(), with_int(old(tx).block(self.blk()), 4 * bucket, blknum)),
    {
        proof {
            tx.lemma_block_size_bound();
        }
        tx.set_int(&self.blk, 4 * (bucket as usize), blknum, true);
    }

    /// Points every bucket whose low `mask_len` bits are `right_mask` at the
    /// block `new_bucket_blknum`.
    pub fn update_dir_page(&self, tx: &mut Transaction, right_mask: i32, mask_len: i32, new_bucket_blknum: i32)
        requires
            old(tx).wf(),
            old(tx).has_block(self.blk()),
            0 <= mask_len < 31,
            old(tx).spec_block_size() <= i32::MAX,
        ensures
            final(tx).wf(),
            old(tx).same_but(*final(tx), self.blk(), final(tx).block(self.blk())),
            final(tx).block(self.blk()).len() == old(tx).block(self.blk()).len(),
            forall|b: int|
                0 <= b < Self::capacity(old(tx)) ==> #[trigger] Self::bucket_of(final(tx).block(self.blk()), b)
                    == if (b as i32) & low_mask(mask_len) == right_mask {
                    new_bucket_blknum
                } else {
                    Self::bucket_of(old(tx).block(self.blk()), b)
                },
            forall|k: int|
                4 * Self::capacity(old(tx)) <= k < old(tx).spec_block_size() ==> #[trigger] final(tx).block(
                    self.blk(),
                )[k] == old(tx).block(self.blk())[k],
    {
        let ghost tx0 = *tx;
        let ghost b0 = tx0.block(self.blk);
        assert((1i32 << (mask_len as u32)) > 0) by (bit_vector)
            requires
                0 <= mask_len < 31,
        ;
        let full_mask: i32 = (1i32 << (mask_len as u32)) - 1;
        assert(full_mask == low_mask(mask_len));
        let blocksize = tx.block_size() as i32;
        let num_buckets = blocksize / 4;
        let mut bucket: i32 = 0;
        proof {
            tx0.lemma_block_len(self.blk.spec_file_name(), self.blk.spec_number() as int);
            tx0.lemma_same_but_refl(self.blk);
        }
        while bucket < num_buckets
            invariant
                0 <= bucket <= num_buckets,
                num_buckets == Self::capacity(&tx0),
                full_mask == low_mask(mask_len),
                tx.wf(),
                tx0.has_block(self.blk),
                tx.has_block(self.blk),
                tx.spec_block_size() == tx0.spec_block_size(),
                b0 == tx0.block(self.blk),
                b0.len() == tx0.spec_block_size(),
                tx.block(self.blk).len() == b0.len(),
                tx0.same_but(*tx, self.blk, tx.block(self.blk)),
                forall|b: int|
                    0 <= b < bucket ==> #[trigger] Self::bucket_of(tx.block(self.blk), b) == if (b as i32)
                        & full_mask == right_mask {
                        new_bucket_blknum
                    } else {
                        Self::bucket_of(b0, b)
                    },
                forall|b: int| bucket <= b < num_buckets ==> #[trigger] Self::bucket_of(tx.block(self.blk), b) == Self::bucket_of(b0, b),
                forall|k: int| 4 * num_buckets <= k < b0.len() ==> #[trigger] tx.block(self.blk)[k] == b0[k],
            decreases num_buckets - bucket,
        {
            if (bucket & full_mask) == right_mask {
                let ghost cur = tx.block(self.blk);
                let ghost txc = *tx;
                self.set_bucket_blknum(tx, bucket, new_bucket_blknum);
                proof {
                    let nb = with_int(cur, 4 * bucket as int, new_bucket_blknum);
                    tx0.lemma_same_but_trans(txc, *tx, self.blk, cur, nb);
                    lemma_int_write_read(cur, 4 * bucket as int, new_bucket_blknum);
                    assert forall|b: int| 0 <= b < num_buckets && b != bucket implies #[trigger] Self::bucket_of(nb, b)
                        == Self::bucket_of(cur, b) by {
                        lemma_int_write_other(cur, 4 * bucket as int, new_bucket_blknum, 4 * b);
                    }
                    assert forall|k: int| 4 * num_buckets <= k < b0.len() implies #[trigger] nb[k] == cur[k] by {
                    }
                }
            }
            bucket = bucket + 1;
        }
    }
}

} // verus!
