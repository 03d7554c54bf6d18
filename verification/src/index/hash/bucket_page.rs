use vstd::prelude::*;

use crate::file::page::{int_at, with_int};
use crate::file::BlockId;
use crate::index::btree::bt_page::{fidx, leaf_layout, lemma_index_fields, names_distinct, BTPage};
use crate::index::btree::page_format::{
    agree_outside, field_ok, field_pos, field_val, lemma_field_in_slot, lemma_slot_flag_untouched,
    lemma_slot_flag_write, lemma_slot_pos_mono, lemma_slots_after_field_write, lemma_slots_after_header_write,
    lemma_with_int_agree, rec_val, slot_flag, slot_ok, slot_pos, slots_ok, val_fits, has_flag, next_with_flag,
    EMPTY, USED,
};
use crate::query::constant::{ConstVal, Constant};
use crate::record::layout::{field_bytes, fields_fit, slot_bytes, Layout};
use crate::record::schema::{has_field_spec, lemma_find_field, FieldSpec, INTEGER};
use crate::record::RID;
use crate::tx::Transaction;

verus! {

/// Whether slot `s` lies in the bucket block `b` and holds a record.
pub open spec fn in_use(b: Seq<u8>, fs: Seq<FieldSpec>, s: int) -> bool {
    has_flag(b, fs, s, USED)
}

/// Whether `r` is the first slot after `from` that holds a record, or -1
/// where no later slot does.
pub open spec fn next_in_use(b: Seq<u8>, fs: Seq<FieldSpec>, from: int, r: int) -> bool {
    next_with_flag(b, fs, from, USED, r)
}

/// `b2` has the size, the local depth, the slot flags and the well-formed
/// slots of `b1`, and the records of all slots but `t`.
pub open spec fn bucket_kept(b1: Seq<u8>, b2: Seq<u8>, fs: Seq<FieldSpec>, t: int) -> bool {
    &&& b2.len() == b1.len()
    &&& slots_ok(b2, fs)
    &&& int_at(b2, 0) == int_at(b1, 0)
    &&& forall|s: int|
        0 <= s && slot_pos(fs, s + 1) <= b1.len() ==> #[trigger] slot_flag(b2, fs, s) == slot_flag(
            b1,
            fs,
            s,
        )
    &&& forall|s: int|
        0 <= s && s != t && slot_pos(fs, s + 1) <= b1.len() ==> #[trigger] rec_val(b2, fs, s)
            == rec_val(b1, fs, s)
}

/// `b2` is `b1` with slot `t` freed: it has the size, the local depth and the
/// records of `b1`, and every other slot holds a record where it did.
pub open spec fn slot_freed(b1: Seq<u8>, b2: Seq<u8>, fs: Seq<FieldSpec>, t: int) -> bool {
    &&& b2.len() == b1.len()
    &&& slots_ok(b2, fs)
    &&& int_at(b2, 0) == int_at(b1, 0)
    &&& !in_use(b2, fs, t)
    &&& forall|s: int| s != t ==> (#[trigger] in_use(b2, fs, s) <==> in_use(b1, fs, s))
    &&& forall|s: int|
        0 <= s && slot_pos(fs, s + 1) <= b1.len() ==> #[trigger] rec_val(b2, fs, s) == rec_val(b1, fs, s)
}

/// `b2` is `b1` with the free slot `t` claimed: slot `t` now holds a record;
/// the size, the local depth, the slots' well-formedness, the other slots'
/// flags and the other slots' records are those of `b1`.
pub open spec fn slot_claimed(b1: Seq<u8>, b2: Seq<u8>, fs: Seq<FieldSpec>, t: int) -> bool {
    &&& b2.len() == b1.len()
    &&& slots_ok(b2, fs)
    &&& int_at(b2, 0) == int_at(b1, 0)
    &&& !in_use(b1, fs, t)
    &&& in_use(b2, fs, t)
    &&& forall|s: int| s != t ==> (#[trigger] in_use(b2, fs, s) <==> in_use(b1, fs, s))
    &&& forall|s: int|
        0 <= s && s != t && slot_pos(fs, s + 1) <= b1.len() ==> #[trigger] rec_val(b2, fs, s) == rec_val(b1, fs, s)
}

/// The number of slots below `k` whose flag says they hold a record.
pub open spec fn count_used(b: Seq<u8>, fs: Seq<FieldSpec>, k: int) -> int
    decreases k,
{
    if k <= 0 {
        0
    } else {
        count_used(b, fs, k - 1) + if slot_flag(b, fs, k - 1) == USED {
            1int
        } else {
            0int
        }
    }
}

/// Every slot below `k` is free or holds a record.
pub open spec fn flags_clean(b: Seq<u8>, fs: Seq<FieldSpec>, k: int) -> bool {
    forall|s: int| 0 <= s < k ==> #[trigger] slot_flag(b, fs, s) == EMPTY || slot_flag(b, fs, s) == USED
}

/// Changing the flag of slot `t` below `k` from `f1` to `f2`, and no other,
/// changes the count of used slots by whether `f2` is the used flag, less
/// whether `f1` was.
proof fn lemma_count_used_change(b1: Seq<u8>, b2: Seq<u8>, fs: Seq<FieldSpec>, k: int, t: int)
    requires
        0 <= t < k,
        forall|s: int| 0 <= s < k && s != t ==> #[trigger] slot_flag(b2, fs, s) == slot_flag(b1, fs, s),
    ensures
        count_used(b2, fs, k) + (if slot_flag(b1, fs, t) == USED { 1int } else { 0int }) == count_used(b1, fs, k) + (
        if slot_flag(b2, fs, t) == USED { 1int } else { 0int }),
    decreases k,
{
    if k - 1 == t {
        lemma_count_used_same(b1, b2, fs, k - 1);
    } else {
        lemma_count_used_change(b1, b2, fs, k - 1, t);
        assert(slot_flag(b2, fs, k - 1) == slot_flag(b1, fs, k - 1));
    }
}

/// Slots of the same flags below `k` count the same.
proof fn lemma_count_used_same(b1: Seq<u8>, b2: Seq<u8>, fs: Seq<FieldSpec>, k: int)
    requires
        forall|s: int| 0 <= s < k ==> #[trigger] slot_flag(b2, fs, s) == slot_flag(b1, fs, s),
    ensures
        count_used(b2, fs, k) == count_used(b1, fs, k),
    decreases k,
{
    if k > 0 {
        lemma_count_used_same(b1, b2, fs, k - 1);
        assert(slot_flag(b2, fs, k - 1) == slot_flag(b1, fs, k - 1));
    }
}

/// Where fewer than `k` slots below `k` hold records, and each is free or
/// holds one, one of them is free.
proof fn lemma_free_slot_exists(b: Seq<u8>, fs: Seq<FieldSpec>, k: int)
    requires
        0 <= k,
        flags_clean(b, fs, k),
        count_used(b, fs, k) < k,
    ensures
        exists|s: int| 0 <= s < k && #[trigger] slot_flag(b, fs, s) == EMPTY,
    decreases k,
{
    lemma_count_used_bound(b, fs, k - 1);
    if slot_flag(b, fs, k - 1) == USED {
        lemma_free_slot_exists(b, fs, k - 1);
        let s = choose|s: int| 0 <= s < k - 1 && #[trigger] slot_flag(b, fs, s) == EMPTY;
        assert(slot_flag(b, fs, s) == EMPTY);
    } else {
        assert(slot_flag(b, fs, k - 1) == EMPTY);
    }
}

/// At most `k` slots below `k` hold records.
proof fn lemma_count_used_bound(b: Seq<u8>, fs: Seq<FieldSpec>, k: int)
    ensures
        0 <= count_used(b, fs, k) <= if k < 0 { 0 } else { k },
    decreases k,
{
    if k > 0 {
        lemma_count_used_bound(b, fs, k - 1);
    }
}

/// There is one first slot after `from` with a given flag.
proof fn lemma_next_with_flag_unique(b: Seq<u8>, fs: Seq<FieldSpec>, from: int, flag: i32, r1: int, r2: int)
    requires
        next_with_flag(b, fs, from, flag, r1),
        next_with_flag(b, fs, from, flag, r2),
    ensures
        r1 == r2,
{
    if r1 >= 0 && r2 >= 0 {
        if r1 < r2 {
            assert(!has_flag(b, fs, r1, flag));
        } else if r2 < r1 {
            assert(!has_flag(b, fs, r2, flag));
        }
    } else if r1 >= 0 {
        assert(!has_flag(b, fs, r1, flag));
    } else if r2 >= 0 {
        assert(!has_flag(b, fs, r2, flag));
    }
}

/// The record that an insertion of `dataval` and `rid` leaves in a slot that
/// held `old_rec`: a value of the other kind than the `dataval` field's, or
/// too long for it, is not written.
pub open spec fn inserted_rec(old_rec: Seq<ConstVal>, fs: Seq<FieldSpec>, dataval: ConstVal, rid: RID) -> Seq<
    ConstVal,
> {
    seq![
        ConstVal::Int(rid.blknum),
        ConstVal::Int(rid.slot),
        if val_fits(dataval, fs[2]) {
            dataval
        } else {
            old_rec[2]
        },
    ]
}

/// A change of field `i` of slot `t` that leaves the field well formed keeps
/// the rest of the bucket.
proof fn lemma_field_write_kept(b1: Seq<u8>, b2: Seq<u8>, fs: Seq<FieldSpec>, t: int, i: int)
    requires
        fields_fit(fs),
        0 <= t,
        0 <= i < fs.len(),
        8 <= b1.len(),
        slot_pos(fs, t + 1) <= b1.len(),
        slots_ok(b1, fs),
        agree_outside(b1, b2, field_pos(fs, t, i), field_pos(fs, t, i) + field_bytes(fs[i])),
        field_ok(b2, fs, t, i),
    ensures
        bucket_kept(b1, b2, fs, t),
        int_at(b2, 4) == int_at(b1, 4),
        rec_val(b2, fs, t) == rec_val(b1, fs, t).update(i, field_val(b2, fs, t, i)),
{
    lemma_slots_after_field_write(b1, b2, fs, t, i);
    crate::index::btree::page_format::lemma_flags_after_field_write(b1, b2, fs, t, i);
}

/// Two changes that each keep the bucket but for slot `t` keep it but for `t`.
proof fn lemma_kept_trans(b1: Seq<u8>, b2: Seq<u8>, b3: Seq<u8>, fs: Seq<FieldSpec>, t: int)
    requires
        bucket_kept(b1, b2, fs, t),
        bucket_kept(b2, b3, fs, t),
    ensures
        bucket_kept(b1, b3, fs, t),
{
    assert forall|s: int| 0 <= s && slot_pos(fs, s + 1) <= b1.len() implies #[trigger] slot_flag(b3, fs, s)
        == slot_flag(b1, fs, s) by {
        assert(slot_flag(b2, fs, s) == slot_flag(b1, fs, s));
    }
    assert forall|s: int| 0 <= s && s != t && slot_pos(fs, s + 1) <= b1.len() implies #[trigger] rec_val(
        b3,
        fs,
        s,
    ) == rec_val(b1, fs, s) by {
        assert(rec_val(b2, fs, s) == rec_val(b1, fs, s));
    }
}

/// Writing an integer into the header at `off` keeps the slots of the bucket.
proof fn lemma_header_write_kept(b: Seq<u8>, fs: Seq<FieldSpec>, off: int, v: i32)
    requires
        fields_fit(fs),
        8 <= b.len(),
        slots_ok(b, fs),
        off == 0 || off == 4,
    ensures
        with_int(b, off, v).len() == b.len(),
        slots_ok(with_int(b, off, v), fs),
        int_at(with_int(b, off, v), off) == v,
        int_at(with_int(b, off, v), 4 - off) == int_at(b, 4 - off),
        forall|s: int|
            0 <= s && slot_pos(fs, s + 1) <= b.len() ==> #[trigger] slot_flag(with_int(b, off, v), fs, s)
                == slot_flag(b, fs, s),
        forall|s: int|
            0 <= s && slot_pos(fs, s + 1) <= b.len() ==> #[trigger] rec_val(with_int(b, off, v), fs, s)
                == rec_val(b, fs, s),
{
    let nb = with_int(b, off, v);
    crate::file::page::lemma_int_write_read(b, off, v);
    crate::file::page::lemma_int_write_other(b, off, v, 4 - off);
    lemma_with_int_agree(b, off, v);
    assert(agree_outside(b, nb, 0, 8));
    lemma_slots_after_header_write(b, nb, fs);
    assert forall|s: int| 0 <= s && slot_pos(fs, s + 1) <= b.len() implies #[trigger] slot_flag(nb, fs, s)
        == slot_flag(b, fs, s) by {
        lemma_slot_pos_mono(fs, s, s);
        lemma_slot_flag_untouched(b, nb, fs, s, 0, 8);
    }
}

/// A block of an extendable hash index that holds index records: its local
/// depth at offset 0, its number of records at offset 4, then slots of records
/// `(block, id, dataval)`, each behind an in-use flag.
pub struct BucketPage {
    rp: BTPage,
    searchkey: Constant,
    local_depth: i32,
    length: i32,
    cur_slot: i32,
    cur_rid: Option<RID>,
    capacity: i32,
}

impl BucketPage {
    /// The bucket's block.
    pub closed spec fn blk(&self) -> BlockId {
        self.rp.blk().unwrap()
    }

    /// The fields of the index records.
    pub closed spec fn fs(&self) -> Seq<FieldSpec> {
        self.rp.fs()
    }

    /// The bytes of the bucket's block.
    pub open spec fn bytes(&self, tx: &Transaction) -> Seq<u8> {
        tx.block(self.blk())
    }

    /// The search key.
    pub closed spec fn key(&self) -> ConstVal {
        self.searchkey@
    }

    /// The local depth the bucket keeps.
    pub closed spec fn spec_local_depth(&self) -> i32 {
        self.local_depth
    }

    /// The number of records the bucket keeps.
    pub closed spec fn spec_length(&self) -> i32 {
        self.length
    }

    /// The number of slots of the bucket.
    pub closed spec fn spec_capacity(&self) -> i32 {
        self.capacity
    }

    /// The current slot, -1 before the first.
    pub closed spec fn cur_slot(&self) -> int {
        self.cur_slot as int
    }

    /// The data record id of the current record, when it holds the search key.
    pub closed spec fn cur_rid(&self) -> Option<RID> {
        self.cur_rid
    }

    /// Both are open on the same block, with the same layout, search key,
    /// position and capacity.
    pub open spec fn same_scan(&self, other: BucketPage) -> bool {
        &&& self.blk() == other.blk()
        &&& self.fs() == other.fs()
        &&& self.key() == other.key()
        &&& self.cur_slot() == other.cur_slot()
        &&& self.cur_rid() == other.cur_rid()
        &&& self.spec_capacity() == other.spec_capacity()
    }

    /// The bucket is open on a block of `tx` whose slots are well formed and
    /// hold index records, at a slot from -1 on that lies in the block.
    pub closed spec fn valid(&self, tx: &Transaction) -> bool {
        &&& self.rp.blk() is Some
        &&& self.rp.placed(tx)
        &&& leaf_layout(self.fs())
        &&& slots_ok(self.bytes(tx), self.fs())
        &&& -1 <= self.cur_slot
        &&& self.cur_slot >= 0 ==> slot_pos(self.fs(), self.cur_slot + 1) <= self.bytes(tx).len()
    }

    /// The bucket's count is that of its block's slots that hold records:
    /// each of its slots is free or holds a record, all lie in the block, and
    /// as many hold records as the bucket counts.
    pub open spec fn counted(&self, tx: &Transaction) -> bool {
        let b = self.bytes(tx);
        let fs = self.fs();
        let cap = self.spec_capacity() as int;
        &&& 0 <= cap
        &&& slot_pos(fs, cap) <= b.len() < slot_pos(fs, cap + 1)
        &&& flags_clean(b, fs, cap)
        &&& count_used(b, fs, cap) == self.spec_length()
    }

    /// A valid bucket lies in a block of the block size, with fields that fit.
    pub proof fn lemma_valid(&self, tx: &Transaction)
        requires
            self.valid(tx),
        ensures
            tx.wf(),
            tx.has_block(self.blk()),
            self.bytes(tx).len() == tx.spec_block_size(),
            8 <= tx.spec_block_size() <= i32::MAX,
            fields_fit(self.fs()),
            names_distinct(self.fs()),
            leaf_layout(self.fs()),
            slots_ok(self.bytes(tx), self.fs()),
            -1 <= self.cur_slot(),
            self.cur_slot() >= 0 ==> slot_pos(self.fs(), self.cur_slot() + 1) <= self.bytes(tx).len(),
    {
        self.rp.lemma_block_len(tx);
    }

    /// A bucket stays valid across a change of its block that keeps it.
    proof fn lemma_valid_after(&self, tx: &Transaction, new_tx: &Transaction, nb: Seq<u8>)
        requires
            self.valid(tx),
            new_tx.wf(),
            tx.same_but(*new_tx, self.blk(), nb),
            nb.len() == self.bytes(tx).len(),
            slots_ok(nb, self.fs()),
        ensures
            self.valid(new_tx),
            self.bytes(new_tx) == nb,
    {
        self.rp.lemma_placed_after(tx, new_tx, nb);
    }

    /// Opens the bucket in block `blk`, before its first record, to look for
    /// `searchkey`; reads its local depth and number of records.
    pub fn new(tx: &Transaction, blk: BlockId, searchkey: Constant, layout: Layout) -> (r: Self)
        requires
            tx.wf(),
            tx.has_block(blk),
            8 <= tx.spec_block_size() <= i32::MAX,
            layout.wf(),
            names_distinct(layout.fields()),
            leaf_layout(layout.fields()),
            slots_ok(tx.block(blk), layout.fields()),
        ensures
            r.valid(tx),
            r.blk() == blk,
            r.fs() == layout.fields(),
            r.key() == searchkey@,
            r.spec_local_depth() == int_at(tx.block(blk), 0),
            r.spec_length() == int_at(tx.block(blk), 4),
            r.cur_slot() == -1,
            r.cur_rid() is None,
            r.spec_capacity() == (tx.spec_block_size() - 8) / slot_bytes(layout.fields()),
            flags_clean(tx.block(blk), layout.fields(), r.spec_capacity() as int) && count_used(
                tx.block(blk),
                layout.fields(),
                r.spec_capacity() as int,
            ) == int_at(tx.block(blk), 4) ==> r.counted(tx),
    {
        let ghost fs = layout.fields();
        let slotsize = layout.slot_size();
        let rp = BTPage::new(blk, layout);
        proof {
            rp.lemma_block_len(tx);
            crate::record::layout::lemma_sum_bytes_nonneg(fs);
        }
        let local_depth = rp.get_flag(tx);
        let length = rp.get_num_recs(tx);
        let room: usize = tx.block_size() - 8;
        let capacity = (room / (slotsize as usize)) as i32;
        proof {
            let sz = slot_bytes(fs);
            let q = room as int / sz;
            assert(0 <= q * sz <= room && room < (q + 1) * sz) by (nonlinear_arith)
                requires
                    sz > 0,
                    room >= 0,
                    q == room as int / sz,
            ;
        }
        BucketPage { rp, searchkey, local_depth, length, cur_slot: -1, cur_rid: None, capacity }
    }

    /// The value in field `fldname` of the current record.
    pub fn get_val(&self, tx: &Transaction, fldname: &str) -> (r: Constant)
        requires
            self.valid(tx),
            0 <= self.cur_slot(),
            has_field_spec(self.fs(), fldname@),
        ensures
            r@ == field_val(self.bytes(tx), self.fs(), self.cur_slot(), fidx(self.fs(), fldname@)),
    {
        proof {
            self.lemma_valid(tx);
            lemma_find_field(self.fs(), fldname@);
            assert(slot_ok(self.bytes(tx), self.fs(), self.cur_slot()));
            assert(field_ok(self.bytes(tx), self.fs(), self.cur_slot(), fidx(self.fs(), fldname@)));
        }
        self.rp.get_val(tx, self.cur_slot, fldname)
    }

    /// Moves to the next record of the bucket; true when it holds the search
    /// key, whose data record id then becomes current. A next record with
    /// another key ends the search.
    pub fn next(&mut self, tx: &Transaction) -> (r: bool)
        requires
            old(self).valid(tx),
        ensures
            final(self).valid(tx),
            final(self).blk() == old(self).blk(),
            final(self).fs() == old(self).fs(),
            final(self).key() == old(self).key(),
            final(self).spec_local_depth() == old(self).spec_local_depth(),
            final(self).spec_length() == old(self).spec_length(),
            final(self).spec_capacity() == old(self).spec_capacity(),
            next_in_use(old(self).bytes(tx), old(self).fs(), old(self).cur_slot(), final(self).cur_slot()),
            r == (final(self).cur_slot() >= 0 && field_val(old(self).bytes(tx), old(self).fs(), final(self).cur_slot(), 2)
                == old(self).key()),
            r ==> final(self).cur_rid() == Some(
                RID {
                    blknum: int_at(old(self).bytes(tx), field_pos(old(self).fs(), final(self).cur_slot(), 0)),
                    slot: int_at(old(self).bytes(tx), field_pos(old(self).fs(), final(self).cur_slot(), 1)),
                },
            ),
            !r ==> final(self).cur_rid() is None,
    {
        proof {
            self.lemma_valid(tx);
        }
        self.cur_slot = self.rp.next_slot_with_flag(tx, self.cur_slot, USED);
        if self.cur_slot >= 0 {
            proof {
                lemma_index_fields(self.fs());
            }
            let dataval = self.get_val(tx, "dataval");
            if dataval.equals(&self.searchkey) {
                proof {
                    assert(slot_ok(self.bytes(tx), self.fs(), self.cur_slot()));
                    assert(field_ok(self.bytes(tx), self.fs(), self.cur_slot(), 0));
                    assert(field_ok(self.bytes(tx), self.fs(), self.cur_slot(), 1));
                    lemma_field_in_slot(self.fs(), self.cur_slot(), 0);
                    lemma_field_in_slot(self.fs(), self.cur_slot(), 1);
                }
                let blknum = self.rp.get_int(tx, self.cur_slot, "block");
                let id = self.rp.get_int(tx, self.cur_slot, "id");
                self.cur_rid = Some(RID::new(blknum, id));
                return true;
            }
        }
        self.cur_rid = None;
        false
    }

    /// Writes `val` into field `fldname` of the current record; a value of the
    /// other kind than the field's is not written.
    pub fn set_val(&mut self, tx: &mut Transaction, fldname: &str, val: &Constant)
        requires
            old(self).valid(old(tx)),
            0 <= old(self).cur_slot(),
            has_field_spec(old(self).fs(), fldname@),
            val@ is Str && old(self).fs()[fidx(old(self).fs(), fldname@)].ftype != INTEGER ==> val_fits(
                val@,
                old(self).fs()[fidx(old(self).fs(), fldname@)],
            ),
        ensures
            *final(self) == *old(self),
            final(self).valid(final(tx)),
            old(tx).same_but(*final(tx), old(self).blk(), final(self).bytes(final(tx))),
            val_fits(val@, old(self).fs()[fidx(old(self).fs(), fldname@)]) ==> {
                &&& bucket_kept(old(self).bytes(old(tx)), final(self).bytes(final(tx)), old(self).fs(), old(self).cur_slot())
                &&& int_at(final(self).bytes(final(tx)), 4) == int_at(old(self).bytes(old(tx)), 4)
                &&& rec_val(final(self).bytes(final(tx)), old(self).fs(), old(self).cur_slot()) == rec_val(
                    old(self).bytes(old(tx)),
                    old(self).fs(),
                    old(self).cur_slot(),
                ).update(fidx(old(self).fs(), fldname@), val@)
            },
            !val_fits(val@, old(self).fs()[fidx(old(self).fs(), fldname@)]) ==> final(self).bytes(final(tx))
                == old(self).bytes(old(tx)),
    {
        let ghost fs = self.fs();
        let ghost i = fidx(fs, fldname@);
        let ghost b0 = self.bytes(tx);
        let ghost tx0 = *tx;
        proof {
            self.lemma_valid(tx);
            lemma_find_field(fs, fldname@);
            lemma_field_in_slot(fs, self.cur_slot(), i);
        }
        self.rp.set_val(tx, self.cur_slot, fldname, val);
        proof {
            let b1 = self.bytes(tx);
            tx0.lemma_same_but_self(*tx, self.blk(), b1);
            if val_fits(val@, fs[i]) {
                lemma_field_write_kept(b0, b1, fs, self.cur_slot(), i);
            }
            self.lemma_valid_after(&tx0, tx, b1);
        }
    }

    /// Writes the data record id `rid` into the current slot.
    fn set_rid(&mut self, tx: &mut Transaction, rid: &RID)
        requires
            old(self).valid(old(tx)),
            0 <= old(self).cur_slot(),
        ensures
            *final(self) == *old(self),
            final(self).valid(final(tx)),
            old(tx).same_but(*final(tx), old(self).blk(), final(self).bytes(final(tx))),
            bucket_kept(old(self).bytes(old(tx)), final(self).bytes(final(tx)), old(self).fs(), old(self).cur_slot()),
            int_at(final(self).bytes(final(tx)), 4) == int_at(old(self).bytes(old(tx)), 4),
            rec_val(final(self).bytes(final(tx)), old(self).fs(), old(self).cur_slot()) == rec_val(
                old(self).bytes(old(tx)),
                old(self).fs(),
                old(self).cur_slot(),
            ).update(0, ConstVal::Int(rid.blknum)).update(1, ConstVal::Int(rid.slot)),
    {
        let ghost fs = self.fs();
        let ghost t = self.cur_slot();
        let ghost b0 = self.bytes(tx);
        let ghost tx0 = *tx;
        proof {
            self.lemma_valid(tx);
            lemma_index_fields(fs);
            lemma_field_in_slot(fs, t, 0);
            lemma_field_in_slot(fs, t, 1);
        }
        self.rp.set_int(tx, self.cur_slot, "block", rid.block_number());
        let ghost tx1 = *tx;
        let ghost b1 = self.bytes(tx);
        proof {
            tx0.lemma_same_but_self(*tx, self.blk(), with_int(b0, field_pos(fs, t, 0), rid.blknum));
            crate::index::btree::page_format::lemma_int_field_write(b0, fs, t, 0, rid.blknum);
            lemma_with_int_agree(b0, field_pos(fs, t, 0), rid.blknum);
            lemma_field_write_kept(b0, b1, fs, t, 0);
            self.lemma_valid_after(&tx0, tx, b1);
        }
        self.rp.set_int(tx, self.cur_slot, "id", rid.slot());
        proof {
            let b2 = self.bytes(tx);
            tx1.lemma_same_but_self(*tx, self.blk(), with_int(b1, field_pos(fs, t, 1), rid.slot));
            crate::index::btree::page_format::lemma_int_field_write(b1, fs, t, 1, rid.slot);
            lemma_with_int_agree(b1, field_pos(fs, t, 1), rid.slot);
            lemma_field_write_kept(b1, b2, fs, t, 1);
            lemma_kept_trans(b0, b1, b2, fs, t);
            self.lemma_valid_after(&tx1, tx, b2);
            tx0.lemma_same_but_trans(tx1, *tx, self.blk(), b1, b2);
        }
    }

    /// Inserts an index record for `dataval` and `datarid`, unless the bucket
    /// is full: the first free slot of the bucket is claimed for it, and the
    /// record is counted. Where no slot is free, nothing changes.
    pub fn insert(&mut self, tx: &mut Transaction, dataval: &Constant, datarid: &RID)
        requires
            old(self).valid(old(tx)),
            old(self).spec_length() != old(self).spec_capacity() ==> {
                &&& old(self).spec_length() < i32::MAX
                &&& dataval@ is Str && old(self).fs()[2].ftype != INTEGER ==> val_fits(dataval@, old(self).fs()[2])
            },
        ensures
            final(self).valid(final(tx)),
            final(self).same_scan(*old(self)),
            final(self).spec_local_depth() == old(self).spec_local_depth(),
            old(self).spec_length() == old(self).spec_capacity() || next_with_flag(
                old(self).bytes(old(tx)),
                old(self).fs(),
                -1,
                EMPTY,
                -1,
            ) ==> {
                &&& final(self).spec_length() == old(self).spec_length()
                &&& *final(tx) == *old(tx)
            },
            forall|s: int|
                old(self).spec_length() != old(self).spec_capacity() && s >= 0 && #[trigger] next_with_flag(
                    old(self).bytes(old(tx)),
                    old(self).fs(),
                    -1,
                    EMPTY,
                    s,
                ) ==> {
                    let b0 = old(self).bytes(old(tx));
                    let b1 = final(self).bytes(final(tx));
                    let fs = old(self).fs();
                    &&& final(self).spec_length() == old(self).spec_length() + 1
                    &&& old(tx).same_but(*final(tx), old(self).blk(), b1)
                    &&& int_at(b1, 4) == old(self).spec_length() + 1
                    &&& slot_claimed(b0, b1, fs, s)
                    &&& rec_val(b1, fs, s) == inserted_rec(rec_val(b0, fs, s), fs, dataval@, *datarid)
                },
            old(self).counted(old(tx)) && old(self).spec_length() != old(self).spec_capacity() ==> exists|s: int|
                s >= 0 && #[trigger] next_with_flag(old(self).bytes(old(tx)), old(self).fs(), -1, EMPTY, s),
            old(self).counted(old(tx)) ==> final(self).counted(final(tx)),
    {
        if !self.is_full() {
            let ghost fs = self.fs();
            let ghost b0 = self.bytes(tx);
            let ghost tx0 = *tx;
            let ghost start = *self;
            proof {
                self.lemma_valid(tx);
                lemma_index_fields(fs);
            }
            let s = self.rp.next_slot_with_flag(tx, -1, EMPTY);
            let ghost cap = start.spec_capacity() as int;
            proof {
                if start.counted(&tx0) {
                    lemma_count_used_bound(b0, fs, cap);
                    lemma_free_slot_exists(b0, fs, cap);
                    let e = choose|e: int| 0 <= e < cap && #[trigger] slot_flag(b0, fs, e) == EMPTY;
                    lemma_slot_pos_mono(fs, e + 1, cap);
                    assert(has_flag(b0, fs, e, EMPTY));
                    assert(s >= 0);
                }
            }
            if s < 0 {
                return;
            }
            proof {
                lemma_slot_flag_write(b0, fs, s as int, USED);
                crate::record::layout::lemma_sum_bytes_nonneg(fs);
                crate::index::btree::page_format::lemma_slot_order(fs, s as int, s + 1);
            }
            self.rp.set_slot_flag(tx, s, USED);
            let ghost ba = with_int(b0, slot_pos(fs, s as int), USED);
            proof {
                self.lemma_valid_after(&tx0, tx, ba);
                crate::file::page::lemma_int_write_read(b0, slot_pos(fs, s as int), USED);
            }
            let saved = self.cur_slot;
            self.cur_slot = s;
            let ghost txa = *tx;
            self.set_rid(tx, datarid);
            let ghost tx1 = *tx;
            let ghost b1 = self.bytes(tx);
            self.set_val(tx, "dataval", dataval);
            let ghost tx2 = *tx;
            let ghost b2 = self.bytes(tx);
            proof {
                if !val_fits(dataval@, fs[2]) {
                    tx1.lemma_same_but_refl(self.blk());
                }
                assert(bucket_kept(b1, b2, fs, s as int) && int_at(b2, 4) == int_at(b1, 4));
                lemma_kept_trans(ba, b1, b2, fs, s as int);
                tx0.lemma_same_but_trans(txa, tx1, self.blk(), ba, b1);
                tx0.lemma_same_but_trans(tx1, tx2, self.blk(), b1, b2);
                self.lemma_valid(tx);
                lemma_header_write_kept(b2, fs, 4, (self.length + 1) as i32);
            }
            self.cur_slot = saved;
            proof {
                tx2.lemma_same_but_refl(self.blk());
                self.lemma_valid_after(&tx2, &tx2, b2);
            }
            self.set_length(tx, self.length + 1);
            proof {
                let b3 = self.bytes(tx);
                tx2.lemma_same_but_self(*tx, self.blk(), with_int(b2, 4, (start.spec_length() + 1) as i32));
                assert(bucket_kept(b2, b3, fs, s as int));
                lemma_kept_trans(ba, b2, b3, fs, s as int);
                tx0.lemma_same_but_trans(tx2, *tx, self.blk(), b2, b3);
                assert(rec_val(b3, fs, s as int) == rec_val(b2, fs, s as int));
                assert(rec_val(b3, fs, s as int) =~= inserted_rec(rec_val(b0, fs, s as int), fs, dataval@, *datarid));
                assert(slot_claimed(b0, b3, fs, s as int));
                assert forall|t: int| t >= 0 && #[trigger] next_with_flag(b0, fs, -1, EMPTY, t) implies t == s by {
                    lemma_next_with_flag_unique(b0, fs, -1, EMPTY, t, s as int);
                }
                if start.counted(&tx0) {
                    if s >= cap {
                        lemma_slot_pos_mono(fs, cap + 1, s + 1);
                    }
                    assert forall|t: int| 0 <= t < cap && t != s implies #[trigger] slot_flag(b3, fs, t) == slot_flag(
                        b0,
                        fs,
                        t,
                    ) by {
                        lemma_slot_pos_mono(fs, t + 1, cap);
                        assert(slot_flag(b3, fs, t) == slot_flag(ba, fs, t));
                    }
                    lemma_slot_pos_mono(fs, s + 1, cap);
                    assert(slot_flag(b3, fs, s as int) == slot_flag(ba, fs, s as int));
                    lemma_count_used_change(b0, b3, fs, cap, s as int);
                    assert(flags_clean(b3, fs, cap));
                    assert(self.counted(tx));
                }
            }
        }
    }

    /// Deletes the next record when it holds the search key: frees its slot
    /// and counts one record less.
    pub fn delete(&mut self, tx: &mut Transaction)
        requires
            old(self).valid(old(tx)),
            old(self).spec_length() > i32::MIN,
        ensures
            final(self).valid(final(tx)),
            final(self).blk() == old(self).blk(),
            final(self).fs() == old(self).fs(),
            final(self).key() == old(self).key(),
            final(self).spec_local_depth() == old(self).spec_local_depth(),
            final(self).spec_capacity() == old(self).spec_capacity(),
            next_in_use(old(self).bytes(old(tx)), old(self).fs(), old(self).cur_slot(), final(self).cur_slot()),
            ({
                let b0 = old(self).bytes(old(tx));
                let fs = old(self).fs();
                let s = final(self).cur_slot();
                let found = s >= 0 && field_val(b0, fs, s, 2) == old(self).key();
                &&& found ==> {
                    &&& final(self).spec_length() == old(self).spec_length() - 1
                    &&& old(tx).same_but(
                        *final(tx),
                        old(self).blk(),
                        with_int(with_int(b0, slot_pos(fs, s), EMPTY), 4, (old(self).spec_length() - 1) as i32),
                    )
                    &&& slot_freed(b0, final(self).bytes(final(tx)), fs, s)
                    &&& final(self).cur_rid() == Some(
                        RID { blknum: int_at(b0, field_pos(fs, s, 0)), slot: int_at(b0, field_pos(fs, s, 1)) },
                    )
                }
                &&& !found ==> {
                    &&& *final(tx) == *old(tx)
                    &&& final(self).spec_length() == old(self).spec_length()
                    &&& final(self).cur_rid() is None
                }
            }),
            old(self).counted(old(tx)) ==> final(self).counted(final(tx)),
    {
        let ghost tx0 = *tx;
        let ghost start = *self;
        loop
            invariant
                *tx == tx0,
                *self == start,
                start == *old(self),
                tx0 == *old(tx),
                start.valid(&tx0),
                start.spec_length() > i32::MIN,
            decreases 1nat,
        {
            if !self.next(tx) {
                return;
            }
            proof {
                self.lemma_valid(tx);
                lemma_index_fields(self.fs());
            }
            let dataval = self.get_val(tx, "dataval");
            if dataval.equals(&self.searchkey) {
                let ghost fs = self.fs();
                let ghost t = self.cur_slot();
                let ghost b0 = self.bytes(tx);
                proof {
                    self.lemma_valid(tx);
                    lemma_slot_flag_write(b0, fs, t, EMPTY);
                }
                self.rp.set_slot_flag(tx, self.cur_slot, EMPTY);
                let ghost tx1 = *tx;
                let ghost b1 = with_int(b0, slot_pos(fs, t), EMPTY);
                proof {
                    self.lemma_valid_after(&tx0, tx, b1);
                    lemma_header_write_kept(b1, fs, 4, (start.spec_length() - 1) as i32);
                }
                self.set_length(tx, self.length - 1);
                proof {
                    let b2 = with_int(b1, 4, (start.spec_length() - 1) as i32);
                    tx0.lemma_same_but_trans(tx1, *tx, self.blk(), b1, b2);
                    tx1.lemma_same_but_self(*tx, self.blk(), b2);
                    assert forall|s: int| s != t implies (#[trigger] in_use(b2, fs, s) <==> in_use(b0, fs, s)) by {
                        if 0 <= s && slot_pos(fs, s + 1) <= b0.len() {
                            assert(slot_flag(b2, fs, s) == slot_flag(b1, fs, s));
                            assert(slot_flag(b1, fs, s) == slot_flag(b0, fs, s));
                        }
                    }
                    assert forall|s: int| 0 <= s && slot_pos(fs, s + 1) <= b0.len() implies #[trigger] rec_val(
                        b2,
                        fs,
                        s,
                    ) == rec_val(b0, fs, s) by {
                        assert(rec_val(b2, fs, s) == rec_val(b1, fs, s));
                        assert(rec_val(b1, fs, s) == rec_val(b0, fs, s));
                    }
                    assert(slot_flag(b2, fs, t) == slot_flag(b1, fs, t));
                    if start.counted(&tx0) {
                        let cap = start.spec_capacity() as int;
                        if t >= cap {
                            lemma_slot_pos_mono(fs, cap + 1, t + 1);
                        }
                        assert forall|u: int| 0 <= u < cap && u != t implies #[trigger] slot_flag(b2, fs, u) == slot_flag(
                            b0,
                            fs,
                            u,
                        ) by {
                            lemma_slot_pos_mono(fs, u + 1, cap);
                            assert(slot_flag(b2, fs, u) == slot_flag(b1, fs, u));
                            assert(slot_flag(b1, fs, u) == slot_flag(b0, fs, u));
                        }
                        assert(in_use(b0, fs, t));
                        lemma_count_used_change(b0, b2, fs, cap, t);
                        assert(flags_clean(b2, fs, cap));
                        assert(self.counted(tx));
                    }
                }
                return;
            }
        }
    }

    /// Sets the local depth, in the bucket and in its block.
    pub fn set_local_depth(&mut self, tx: &mut Transaction, depth: i32)
        requires
            old(self).valid(old(tx)),
        ensures
            final(self).same_scan(*old(self)),
            final(self).spec_local_depth() == depth,
            final(self).spec_length() == old(self).spec_length(),
            final(self).valid(final(tx)),
            old(tx).same_but(*final(tx), old(self).blk(), with_int(old(self).bytes(old(tx)), 0, depth)),
    {
        let ghost tx0 = *tx;
        proof {
            self.lemma_valid(tx);
            lemma_header_write_kept(self.bytes(tx), self.fs(), 0, depth);
        }
        self.local_depth = depth;
        self.rp.set_flag(tx, depth);
        proof {
            self.lemma_valid_after(&tx0, tx, with_int(self.bytes(&tx0), 0, depth));
        }
    }

    /// Sets the number of records, in the bucket and in its block.
    pub fn set_length(&mut self, tx: &mut Transaction, length: i32)
        requires
            old(self).valid(old(tx)),
        ensures
            final(self).same_scan(*old(self)),
            final(self).spec_local_depth() == old(self).spec_local_depth(),
            final(self).spec_length() == length,
            final(self).valid(final(tx)),
            old(tx).same_but(*final(tx), old(self).blk(), with_int(old(self).bytes(old(tx)), 4, length)),
    {
        let ghost tx0 = *tx;
        proof {
            self.lemma_valid(tx);
            lemma_header_write_kept(self.bytes(tx), self.fs(), 4, length);
        }
        self.length = length;
        self.rp.set_num_recs(tx, length);
        proof {
            self.lemma_valid_after(&tx0, tx, with_int(self.bytes(&tx0), 4, length));
        }
    }

    /// The data record id of the current record; `(0, 0)` when there is none.
    pub fn get_data_rid(&self) -> (r: RID)
        ensures
            r == (match self.cur_rid() {
                Some(rid) => rid,
                None => RID { blknum: 0, slot: 0 },
            }),
    {
        match &self.cur_rid {
            Some(rid) => *rid,
            None => RID::new(0, 0),
        }
    }

    /// Whether the bucket holds as many records as it has slots.
    pub fn is_full(&self) -> (r: bool)
        ensures
            r == (self.spec_length() == self.spec_capacity()),
    {
        self.length == self.capacity
    }

    /// The local depth of the bucket.
    pub fn local_depth(&self) -> (r: i32)
        ensures
            r == self.spec_local_depth(),
    {
        self.local_depth
    }

    /// The number of records of the bucket.
    pub fn length(&self) -> (r: i32)
        ensures
            r == self.spec_length(),
    {
        self.length
    }
}

} // verus!
