use vstd::prelude::*;

use crate::file::page::{be_value, bytes_at, int_at, with_bytes, with_int};
use crate::file::BlockId;
use crate::index::btree::bt_page::{fidx, names_distinct, BTPage};
use crate::index::btree::page_format::{
    field_ok, field_pos, field_val, has_flag, lemma_field_in_slot, lemma_flags_after_field_write,
    lemma_int_field_write, lemma_slot_flag_write, lemma_slot_pos_mono, lemma_slots_after_field_write,
    lemma_string_field_write, lemma_with_bytes_agree, lemma_with_int_agree, rec_val, slot_flag, slot_ok,
    slot_pos, slots_ok, val_fits, EMPTY, USED,
};
use crate::query::constant::{ConstVal, Constant};
use crate::record::layout::{fields_fit, lemma_field_bounds, Layout};
use crate::record::schema::{has_field_spec, lemma_find_field, FieldSpec, INTEGER};
use crate::record::RID;
use crate::tx::Transaction;
use crate::util::concat;
use vstd::utf8::encode_utf8;

verus! {

// A table is a file of blocks that each hold, after eight bytes that tables
// do not use, record slots behind in-use flags.

/// The file of the table `tblname`.
pub open spec fn table_file(tblname: Seq<char>) -> Seq<char> {
    tblname + ".tbl"@
}

/// A block of zeros of `len` bytes.
pub open spec fn zero_block(len: nat) -> Seq<u8> {
    Seq::new(len, |k: int| 0u8)
}

/// The file `name` of `tx` holds a table of records of fields `fs`: every
/// block has room for a slot, and every slot is well formed.
pub open spec fn table_ok(tx: &Transaction, name: Seq<char>, fs: Seq<FieldSpec>) -> bool {
    &&& tx.wf()
    &&& 8 <= tx.spec_block_size() <= i32::MAX
    &&& fields_fit(fs)
    &&& names_distinct(fs)
    &&& slot_pos(fs, 1) <= tx.spec_block_size()
    &&& forall|n: int| 0 <= n < tx.blocks(name).len() ==> slots_ok(#[trigger] tx.blocks(name)[n], fs)
}

/// Whether slot `s` of block `n` of the table holds a record.
pub open spec fn used_at(tx: &Transaction, name: Seq<char>, fs: Seq<FieldSpec>, n: int, s: int) -> bool {
    0 <= n < tx.blocks(name).len() && has_flag(tx.blocks(name)[n], fs, s, USED)
}

/// Whether slot `s` of block `n` of the table is free.
pub open spec fn free_at(tx: &Transaction, name: Seq<char>, fs: Seq<FieldSpec>, n: int, s: int) -> bool {
    0 <= n < tx.blocks(name).len() && has_flag(tx.blocks(name)[n], fs, s, EMPTY)
}

/// Whether slot `s1` of block `n1` comes before slot `s2` of block `n2`.
pub open spec fn pos_before(n1: int, s1: int, n2: int, s2: int) -> bool {
    n1 < n2 || (n1 == n2 && s1 < s2)
}

/// The record in slot `s` of block `n` of the table file `name`.
pub open spec fn rec_at(tx: &Transaction, name: Seq<char>, fs: Seq<FieldSpec>, n: int, s: int) -> Seq<ConstVal> {
    rec_val(tx.blocks(name)[n], fs, s)
}

/// Every record of the table `name` in `tx1` is in `tx2` too, in the same
/// slot and unchanged.
pub open spec fn records_kept(tx1: &Transaction, tx2: &Transaction, name: Seq<char>, fs: Seq<FieldSpec>) -> bool {
    forall|n: int, s: int|
        #[trigger] used_at(tx1, name, fs, n, s) ==> used_at(tx2, name, fs, n, s) && rec_at(tx2, name, fs, n, s)
            == rec_at(tx1, name, fs, n, s)
}

/// Whether the table `name` holds the record `rec`.
pub open spec fn has_record(tx: &Transaction, name: Seq<char>, fs: Seq<FieldSpec>, rec: Seq<ConstVal>) -> bool {
    exists|n: int, s: int| #[trigger] used_at(tx, name, fs, n, s) && rec_at(tx, name, fs, n, s) == rec
}

/// `b2` has the size and slot flags of `b1`, and the records of all slots but `t`.
pub open spec fn slots_kept(b1: Seq<u8>, b2: Seq<u8>, fs: Seq<FieldSpec>, t: int) -> bool {
    &&& b2.len() == b1.len()
    &&& forall|s: int|
        0 <= s && s != t && slot_pos(fs, s + 1) <= b1.len() ==> #[trigger] rec_val(b2, fs, s) == rec_val(b1, fs, s)
    &&& forall|s: int|
        0 <= s && slot_pos(fs, s + 1) <= b1.len() ==> #[trigger] slot_flag(b2, fs, s) == slot_flag(b1, fs, s)
}

/// Slot `s1` of block `n1` of the table `name` holds a record in `tx1` and
/// held none in `tx0`; every other slot holds one in `tx1` only where it held
/// one in `tx0`.
pub open spec fn added_at(tx0: &Transaction, tx1: &Transaction, name: Seq<char>, fs: Seq<FieldSpec>, n1: int, s1: int) -> bool {
    &&& used_at(tx1, name, fs, n1, s1)
    &&& !used_at(tx0, name, fs, n1, s1)
    &&& forall|n: int, s: int|
        #[trigger] used_at(tx1, name, fs, n, s) ==> used_at(tx0, name, fs, n, s) || (n == n1 && s == s1)
}

/// After an insert in slot `s1` of block `n1` of the table, the slots that
/// hold records are those that did, and that one.
pub proof fn lemma_insert_used(tx0: &Transaction, tx1: &Transaction, name: Seq<char>, fs: Seq<FieldSpec>, n1: int, s1: int)
    requires
        table_ok(tx0, name, fs),
        0 <= s1,
        slot_pos(fs, s1 + 1) <= tx0.spec_block_size(),
        0 <= n1 <= tx0.blocks(name).len(),
        n1 < tx0.blocks(name).len() ==> tx1.blocks(name) == tx0.blocks(name).update(
            n1,
            with_int(tx0.blocks(name)[n1], slot_pos(fs, s1), USED),
        ),
        n1 == tx0.blocks(name).len() ==> {
            &&& s1 == 0
            &&& tx1.blocks(name) == tx0.blocks(name).push(
                with_int(zero_block(tx0.spec_block_size()), slot_pos(fs, 0), USED),
            )
        },
    ensures
        forall|n: int, s: int|
            #[trigger] used_at(tx1, name, fs, n, s) ==> used_at(tx0, name, fs, n, s) || (n == n1 && s == s1),
{
    let len0 = tx0.blocks(name).len();
    let bs = tx0.spec_block_size();
    assert forall|n: int, s: int| #[trigger] used_at(tx1, name, fs, n, s) implies used_at(tx0, name, fs, n, s) || (n
        == n1 && s == s1) by {
        if n != n1 {
            assert(tx1.blocks(name)[n] == tx0.blocks(name)[n]);
        } else if s != s1 {
            if n1 < len0 {
                let b = tx0.blocks(name)[n1];
                tx0.lemma_block_len(name, n1);
                lemma_slot_flag_write(b, fs, s1, USED);
                assert(slot_flag(tx1.blocks(name)[n], fs, s) == slot_flag(b, fs, s));
            } else {
                lemma_zero_block(fs, bs);
                lemma_slot_flag_write(zero_block(bs), fs, 0, USED);
                assert(slot_flag(tx1.blocks(name)[n], fs, s) == slot_flag(zero_block(bs), fs, s));
            }
        }
    }
}

/// Opening a scan, which gives a table with no block a block of zeros, adds
/// no record.
pub proof fn lemma_open_used(tx0: &Transaction, tx1: &Transaction, name: Seq<char>, fs: Seq<FieldSpec>)
    requires
        fields_fit(fs),
        tx0.blocks(name).len() == 0 ==> tx1.blocks(name) == seq![zero_block(tx0.spec_block_size())],
        tx0.blocks(name).len() != 0 ==> *tx1 == *tx0,
    ensures
        forall|n: int, s: int| #[trigger] used_at(tx1, name, fs, n, s) ==> used_at(tx0, name, fs, n, s),
{
    lemma_zero_block(fs, tx0.spec_block_size());
    assert forall|n: int, s: int| #[trigger] used_at(tx1, name, fs, n, s) implies used_at(tx0, name, fs, n, s) by {
        if tx0.blocks(name).len() == 0 {
            assert(tx1.blocks(name)[n] == zero_block(tx0.spec_block_size()));
        }
    }
}

/// A change of one block of the table that keeps every slot's flag keeps
/// the slots that hold records.
pub proof fn lemma_flags_kept_used(tx1: &Transaction, tx2: &Transaction, blk: BlockId, nb: Seq<u8>, fs: Seq<FieldSpec>)
    requires
        tx1.has_block(blk),
        tx1.same_but(*tx2, blk, nb),
        nb.len() == tx1.block(blk).len(),
        forall|s: int|
            0 <= s && slot_pos(fs, s + 1) <= tx1.block(blk).len() ==> #[trigger] slot_flag(nb, fs, s) == slot_flag(
                tx1.block(blk),
                fs,
                s,
            ),
    ensures
        forall|n: int, s: int|
            #[trigger] used_at(tx2, blk.spec_file_name(), fs, n, s) == used_at(tx1, blk.spec_file_name(), fs, n, s),
{
    let name = blk.spec_file_name();
    assert forall|n: int, s: int| #[trigger] used_at(tx2, name, fs, n, s) == used_at(tx1, name, fs, n, s) by {
        if n == blk.spec_number() {
            if 0 <= s && slot_pos(fs, s + 1) <= nb.len() {
                assert(slot_flag(nb, fs, s) == slot_flag(tx1.block(blk), fs, s));
            }
        }
    }
}

/// Keeping records is transitive.
pub proof fn lemma_records_kept_trans(
    tx1: &Transaction,
    tx2: &Transaction,
    tx3: &Transaction,
    name: Seq<char>,
    fs: Seq<FieldSpec>,
)
    requires
        records_kept(tx1, tx2, name, fs),
        records_kept(tx2, tx3, name, fs),
    ensures
        records_kept(tx1, tx3, name, fs),
{
    assert forall|n: int, s: int| #[trigger] used_at(tx1, name, fs, n, s) implies used_at(tx3, name, fs, n, s)
        && rec_at(tx3, name, fs, n, s) == rec_at(tx1, name, fs, n, s) by {
        assert(used_at(tx2, name, fs, n, s));
    }
}

/// A record that one table holds, a table that keeps its records holds too.
pub proof fn lemma_has_record_kept(
    tx1: &Transaction,
    tx2: &Transaction,
    name: Seq<char>,
    fs: Seq<FieldSpec>,
    rec: Seq<ConstVal>,
)
    requires
        records_kept(tx1, tx2, name, fs),
        has_record(tx1, name, fs, rec),
    ensures
        has_record(tx2, name, fs, rec),
{
    let (n, s) = choose|n: int, s: int| #[trigger] used_at(tx1, name, fs, n, s) && rec_at(tx1, name, fs, n, s) == rec;
    assert(used_at(tx2, name, fs, n, s));
}

/// A change of block `n` of a table that keeps the flags of its slots and the
/// records of all slots but `t`, where `tx0` holds no record, keeps the
/// records that `tx0` holds.
pub proof fn lemma_records_kept_slot(
    tx0: &Transaction,
    tx1: &Transaction,
    tx2: &Transaction,
    blk: BlockId,
    nb: Seq<u8>,
    fs: Seq<FieldSpec>,
    t: int,
)
    requires
        records_kept(tx0, tx1, blk.spec_file_name(), fs),
        tx1.has_block(blk),
        tx1.same_but(*tx2, blk, nb),
        slots_kept(tx1.block(blk), nb, fs, t),
        !used_at(tx0, blk.spec_file_name(), fs, blk.spec_number() as int, t),
    ensures
        records_kept(tx0, tx2, blk.spec_file_name(), fs),
        records_kept(tx1, tx2, blk.spec_file_name(), fs) || used_at(tx1, blk.spec_file_name(), fs, blk.spec_number() as int, t),
{
    let name = blk.spec_file_name();
    let n = blk.spec_number() as int;
    assert forall|m: int, s: int| #[trigger] used_at(tx0, name, fs, m, s) implies used_at(tx2, name, fs, m, s)
        && rec_at(tx2, name, fs, m, s) == rec_at(tx0, name, fs, m, s) by {
        assert(used_at(tx1, name, fs, m, s));
        if m == n {
            assert(s != t);
            assert(slot_flag(nb, fs, s) == slot_flag(tx1.block(blk), fs, s));
            assert(rec_val(nb, fs, s) == rec_val(tx1.block(blk), fs, s));
        }
    }
    if !used_at(tx1, name, fs, n, t) {
        assert forall|m: int, s: int| #[trigger] used_at(tx1, name, fs, m, s) implies used_at(tx2, name, fs, m, s)
            && rec_at(tx2, name, fs, m, s) == rec_at(tx1, name, fs, m, s) by {
            if m == n {
                assert(s != t);
                assert(slot_flag(nb, fs, s) == slot_flag(tx1.block(blk), fs, s));
                assert(rec_val(nb, fs, s) == rec_val(tx1.block(blk), fs, s));
            }
        }
    }
}

/// A slot that holds a record lies in its block: its number is below the
/// block size.
pub proof fn lemma_used_in_block(tx: &Transaction, name: Seq<char>, fs: Seq<FieldSpec>, n: int, s: int)
    requires
        table_ok(tx, name, fs),
        used_at(tx, name, fs, n, s),
    ensures
        0 <= n < tx.blocks(name).len(),
        0 <= s < tx.spec_block_size(),
{
    tx.lemma_block_len(name, n);
    crate::index::btree::page_format::lemma_slot_pos_ge(fs, s + 1);
}

/// A block of zeros has well-formed slots, all free.
pub proof fn lemma_zero_block(fs: Seq<FieldSpec>, len: nat)
    requires
        fields_fit(fs),
    ensures
        slots_ok(zero_block(len), fs),
        forall|s: int| 0 <= s && slot_pos(fs, s + 1) <= len ==> #[trigger] slot_flag(zero_block(len), fs, s) == EMPTY,
{
    let z = zero_block(len);
    assert(be_value(0u8, 0u8, 0u8, 0u8) == 0) by (bit_vector);
    assert forall|s: int| 0 <= s && slot_pos(fs, s + 1) <= len implies #[trigger] slot_ok(z, fs, s) by {
        assert forall|i: int| 0 <= i < fs.len() implies #[trigger] field_ok(z, fs, s, i) by {
            lemma_field_in_slot(fs, s, i);
            let p = field_pos(fs, s, i);
            assert(int_at(z, p) == 0);
            assert(bytes_at(z, p) =~= Seq::<u8>::empty());
        }
    }
    assert forall|s: int| 0 <= s && slot_pos(fs, s + 1) <= len implies #[trigger] slot_flag(z, fs, s) == EMPTY by {
        lemma_slot_pos_mono(fs, s, s);
        crate::index::btree::page_format::lemma_slot_order(fs, s, s + 1);
        crate::record::layout::lemma_sum_bytes_nonneg(fs);
    }
}

/// A change of one block of a table that keeps its slots well formed keeps
/// the table well formed.
pub proof fn lemma_table_after_change(tx: &Transaction, new_tx: &Transaction, blk: BlockId, nb: Seq<u8>, fs: Seq<FieldSpec>)
    requires
        table_ok(tx, blk.spec_file_name(), fs),
        tx.has_block(blk),
        new_tx.wf(),
        tx.same_but(*new_tx, blk, nb),
        slots_ok(nb, fs),
    ensures
        table_ok(new_tx, blk.spec_file_name(), fs),
        new_tx.blocks(blk.spec_file_name()).len() == tx.blocks(blk.spec_file_name()).len(),
{
    let name = blk.spec_file_name();
    assert forall|n: int| 0 <= n < new_tx.blocks(name).len() implies slots_ok(#[trigger] new_tx.blocks(name)[n], fs) by {
        if n != blk.spec_number() {
            assert(new_tx.blocks(name)[n] == tx.blocks(name)[n]);
        }
    }
}

/// A scan over the records of a table, block by block and slot by slot.
pub struct TableScan {
    layout: Layout,
    rp: BTPage,
    filename: String,
    currentslot: i32,
}

impl TableScan {
    /// The file of the table.
    pub closed spec fn file(&self) -> Seq<char> {
        self.filename@
    }

    /// The fields of the table's records.
    pub closed spec fn fs(&self) -> Seq<FieldSpec> {
        self.layout.fields()
    }

    /// The number of the current block.
    pub closed spec fn bnum(&self) -> int {
        self.rp.blk().unwrap().spec_number() as int
    }

    /// The current slot; -1 before the first slot of the block.
    pub closed spec fn slot(&self) -> int {
        self.currentslot as int
    }

    /// The bytes of the current block.
    pub open spec fn cur_bytes(&self, tx: &Transaction) -> Seq<u8> {
        tx.blocks(self.file())[self.bnum()]
    }

    /// The scan stands in a block.
    pub closed spec fn is_open(&self) -> bool {
        self.rp.blk() is Some
    }

    /// The layout and the page agree on the fields, whose names differ.
    closed spec fn shape(&self) -> bool {
        &&& self.layout.wf()
        &&& names_distinct(self.layout.fields())
        &&& self.rp.fs() == self.layout.fields()
    }

    /// The scan stands in a block of a well-formed table, at a slot from -1
    /// on that lies in the block.
    pub closed spec fn valid(&self, tx: &Transaction) -> bool {
        &&& self.shape()
        &&& table_ok(tx, self.file(), self.fs())
        &&& self.rp.blk() is Some
        &&& self.rp.blk().unwrap().spec_file_name() == self.file()
        &&& self.rp.placed(tx)
        &&& 0 <= self.bnum() < tx.blocks(self.file()).len()
        &&& -1 <= self.currentslot
        &&& self.currentslot >= 0 ==> slot_pos(self.fs(), self.currentslot + 1) <= tx.spec_block_size()
    }

    /// What a valid scan knows of its table and position.
    pub proof fn lemma_valid(&self, tx: &Transaction)
        requires
            self.valid(tx),
        ensures
            table_ok(tx, self.file(), self.fs()),
            0 <= self.bnum() < tx.blocks(self.file()).len(),
            self.cur_bytes(tx).len() == tx.spec_block_size(),
            slots_ok(self.cur_bytes(tx), self.fs()),
            -1 <= self.slot(),
            self.slot() >= 0 ==> slot_pos(self.fs(), self.slot() + 1) <= tx.spec_block_size(),
            tx.blocks(self.file()).len() < i32::MAX,
            self.is_open(),
    {
        self.rp.lemma_block_len(tx);
        tx.lemma_block_len(self.file(), self.bnum());
    }

    /// A scan stays valid across changes of other files.
    pub proof fn lemma_valid_other_change(&self, tx: &Transaction, tx2: &Transaction)
        requires
            self.valid(tx),
            tx2.wf(),
            tx2.spec_block_size() == tx.spec_block_size(),
            tx2.blocks(self.file()) == tx.blocks(self.file()),
        ensures
            self.valid(tx2),
            self.cur_bytes(tx2) == self.cur_bytes(tx),
    {
        assert forall|n: int| 0 <= n < tx2.blocks(self.file()).len() implies slots_ok(
            #[trigger] tx2.blocks(self.file())[n],
            self.fs(),
        ) by {
            assert(tx2.blocks(self.file())[n] == tx.blocks(self.file())[n]);
        }
    }

    /// Moves to the start of block `blknum`.
    fn move_to_block(&mut self, tx: &Transaction, blknum: i32)
        requires
            old(self).shape(),
            table_ok(tx, old(self).file(), old(self).fs()),
            0 <= blknum < tx.blocks(old(self).file()).len(),
        ensures
            final(self).valid(tx),
            final(self).file() == old(self).file(),
            final(self).fs() == old(self).fs(),
            final(self).bnum() == blknum,
            final(self).slot() == -1,
    {
        let blk = BlockId::new(self.filename.clone(), blknum);
        self.rp = BTPage::new(blk, self.layout.clone());
        self.currentslot = -1;
    }

    /// Appends a block of zeros to the table and moves to its start.
    fn move_to_new_block(&mut self, tx: &mut Transaction)
        requires
            old(self).shape(),
            table_ok(old(tx), old(self).file(), old(self).fs()),
            old(tx).blocks(old(self).file()).len() + 1 < i32::MAX,
        ensures
            final(self).valid(final(tx)),
            final(self).file() == old(self).file(),
            final(self).fs() == old(self).fs(),
            final(self).bnum() == old(tx).blocks(old(self).file()).len(),
            final(self).slot() == -1,
            final(tx).spec_block_size() == old(tx).spec_block_size(),
            final(tx).blocks(old(self).file()) == old(tx).blocks(old(self).file()).push(
                zero_block(old(tx).spec_block_size()),
            ),
            forall|nm: Seq<char>| nm != old(self).file() ==> #[trigger] final(tx).blocks(nm) == old(tx).blocks(nm),
    {
        let ghost tx0 = *tx;
        let blk = tx.append(self.filename.as_str());
        proof {
            let name = self.file();
            lemma_zero_block(self.fs(), tx0.spec_block_size());
            assert(zero_block(tx0.spec_block_size()) =~= Seq::new(tx0.spec_block_size(), |k: int| 0u8));
            assert forall|n: int| 0 <= n < tx.blocks(name).len() implies slots_ok(#[trigger] tx.blocks(name)[n], self.fs()) by {
                if n < tx0.blocks(name).len() {
                    assert(tx.blocks(name)[n] == tx0.blocks(name)[n]);
                }
            }
        }
        self.move_to_block(tx, blk.number());
    }

    /// Whether the scan is in the last block of the table.
    fn at_last_block(&self, tx: &Transaction) -> (r: bool)
        requires
            self.valid(tx),
        ensures
            r == (self.bnum() == tx.blocks(self.file()).len() - 1),
    {
        proof {
            self.lemma_valid(tx);
        }
        let size = tx.size(self.filename.as_str());
        self.rp.block().number() as usize == size - 1
    }

    /// Opens a scan of the table `tblname`, before its first record; an empty
    /// table first gets a block of zeros.
    pub fn new(tx: &mut Transaction, tblname: &str, layout: Layout) -> (r: Self)
        requires
            table_ok(old(tx), table_file(tblname@), layout.fields()),
            layout.wf(),
        ensures
            r.valid(final(tx)),
            r.file() == table_file(tblname@),
            r.fs() == layout.fields(),
            r.bnum() == 0,
            r.slot() == -1,
            final(tx).spec_block_size() == old(tx).spec_block_size(),
            old(tx).blocks(table_file(tblname@)).len() == 0 ==> final(tx).blocks(table_file(tblname@))
                == seq![zero_block(old(tx).spec_block_size())],
            old(tx).blocks(table_file(tblname@)).len() != 0 ==> *final(tx) == *old(tx),
            forall|nm: Seq<char>| nm != table_file(tblname@) ==> #[trigger] final(tx).blocks(nm) == old(tx).blocks(nm),
    {
        let filename = concat(tblname, ".tbl");
        let blk = BlockId::new(filename.clone(), 0);
        let rp = BTPage::new(blk, layout.clone());
        let mut ts = TableScan { layout, rp, filename, currentslot: -1 };
        if tx.size(ts.filename.as_str()) == 0 {
            ts.move_to_new_block(tx);
            proof {
                assert(tx.blocks(table_file(tblname@)) =~= seq![zero_block(old(tx).spec_block_size())]);
            }
        } else {
            ts.move_to_block(tx, 0);
        }
        ts
    }

    /// Moves before the first record of the table.
    pub fn before_first(&mut self, tx: &Transaction)
        requires
            old(self).valid(tx),
        ensures
            final(self).valid(tx),
            final(self).file() == old(self).file(),
            final(self).fs() == old(self).fs(),
            final(self).bnum() == 0,
            final(self).slot() == -1,
    {
        self.move_to_block(tx, 0);
    }

    /// Moves to the next record of the table; false when there is none, and
    /// the scan is then at the start of the last block.
    pub fn next(&mut self, tx: &Transaction) -> (r: bool)
        requires
            old(self).valid(tx),
        ensures
            final(self).valid(tx),
            final(self).file() == old(self).file(),
            final(self).fs() == old(self).fs(),
            r ==> {
                &&& used_at(tx, old(self).file(), old(self).fs(), final(self).bnum(), final(self).slot())
                &&& pos_before(old(self).bnum(), old(self).slot(), final(self).bnum(), final(self).slot())
                &&& forall|n: int, s: int|
                    pos_before(old(self).bnum(), old(self).slot(), n, s) && pos_before(
                        n,
                        s,
                        final(self).bnum(),
                        final(self).slot(),
                    ) ==> !#[trigger] used_at(tx, old(self).file(), old(self).fs(), n, s)
            },
            !r ==> {
                &&& forall|n: int, s: int|
                    pos_before(old(self).bnum(), old(self).slot(), n, s) ==> !#[trigger] used_at(
                        tx,
                        old(self).file(),
                        old(self).fs(),
                        n,
                        s,
                    )
                &&& final(self).bnum() == tx.blocks(old(self).file()).len() - 1
                &&& final(self).slot() == -1
            },
    {
        let ghost n0 = self.bnum();
        let ghost s0 = self.slot();
        let ghost name = self.file();
        let ghost fs = self.fs();
        loop
            invariant
                self.valid(tx),
                self.file() == name,
                self.fs() == fs,
                name == old(self).file(),
                fs == old(self).fs(),
                n0 == old(self).bnum(),
                s0 == old(self).slot(),
                n0 <= self.bnum(),
                self.bnum() == n0 ==> self.slot() == s0,
                self.bnum() > n0 ==> self.slot() == -1,
                forall|n: int, s: int|
                    pos_before(n0, s0, n, s) && (n < self.bnum() || (n == self.bnum() && s <= self.slot()))
                        ==> !#[trigger] used_at(tx, name, fs, n, s),
            decreases tx.blocks(name).len() - self.bnum(),
        {
            proof {
                self.lemma_valid(tx);
            }
            let s = self.rp.next_slot_with_flag(tx, self.currentslot, USED);
            if s >= 0 {
                self.currentslot = s;
                return true;
            }
            if self.at_last_block(tx) {
                self.currentslot = -1;
                return false;
            }
            let next = self.rp.block().number() + 1;
            self.move_to_block(tx, next);
        }
    }

    /// The integer in field `fldname` of the current record.
    pub fn get_int(&self, tx: &Transaction, fldname: &str) -> (r: i32)
        requires
            self.valid(tx),
            0 <= self.slot(),
            has_field_spec(self.fs(), fldname@),
        ensures
            r == int_at(self.cur_bytes(tx), field_pos(self.fs(), self.slot(), fidx(self.fs(), fldname@))),
    {
        proof {
            self.lemma_valid(tx);
            lemma_find_field(self.fs(), fldname@);
            lemma_field_in_slot(self.fs(), self.slot(), fidx(self.fs(), fldname@));
        }
        self.rp.get_int(tx, self.currentslot, fldname)
    }

    /// The value in field `fldname` of the current record.
    pub fn get_val(&self, tx: &Transaction, fldname: &str) -> (r: Constant)
        requires
            self.valid(tx),
            0 <= self.slot(),
            has_field_spec(self.fs(), fldname@),
        ensures
            r@ == field_val(self.cur_bytes(tx), self.fs(), self.slot(), fidx(self.fs(), fldname@)),
    {
        proof {
            self.lemma_valid(tx);
            lemma_find_field(self.fs(), fldname@);
            assert(slot_ok(self.cur_bytes(tx), self.fs(), self.slot()));
            assert(field_ok(self.cur_bytes(tx), self.fs(), self.slot(), fidx(self.fs(), fldname@)));
        }
        self.rp.get_val(tx, self.currentslot, fldname)
    }

    /// The string in field `fldname` of the current record.
    pub fn get_string(&self, tx: &Transaction, fldname: &str) -> (r: String)
        requires
            self.valid(tx),
            0 <= self.slot(),
            has_field_spec(self.fs(), fldname@),
            self.fs()[fidx(self.fs(), fldname@)].ftype != INTEGER,
        ensures
            ConstVal::Str(r@) == field_val(self.cur_bytes(tx), self.fs(), self.slot(), fidx(self.fs(), fldname@)),
    {
        proof {
            self.lemma_valid(tx);
            lemma_find_field(self.fs(), fldname@);
            assert(slot_ok(self.cur_bytes(tx), self.fs(), self.slot()));
            assert(field_ok(self.cur_bytes(tx), self.fs(), self.slot(), fidx(self.fs(), fldname@)));
        }
        self.rp.get_string(tx, self.currentslot, fldname)
    }

    /// The current block.
    pub closed spec fn blk(&self) -> BlockId {
        self.rp.blk().unwrap()
    }

    /// A valid scan's block is block `bnum` of its table.
    pub proof fn lemma_blk(&self, tx: &Transaction)
        requires
            self.valid(tx),
        ensures
            self.blk().spec_file_name() == self.file(),
            self.blk().spec_number() == self.bnum(),
            tx.has_block(self.blk()),
            tx.block(self.blk()) == self.cur_bytes(tx),
    {
    }

    /// A scan stays valid across a change of its block that keeps the block's
    /// slots well formed.
    proof fn lemma_valid_after(&self, tx: &Transaction, new_tx: &Transaction, nb: Seq<u8>)
        requires
            self.valid(tx),
            new_tx.wf(),
            tx.same_but(*new_tx, self.blk(), nb),
            slots_ok(nb, self.fs()),
        ensures
            self.valid(new_tx),
            self.cur_bytes(new_tx) == nb,
    {
        lemma_table_after_change(tx, new_tx, self.blk(), nb, self.fs());
        self.rp.lemma_placed_after(tx, new_tx, nb);
    }

    /// Writes the integer `val` into the integer field `fldname` of the
    /// current record.
    pub fn set_int(&self, tx: &mut Transaction, fldname: &str, val: i32)
        requires
            self.valid(old(tx)),
            0 <= self.slot(),
            has_field_spec(self.fs(), fldname@),
            self.fs()[fidx(self.fs(), fldname@)].ftype == INTEGER,
        ensures
            self.valid(final(tx)),
            old(tx).same_but(
                *final(tx),
                self.blk(),
                with_int(self.cur_bytes(old(tx)), field_pos(self.fs(), self.slot(), fidx(self.fs(), fldname@)), val),
            ),
            slots_kept(self.cur_bytes(old(tx)), self.cur_bytes(final(tx)), self.fs(), self.slot()),
            rec_val(self.cur_bytes(final(tx)), self.fs(), self.slot()) == rec_val(
                self.cur_bytes(old(tx)),
                self.fs(),
                self.slot(),
            ).update(fidx(self.fs(), fldname@), ConstVal::Int(val)),
            forall|s: int|
                0 <= s && slot_pos(self.fs(), s + 1) <= self.cur_bytes(old(tx)).len() ==> #[trigger] slot_flag(
                    self.cur_bytes(final(tx)),
                    self.fs(),
                    s,
                ) == slot_flag(self.cur_bytes(old(tx)), self.fs(), s),
    {
        let ghost fs = self.fs();
        let ghost i = fidx(fs, fldname@);
        let ghost t = self.slot();
        let ghost b0 = self.cur_bytes(tx);
        let ghost tx0 = *tx;
        proof {
            self.lemma_valid(tx);
            lemma_find_field(fs, fldname@);
            lemma_field_in_slot(fs, t, i);
        }
        self.rp.set_int(tx, self.currentslot, fldname, val);
        proof {
            let nb = with_int(b0, field_pos(fs, t, i), val);
            lemma_int_field_write(b0, fs, t, i, val);
            lemma_with_int_agree(b0, field_pos(fs, t, i), val);
            lemma_slots_after_field_write(b0, nb, fs, t, i);
            lemma_flags_after_field_write(b0, nb, fs, t, i);
            self.lemma_valid_after(&tx0, tx, nb);
        }
    }

    /// Writes the string `val` into the string field `fldname` of the
    /// current record; its UTF-8 bytes fit the field.
    pub fn set_string(&self, tx: &mut Transaction, fldname: &str, val: &str)
        requires
            self.valid(old(tx)),
            0 <= self.slot(),
            has_field_spec(self.fs(), fldname@),
            self.fs()[fidx(self.fs(), fldname@)].ftype != INTEGER,
            encode_utf8(val@).len() <= 4 * self.fs()[fidx(self.fs(), fldname@)].length,
        ensures
            self.valid(final(tx)),
            old(tx).same_but(
                *final(tx),
                self.blk(),
                with_bytes(
                    self.cur_bytes(old(tx)),
                    field_pos(self.fs(), self.slot(), fidx(self.fs(), fldname@)),
                    encode_utf8(val@),
                ),
            ),
            field_val(self.cur_bytes(final(tx)), self.fs(), self.slot(), fidx(self.fs(), fldname@))
                == ConstVal::Str(val@),
            slots_kept(self.cur_bytes(old(tx)), self.cur_bytes(final(tx)), self.fs(), self.slot()),
            rec_val(self.cur_bytes(final(tx)), self.fs(), self.slot()) == rec_val(
                self.cur_bytes(old(tx)),
                self.fs(),
                self.slot(),
            ).update(fidx(self.fs(), fldname@), ConstVal::Str(val@)),
            forall|s: int|
                0 <= s && slot_pos(self.fs(), s + 1) <= self.cur_bytes(old(tx)).len() ==> #[trigger] slot_flag(
                    self.cur_bytes(final(tx)),
                    self.fs(),
                    s,
                ) == slot_flag(self.cur_bytes(old(tx)), self.fs(), s),
    {
        let ghost fs = self.fs();
        let ghost i = fidx(fs, fldname@);
        let ghost t = self.slot();
        let ghost b0 = self.cur_bytes(tx);
        let ghost tx0 = *tx;
        proof {
            self.lemma_valid(tx);
            lemma_find_field(fs, fldname@);
            lemma_field_in_slot(fs, t, i);
            lemma_field_bounds(fs, i, i);
        }
        self.rp.set_string(tx, self.currentslot, fldname, val);
        proof {
            let nb = with_bytes(b0, field_pos(fs, t, i), encode_utf8(val@));
            lemma_string_field_write(b0, fs, t, i, val@);
            lemma_with_bytes_agree(b0, field_pos(fs, t, i), encode_utf8(val@));
            lemma_slots_after_field_write(b0, nb, fs, t, i);
            lemma_flags_after_field_write(b0, nb, fs, t, i);
            self.lemma_valid_after(&tx0, tx, nb);
        }
    }

    /// Writes `val` into field `fldname` of the current record; a value of
    /// the other kind than the field's is not written.
    pub fn set_val(&self, tx: &mut Transaction, fldname: &str, val: &Constant)
        requires
            self.valid(old(tx)),
            0 <= self.slot(),
            has_field_spec(self.fs(), fldname@),
            val@ is Str && self.fs()[fidx(self.fs(), fldname@)].ftype != INTEGER ==> val_fits(
                val@,
                self.fs()[fidx(self.fs(), fldname@)],
            ),
        ensures
            self.valid(final(tx)),
            old(tx).same_but(*final(tx), self.blk(), self.cur_bytes(final(tx))),
            val_fits(val@, self.fs()[fidx(self.fs(), fldname@)]) ==> {
                &&& rec_val(self.cur_bytes(final(tx)), self.fs(), self.slot()) == rec_val(
                    self.cur_bytes(old(tx)),
                    self.fs(),
                    self.slot(),
                ).update(fidx(self.fs(), fldname@), val@)
                &&& forall|s: int|
                    0 <= s && s != self.slot() && slot_pos(self.fs(), s + 1) <= self.cur_bytes(old(tx)).len()
                        ==> #[trigger] rec_val(self.cur_bytes(final(tx)), self.fs(), s) == rec_val(
                        self.cur_bytes(old(tx)),
                        self.fs(),
                        s,
                    )
            },
            !val_fits(val@, self.fs()[fidx(self.fs(), fldname@)]) ==> self.cur_bytes(final(tx))
                == self.cur_bytes(old(tx)),
            forall|s: int|
                0 <= s && slot_pos(self.fs(), s + 1) <= self.cur_bytes(old(tx)).len() ==> #[trigger] slot_flag(
                    self.cur_bytes(final(tx)),
                    self.fs(),
                    s,
                ) == slot_flag(self.cur_bytes(old(tx)), self.fs(), s),
    {
        let ghost fs = self.fs();
        let ghost i = fidx(fs, fldname@);
        let ghost t = self.slot();
        let ghost b0 = self.cur_bytes(tx);
        let ghost tx0 = *tx;
        proof {
            self.lemma_valid(tx);
            lemma_find_field(fs, fldname@);
            lemma_field_in_slot(fs, t, i);
        }
        self.rp.set_val(tx, self.currentslot, fldname, val);
        proof {
            let nb = self.rp.bytes(tx);
            tx0.lemma_same_but_self(*tx, self.blk(), nb);
            if val_fits(val@, fs[i]) {
                lemma_slots_after_field_write(b0, nb, fs, t, i);
                lemma_flags_after_field_write(b0, nb, fs, t, i);
            }
            self.lemma_valid_after(&tx0, tx, nb);
        }
    }

    /// Takes the first free slot after the current one, in this block or a
    /// later one, or else the first slot of a new block; marks it in use and
    /// moves to it.
    pub fn insert(&mut self, tx: &mut Transaction)
        requires
            old(self).valid(old(tx)),
            old(tx).blocks(old(self).file()).len() + 1 < i32::MAX,
        ensures
            final(self).valid(final(tx)),
            final(self).file() == old(self).file(),
            final(self).fs() == old(self).fs(),
            final(tx).spec_block_size() == old(tx).spec_block_size(),
            forall|nm: Seq<char>| nm != old(self).file() ==> #[trigger] final(tx).blocks(nm) == old(tx).blocks(nm),
            pos_before(old(self).bnum(), old(self).slot(), final(self).bnum(), final(self).slot()),
            0 <= final(self).slot(),
            final(self).bnum() <= old(tx).blocks(old(self).file()).len(),
            used_at(final(tx), old(self).file(), old(self).fs(), final(self).bnum(), final(self).slot()),
            !used_at(old(tx), old(self).file(), old(self).fs(), final(self).bnum(), final(self).slot()),
            records_kept(old(tx), final(tx), old(self).file(), old(self).fs()),
            forall|n: int, s: int|
                pos_before(old(self).bnum(), old(self).slot(), n, s) && pos_before(
                    n,
                    s,
                    final(self).bnum(),
                    final(self).slot(),
                ) ==> !#[trigger] free_at(old(tx), old(self).file(), old(self).fs(), n, s),
            ({
                let name = old(self).file();
                let fs = old(self).fs();
                let n1 = final(self).bnum();
                let s1 = final(self).slot();
                let len0 = old(tx).blocks(name).len();
                &&& n1 < len0 ==> {
                    &&& free_at(old(tx), name, fs, n1, s1)
                    &&& final(tx).blocks(name) == old(tx).blocks(name).update(
                        n1,
                        with_int(old(tx).blocks(name)[n1], slot_pos(fs, s1), USED),
                    )
                }
                &&& n1 == len0 ==> {
                    &&& s1 == 0
                    &&& final(tx).blocks(name) == old(tx).blocks(name).push(
                        with_int(zero_block(old(tx).spec_block_size()), slot_pos(fs, 0), USED),
                    )
                }
            }),
    {
        let ghost tx0 = *tx;
        let ghost n0 = self.bnum();
        let ghost s0 = self.slot();
        let ghost name = self.file();
        let ghost fs = self.fs();
        let ghost len0 = tx.blocks(name).len() as int;
        let ghost bs = tx.spec_block_size();
        loop
            invariant
                self.valid(tx),
                self.file() == name,
                self.fs() == fs,
                name == old(self).file(),
                fs == old(self).fs(),
                tx0 == *old(tx),
                n0 == old(self).bnum(),
                s0 == old(self).slot(),
                len0 == tx0.blocks(name).len(),
                len0 + 1 < i32::MAX,
                bs == tx0.spec_block_size(),
                n0 < len0,
                n0 <= self.bnum() <= len0,
                self.bnum() == n0 ==> self.slot() == s0,
                self.bnum() > n0 ==> self.slot() == -1,
                self.bnum() < len0 ==> *tx == tx0,
                self.bnum() == len0 ==> {
                    &&& tx.spec_block_size() == bs
                    &&& tx.blocks(name) == tx0.blocks(name).push(zero_block(bs))
                    &&& forall|nm: Seq<char>| nm != name ==> #[trigger] tx.blocks(nm) == tx0.blocks(nm)
                },
                forall|n: int, s: int|
                    pos_before(n0, s0, n, s) && (n < self.bnum() || (n == self.bnum() && s <= self.slot()))
                        ==> !#[trigger] free_at(&tx0, name, fs, n, s),
            decreases len0 + 1 - self.bnum(),
        {
            proof {
                self.lemma_valid(tx);
            }
            let s = self.rp.next_slot_with_flag(tx, self.currentslot, EMPTY);
            if s >= 0 {
                let ghost tx1 = *tx;
                let ghost b1 = self.cur_bytes(tx);
                proof {
                    lemma_slot_flag_write(b1, fs, s as int, USED);
                }
                self.rp.set_slot_flag(tx, s, USED);
                proof {
                    self.lemma_valid_after(&tx1, tx, with_int(b1, slot_pos(fs, s as int), USED));
                }
                self.currentslot = s;
                proof {
                    if self.bnum() == len0 {
                        lemma_zero_block(fs, bs);
                        assert(has_flag(b1, fs, 0, EMPTY));
                        assert(s == 0);
                        assert(tx.blocks(name) =~= tx0.blocks(name).push(
                            with_int(zero_block(bs), slot_pos(fs, 0), USED),
                        ));
                        assert forall|m: int, t: int| #[trigger] used_at(&tx0, name, fs, m, t) implies used_at(
                            tx,
                            name,
                            fs,
                            m,
                            t,
                        ) && rec_at(tx, name, fs, m, t) == rec_at(&tx0, name, fs, m, t) by {
                            assert(tx.blocks(name)[m] == tx0.blocks(name)[m]);
                        }
                    } else {
                        let n1 = self.bnum();
                        assert forall|m: int, t: int| #[trigger] used_at(&tx0, name, fs, m, t) implies used_at(
                            tx,
                            name,
                            fs,
                            m,
                            t,
                        ) && rec_at(tx, name, fs, m, t) == rec_at(&tx0, name, fs, m, t) by {
                            if m == n1 {
                                assert(t != s);
                            } else {
                                assert(tx.blocks(name)[m] == tx0.blocks(name)[m]);
                            }
                        }
                    }
                }
                return;
            }
            proof {
                if self.bnum() == len0 {
                    lemma_zero_block(fs, bs);
                    assert(has_flag(self.cur_bytes(tx), fs, 0, EMPTY));
                }
            }
            if self.at_last_block(tx) {
                self.move_to_new_block(tx);
            } else {
                let next = self.rp.block().number() + 1;
                self.move_to_block(tx, next);
            }
        }
    }

    /// Frees the slot of the current record.
    pub fn delete(&self, tx: &mut Transaction)
        requires
            self.valid(old(tx)),
            0 <= self.slot(),
        ensures
            self.valid(final(tx)),
            old(tx).same_but(*final(tx), self.blk(), with_int(self.cur_bytes(old(tx)), slot_pos(self.fs(), self.slot()), EMPTY)),
    {
        let ghost tx0 = *tx;
        proof {
            self.lemma_valid(tx);
            lemma_slot_flag_write(self.cur_bytes(tx), self.fs(), self.slot(), EMPTY);
        }
        self.rp.set_slot_flag(tx, self.currentslot, EMPTY);
        proof {
            self.lemma_valid_after(&tx0, tx, with_int(self.cur_bytes(&tx0), slot_pos(self.fs(), self.slot()), EMPTY));
        }
    }

    /// The id of the current record: its block and slot.
    pub fn get_rid(&self) -> (r: RID)
        requires
            self.is_open(),
        ensures
            r.blknum == self.bnum(),
            r.slot == self.slot(),
    {
        RID::new(self.rp.block().number(), self.currentslot)
    }
}

} // verus!
