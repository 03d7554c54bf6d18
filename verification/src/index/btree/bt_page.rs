use vstd::prelude::*;

use crate::file::page::{int_at, string_at, with_bytes, with_int};
use crate::file::BlockId;
use crate::index::btree::page_format::{
    agree_outside, field_ok, lemma_header_untouched, lemma_slots_after_field_write,
    lemma_slots_after_header_write, lemma_slots_after_slot_write, lemma_slot_untouched, field_pos, field_val,
    flag_of, lemma_field_in_slot, lemma_fields_disjoint, lemma_field_untouched, lemma_int_field_write,
    lemma_slot_order, lemma_slot_pos_mono, lemma_string_field_write, lemma_with_bytes_agree,
    lemma_with_int_agree, num_of, page_wf, rec_val, recs_of, slot_flag, slot_ok, slot_pos, val_fits, has_flag,
    next_with_flag, lemma_slot_pos_ge,
};
use crate::query::constant::{same_kind, val_order, ConstVal, Constant};
use crate::record::layout::{field_bytes, fields_fit, lemma_field_bounds, slot_bytes, Layout};
use crate::record::schema::{find_field, has_field_spec, lemma_find_field, FieldSpec, INTEGER};
use crate::record::RID;
use crate::tx::Transaction;
use vstd::utf8::encode_utf8;

verus! {

/// Field names differ from one another.
pub open spec fn names_distinct(fs: Seq<FieldSpec>) -> bool {
    forall|i: int, j: int| 0 <= i < j < fs.len() ==> fs[i].name != fs[j].name
}

/// The index of the field named `name`.
pub open spec fn fidx(fs: Seq<FieldSpec>, name: Seq<char>) -> int {
    find_field(fs, name)
}

/// Where fields are distinct, a field's own name finds it.
pub proof fn lemma_fidx_own(fs: Seq<FieldSpec>, k: int)
    requires
        names_distinct(fs),
        0 <= k < fs.len(),
    ensures
        fidx(fs, fs[k].name) == k,
{
    lemma_find_field(fs, fs[k].name);
    let j = find_field(fs, fs[k].name);
    assert(has_field_spec(fs, fs[k].name));
    if j < k {
    } else if j > k {
    }
}

/// Whether the first `k` fields of slot `to` of `b` hold the values of slot `from` of `b0`.
pub open spec fn copied_prefix(b: Seq<u8>, b0: Seq<u8>, fs: Seq<FieldSpec>, to: int, from: int, k: int) -> bool {
    forall|j: int|
        0 <= j < k ==> #[trigger] field_ok(b, fs, to, j) && field_val(b, fs, to, j) == field_val(
            b0,
            fs,
            from,
            j,
        )
}

/// The fields of a leaf index record: the block and slot of the data record,
/// then the indexed value.
pub open spec fn leaf_layout(fs: Seq<FieldSpec>) -> bool {
    &&& fs.len() == 3
    &&& fs[0].name == "block"@
    &&& fs[0].ftype == INTEGER
    &&& fs[1].name == "id"@
    &&& fs[1].ftype == INTEGER
    &&& fs[2].name == "dataval"@
}

/// The fields of a directory record: the child block, then the first value it holds.
pub open spec fn dir_layout(fs: Seq<FieldSpec>) -> bool {
    &&& fs.len() == 2
    &&& fs[0].name == "block"@
    &&& fs[0].ftype == INTEGER
    &&& fs[1].name == "dataval"@
}

/// The fields of a B-tree page, leaf or directory.
pub open spec fn index_layout(fs: Seq<FieldSpec>) -> bool {
    leaf_layout(fs) || dir_layout(fs)
}

/// Whether `key` is of the kind the field `f` stores.
pub open spec fn kind_fits(key: ConstVal, f: FieldSpec) -> bool {
    if f.ftype == INTEGER {
        key is Int
    } else {
        key is Str
    }
}

/// The value a formatted page holds in a field: 0 for an integer field and
/// the empty string for a string field.
pub open spec fn default_val(f: FieldSpec) -> ConstVal {
    if f.ftype == INTEGER {
        ConstVal::Int(0)
    } else {
        ConstVal::Str(Seq::empty())
    }
}

/// The record of default values for the fields `fs`.
pub open spec fn default_rec(fs: Seq<FieldSpec>) -> Seq<ConstVal> {
    Seq::new(fs.len(), |i: int| default_val(fs[i]))
}

/// The indexed value of an index record: its last field.
pub open spec fn dv(rec: Seq<ConstVal>) -> ConstVal {
    rec.last()
}

/// The field names of index records find their fields.
pub proof fn lemma_index_fields(fs: Seq<FieldSpec>)
    requires
        index_layout(fs),
        names_distinct(fs),
    ensures
        has_field_spec(fs, "block"@),
        has_field_spec(fs, "dataval"@),
        fidx(fs, "block"@) == 0,
        fidx(fs, "dataval"@) == fs.len() - 1,
        leaf_layout(fs) ==> has_field_spec(fs, "id"@) && fidx(fs, "id"@) == 1,
{
    lemma_fidx_own(fs, 0);
    lemma_fidx_own(fs, fs.len() - 1);
    assert(fs[0].name == "block"@);
    assert(fs[fs.len() - 1].name == "dataval"@);
    if leaf_layout(fs) {
        lemma_fidx_own(fs, 1);
        assert(fs[1].name == "id"@);
    }
}

/// Whether field `i` of slot `slot` lies inside the page `b`.
pub open spec fn field_in_page(b: Seq<u8>, fs: Seq<FieldSpec>, slot: int, i: int) -> bool {
    0 <= slot && 0 <= i < fs.len() && field_pos(fs, slot, i) + field_bytes(fs[i]) <= b.len()
}

/// A page of a B-tree block: directory and leaf pages keep their records
/// sorted by `dataval`, and split when full.
pub struct BTPage {
    currentblk: Option<BlockId>,
    layout: Layout,
}

impl BTPage {
    /// The block this page is open on, if it is open.
    pub closed spec fn blk(&self) -> Option<BlockId> {
        self.currentblk
    }

    /// The fields of the page's records.
    pub closed spec fn fs(&self) -> Seq<FieldSpec> {
        self.layout.fields()
    }

    /// The bytes of the page's block.
    pub open spec fn bytes(&self, tx: &Transaction) -> Seq<u8> {
        tx.block(self.blk().unwrap())
    }

    /// The records of the page, in slot order.
    pub open spec fn recs(&self, tx: &Transaction) -> Seq<Seq<ConstVal>> {
        recs_of(self.bytes(tx), self.fs())
    }

    /// The flag of the page.
    pub open spec fn flag(&self, tx: &Transaction) -> i32 {
        flag_of(self.bytes(tx))
    }

    /// The layout of the page agrees with its schema, and its field names differ.
    pub closed spec fn layout_ok(&self) -> bool {
        self.layout.wf() && names_distinct(self.layout.fields())
    }

    /// The page is open on a block of `tx` and lies within it.
    pub open spec fn placed(&self, tx: &Transaction) -> bool {
        &&& self.blk() is Some
        &&& self.layout_ok()
        &&& tx.wf()
        &&& tx.has_block(self.blk().unwrap())
        &&& tx.spec_block_size() <= i32::MAX
        &&& tx.spec_block_size() >= 8
    }

    /// The page is open on a block of `tx` that holds a well-formed B-tree page.
    pub open spec fn valid(&self, tx: &Transaction) -> bool {
        &&& self.placed(tx)
        &&& page_wf(self.bytes(tx), self.fs())
    }

    /// A page with a good layout places fields that fit, with distinct names.
    pub proof fn lemma_layout(&self)
        requires
            self.layout_ok(),
        ensures
            fields_fit(self.fs()),
            names_distinct(self.fs()),
    {
        self.layout.lemma_wf();
    }

    /// The bytes of a placed page have the block size.
    pub proof fn lemma_block_len(&self, tx: &Transaction)
        requires
            self.placed(tx),
        ensures
            self.bytes(tx).len() == tx.spec_block_size(),
            fields_fit(self.fs()),
            names_distinct(self.fs()),
    {
        self.lemma_layout();
        tx.lemma_block_len(self.blk().unwrap().spec_file_name(), self.blk().unwrap().spec_number() as int);
    }

    /// Opens a page on the block `currentblk`.
    pub fn new(currentblk: BlockId, layout: Layout) -> (r: Self)
        ensures
            r.blk() == Some(currentblk),
            r.fs() == layout.fields(),
            r.layout_ok() == (layout.wf() && names_distinct(layout.fields())),
    {
        BTPage { currentblk: Some(currentblk), layout }
    }

    /// Closes the page.
    pub fn close(&mut self)
        ensures
            final(self).blk() is None,
            final(self).fs() == old(self).fs(),
            final(self).layout_ok() == old(self).layout_ok(),
    {
        self.currentblk = None;
    }

    /// The block the page is open on.
    pub fn block(&self) -> (r: &BlockId)
        requires
            self.blk() is Some,
        ensures
            *r == self.blk().unwrap(),
    {
        self.currentblk.as_ref().unwrap()
    }

    /// The layout of the page's records.
    pub fn layout(&self) -> (r: &Layout)
        ensures
            r.fields() == self.fs(),
            self.layout_ok() ==> r.wf(),
    {
        &self.layout
    }

    /// The value of the page's flag field; 0 for a closed page.
    pub fn get_flag(&self, tx: &Transaction) -> (r: i32)
        requires
            self.blk() is Some ==> self.placed(tx),
        ensures
            self.blk() is Some ==> r == self.flag(tx),
            self.blk() is None ==> r == 0,
    {
        match &self.currentblk {
            Some(blk) => {
                proof {
                    self.lemma_block_len(tx);
                }
                tx.get_int(blk, 0)
            },
            None => 0,
        }
    }

    /// Sets the page's flag field.
    pub fn set_flag(&self, tx: &mut Transaction, val: i32)
        requires
            self.placed(old(tx)),
        ensures
            final(tx).wf(),
            old(tx).same_but(*final(tx), self.blk().unwrap(), with_int(self.bytes(old(tx)), 0, val)),
    {
        proof {
            self.lemma_block_len(tx);
        }
        let blk = self.currentblk.as_ref().unwrap();
        tx.set_int(blk, 0, val, true);
    }

    /// The number of records in the page; 0 for a closed page.
    pub fn get_num_recs(&self, tx: &Transaction) -> (r: i32)
        requires
            self.blk() is Some ==> self.placed(tx),
        ensures
            self.blk() is Some ==> r == num_of(self.bytes(tx)),
            self.blk() is None ==> r == 0,
    {
        match &self.currentblk {
            Some(blk) => {
                proof {
                    self.lemma_block_len(tx);
                }
                tx.get_int(blk, 4)
            },
            None => 0,
        }
    }

    pub(crate) fn set_num_recs(&self, tx: &mut Transaction, n: i32)
        requires
            self.placed(old(tx)),
        ensures
            final(tx).wf(),
            old(tx).same_but(*final(tx), self.blk().unwrap(), with_int(self.bytes(old(tx)), 4, n)),
    {
        proof {
            self.lemma_block_len(tx);
        }
        let blk = self.currentblk.as_ref().unwrap();
        tx.set_int(blk, 4, n, true);
    }

    /// Where slot `slot` starts.
    fn slotpos(&self, slot: i32) -> (r: i32)
        requires
            self.layout_ok(),
            0 <= slot,
            slot_pos(self.fs(), slot as int) <= i32::MAX,
        ensures
            r == slot_pos(self.fs(), slot as int),
    {
        let slotsize = self.layout.slot_size();
        proof {
            self.lemma_layout();
            crate::record::layout::lemma_sum_bytes_nonneg(self.fs());
            assert(0 <= slot * slotsize) by (nonlinear_arith)
                requires
                    slot >= 0,
                    slotsize >= 0,
            ;
        }
        8 + (slot * slotsize)
    }

    /// Where the field `fldname` of slot `slot` starts.
    fn fldpos(&self, slot: i32, fldname: &str) -> (r: i32)
        requires
            self.layout_ok(),
            has_field_spec(self.fs(), fldname@),
            0 <= slot,
            field_pos(self.fs(), slot as int, fidx(self.fs(), fldname@)) <= i32::MAX,
        ensures
            r == field_pos(self.fs(), slot as int, fidx(self.fs(), fldname@)),
    {
        proof {
            self.lemma_layout();
            lemma_find_field(self.fs(), fldname@);
            lemma_field_bounds(self.fs(), fidx(self.fs(), fldname@), fidx(self.fs(), fldname@));
        }
        let offset = self.layout.offset(fldname);
        self.slotpos(slot) + offset
    }

    /// The integer in field `fldname` of slot `slot`.
    pub(crate) fn get_int(&self, tx: &Transaction, slot: i32, fldname: &str) -> (r: i32)
        requires
            self.placed(tx),
            has_field_spec(self.fs(), fldname@),
            field_in_page(self.bytes(tx), self.fs(), slot as int, fidx(self.fs(), fldname@)),
        ensures
            r == int_at(self.bytes(tx), field_pos(self.fs(), slot as int, fidx(self.fs(), fldname@))),
    {
        proof {
            self.lemma_block_len(tx);
            lemma_find_field(self.fs(), fldname@);
            lemma_field_bounds(self.fs(), fidx(self.fs(), fldname@), fidx(self.fs(), fldname@));
        }
        let pos = self.fldpos(slot, fldname);
        let blk = self.currentblk.as_ref().unwrap();
        tx.get_int(blk, pos as usize)
    }

    /// The string in field `fldname` of slot `slot`.
    pub(crate) fn get_string(&self, tx: &Transaction, slot: i32, fldname: &str) -> (r: String)
        requires
            self.placed(tx),
            has_field_spec(self.fs(), fldname@),
            self.fs()[fidx(self.fs(), fldname@)].ftype != INTEGER,
            field_ok(self.bytes(tx), self.fs(), slot as int, fidx(self.fs(), fldname@)),
            0 <= slot,
        ensures
            r@ == string_at(self.bytes(tx), field_pos(self.fs(), slot as int, fidx(self.fs(), fldname@))),
    {
        proof {
            self.lemma_block_len(tx);
            lemma_find_field(self.fs(), fldname@);
            lemma_field_bounds(self.fs(), fidx(self.fs(), fldname@), fidx(self.fs(), fldname@));
        }
        let pos = self.fldpos(slot, fldname);
        let blk = self.currentblk.as_ref().unwrap();
        tx.get_string(blk, pos as usize)
    }

    /// The value in field `fldname` of slot `slot`.
    pub(crate) fn get_val(&self, tx: &Transaction, slot: i32, fldname: &str) -> (r: Constant)
        requires
            self.placed(tx),
            has_field_spec(self.fs(), fldname@),
            0 <= slot,
            field_ok(self.bytes(tx), self.fs(), slot as int, fidx(self.fs(), fldname@)),
        ensures
            r@ == field_val(self.bytes(tx), self.fs(), slot as int, fidx(self.fs(), fldname@)),
    {
        proof {
            lemma_find_field(self.fs(), fldname@);
        }
        let field_type = self.layout.schema().ftype(fldname);
        if field_type == INTEGER {
            Constant::from_int(self.get_int(tx, slot, fldname))
        } else {
            Constant::from_string(self.get_string(tx, slot, fldname))
        }
    }

    /// Writes an integer into field `fldname` of slot `slot`.
    pub(crate) fn set_int(&self, tx: &mut Transaction, slot: i32, fldname: &str, val: i32)
        requires
            self.placed(old(tx)),
            has_field_spec(self.fs(), fldname@),
            field_in_page(self.bytes(old(tx)), self.fs(), slot as int, fidx(self.fs(), fldname@)),
        ensures
            final(tx).wf(),
            old(tx).same_but(
                *final(tx),
                self.blk().unwrap(),
                with_int(
                    self.bytes(old(tx)),
                    field_pos(self.fs(), slot as int, fidx(self.fs(), fldname@)),
                    val,
                ),
            ),
    {
        proof {
            self.lemma_block_len(tx);
            lemma_find_field(self.fs(), fldname@);
            lemma_field_bounds(self.fs(), fidx(self.fs(), fldname@), fidx(self.fs(), fldname@));
        }
        let pos = self.fldpos(slot, fldname);
        let blk = self.currentblk.as_ref().unwrap();
        tx.set_int(blk, pos as usize, val, true);
    }

    /// Writes a string into field `fldname` of slot `slot`.
    pub(crate) fn set_string(&self, tx: &mut Transaction, slot: i32, fldname: &str, val: &str)
        requires
            self.placed(old(tx)),
            has_field_spec(self.fs(), fldname@),
            self.fs()[fidx(self.fs(), fldname@)].ftype != INTEGER,
            encode_utf8(val@).len() <= 4 * self.fs()[fidx(self.fs(), fldname@)].length,
            field_in_page(self.bytes(old(tx)), self.fs(), slot as int, fidx(self.fs(), fldname@)),
        ensures
            final(tx).wf(),
            old(tx).same_but(
                *final(tx),
                self.blk().unwrap(),
                with_bytes(
                    self.bytes(old(tx)),
                    field_pos(self.fs(), slot as int, fidx(self.fs(), fldname@)),
                    encode_utf8(val@),
                ),
            ),
    {
        proof {
            self.lemma_block_len(tx);
            lemma_find_field(self.fs(), fldname@);
            lemma_field_bounds(self.fs(), fidx(self.fs(), fldname@), fidx(self.fs(), fldname@));
        }
        let pos = self.fldpos(slot, fldname);
        let blk = self.currentblk.as_ref().unwrap();
        tx.set_string(blk, pos as usize, val, true);
    }

    /// Writes `val` into field `fldname` of slot `slot`; a value of the other
    /// kind than the field's is not written.
    pub(crate) fn set_val(&self, tx: &mut Transaction, slot: i32, fldname: &str, val: &Constant)
        requires
            self.placed(old(tx)),
            has_field_spec(self.fs(), fldname@),
            field_in_page(self.bytes(old(tx)), self.fs(), slot as int, fidx(self.fs(), fldname@)),
            val@ is Str && self.fs()[fidx(self.fs(), fldname@)].ftype != INTEGER ==> val_fits(
                val@,
                self.fs()[fidx(self.fs(), fldname@)],
            ),
        ensures
            final(tx).wf(),
            old(tx).same_but(*final(tx), self.blk().unwrap(), self.bytes(final(tx))),
            val_fits(val@, self.fs()[fidx(self.fs(), fldname@)]) ==> {
                &&& agree_outside(
                    self.bytes(old(tx)),
                    self.bytes(final(tx)),
                    field_pos(self.fs(), slot as int, fidx(self.fs(), fldname@)),
                    field_pos(self.fs(), slot as int, fidx(self.fs(), fldname@)) + field_bytes(
                        self.fs()[fidx(self.fs(), fldname@)],
                    ),
                )
                &&& field_ok(self.bytes(final(tx)), self.fs(), slot as int, fidx(self.fs(), fldname@))
                &&& field_val(self.bytes(final(tx)), self.fs(), slot as int, fidx(self.fs(), fldname@))
                    == val@
            },
            !val_fits(val@, self.fs()[fidx(self.fs(), fldname@)]) ==> self.bytes(final(tx))
                == self.bytes(old(tx)),
    {
        proof {
            self.lemma_block_len(tx);
            lemma_find_field(self.fs(), fldname@);
        }
        let ghost i = fidx(self.fs(), fldname@);
        let ghost b = self.bytes(tx);
        let ghost blk = self.blk().unwrap();
        let field_type = self.layout.schema().ftype(fldname);
        if field_type == INTEGER {
            if let Some(iv) = val.as_int() {
                self.set_int(tx, slot, fldname, iv);
                proof {
                    tx.lemma_block_len(blk.spec_file_name(), blk.spec_number() as int);
                    lemma_field_in_slot(self.fs(), slot as int, i);
                    lemma_int_field_write(b, self.fs(), slot as int, i, iv);
                    lemma_with_int_agree(b, field_pos(self.fs(), slot as int, i), iv);
                    lemma_field_bounds(self.fs(), i, i);
                }
            } else {
                proof {
                    assert(tx.blocks(blk.spec_file_name()) =~= tx.blocks(blk.spec_file_name()).update(
                        blk.spec_number() as int,
                        b,
                    ));
                }
            }
        } else {
            if let Some(sv) = val.as_string() {
                self.set_string(tx, slot, fldname, sv);
                proof {
                    lemma_field_bounds(self.fs(), i, i);
                    lemma_string_field_write(b, self.fs(), slot as int, i, sv@);
                    lemma_with_bytes_agree(b, field_pos(self.fs(), slot as int, i), encode_utf8(sv@));
                }
            } else {
                proof {
                    assert(tx.blocks(blk.spec_file_name()) =~= tx.blocks(blk.spec_file_name()).update(
                        blk.spec_number() as int,
                        b,
                    ));
                }
            }
        }
    }

    /// The in-use flag of slot `slot`.
    pub(crate) fn get_slot_flag(&self, tx: &Transaction, slot: i32) -> (r: i32)
        requires
            self.placed(tx),
            self.slot_in(tx, slot as int),
        ensures
            r == slot_flag(self.bytes(tx), self.fs(), slot as int),
    {
        proof {
            self.lemma_block_len(tx);
            lemma_slot_order(self.fs(), slot as int, slot + 1);
            lemma_slot_pos_mono(self.fs(), slot as int, slot as int);
            crate::record::layout::lemma_sum_bytes_nonneg(self.fs());
        }
        let pos = self.slotpos(slot);
        let blk = self.currentblk.as_ref().unwrap();
        tx.get_int(blk, pos as usize)
    }

    /// Sets the in-use flag of slot `slot`.
    pub(crate) fn set_slot_flag(&self, tx: &mut Transaction, slot: i32, val: i32)
        requires
            self.placed(old(tx)),
            self.slot_in(old(tx), slot as int),
        ensures
            final(tx).wf(),
            old(tx).same_but(
                *final(tx),
                self.blk().unwrap(),
                with_int(self.bytes(old(tx)), slot_pos(self.fs(), slot as int), val),
            ),
    {
        proof {
            self.lemma_block_len(tx);
            lemma_slot_order(self.fs(), slot as int, slot + 1);
            lemma_slot_pos_mono(self.fs(), slot as int, slot as int);
            crate::record::layout::lemma_sum_bytes_nonneg(self.fs());
        }
        let pos = self.slotpos(slot);
        let blk = self.currentblk.as_ref().unwrap();
        tx.set_int(blk, pos as usize, val, true);
    }

    /// The first slot after `slot` whose in-use flag is `flag`, or -1.
    pub(crate) fn next_slot_with_flag(&self, tx: &Transaction, slot: i32, flag: i32) -> (r: i32)
        requires
            self.placed(tx),
            -1 <= slot,
            slot >= 0 ==> slot_pos(self.fs(), slot + 1) <= self.bytes(tx).len(),
        ensures
            next_with_flag(self.bytes(tx), self.fs(), slot as int, flag, r as int),
    {
        proof {
            self.lemma_block_len(tx);
            crate::record::layout::lemma_sum_bytes_nonneg(self.fs());
            if slot >= 0 {
                lemma_slot_pos_ge(self.fs(), slot + 1);
            }
        }
        let ghost fs = self.fs();
        let ghost b = self.bytes(tx);
        let bs: i64 = tx.block_size() as i64;
        let ss: i64 = self.layout.slot_size() as i64;
        let mut s: i32 = slot + 1;
        proof {
            assert(0 * slot_bytes(fs) == 0);
            lemma_slot_pos_mono(fs, s as int, s as int);
            lemma_slot_pos_ge(fs, s as int);
            assert((s + 1) * ss <= 0x4000_0000_0000_0000) by (nonlinear_arith)
                requires
                    0 <= s + 1 <= bs,
                    bs <= i32::MAX,
                    4 <= ss <= i32::MAX,
            ;
        }
        while 8 + (s as i64 + 1) * ss <= bs
            invariant
                self.placed(tx),
                fs == self.fs(),
                b == self.bytes(tx),
                bs == b.len(),
                8 <= bs <= i32::MAX,
                ss == slot_bytes(fs),
                4 <= ss <= i32::MAX,
                fields_fit(fs),
                slot < s,
                0 <= s,
                slot_pos(fs, s as int) <= bs,
                0 <= (s + 1) * ss <= 0x4000_0000_0000_0000,
                forall|t: int| slot < t < s ==> !#[trigger] has_flag(b, fs, t, flag),
            decreases bs - s,
        {
            proof {
                lemma_slot_pos_ge(fs, s as int + 1);
                assert((s + 2) * ss <= 0x4000_0000_0000_0000) by (nonlinear_arith)
                    requires
                        0 <= s + 2 <= bs,
                        bs <= i32::MAX,
                        4 <= ss <= i32::MAX,
                ;
            }
            if self.get_slot_flag(tx, s) == flag {
                return s;
            }
            s = s + 1;
        }
        proof {
            assert forall|t: int| slot < t implies !#[trigger] has_flag(b, fs, t, flag) by {
                if t >= s {
                    lemma_slot_pos_mono(fs, s + 1, t + 1);
                }
            }
        }
        -1
    }

    /// A page stays placed across a change of its own block.
    pub proof fn lemma_placed_after(&self, old_tx: &Transaction, new_tx: &Transaction, nb: Seq<u8>)
        requires
            self.placed(old_tx),
            new_tx.wf(),
            old_tx.same_but(*new_tx, self.blk().unwrap(), nb),
        ensures
            self.placed(new_tx),
            self.bytes(new_tx) == nb,
    {
    }

    /// Copies every field of slot `from` into slot `to`.
    #[verifier::spinoff_prover]
    #[verifier::rlimit(50)]
    fn copy_record(&self, tx: &mut Transaction, from: i32, to: i32)
        requires
            self.valid(old(tx)),
            0 <= from < num_of(self.bytes(old(tx))),
            0 <= to,
            slot_pos(self.fs(), to + 1) <= self.bytes(old(tx)).len(),
            from != to,
        ensures
            final(tx).wf(),
            self.placed(final(tx)),
            old(tx).same_but(*final(tx), self.blk().unwrap(), self.bytes(final(tx))),
            agree_outside(
                self.bytes(old(tx)),
                self.bytes(final(tx)),
                slot_pos(self.fs(), to as int),
                slot_pos(self.fs(), to + 1),
            ),
            slot_ok(self.bytes(final(tx)), self.fs(), to as int),
            rec_val(self.bytes(final(tx)), self.fs(), to as int) == rec_val(
                self.bytes(old(tx)),
                self.fs(),
                from as int,
            ),
    {
        proof {
            self.lemma_block_len(tx);
            tx.lemma_same_but_refl(self.blk().unwrap());
        }
        let ghost fs = self.fs();
        let ghost b0 = self.bytes(tx);
        let ghost tx0 = *tx;
        let ghost blk = self.blk().unwrap();
        let names = self.layout.schema().fields();
        let mut k: usize = 0;
        while k < names.len()
            invariant
                names@.len() == fs.len(),
                forall|j: int| 0 <= j < names@.len() ==> #[trigger] names@[j]@ == fs[j].name,
                fields_fit(fs),
                names_distinct(fs),
                fs == self.fs(),
                blk == self.blk().unwrap(),
                self.valid(&tx0),
                b0 == self.bytes(&tx0),
                0 <= from < num_of(b0),
                0 <= to,
                from != to,
                slot_pos(fs, to + 1) <= b0.len(),
                k <= fs.len(),
                tx.wf(),
                self.placed(tx),
                tx0.same_but(*tx, blk, self.bytes(tx)),
                agree_outside(b0, self.bytes(tx), slot_pos(fs, to as int), slot_pos(fs, to + 1)),
                copied_prefix(self.bytes(tx), b0, fs, to as int, from as int, k as int),
            decreases fs.len() - k,
        {
            let ghost cur = self.bytes(tx);
            let ghost tx1 = *tx;
            proof {
                lemma_fidx_own(fs, k as int);
                assert(has_field_spec(fs, fs[k as int].name));
                lemma_slot_pos_mono(fs, from + 1, num_of(b0) as int);
                assert(slot_ok(b0, fs, from as int));
                assert(field_ok(b0, fs, from as int, k as int));
                lemma_field_in_slot(fs, from as int, k as int);
                lemma_field_in_slot(fs, to as int, k as int);
                if from < to {
                    lemma_slot_order(fs, from as int, to as int);
                } else {
                    lemma_slot_order(fs, to as int, from as int);
                }
                lemma_field_untouched(b0, cur, fs, from as int, k as int, slot_pos(fs, to as int), slot_pos(fs, to + 1));
            }
            let val = self.get_val(tx, from, names[k].as_str());
            proof {
                assert(field_ok(b0, fs, from as int, k as int));
                if fs[k as int].ftype != INTEGER {
                    vstd::utf8::decode_utf8_encode_utf8(crate::file::page::bytes_at(b0, field_pos(fs, from as int, k as int)));
                }
                assert(val@ == field_val(b0, fs, from as int, k as int));
                assert(val_fits(val@, fs[k as int]));
                assert(fidx(fs, names@[k as int]@) == k);
            }
            self.set_val(tx, to, names[k].as_str(), &val);
            proof {
                let nb = self.bytes(tx);
                tx0.lemma_same_but_trans(tx1, *tx, blk, cur, nb);
                self.lemma_placed_after(&tx1, tx, nb);
                assert forall|j: int| 0 <= j < k + 1 implies #[trigger] field_ok(nb, fs, to as int, j) && field_val(
                    nb,
                    fs,
                    to as int,
                    j,
                ) == field_val(b0, fs, from as int, j) by {
                    if j < k {
                        assert(field_ok(cur, fs, to as int, j));
                    }
                    if j == k {
                        assert(field_ok(nb, fs, to as int, k as int));
                        assert(field_val(nb, fs, to as int, k as int) == val@);
                    }
                    if j < k {
                        lemma_fields_disjoint(fs, to as int, j, to as int, k as int);
                        lemma_field_untouched(cur, nb, fs, to as int, j, field_pos(fs, to as int, k as int), field_pos(fs, to as int, k as int) + field_bytes(fs[k as int]));
                    }
                }
                assert(copied_prefix(nb, b0, fs, to as int, from as int, k + 1));
                assert forall|q: int| 0 <= q < b0.len() && (q < slot_pos(fs, to as int) || slot_pos(fs, to + 1) <= q)
                    implies #[trigger] b0[q] == nb[q] by {
                    assert(cur[q] == nb[q]);
                }
            }
            k = k + 1;
        }
        proof {
            let nb = self.bytes(tx);
            assert forall|i: int| 0 <= i < fs.len() implies #[trigger] field_ok(nb, fs, to as int, i) by {
                assert(field_ok(nb, fs, to as int, i));
            }
            assert forall|i: int| 0 <= i < fs.len() implies rec_val(nb, fs, to as int)[i] == rec_val(b0, fs, from as int)[i] by {
                assert(field_ok(nb, fs, to as int, i));
            }
            assert(rec_val(nb, fs, to as int) =~= rec_val(b0, fs, from as int));
        }
    }

    /// Shifts the records from slot `slot` on one slot to the right, leaving
    /// slot `slot` to be filled, and counts one more record.
    fn insert(&self, tx: &mut Transaction, slot: i32)
        requires
            self.valid(old(tx)),
            0 <= slot <= num_of(self.bytes(old(tx))),
            slot_pos(self.fs(), num_of(self.bytes(old(tx))) + 1) <= self.bytes(old(tx)).len(),
        ensures
            final(tx).wf(),
            self.valid(final(tx)),
            old(tx).same_but(*final(tx), self.blk().unwrap(), self.bytes(final(tx))),
            num_of(self.bytes(final(tx))) == num_of(self.bytes(old(tx))) + 1,
            flag_of(self.bytes(final(tx))) == flag_of(self.bytes(old(tx))),
            forall|s: int|
                0 <= s < slot ==> #[trigger] rec_val(self.bytes(final(tx)), self.fs(), s) == rec_val(
                    self.bytes(old(tx)),
                    self.fs(),
                    s,
                ),
            forall|s: int|
                slot < s <= num_of(self.bytes(old(tx))) ==> #[trigger] rec_val(
                    self.bytes(final(tx)),
                    self.fs(),
                    s,
                ) == rec_val(self.bytes(old(tx)), self.fs(), s - 1),
    {
        proof {
            self.lemma_block_len(tx);
            tx.lemma_same_but_refl(self.blk().unwrap());
        }
        let ghost fs = self.fs();
        let ghost b0 = self.bytes(tx);
        let ghost tx0 = *tx;
        let ghost blk = self.blk().unwrap();
        let num_recs = self.get_num_recs(tx);
        let mut i = num_recs;
        while i > slot
            invariant
                fields_fit(fs),
                fs == self.fs(),
                blk == self.blk().unwrap(),
                b0 == self.bytes(&tx0),
                self.valid(&tx0),
                num_recs == num_of(b0),
                0 <= slot <= i <= num_recs,
                slot_pos(fs, num_recs + 1) <= b0.len(),
                tx.wf(),
                self.valid(tx),
                self.bytes(tx).len() == b0.len(),
                tx0.same_but(*tx, blk, self.bytes(tx)),
                num_of(self.bytes(tx)) == num_recs,
                flag_of(self.bytes(tx)) == flag_of(b0),
                forall|s: int| 0 <= s <= i ==> #[trigger] rec_val(self.bytes(tx), fs, s) == rec_val(b0, fs, s),
                forall|s: int| i < s <= num_recs ==> #[trigger] rec_val(self.bytes(tx), fs, s) == rec_val(b0, fs, s - 1),
            decreases i - slot,
        {
            let ghost cur = self.bytes(tx);
            let ghost tx1 = *tx;
            proof {
                lemma_slot_pos_mono(fs, i + 1, num_recs + 1);
            }
            self.copy_record(tx, i - 1, i);
            proof {
                let nb = self.bytes(tx);
                tx0.lemma_same_but_trans(tx1, *tx, blk, cur, nb);
                lemma_header_untouched(cur, nb, fs, i as int);
                lemma_slots_after_slot_write(cur, nb, fs, i as int);
                assert forall|s: int| 0 <= s <= i - 1 implies #[trigger] rec_val(nb, fs, s) == rec_val(b0, fs, s) by {
                    lemma_slot_pos_mono(fs, s + 1, num_recs + 1);
                    assert(rec_val(nb, fs, s) == rec_val(cur, fs, s));
                }
                assert forall|s: int| i - 1 < s <= num_recs implies #[trigger] rec_val(nb, fs, s) == rec_val(b0, fs, s - 1) by {
                    if s > i {
                        lemma_slot_pos_mono(fs, s + 1, num_recs + 1);
                        assert(rec_val(nb, fs, s) == rec_val(cur, fs, s));
                    } else {
                        assert(rec_val(cur, fs, i - 1) == rec_val(b0, fs, i - 1));
                    }
                }
            }
            i = i - 1;
        }
        let ghost cur = self.bytes(tx);
        let ghost tx1 = *tx;
        proof {
            crate::index::btree::page_format::lemma_slot_pos_ge(fs, num_recs + 1);
        }
        self.set_num_recs(tx, num_recs + 1);
        proof {
            let nb = self.bytes(tx);
            crate::file::page::lemma_int_write_read(cur, 4, (num_recs + 1) as i32);
            lemma_with_int_agree(cur, 4, (num_recs + 1) as i32);
            crate::file::page::lemma_int_write_other(cur, 4, (num_recs + 1) as i32, 0);
            tx0.lemma_same_but_trans(tx1, *tx, blk, cur, nb);
            self.lemma_placed_after(&tx1, tx, nb);
            lemma_slots_after_header_write(cur, nb, fs);
            assert forall|s: int| 0 <= s < slot implies #[trigger] rec_val(nb, fs, s) == rec_val(b0, fs, s) by {
                lemma_slot_pos_mono(fs, s + 1, num_recs + 1);
            }
            assert forall|s: int| slot < s <= num_recs implies #[trigger] rec_val(nb, fs, s) == rec_val(b0, fs, s - 1) by {
                lemma_slot_pos_mono(fs, s + 1, num_recs + 1);
            }
        }
    }

    /// Deletes the record at slot `slot`, shifting the later records one slot left.
    pub fn delete(&self, tx: &mut Transaction, slot: i32)
        requires
            self.valid(old(tx)),
            0 <= slot < num_of(self.bytes(old(tx))),
        ensures
            final(tx).wf(),
            self.valid(final(tx)),
            old(tx).same_but(*final(tx), self.blk().unwrap(), self.bytes(final(tx))),
            flag_of(self.bytes(final(tx))) == flag_of(self.bytes(old(tx))),
            self.recs(final(tx)) == self.recs(old(tx)).remove(slot as int),
    {
        proof {
            self.lemma_block_len(tx);
            tx.lemma_same_but_refl(self.blk().unwrap());
        }
        let ghost fs = self.fs();
        let ghost b0 = self.bytes(tx);
        let ghost tx0 = *tx;
        let ghost blk = self.blk().unwrap();
        let num_recs = self.get_num_recs(tx);
        let mut i = slot + 1;
        while i < num_recs
            invariant
                fields_fit(fs),
                fs == self.fs(),
                blk == self.blk().unwrap(),
                b0 == self.bytes(&tx0),
                self.valid(&tx0),
                num_recs == num_of(b0),
                0 <= slot < i <= num_recs,
                tx.wf(),
                self.valid(tx),
                self.bytes(tx).len() == b0.len(),
                tx0.same_but(*tx, blk, self.bytes(tx)),
                num_of(self.bytes(tx)) == num_recs,
                flag_of(self.bytes(tx)) == flag_of(b0),
                forall|s: int| 0 <= s < slot ==> #[trigger] rec_val(self.bytes(tx), fs, s) == rec_val(b0, fs, s),
                forall|s: int| slot <= s < i - 1 ==> #[trigger] rec_val(self.bytes(tx), fs, s) == rec_val(b0, fs, s + 1),
                forall|s: int| i <= s < num_recs ==> #[trigger] rec_val(self.bytes(tx), fs, s) == rec_val(b0, fs, s),
            decreases num_recs - i,
        {
            let ghost cur = self.bytes(tx);
            let ghost tx1 = *tx;
            proof {
                lemma_slot_order(fs, i - 1, i as int);
                lemma_slot_pos_mono(fs, i as int, num_recs as int);
            }
            self.copy_record(tx, i, i - 1);
            proof {
                let nb = self.bytes(tx);
                tx0.lemma_same_but_trans(tx1, *tx, blk, cur, nb);
                lemma_header_untouched(cur, nb, fs, i - 1);
                lemma_slots_after_slot_write(cur, nb, fs, i - 1);
                assert forall|s: int| 0 <= s < num_recs && s != i - 1 implies #[trigger] rec_val(nb, fs, s) == rec_val(cur, fs, s) by {
                    lemma_slot_pos_mono(fs, s + 1, num_recs as int);
                }
            }
            i = i + 1;
        }
        let ghost cur = self.bytes(tx);
        let ghost tx1 = *tx;
        self.set_num_recs(tx, num_recs - 1);
        proof {
            let nb = self.bytes(tx);
            crate::file::page::lemma_int_write_read(cur, 4, (num_recs - 1) as i32);
            lemma_with_int_agree(cur, 4, (num_recs - 1) as i32);
            crate::file::page::lemma_int_write_other(cur, 4, (num_recs - 1) as i32, 0);
            tx0.lemma_same_but_trans(tx1, *tx, blk, cur, nb);
            self.lemma_placed_after(&tx1, tx, nb);
            lemma_slot_pos_mono(fs, num_recs - 1, num_recs as int);
            lemma_slots_after_header_write(cur, nb, fs);
            let r0 = recs_of(b0, fs);
            let r1 = recs_of(nb, fs);
            assert forall|s: int| 0 <= s < r1.len() implies r1[s] == r0.remove(slot as int)[s] by {
                lemma_slot_pos_mono(fs, s + 1, num_recs as int);
                assert(rec_val(nb, fs, s) == rec_val(cur, fs, s));
                if s >= slot {
                    assert(r0.remove(slot as int)[s] == r0[s + 1]);
                }
            }
            assert(r1 =~= r0.remove(slot as int));
        }
    }

    /// The record in slot `slot`, which may lie past the last record.
    pub open spec fn slot_rec(&self, tx: &Transaction, slot: int) -> Seq<ConstVal> {
        rec_val(self.bytes(tx), self.fs(), slot)
    }

    /// Whether slot `slot` lies inside the page.
    pub open spec fn slot_in(&self, tx: &Transaction, slot: int) -> bool {
        0 <= slot && slot_pos(self.fs(), slot + 1) <= self.bytes(tx).len()
    }

    /// The page holds index records.
    pub open spec fn indexed(&self, tx: &Transaction) -> bool {
        self.valid(tx) && index_layout(self.fs())
    }

    proof fn lemma_slot_field(&self, tx: &Transaction, slot: int, i: int)
        requires
            self.valid(tx),
            self.slot_in(tx, slot),
            0 <= i < self.fs().len(),
        ensures
            field_ok(self.bytes(tx), self.fs(), slot, i),
            field_in_page(self.bytes(tx), self.fs(), slot, i),
    {
        self.lemma_block_len(tx);
        assert(slot_ok(self.bytes(tx), self.fs(), slot));
        lemma_field_in_slot(self.fs(), slot, i);
    }

    /// The indexed value of the record in slot `slot`.
    pub fn get_data_val(&self, tx: &Transaction, slot: i32) -> (r: Constant)
        requires
            self.indexed(tx),
            self.slot_in(tx, slot as int),
        ensures
            r@ == dv(self.slot_rec(tx, slot as int)),
    {
        proof {
            self.lemma_block_len(tx);
            lemma_index_fields(self.fs());
            self.lemma_slot_field(tx, slot as int, self.fs().len() - 1);
        }
        self.get_val(tx, slot, "dataval")
    }

    /// The child block number in the directory record at slot `slot`.
    pub fn get_child_num(&self, tx: &Transaction, slot: i32) -> (r: i32)
        requires
            self.indexed(tx),
            self.slot_in(tx, slot as int),
        ensures
            self.slot_rec(tx, slot as int)[0] == ConstVal::Int(r),
    {
        proof {
            self.lemma_block_len(tx);
            lemma_index_fields(self.fs());
            self.lemma_slot_field(tx, slot as int, 0);
        }
        self.get_int(tx, slot, "block")
    }

    /// The data record id stored in the leaf record at slot `slot`.
    pub fn get_data_rid(&self, tx: &Transaction, slot: i32) -> (r: RID)
        requires
            self.valid(tx),
            leaf_layout(self.fs()),
            self.slot_in(tx, slot as int),
        ensures
            self.slot_rec(tx, slot as int)[0] == ConstVal::Int(r.blknum),
            self.slot_rec(tx, slot as int)[1] == ConstVal::Int(r.slot),
    {
        proof {
            self.lemma_block_len(tx);
            lemma_index_fields(self.fs());
            self.lemma_slot_field(tx, slot as int, 0);
            self.lemma_slot_field(tx, slot as int, 1);
        }
        let blknum = self.get_int(tx, slot, "block");
        let id = self.get_int(tx, slot, "id");
        RID::new(blknum, id)
    }

    /// Whether the page has no room for another record.
    pub fn is_full(&self, tx: &Transaction) -> (r: bool)
        requires
            self.valid(tx),
        ensures
            r == (slot_pos(self.fs(), num_of(self.bytes(tx)) + 1) >= tx.spec_block_size()),
    {
        proof {
            self.lemma_block_len(tx);
            crate::index::btree::page_format::lemma_slot_order(self.fs(), num_of(self.bytes(tx)) as int, num_of(self.bytes(tx)) + 1);
            crate::index::btree::page_format::lemma_slot_pos_ge(self.fs(), num_of(self.bytes(tx)) as int);
        }
        let num = self.get_num_recs(tx);
        let bs = tx.block_size() as i64;
        let ss = self.layout.slot_size() as i64;
        proof {
            crate::record::layout::lemma_sum_bytes_nonneg(self.fs());
        }
        // The next slot starts where the current slots end.
        let end = self.slotpos(num) as i64;
        end + ss >= bs
    }

    /// Inserts the directory record (`val`, `blknum`) at slot `slot`.
    pub fn insert_dir(&self, tx: &mut Transaction, slot: i32, val: &Constant, blknum: i32)
        requires
            self.valid(old(tx)),
            dir_layout(self.fs()),
            0 <= slot <= num_of(self.bytes(old(tx))),
            slot_pos(self.fs(), num_of(self.bytes(old(tx))) + 1) <= self.bytes(old(tx)).len(),
            val_fits(val@, self.fs()[1]),
        ensures
            final(tx).wf(),
            self.valid(final(tx)),
            old(tx).same_but(*final(tx), self.blk().unwrap(), self.bytes(final(tx))),
            flag_of(self.bytes(final(tx))) == flag_of(self.bytes(old(tx))),
            self.recs(final(tx)) == self.recs(old(tx)).insert(slot as int, seq![ConstVal::Int(blknum), val@]),
    {
        proof {
            self.lemma_block_len(tx);
            lemma_index_fields(self.fs());
        }
        let ghost tx0 = *tx;
        self.insert(tx, slot);
        self.finish_insert(tx, slot, val, blknum, Ghost(tx0));
    }

    /// Inserts the leaf record (`val`, `rid`) at slot `slot`.
    pub fn insert_leaf(&self, tx: &mut Transaction, slot: i32, val: &Constant, rid: &RID)
        requires
            self.valid(old(tx)),
            leaf_layout(self.fs()),
            0 <= slot <= num_of(self.bytes(old(tx))),
            slot_pos(self.fs(), num_of(self.bytes(old(tx))) + 1) <= self.bytes(old(tx)).len(),
            val_fits(val@, self.fs()[2]),
        ensures
            final(tx).wf(),
            self.valid(final(tx)),
            old(tx).same_but(*final(tx), self.blk().unwrap(), self.bytes(final(tx))),
            flag_of(self.bytes(final(tx))) == flag_of(self.bytes(old(tx))),
            self.recs(final(tx)) == self.recs(old(tx)).insert(
                slot as int,
                seq![ConstVal::Int(rid.blknum), ConstVal::Int(rid.slot), val@],
            ),
    {
        proof {
            self.lemma_block_len(tx);
            lemma_index_fields(self.fs());
        }
        let ghost tx0 = *tx;
        self.insert(tx, slot);
        self.finish_insert(tx, slot, val, rid.block_number(), Ghost(tx0));
        let ghost tx1 = *tx;
        let ghost b1 = self.bytes(tx);
        proof {
            crate::index::btree::page_format::lemma_slot_pos_mono(self.fs(), slot + 1, num_of(b1) as int);
            self.lemma_slot_field(tx, slot as int, 1);
        }
        self.set_int(tx, slot, "id", rid.slot());
        proof {
            let b2 = self.bytes(tx);
            let fs = self.fs();
            tx0.lemma_same_but_trans(tx1, *tx, self.blk().unwrap(), b1, b2);
            self.lemma_placed_after(&tx1, tx, b2);
            lemma_int_field_write(b1, fs, slot as int, 1, rid.slot);
            lemma_with_int_agree(b1, field_pos(fs, slot as int, 1), rid.slot);
            lemma_field_bounds(fs, 1, 1);
            lemma_slots_after_field_write(b1, b2, fs, slot as int, 1);
            let r0 = recs_of(self.bytes(&tx0), fs);
            let r1 = recs_of(b1, fs);
            let r2 = recs_of(b2, fs);
            assert forall|s: int| 0 <= s < r2.len() implies r2[s] == r0.insert(
                slot as int,
                seq![ConstVal::Int(rid.blknum), ConstVal::Int(rid.slot), val@],
            )[s] by {
                if s != slot {
                    crate::index::btree::page_format::lemma_slot_pos_mono(fs, s + 1, num_of(b1) as int);
                    assert(r2[s] == r1[s]);
                } else {
                    assert(rec_val(b2, fs, s) =~= seq![ConstVal::Int(rid.blknum), ConstVal::Int(rid.slot), val@]);
                }
            }
            assert(r2 =~= r0.insert(
                slot as int,
                seq![ConstVal::Int(rid.blknum), ConstVal::Int(rid.slot), val@],
            ));
        }
    }

    /// Writes the indexed value and the block number of a record just made room for
    /// at slot `slot`.
    fn finish_insert(&self, tx: &mut Transaction, slot: i32, val: &Constant, blknum: i32, tx0: Ghost<Transaction>)
        requires
            self.valid(old(tx)),
            index_layout(self.fs()),
            names_distinct(self.fs()),
            tx0@.has_block(self.blk().unwrap()),
            tx0@.same_but(*old(tx), self.blk().unwrap(), self.bytes(old(tx))),
            0 <= slot < num_of(self.bytes(old(tx))),
            num_of(self.bytes(old(tx))) == num_of(self.bytes(&tx0@)) + 1,
            slot_pos(self.fs(), num_of(self.bytes(old(tx))) as int) <= self.bytes(old(tx)).len(),
            val_fits(val@, self.fs()[self.fs().len() - 1]),
            forall|s: int|
                0 <= s < slot ==> #[trigger] rec_val(self.bytes(old(tx)), self.fs(), s) == rec_val(
                    self.bytes(&tx0@),
                    self.fs(),
                    s,
                ),
            forall|s: int|
                slot < s < num_of(self.bytes(old(tx))) ==> #[trigger] rec_val(self.bytes(old(tx)), self.fs(), s)
                    == rec_val(self.bytes(&tx0@), self.fs(), s - 1),
            flag_of(self.bytes(old(tx))) == flag_of(self.bytes(&tx0@)),
        ensures
            final(tx).wf(),
            self.valid(final(tx)),
            tx0@.same_but(*final(tx), self.blk().unwrap(), self.bytes(final(tx))),
            flag_of(self.bytes(final(tx))) == flag_of(self.bytes(&tx0@)),
            num_of(self.bytes(final(tx))) == num_of(self.bytes(old(tx))),
            rec_val(self.bytes(final(tx)), self.fs(), slot as int)[0] == ConstVal::Int(blknum),
            dv(rec_val(self.bytes(final(tx)), self.fs(), slot as int)) == val@,
            leaf_layout(self.fs()) ==> rec_val(self.bytes(final(tx)), self.fs(), slot as int)[1] == rec_val(self.bytes(old(tx)), self.fs(), slot as int)[1],
            !leaf_layout(self.fs()) ==> self.recs(final(tx)) == self.recs(&tx0@).insert(slot as int, seq![ConstVal::Int(blknum), val@]),
            forall|s: int|
                0 <= s < num_of(self.bytes(final(tx))) && s != slot ==> #[trigger] rec_val(self.bytes(final(tx)), self.fs(), s)
                    == rec_val(self.bytes(old(tx)), self.fs(), s),
    {
        let ghost fs = self.fs();
        let ghost blk = self.blk().unwrap();
        let ghost b0 = self.bytes(tx);
        let ghost txa = *tx;
        proof {
            self.lemma_block_len(tx);
            lemma_index_fields(fs);
            crate::index::btree::page_format::lemma_slot_pos_mono(fs, slot + 1, num_of(b0) as int);
            self.lemma_slot_field(tx, slot as int, fs.len() - 1);
        }
        self.set_val(tx, slot, "dataval", val);
        let ghost b1 = self.bytes(tx);
        let ghost txb = *tx;
        proof {
            self.lemma_placed_after(&txa, tx, b1);
            lemma_slots_after_field_write(b0, b1, fs, slot as int, fs.len() - 1);
            self.lemma_slot_field(tx, slot as int, 0);
        }
        self.set_int(tx, slot, "block", blknum);
        proof {
            let b2 = self.bytes(tx);
            tx0@.lemma_same_but_trans(txa, txb, blk, b0, b1);
            tx0@.lemma_same_but_trans(txb, *tx, blk, b1, b2);
            self.lemma_placed_after(&txb, tx, b2);
            lemma_int_field_write(b1, fs, slot as int, 0, blknum);
            lemma_with_int_agree(b1, field_pos(fs, slot as int, 0), blknum);
            lemma_field_bounds(fs, 0, 0);
            lemma_slots_after_field_write(b1, b2, fs, slot as int, 0);
            assert forall|s: int|
                0 <= s < num_of(b2) && s != slot implies #[trigger] rec_val(b2, fs, s) == rec_val(b0, fs, s) by {
                crate::index::btree::page_format::lemma_slot_pos_mono(fs, s + 1, num_of(b0) as int);
            }
            if !leaf_layout(fs) {
                let r0 = recs_of(self.bytes(&tx0@), fs);
                let r2 = recs_of(b2, fs);
                assert forall|s: int| 0 <= s < r2.len() implies r2[s] == r0.insert(slot as int, seq![ConstVal::Int(blknum), val@])[s] by {
                    if s == slot {
                        assert(rec_val(b2, fs, s) =~= seq![ConstVal::Int(blknum), val@]);
                    }
                }
                assert(r2 =~= r0.insert(slot as int, seq![ConstVal::Int(blknum), val@]));
            }
        }
    }

    /// Whether every record's indexed value can be ordered against `key`.
    pub open spec fn keys_comparable(&self, tx: &Transaction, key: ConstVal) -> bool {
        forall|s: int| 0 <= s < self.recs(tx).len() ==> #[trigger] same_kind(dv(self.recs(tx)[s]), key)
    }

    /// The slot before the first record whose indexed value is not below
    /// `searchkey`: -1 when there is none before it.
    pub fn find_slot_before(&self, tx: &Transaction, searchkey: &Constant) -> (r: i32)
        requires
            self.indexed(tx),
            self.keys_comparable(tx, searchkey@),
        ensures
            -1 <= r < self.recs(tx).len(),
            forall|s: int| 0 <= s <= r ==> val_order(#[trigger] dv(self.recs(tx)[s]), searchkey@) < 0,
            r + 1 < self.recs(tx).len() ==> val_order(dv(self.recs(tx)[r + 1]), searchkey@) >= 0,
    {
        proof {
            self.lemma_block_len(tx);
        }
        let ghost recs = self.recs(tx);
        let num = self.get_num_recs(tx);
        let mut slot: i32 = 0;
        while slot < num
            invariant
                self.indexed(tx),
                self.keys_comparable(tx, searchkey@),
                recs == self.recs(tx),
                num == recs.len(),
                0 <= slot <= num,
                forall|s: int| 0 <= s < slot ==> val_order(#[trigger] dv(recs[s]), searchkey@) < 0,
            decreases num - slot,
        {
            proof {
                crate::index::btree::page_format::lemma_slot_pos_mono(self.fs(), slot + 1, num as int);
                assert(same_kind(dv(recs[slot as int]), searchkey@));
            }
            let data_val = self.get_data_val(tx, slot);
            if data_val.compare_to(searchkey) >= 0 {
                proof {
                    assert(self.slot_rec(tx, slot as int) == recs[slot as int]);
                }
                return slot - 1;
            }
            slot = slot + 1;
        }
        slot - 1
    }

    /// Whether `blk` is a block of `tx` this page's layout can format.
    pub open spec fn can_format(&self, tx: &Transaction, blk: BlockId) -> bool {
        &&& self.layout_ok()
        &&& tx.wf()
        &&& tx.has_block(blk)
        &&& 8 <= tx.spec_block_size() <= i32::MAX
    }

    /// Writes a record of default values, 0 and the empty string, into the
    /// slot `slot` of block `blk`, which starts at `pos`.
    fn make_default_record(&self, tx: &mut Transaction, blk: &BlockId, pos: usize, slot: Ghost<int>)
        requires
            self.can_format(old(tx), *blk),
            0 <= slot@,
            pos == slot_pos(self.fs(), slot@),
            slot_pos(self.fs(), slot@ + 1) <= old(tx).spec_block_size(),
        ensures
            final(tx).wf(),
            self.can_format(final(tx), *blk),
            old(tx).same_but(*final(tx), *blk, final(tx).block(*blk)),
            agree_outside(old(tx).block(*blk), final(tx).block(*blk), slot_pos(self.fs(), slot@), slot_pos(self.fs(), slot@ + 1)),
            slot_ok(final(tx).block(*blk), self.fs(), slot@),
            rec_val(final(tx).block(*blk), self.fs(), slot@) == default_rec(self.fs()),
    {
        let ghost fs = self.fs();
        let ghost b0 = tx.block(*blk);
        let ghost tx0 = *tx;
        proof {
            self.lemma_layout();
            tx.lemma_block_len(blk.spec_file_name(), blk.spec_number() as int);
            tx.lemma_same_but_refl(*blk);
            reveal_strlit("");
        }
        let names = self.layout.schema().fields();
        let mut k: usize = 0;
        while k < names.len()
            invariant
                names@.len() == fs.len(),
                forall|j: int| 0 <= j < names@.len() ==> #[trigger] names@[j]@ == fs[j].name,
                fields_fit(fs),
                names_distinct(fs),
                fs == self.fs(),
                self.layout_ok(),
                0 <= slot@,
                pos == slot_pos(fs, slot@),
                slot_pos(fs, slot@ + 1) <= b0.len(),
                b0 == tx0.block(*blk),
                tx0.has_block(*blk),
                k <= fs.len(),
                tx.wf(),
                self.can_format(tx, *blk),
                tx.block(*blk).len() == b0.len(),
                b0.len() == tx0.spec_block_size(),
                tx0.same_but(*tx, *blk, tx.block(*blk)),
                agree_outside(b0, tx.block(*blk), slot_pos(fs, slot@), slot_pos(fs, slot@ + 1)),
                forall|j: int| 0 <= j < k ==> #[trigger] field_ok(tx.block(*blk), fs, slot@, j),
                forall|j: int| 0 <= j < k ==> #[trigger] field_val(tx.block(*blk), fs, slot@, j) == default_val(fs[j]),
            decreases fs.len() - k,
        {
            let ghost cur = tx.block(*blk);
            let ghost tx1 = *tx;
            let ghost fpos = field_pos(fs, slot@, k as int);
            proof {
                lemma_fidx_own(fs, k as int);
                assert(has_field_spec(fs, fs[k as int].name));
                lemma_field_in_slot(fs, slot@, k as int);
                lemma_field_bounds(fs, k as int, k as int);
                tx.lemma_block_len(blk.spec_file_name(), blk.spec_number() as int);
            }
            let fldname = names[k].as_str();
            let offset = self.layout.offset(fldname) as usize;
            let ftype = self.layout.schema().ftype(fldname);
            if ftype == INTEGER {
                tx.set_int(blk, pos + offset, 0, false);
                proof {
                    lemma_int_field_write(cur, fs, slot@, k as int, 0);
                    lemma_with_int_agree(cur, fpos, 0);
                }
            } else {
                proof {
                    reveal_strlit("");
                    assert(""@ =~= Seq::<char>::empty());
                    assert(encode_utf8(""@) =~= Seq::<u8>::empty());
                }
                tx.set_string(blk, pos + offset, "", false);
                proof {
                    lemma_string_field_write(cur, fs, slot@, k as int, ""@);
                    lemma_with_bytes_agree(cur, fpos, encode_utf8(""@));
                }
            }
            proof {
                let nb = tx.block(*blk);
                tx0.lemma_same_but_trans(tx1, *tx, *blk, cur, nb);
                assert forall|j: int|
                    #![trigger field_ok(nb, fs, slot@, j)]
                    #![trigger field_val(nb, fs, slot@, j)]
                    0 <= j < k + 1 implies field_ok(nb, fs, slot@, j)
                    && field_val(nb, fs, slot@, j) == default_val(fs[j]) by {
                    if j < k {
                        assert(field_ok(cur, fs, slot@, j));
                        assert(field_val(cur, fs, slot@, j) == default_val(fs[j]));
                        lemma_fields_disjoint(fs, slot@, j, slot@, k as int);
                        lemma_field_untouched(cur, nb, fs, slot@, j, fpos, fpos + field_bytes(fs[k as int]));
                    }
                }
                assert forall|q: int| 0 <= q < b0.len() && (q < slot_pos(fs, slot@) || slot_pos(fs, slot@ + 1) <= q)
                    implies #[trigger] b0[q] == nb[q] by {
                    assert(cur[q] == nb[q]);
                }
            }
            k = k + 1;
        }
        proof {
            let nb = tx.block(*blk);
            assert forall|j: int| 0 <= j < fs.len() implies rec_val(nb, fs, slot@)[j] == default_rec(fs)[j] by {
                assert(field_val(nb, fs, slot@, j) == default_val(fs[j]));
            }
            assert(rec_val(nb, fs, slot@) =~= default_rec(fs));
        }
    }

    /// Formats the block `blk` as an empty B-tree page with the given flag,
    /// every slot holding a record of default values.
    pub fn format(&self, tx: &mut Transaction, blk: &BlockId, flag: i32)
        requires
            self.can_format(old(tx), *blk),
        ensures
            final(tx).wf(),
            self.can_format(final(tx), *blk),
            old(tx).same_but(*final(tx), *blk, final(tx).block(*blk)),
            page_wf(final(tx).block(*blk), self.fs()),
            flag_of(final(tx).block(*blk)) == flag,
            num_of(final(tx).block(*blk)) == 0,
            forall|s: int| 0 <= s && slot_pos(self.fs(), s + 1) <= final(tx).block(*blk).len()
                ==> #[trigger] rec_val(final(tx).block(*blk), self.fs(), s) == default_rec(self.fs()),
    {
        let ghost fs = self.fs();
        let ghost tx0 = *tx;
        proof {
            self.lemma_layout();
            tx.lemma_block_len(blk.spec_file_name(), blk.spec_number() as int);
        }
        tx.set_int(blk, 0, flag, false);
        let ghost txa = *tx;
        let ghost ba = tx.block(*blk);
        proof {
            tx.lemma_block_len(blk.spec_file_name(), blk.spec_number() as int);
        }
        tx.set_int(blk, 4, 0, false);
        let ghost bh = tx.block(*blk);
        proof {
            tx0.lemma_same_but_trans(txa, *tx, *blk, ba, bh);
            crate::file::page::lemma_int_write_read(ba, 4, 0);
            crate::file::page::lemma_int_write_read(tx0.block(*blk), 0, flag);
            crate::file::page::lemma_int_write_other(ba, 4, 0, 0);
            tx.lemma_block_len(blk.spec_file_name(), blk.spec_number() as int);
        }
        let recsize = self.layout.slot_size() as i64;
        let block_size = tx.block_size() as i64;
        let mut pos: i64 = 8;
        let ghost mut k: int = 0;
        proof {
            crate::record::layout::lemma_sum_bytes_nonneg(fs);
        }
        while pos + recsize <= block_size
            invariant
                fields_fit(fs),
                fs == self.fs(),
                self.layout_ok(),
                recsize == slot_bytes(fs),
                4 <= recsize <= i32::MAX,
                0 <= pos,
                tx0.has_block(*blk),
                block_size == tx0.spec_block_size(),
                0 <= k,
                pos == slot_pos(fs, k),
                pos <= block_size,
                tx.wf(),
                self.can_format(tx, *blk),
                tx.block(*blk).len() == block_size,
                tx0.same_but(*tx, *blk, tx.block(*blk)),
                flag_of(tx.block(*blk)) == flag,
                num_of(tx.block(*blk)) == 0,
                forall|s: int| 0 <= s < k ==> #[trigger] slot_ok(tx.block(*blk), fs, s),
                forall|s: int| 0 <= s < k ==> #[trigger] rec_val(tx.block(*blk), fs, s) == default_rec(fs),
            decreases block_size - pos,
        {
            let ghost cur = tx.block(*blk);
            let ghost tx1 = *tx;
            proof {
                lemma_slot_order(fs, k, k + 1);
            }
            self.make_default_record(tx, blk, pos as usize, Ghost(k));
            proof {
                let nb = tx.block(*blk);
                tx0.lemma_same_but_trans(tx1, *tx, *blk, cur, nb);
                lemma_header_untouched(cur, nb, fs, k);
                assert forall|s: int|
                    #![trigger slot_ok(nb, fs, s)]
                    #![trigger rec_val(nb, fs, s)]
                    0 <= s < k + 1 implies slot_ok(nb, fs, s)
                    && rec_val(nb, fs, s) == default_rec(fs) by {
                    if s < k {
                        assert(slot_ok(cur, fs, s));
                        assert(rec_val(cur, fs, s) == default_rec(fs));
                        lemma_slot_untouched(cur, nb, fs, s, k);
                    }
                }
                k = k + 1;
            }
            pos = pos + recsize;
        }
        proof {
            let nb = tx.block(*blk);
            assert forall|s: int|
                #![trigger slot_ok(nb, fs, s)]
                #![trigger rec_val(nb, fs, s)]
                0 <= s && slot_pos(fs, s + 1) <= nb.len() implies slot_ok(nb, fs, s)
                && rec_val(nb, fs, s) == default_rec(fs) by {
                if s >= k {
                    lemma_slot_pos_mono(fs, k + 1, s + 1);
                    lemma_slot_order(fs, k, k + 1);
                }
            }
            lemma_slot_pos_mono(fs, 0, 0);
        }
    }

    /// Appends a new block to the page's file, formatted as an empty page with
    /// the given flag; returns it.
    pub fn append_new(&self, tx: &mut Transaction, flag: i32) -> (r: BlockId)
        requires
            self.placed(old(tx)),
            old(tx).blocks(self.blk().unwrap().spec_file_name()).len() + 1 < i32::MAX,
        ensures
            final(tx).wf(),
            self.placed(final(tx)),
            self.bytes(final(tx)) == self.bytes(old(tx)),
            r.spec_file_name() == self.blk().unwrap().spec_file_name(),
            r.spec_number() == old(tx).blocks(r.spec_file_name()).len(),
            final(tx).blocks(r.spec_file_name()).len() == old(tx).blocks(r.spec_file_name()).len() + 1,
            final(tx).has_block(r),
            page_wf(final(tx).block(r), self.fs()),
            flag_of(final(tx).block(r)) == flag,
            num_of(final(tx).block(r)) == 0,
            forall|n: int| 0 <= n < old(tx).blocks(r.spec_file_name()).len() ==> #[trigger] final(tx).blocks(r.spec_file_name())[n] == old(tx).blocks(r.spec_file_name())[n],
            forall|name: Seq<char>| name != r.spec_file_name() ==> #[trigger] final(tx).blocks(name) == old(tx).blocks(name),
            final(tx).spec_block_size() == old(tx).spec_block_size(),
    {
        let filename = self.currentblk.as_ref().unwrap().file_name();
        let blk = tx.append(filename);
        let ghost txa = *tx;
        self.format(tx, &blk, flag);
        proof {
            let name = blk.spec_file_name();
            assert(tx.blocks(name) == txa.blocks(name).update(blk.spec_number() as int, tx.block(blk)));
        }
        blk
    }

    /// Whether this page and `other` are open on different blocks.
    pub open spec fn apart(&self, other: &BTPage) -> bool {
        let a = self.blk().unwrap();
        let b = other.blk().unwrap();
        a.spec_file_name() != b.spec_file_name() || a.spec_number() != b.spec_number()
    }

    /// Copies every field of slot `from` of this page into slot `to` of `dest`.
    #[verifier::spinoff_prover]
    fn copy_to(&self, tx: &mut Transaction, from: i32, dest: &BTPage, to: i32)
        requires
            self.valid(old(tx)),
            dest.valid(old(tx)),
            dest.fs() == self.fs(),
            self.apart(dest),
            0 <= from < num_of(self.bytes(old(tx))),
            0 <= to,
            slot_pos(self.fs(), to + 1) <= dest.bytes(old(tx)).len(),
        ensures
            final(tx).wf(),
            dest.placed(final(tx)),
            self.placed(final(tx)),
            self.bytes(final(tx)) == self.bytes(old(tx)),
            old(tx).same_but(*final(tx), dest.blk().unwrap(), dest.bytes(final(tx))),
            agree_outside(
                dest.bytes(old(tx)),
                dest.bytes(final(tx)),
                slot_pos(self.fs(), to as int),
                slot_pos(self.fs(), to + 1),
            ),
            slot_ok(dest.bytes(final(tx)), self.fs(), to as int),
            rec_val(dest.bytes(final(tx)), self.fs(), to as int) == rec_val(
                self.bytes(old(tx)),
                self.fs(),
                from as int,
            ),
    {
        proof {
            self.lemma_block_len(tx);
            dest.lemma_block_len(tx);
            tx.lemma_same_but_refl(dest.blk().unwrap());
        }
        let ghost fs = self.fs();
        let ghost b0 = self.bytes(tx);
        let ghost d0 = dest.bytes(tx);
        let ghost tx0 = *tx;
        let ghost dblk = dest.blk().unwrap();
        let ghost sblk = self.blk().unwrap();
        let names = self.layout.schema().fields();
        let mut k: usize = 0;
        while k < names.len()
            invariant
                names@.len() == fs.len(),
                forall|j: int| 0 <= j < names@.len() ==> #[trigger] names@[j]@ == fs[j].name,
                fields_fit(fs),
                names_distinct(fs),
                fs == self.fs(),
                fs == dest.fs(),
                dblk == dest.blk().unwrap(),
                sblk == self.blk().unwrap(),
                self.apart(dest),
                self.valid(&tx0),
                dest.valid(&tx0),
                b0 == self.bytes(&tx0),
                d0 == dest.bytes(&tx0),
                0 <= from < num_of(b0),
                0 <= to,
                slot_pos(fs, to + 1) <= d0.len(),
                k <= fs.len(),
                tx.wf(),
                self.placed(tx),
                dest.placed(tx),
                self.bytes(tx) == b0,
                tx0.same_but(*tx, dblk, dest.bytes(tx)),
                agree_outside(d0, dest.bytes(tx), slot_pos(fs, to as int), slot_pos(fs, to + 1)),
                copied_prefix(dest.bytes(tx), b0, fs, to as int, from as int, k as int),
            decreases fs.len() - k,
        {
            let ghost cur = dest.bytes(tx);
            let ghost tx1 = *tx;
            proof {
                lemma_fidx_own(fs, k as int);
                assert(has_field_spec(fs, fs[k as int].name));
                lemma_slot_pos_mono(fs, from + 1, num_of(b0) as int);
                assert(slot_ok(b0, fs, from as int));
                assert(field_ok(b0, fs, from as int, k as int));
                lemma_field_in_slot(fs, to as int, k as int);
            }
            let val = self.get_val(tx, from, names[k].as_str());
            proof {
                if fs[k as int].ftype != INTEGER {
                    vstd::utf8::decode_utf8_encode_utf8(crate::file::page::bytes_at(b0, field_pos(fs, from as int, k as int)));
                }
                assert(val_fits(val@, fs[k as int]));
                assert(fidx(fs, names@[k as int]@) == k);
            }
            dest.set_val(tx, to, names[k].as_str(), &val);
            proof {
                let nb = dest.bytes(tx);
                tx0.lemma_same_but_trans(tx1, *tx, dblk, cur, nb);
                dest.lemma_placed_after(&tx1, tx, nb);
                tx1.lemma_same_but_other(*tx, dblk, nb, sblk);
                assert forall|j: int| 0 <= j < k + 1 implies #[trigger] field_ok(nb, fs, to as int, j) && field_val(
                    nb,
                    fs,
                    to as int,
                    j,
                ) == field_val(b0, fs, from as int, j) by {
                    if j < k {
                        assert(field_ok(cur, fs, to as int, j));
                        lemma_fields_disjoint(fs, to as int, j, to as int, k as int);
                        lemma_field_untouched(cur, nb, fs, to as int, j, field_pos(fs, to as int, k as int), field_pos(fs, to as int, k as int) + field_bytes(fs[k as int]));
                    }
                }
                assert(copied_prefix(nb, b0, fs, to as int, from as int, k + 1));
                assert forall|q: int| 0 <= q < d0.len() && (q < slot_pos(fs, to as int) || slot_pos(fs, to + 1) <= q)
                    implies #[trigger] d0[q] == nb[q] by {
                    assert(cur[q] == nb[q]);
                }
            }
            k = k + 1;
        }
        proof {
            let nb = dest.bytes(tx);
            assert forall|i: int| 0 <= i < fs.len() implies #[trigger] field_ok(nb, fs, to as int, i) by {
                assert(field_ok(nb, fs, to as int, i));
            }
            assert forall|i: int| 0 <= i < fs.len() implies rec_val(nb, fs, to as int)[i] == rec_val(b0, fs, from as int)[i] by {
                assert(field_ok(nb, fs, to as int, i));
            }
            assert(rec_val(nb, fs, to as int) =~= rec_val(b0, fs, from as int));
        }
    }

    /// Moves the records from slot `slot` on, in order, to the empty page `dest`.
    #[verifier::spinoff_prover]
    fn transfer_recs(&self, tx: &mut Transaction, slot: i32, dest: &BTPage)
        requires
            self.valid(old(tx)),
            dest.valid(old(tx)),
            dest.fs() == self.fs(),
            self.apart(dest),
            0 <= slot <= num_of(self.bytes(old(tx))),
            num_of(dest.bytes(old(tx))) == 0,
        ensures
            final(tx).wf(),
            self.valid(final(tx)),
            dest.valid(final(tx)),
            old(tx).same_except2(*final(tx), self.blk().unwrap(), dest.blk().unwrap()),
            self.recs(final(tx)) == self.recs(old(tx)).take(slot as int),
            dest.recs(final(tx)) == self.recs(old(tx)).skip(slot as int),
            flag_of(self.bytes(final(tx))) == flag_of(self.bytes(old(tx))),
            flag_of(dest.bytes(final(tx))) == flag_of(dest.bytes(old(tx))),
    {
        proof {
            self.lemma_block_len(tx);
            dest.lemma_block_len(tx);
            tx.lemma_same_except2_refl(self.blk().unwrap(), dest.blk().unwrap());
        }
        let ghost fs = self.fs();
        let ghost tx0 = *tx;
        let ghost r0 = self.recs(tx);
        let ghost num0 = num_of(self.bytes(tx)) as int;
        let ghost sblk = self.blk().unwrap();
        let ghost dblk = dest.blk().unwrap();
        let ghost sflag = flag_of(self.bytes(tx));
        let ghost dflag = flag_of(dest.bytes(tx));
        let mut destslot: i32 = 0;
        while slot < self.get_num_recs(tx)
            invariant
                fs == self.fs(),
                fs == dest.fs(),
                fields_fit(fs),
                self.apart(dest),
                sblk == self.blk().unwrap(),
                dblk == dest.blk().unwrap(),
                r0.len() == num0,
                slot_pos(fs, num0) <= tx.spec_block_size(),
                0 <= slot <= num0,
                0 <= destslot <= num0 - slot,
                tx.wf(),
                self.valid(tx),
                dest.valid(tx),
                dest.bytes(tx).len() == self.bytes(tx).len(),
                tx0.same_except2(*tx, sblk, dblk),
                num_of(self.bytes(tx)) == num0 - destslot,
                num_of(dest.bytes(tx)) == destslot,
                self.recs(tx) == r0.take(slot as int) + r0.skip(slot + destslot),
                dest.recs(tx) == r0.subrange(slot as int, slot + destslot),
                flag_of(self.bytes(tx)) == sflag,
                flag_of(dest.bytes(tx)) == dflag,
            decreases num0 - slot - destslot,
        {
            let ghost txa = *tx;
            let ghost sa = self.bytes(tx);
            let ghost da = dest.bytes(tx);
            proof {
                self.lemma_block_len(tx);
                lemma_slot_pos_mono(fs, destslot + 1, num0);
            }
            dest.insert(tx, destslot);
            let ghost txb = *tx;
            let ghost db = dest.bytes(tx);
            proof {
                dest.lemma_block_len(&txa);
                txa.lemma_same_but_other(*tx, dblk, db, sblk);
                txa.lemma_same_but_except2(*tx, dblk, db, sblk);
                tx0.lemma_same_except2_trans(txa, *tx, sblk, dblk);
                lemma_slot_pos_mono(fs, slot + destslot + 1, num0);
            }
            self.copy_to(tx, slot, dest, destslot);
            let ghost txc = *tx;
            let ghost dc = dest.bytes(tx);
            proof {
                txb.lemma_same_but_except2(*tx, dblk, dc, sblk);
                tx0.lemma_same_except2_trans(txb, *tx, sblk, dblk);
                lemma_header_untouched(db, dc, fs, destslot as int);
                dest.lemma_block_len(&txb);
                lemma_slots_after_slot_write(db, dc, fs, destslot as int);
            }
            self.delete(tx, slot);
            proof {
                let sd = self.bytes(tx);
                self.lemma_block_len(&txc);
                txc.lemma_same_but_other(*tx, sblk, sd, dblk);
                txc.lemma_same_but_except2(*tx, sblk, sd, dblk);
                tx0.lemma_same_except2_trans(txc, *tx, sblk, dblk);
                let rs = self.recs(&txa);
                let rd_old = dest.recs(&txa);
                let rd = dest.recs(tx);
                assert(rs[slot as int] == r0[slot + destslot]);
                assert forall|s: int| 0 <= s < rd.len() implies rd[s] == r0.subrange(slot as int, slot + destslot + 1)[s] by {
                    if s < destslot {
                        lemma_slot_pos_mono(fs, s + 1, num0);
                        assert(rec_val(dc, fs, s) == rec_val(db, fs, s));
                        assert(rec_val(db, fs, s) == rec_val(da, fs, s));
                        assert(rd_old[s] == r0[slot + s]);
                    } else {
                        assert(rec_val(dc, fs, s) == rec_val(sa, fs, slot as int));
                    }
                }
                assert(rd =~= r0.subrange(slot as int, slot + destslot + 1));
                assert(self.recs(tx) =~= r0.take(slot as int) + r0.skip(slot + destslot + 1));
                self.lemma_block_len(tx);
                dest.lemma_block_len(tx);
            }
            destslot = destslot + 1;
        }
        proof {
            assert(destslot == num0 - slot);
            assert(r0.skip(slot + destslot) =~= Seq::<Seq<ConstVal>>::empty());
            assert(self.recs(tx) =~= r0.take(slot as int));
            assert(dest.recs(tx) =~= r0.skip(slot as int));
        }
    }

    /// Whether `new_tx` holds the blocks of `old_tx` but for this page's block,
    /// plus one more block at the end of this page's file.
    pub open spec fn grew_by_one(&self, old_tx: &Transaction, new_tx: &Transaction) -> bool {
        let name = self.blk().unwrap().spec_file_name();
        &&& new_tx.spec_block_size() == old_tx.spec_block_size()
        &&& new_tx.blocks(name).len() == old_tx.blocks(name).len() + 1
        &&& forall|nm: Seq<char>| nm != name ==> #[trigger] new_tx.blocks(nm) == old_tx.blocks(nm)
        &&& forall|n: int|
            0 <= n < old_tx.blocks(name).len() && n != self.blk().unwrap().spec_number() ==> #[trigger] new_tx.blocks(
                name,
            )[n] == old_tx.blocks(name)[n]
    }

    /// Splits the page at slot `splitpos`: the records from `splitpos` on move,
    /// in order, to a new block appended to the file, whose flag is `flag`;
    /// returns the new block.
    pub fn split(&self, tx: &mut Transaction, splitpos: i32, flag: i32) -> (r: BlockId)
        requires
            self.valid(old(tx)),
            0 <= splitpos <= num_of(self.bytes(old(tx))),
            old(tx).blocks(self.blk().unwrap().spec_file_name()).len() + 1 < i32::MAX,
        ensures
            final(tx).wf(),
            self.valid(final(tx)),
            self.grew_by_one(old(tx), final(tx)),
            self.recs(final(tx)) == self.recs(old(tx)).take(splitpos as int),
            flag_of(self.bytes(final(tx))) == flag_of(self.bytes(old(tx))),
            r.spec_file_name() == self.blk().unwrap().spec_file_name(),
            r.spec_number() == old(tx).blocks(r.spec_file_name()).len(),
            final(tx).has_block(r),
            page_wf(final(tx).block(r), self.fs()),
            flag_of(final(tx).block(r)) == flag,
            recs_of(final(tx).block(r), self.fs()) == self.recs(old(tx)).skip(splitpos as int),
    {
        let ghost tx0 = *tx;
        let ghost sblk = self.blk().unwrap();
        proof {
            self.lemma_block_len(tx);
        }
        let newblk = self.append_new(tx, flag);
        let ghost tx1 = *tx;
        let newpage = BTPage::new(newblk.clone(), self.layout.clone());
        proof {
            self.lemma_layout();
        }
        self.transfer_recs(tx, splitpos, &newpage);
        let ghost tx2 = *tx;
        proof {
            newpage.lemma_block_len(tx);
        }
        newpage.set_flag(tx, flag);
        proof {
            let nb = newpage.bytes(tx);
            let b2 = newpage.bytes(&tx2);
            let nblk = newpage.blk().unwrap();
            tx2.lemma_same_but_other(*tx, nblk, nb, sblk);
            tx2.lemma_same_but_self(*tx, nblk, nb);
            crate::file::page::lemma_int_write_read(b2, 0, flag);
            lemma_with_int_agree(b2, 0, flag);
            crate::file::page::lemma_int_write_other(b2, 0, flag, 4);
            newpage.lemma_block_len(&tx2);
            lemma_slots_after_header_write(b2, nb, self.fs());
            assert(recs_of(nb, self.fs()) =~= recs_of(b2, self.fs())) by {
                assert forall|s: int| 0 <= s < recs_of(nb, self.fs()).len() implies recs_of(nb, self.fs())[s] == recs_of(b2, self.fs())[s] by {
                    lemma_slot_pos_mono(self.fs(), s + 1, num_of(b2) as int);
                }
            }
            let name = sblk.spec_file_name();
            assert forall|nm: Seq<char>| nm != name implies #[trigger] tx.blocks(nm) == tx0.blocks(nm) by {
                assert(tx2.blocks(nm).len() == tx1.blocks(nm).len());
                assert(tx2.blocks(nm) =~= tx1.blocks(nm)) by {
                    assert forall|n: int| 0 <= n < tx2.blocks(nm).len() implies tx2.blocks(nm)[n] == tx1.blocks(nm)[n] by {
                    }
                }
            }
            assert forall|n: int| 0 <= n < tx0.blocks(name).len() && n != sblk.spec_number()
                implies #[trigger] tx.blocks(name)[n] == tx0.blocks(name)[n] by {
                assert(tx2.blocks(name).len() == tx1.blocks(name).len());
                assert(tx2.blocks(name)[n] == tx1.blocks(name)[n]);
            }
            assert(tx.blocks(name).len() == tx2.blocks(name).len());
        }
        newblk
    }

    /// A key of the indexed kind can be ordered against every record's value.
    pub proof fn lemma_keys_comparable(&self, tx: &Transaction, key: ConstVal)
        requires
            self.indexed(tx),
            kind_fits(key, self.fs()[self.fs().len() - 1]),
        ensures
            self.keys_comparable(tx, key),
    {
        self.lemma_block_len(tx);
        assert forall|s: int| 0 <= s < self.recs(tx).len() implies #[trigger] same_kind(dv(self.recs(tx)[s]), key) by {
            lemma_slot_pos_mono(self.fs(), s + 1, num_of(self.bytes(tx)) as int);
            assert(slot_ok(self.bytes(tx), self.fs(), s));
            assert(dv(self.recs(tx)[s]) == field_val(self.bytes(tx), self.fs(), s, self.fs().len() - 1));
        }
    }
}

} // verus!
