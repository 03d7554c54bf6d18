use vstd::prelude::*;

use crate::index::btree::bt_page::{fidx, lemma_fidx_own, names_distinct};
use crate::index::btree::page_format::rec_val;
use crate::query::constant::ConstVal;
use crate::record::layout::{field_offset, fields_fit, slot_bytes, Layout};
use crate::record::schema::{find_field, has_field_spec, FieldSpec, Schema, INTEGER, VARCHAR};
use crate::record::table_scan::{
    added_at,    lemma_flags_kept_used, lemma_insert_used, lemma_open_used,
    has_record, lemma_has_record_kept, lemma_records_kept_slot, lemma_records_kept_trans, pos_before, rec_at,
    records_kept, table_file, table_ok, used_at, TableScan,
};
use crate::tx::Transaction;
use vstd::utf8::encode_utf8;

verus! {

/// The most characters a table or field name can have.
pub const MAX_NAME: i32 = 16;

/// Whether a name fits a name field of a catalog.
pub open spec fn name_fits(name: Seq<char>) -> bool {
    encode_utf8(name).len() <= 4 * MAX_NAME
}

/// The fields of the table catalog: a table's name and slot size.
pub open spec fn tcat_fields() -> Seq<FieldSpec> {
    seq![
        FieldSpec { name: "tblname"@, ftype: VARCHAR, length: MAX_NAME },
        FieldSpec { name: "slotsize"@, ftype: INTEGER, length: 0 },
    ]
}

/// The fields of the field catalog: a table's name, and a field's name, type,
/// length and offset.
pub open spec fn fcat_fields() -> Seq<FieldSpec> {
    seq![
        FieldSpec { name: "tblname"@, ftype: VARCHAR, length: MAX_NAME },
        FieldSpec { name: "fldname"@, ftype: VARCHAR, length: MAX_NAME },
        FieldSpec { name: "type"@, ftype: INTEGER, length: 0 },
        FieldSpec { name: "length"@, ftype: INTEGER, length: 0 },
        FieldSpec { name: "offset"@, ftype: INTEGER, length: 0 },
    ]
}

/// The file of the table catalog.
pub open spec fn tcat_file() -> Seq<char> {
    table_file("tblcat"@)
}

/// The file of the field catalog.
pub open spec fn fcat_file() -> Seq<char> {
    table_file("fldcat"@)
}

/// The catalogs of `tx` are well-formed tables.
pub open spec fn catalogs_ok(tx: &Transaction) -> bool {
    &&& table_ok(tx, tcat_file(), tcat_fields())
    &&& table_ok(tx, fcat_file(), fcat_fields())
}

/// The field catalog of `tx1` holds the records of `tx0` and, in the slots
/// `qs` in scan order, which were free, the records of the first `qs.len()`
/// fields `fs` of the table `tblname`.
pub open spec fn fields_added(tx0: &Transaction, tx1: &Transaction, tblname: Seq<char>, fs: Seq<FieldSpec>, qs: Seq<(int, int)>) -> bool {
    &&& qs.len() <= fs.len()
    &&& forall|i: int, j: int|
        0 <= i < j < qs.len() ==> pos_before(#[trigger] qs[i].0, qs[i].1, #[trigger] qs[j].0, qs[j].1)
    &&& forall|i: int|
        0 <= i < qs.len() ==> {
            &&& used_at(tx1, fcat_file(), fcat_fields(), #[trigger] qs[i].0, qs[i].1)
            &&& !used_at(tx0, fcat_file(), fcat_fields(), qs[i].0, qs[i].1)
            &&& rec_at(tx1, fcat_file(), fcat_fields(), qs[i].0, qs[i].1) == field_rec(tblname, fs, i)
        }
    &&& forall|n: int, s: int|
        #[trigger] used_at(tx1, fcat_file(), fcat_fields(), n, s) ==> used_at(tx0, fcat_file(), fcat_fields(), n, s)
            || exists|i: int| 0 <= i < qs.len() && #[trigger] qs[i] == (n, s)
}

/// The table catalog's record of a table of fields `fs`.
pub open spec fn table_rec(tblname: Seq<char>, fs: Seq<FieldSpec>) -> Seq<ConstVal> {
    seq![ConstVal::Str(tblname), ConstVal::Int(slot_bytes(fs) as i32)]
}

/// The field catalog's record of field `i` of a table of fields `fs`: the
/// type, length and offset of the first field of its name.
pub open spec fn field_rec(tblname: Seq<char>, fs: Seq<FieldSpec>, i: int) -> Seq<ConstVal> {
    let k = find_field(fs, fs[i].name);
    seq![
        ConstVal::Str(tblname),
        ConstVal::Str(fs[i].name),
        ConstVal::Int(fs[k].ftype),
        ConstVal::Int(fs[k].length),
        ConstVal::Int(field_offset(fs, k) as i32),
    ]
}

/// The catalogs record the table `tblname` with the fields `fs`.
pub open spec fn catalog_holds(tx: &Transaction, tblname: Seq<char>, fs: Seq<FieldSpec>) -> bool {
    &&& has_record(tx, tcat_file(), tcat_fields(), table_rec(tblname, fs))
    &&& forall|i: int| 0 <= i < fs.len() ==> has_record(tx, fcat_file(), fcat_fields(), #[trigger] field_rec(tblname, fs, i))
}

/// The string a value holds; empty for an integer.
pub open spec fn str_of(v: ConstVal) -> Seq<char> {
    match v {
        ConstVal::Str(x) => x,
        ConstVal::Int(_) => Seq::empty(),
    }
}

/// The integer a value holds; 0 for a string.
pub open spec fn int_of(v: ConstVal) -> i32 {
    match v {
        ConstVal::Int(i) => i,
        ConstVal::Str(_) => 0,
    }
}

/// The field a field catalog record describes: its name, type and length.
pub open spec fn field_of(rec: Seq<ConstVal>) -> FieldSpec {
    FieldSpec { name: str_of(rec[1]), ftype: int_of(rec[2]), length: int_of(rec[3]) }
}

/// Whether slot `s` of block `n` of the table catalog holds the record of
/// the table `tblname`.
pub open spec fn tcat_match(tx: &Transaction, n: int, s: int, tblname: Seq<char>) -> bool {
    &&& used_at(tx, tcat_file(), tcat_fields(), n, s)
    &&& rec_at(tx, tcat_file(), tcat_fields(), n, s)[0] == ConstVal::Str(tblname)
}

/// Whether slot `s` of block `n` of the field catalog holds the record of a
/// field of the table `tblname`.
pub open spec fn fcat_match(tx: &Transaction, n: int, s: int, tblname: Seq<char>) -> bool {
    &&& used_at(tx, fcat_file(), fcat_fields(), n, s)
    &&& rec_at(tx, fcat_file(), fcat_fields(), n, s)[0] == ConstVal::Str(tblname)
}

/// `size` is the slot size in the first record of the table catalog for
/// `tblname`, or -1 where there is none.
pub open spec fn recorded_size(tx: &Transaction, tblname: Seq<char>, size: i32) -> bool {
    ||| {
        &&& size == -1
        &&& forall|n: int, s: int| !#[trigger] tcat_match(tx, n, s, tblname)
    }
    ||| exists|n: int, s: int|
        {
            &&& #[trigger] tcat_match(tx, n, s, tblname)
            &&& rec_at(tx, tcat_file(), tcat_fields(), n, s)[1] == ConstVal::Int(size)
            &&& forall|m: int, t: int| pos_before(m, t, n, s) ==> !#[trigger] tcat_match(tx, m, t, tblname)
        }
}

/// The slots `ps`, in scan order, are all the slots of the field catalog that
/// hold records of fields of `tblname`.
pub open spec fn listed_matches(tx: &Transaction, tblname: Seq<char>, ps: Seq<(int, int)>) -> bool {
    &&& forall|i: int, j: int|
        0 <= i < j < ps.len() ==> pos_before(#[trigger] ps[i].0, ps[i].1, #[trigger] ps[j].0, ps[j].1)
    &&& forall|i: int| 0 <= i < ps.len() ==> fcat_match(tx, #[trigger] ps[i].0, ps[i].1, tblname)
    &&& forall|n: int, s: int|
        #[trigger] fcat_match(tx, n, s, tblname) ==> exists|i: int| 0 <= i < ps.len() && #[trigger] ps[i] == (n, s)
}

/// The fields that the field catalog records at the slots `ps`.
pub open spec fn listed_fields(tx: &Transaction, ps: Seq<(int, int)>) -> Seq<FieldSpec> {
    ps.map_values(|p: (int, int)| field_of(rec_at(tx, fcat_file(), fcat_fields(), p.0, p.1)))
}

/// The offsets that the field catalog records at the slots `ps`.
pub open spec fn listed_offsets(tx: &Transaction, ps: Seq<(int, int)>) -> Seq<i32> {
    ps.map_values(|p: (int, int)| int_of(rec_at(tx, fcat_file(), fcat_fields(), p.0, p.1)[4]))
}

/// The catalog fields have distinct names, fit a slot, and are found by name.
pub proof fn lemma_catalog_fields()
    ensures
        fields_fit(tcat_fields()),
        fields_fit(fcat_fields()),
        names_distinct(tcat_fields()),
        names_distinct(fcat_fields()),
        fidx(tcat_fields(), "tblname"@) == 0,
        fidx(tcat_fields(), "slotsize"@) == 1,
        fidx(fcat_fields(), "tblname"@) == 0,
        fidx(fcat_fields(), "fldname"@) == 1,
        fidx(fcat_fields(), "type"@) == 2,
        fidx(fcat_fields(), "length"@) == 3,
        fidx(fcat_fields(), "offset"@) == 4,
        has_field_spec(tcat_fields(), "tblname"@),
        has_field_spec(tcat_fields(), "slotsize"@),
        has_field_spec(fcat_fields(), "tblname"@),
        has_field_spec(fcat_fields(), "fldname"@),
        has_field_spec(fcat_fields(), "type"@),
        has_field_spec(fcat_fields(), "length"@),
        has_field_spec(fcat_fields(), "offset"@),
{
    reveal_strlit("tblname");
    reveal_strlit("slotsize");
    reveal_strlit("fldname");
    reveal_strlit("type");
    reveal_strlit("length");
    reveal_strlit("offset");
    let t = tcat_fields();
    let f = fcat_fields();
    assert(t.take(0) =~= Seq::<FieldSpec>::empty());
    assert(t.take(1).drop_last() =~= t.take(0));
    assert(t.take(2).drop_last() =~= t.take(1));
    assert(t.take(2) =~= t);
    assert(f.take(1).drop_last() =~= f.take(0));
    assert(f.take(2).drop_last() =~= f.take(1));
    assert(f.take(3).drop_last() =~= f.take(2));
    assert(f.take(4).drop_last() =~= f.take(3));
    assert(f.take(5).drop_last() =~= f.take(4));
    assert(f.take(5) =~= f);
    assert(t.drop_last() =~= seq![t[0]]);
    assert(seq![t[0]].drop_last() =~= Seq::<FieldSpec>::empty());
    assert(crate::record::layout::sum_bytes(Seq::<FieldSpec>::empty()) == 0);
    assert(seq![t[0]].last() == t[0]);
    assert(crate::record::layout::sum_bytes(seq![t[0]]) == 68);
    assert(crate::record::layout::sum_bytes(t) == 72);
    let f4 = seq![f[0], f[1], f[2], f[3]];
    let f3 = seq![f[0], f[1], f[2]];
    let f2 = seq![f[0], f[1]];
    let f1 = seq![f[0]];
    assert(f.drop_last() =~= f4);
    assert(f4.drop_last() =~= f3);
    assert(f3.drop_last() =~= f2);
    assert(f2.drop_last() =~= f1);
    assert(f1.drop_last() =~= Seq::<FieldSpec>::empty());
    assert(f1.last() == f[0] && f2.last() == f[1] && f3.last() == f[2] && f4.last() == f[3]);
    assert(crate::record::layout::sum_bytes(f1) == 68);
    assert(crate::record::layout::sum_bytes(f2) == 136);
    assert(crate::record::layout::sum_bytes(f3) == 140);
    assert(crate::record::layout::sum_bytes(f4) == 144);
    assert(crate::record::layout::sum_bytes(f) == 148);
    assert(t[0].name.len() == 7 && t[1].name.len() == 8);
    assert(t[0].name != t[1].name);
    assert(f[0].name[0] == 't' && f[1].name[0] == 'f');
    assert(f[0].name != f[1].name);
    assert(f[2].name.len() == 4 && f[3].name.len() == 6 && f[4].name.len() == 6);
    assert(f[3].name[0] == 'l' && f[4].name[0] == 'o');
    assert(names_distinct(t));
    assert(names_distinct(f));
    lemma_fidx_own(t, 0);
    lemma_fidx_own(t, 1);
    lemma_fidx_own(f, 0);
    lemma_fidx_own(f, 1);
    lemma_fidx_own(f, 2);
    lemma_fidx_own(f, 3);
    lemma_fidx_own(f, 4);
    assert(t[0].name == "tblname"@);
    assert(t[1].name == "slotsize"@);
    assert(f[0].name == "tblname"@);
    assert(f[1].name == "fldname"@);
    assert(f[2].name == "type"@);
    assert(f[3].name == "length"@);
    assert(f[4].name == "offset"@);
}

/// An ASCII name of at most `MAX_NAME` characters fits a name field.
pub proof fn lemma_ascii_name_fits(name: Seq<char>)
    requires
        vstd::utf8::is_ascii_chars(name),
        name.len() <= MAX_NAME,
    ensures
        name_fits(name),
{
    vstd::utf8::is_ascii_chars_encode_utf8(name);
}

/// The names of the catalogs and of their fields fit name fields.
proof fn lemma_catalog_names_fit()
    ensures
        name_fits("tblcat"@),
        name_fits("fldcat"@),
        forall|i: int| 0 <= i < tcat_fields().len() ==> name_fits(#[trigger] tcat_fields()[i].name),
        forall|i: int| 0 <= i < fcat_fields().len() ==> name_fits(#[trigger] fcat_fields()[i].name),
{
    reveal_strlit("tblcat");
    reveal_strlit("fldcat");
    reveal_strlit("tblname");
    reveal_strlit("slotsize");
    reveal_strlit("fldname");
    reveal_strlit("type");
    reveal_strlit("length");
    reveal_strlit("offset");
    lemma_ascii_name_fits("tblcat"@);
    lemma_ascii_name_fits("fldcat"@);
    lemma_ascii_name_fits("tblname"@);
    lemma_ascii_name_fits("slotsize"@);
    lemma_ascii_name_fits("fldname"@);
    lemma_ascii_name_fits("type"@);
    lemma_ascii_name_fits("length"@);
    lemma_ascii_name_fits("offset"@);
}

/// A table whose blocks are unchanged keeps its records.
proof fn lemma_kept_same_blocks(tx1: &Transaction, tx2: &Transaction, name: Seq<char>, fs: Seq<FieldSpec>)
    requires
        tx1.blocks(name) == tx2.blocks(name),
    ensures
        records_kept(tx1, tx2, name, fs),
{
}

/// The recorded slot size of a table depends on the table catalog alone.
pub proof fn lemma_recorded_size_same(tx1: &Transaction, tx2: &Transaction, tblname: Seq<char>, size: i32)
    requires
        tx1.blocks(tcat_file()) == tx2.blocks(tcat_file()),
        recorded_size(tx1, tblname, size),
    ensures
        recorded_size(tx2, tblname, size),
{
    assert forall|n: int, s: int| #[trigger] tcat_match(tx2, n, s, tblname) == tcat_match(tx1, n, s, tblname) by {
    }
    if !(size == -1 && forall|n: int, s: int| !#[trigger] tcat_match(tx1, n, s, tblname)) {
        let (n, s) = choose|n: int, s: int|
            {
                &&& #[trigger] tcat_match(tx1, n, s, tblname)
                &&& rec_at(tx1, tcat_file(), tcat_fields(), n, s)[1] == ConstVal::Int(size)
                &&& forall|m: int, t: int| pos_before(m, t, n, s) ==> !#[trigger] tcat_match(tx1, m, t, tblname)
            };
        assert(tcat_match(tx2, n, s, tblname));
        assert forall|m: int, t: int| pos_before(m, t, n, s) implies !#[trigger] tcat_match(tx2, m, t, tblname) by {
            assert(tcat_match(tx2, m, t, tblname) == tcat_match(tx1, m, t, tblname));
        }
    }
}

/// Opening a scan of a table keeps the records the table holds.
pub proof fn lemma_scan_opened(tx0: &Transaction, tx1: &Transaction, name: Seq<char>, fs: Seq<FieldSpec>)
    requires
        tx0.blocks(name).len() == 0 || *tx1 == *tx0,
    ensures
        records_kept(tx0, tx1, name, fs),
{
}

/// Inserts into the table catalog, through the scan `ts`, the record of the
/// table `tblname` with slots of `slotsize` bytes.
fn add_table_rec(ts: &mut TableScan, tx: &mut Transaction, tblname: &str, slotsize: i32)
    requires
        old(ts).valid(old(tx)),
        old(ts).file() == tcat_file(),
        old(ts).fs() == tcat_fields(),
        name_fits(tblname@),
        old(tx).blocks(tcat_file()).len() + 1 < i32::MAX,
    ensures
        final(ts).valid(final(tx)),
        final(ts).file() == tcat_file(),
        final(ts).fs() == tcat_fields(),
        has_record(final(tx), tcat_file(), tcat_fields(), seq![ConstVal::Str(tblname@), ConstVal::Int(slotsize)]),
        added_at(old(tx), final(tx), tcat_file(), tcat_fields(), final(ts).bnum(), final(ts).slot()),
        pos_before(old(ts).bnum(), old(ts).slot(), final(ts).bnum(), final(ts).slot()),
        rec_at(final(tx), tcat_file(), tcat_fields(), final(ts).bnum(), final(ts).slot()) == seq![
            ConstVal::Str(tblname@),
            ConstVal::Int(slotsize),
        ],
        records_kept(old(tx), final(tx), tcat_file(), tcat_fields()),
        final(tx).blocks(tcat_file()).len() <= old(tx).blocks(tcat_file()).len() + 1,
        final(tx).spec_block_size() == old(tx).spec_block_size(),
        forall|nm: Seq<char>| nm != tcat_file() ==> #[trigger] final(tx).blocks(nm) == old(tx).blocks(nm),
{
    let ghost fs = tcat_fields();
    let ghost name = tcat_file();
    let ghost tx0 = *tx;
    proof {
        lemma_catalog_fields();
    }
    proof {
        ts.lemma_valid(tx);
    }
    ts.insert(tx);
    let ghost tx1 = *tx;
    let ghost n = ts.bnum();
    let ghost t = ts.slot();
    proof {
        ts.lemma_valid(tx);
        ts.lemma_blk(tx);
        lemma_insert_used(&tx0, &tx1, name, fs, n, t);
    }
    ts.set_string(tx, "tblname", tblname);
    let ghost tx2 = *tx;
    proof {
        ts.lemma_blk(tx);
        tx1.lemma_same_but_self(*tx, ts.blk(), ts.cur_bytes(tx));
        lemma_records_kept_slot(&tx0, &tx1, tx, ts.blk(), ts.cur_bytes(tx), fs, t);
        lemma_flags_kept_used(&tx1, tx, ts.blk(), ts.cur_bytes(tx), fs);
        ts.lemma_valid(tx);
    }
    ts.set_int(tx, "slotsize", slotsize);
    proof {
        ts.lemma_blk(tx);
        tx2.lemma_same_but_self(*tx, ts.blk(), ts.cur_bytes(tx));
        lemma_records_kept_slot(&tx0, &tx2, tx, ts.blk(), ts.cur_bytes(tx), fs, t);
        lemma_flags_kept_used(&tx2, tx, ts.blk(), ts.cur_bytes(tx), fs);
        ts.lemma_valid(tx);
        let rec = seq![ConstVal::Str(tblname@), ConstVal::Int(slotsize)];
        assert(rec_at(tx, name, fs, n, t) =~= rec);
        assert(used_at(tx, name, fs, n, t));
    }
}

/// Inserts into the field catalog, through the scan `ts`, the record of the
/// field `fldname` of the table `tblname`.
fn add_field_rec(
    ts: &mut TableScan,
    tx: &mut Transaction,
    tblname: &str,
    fldname: &str,
    ftype: i32,
    length: i32,
    offset: i32,
)
    requires
        old(ts).valid(old(tx)),
        old(ts).file() == fcat_file(),
        old(ts).fs() == fcat_fields(),
        name_fits(tblname@),
        name_fits(fldname@),
        old(tx).blocks(fcat_file()).len() + 1 < i32::MAX,
    ensures
        final(ts).valid(final(tx)),
        final(ts).file() == fcat_file(),
        final(ts).fs() == fcat_fields(),
        has_record(
            final(tx),
            fcat_file(),
            fcat_fields(),
            seq![
                ConstVal::Str(tblname@),
                ConstVal::Str(fldname@),
                ConstVal::Int(ftype),
                ConstVal::Int(length),
                ConstVal::Int(offset),
            ],
        ),
        added_at(old(tx), final(tx), fcat_file(), fcat_fields(), final(ts).bnum(), final(ts).slot()),
        pos_before(old(ts).bnum(), old(ts).slot(), final(ts).bnum(), final(ts).slot()),
        rec_at(final(tx), fcat_file(), fcat_fields(), final(ts).bnum(), final(ts).slot()) == seq![
            ConstVal::Str(tblname@),
            ConstVal::Str(fldname@),
            ConstVal::Int(ftype),
            ConstVal::Int(length),
            ConstVal::Int(offset),
        ],
        records_kept(old(tx), final(tx), fcat_file(), fcat_fields()),
        final(tx).blocks(fcat_file()).len() <= old(tx).blocks(fcat_file()).len() + 1,
        final(tx).spec_block_size() == old(tx).spec_block_size(),
        forall|nm: Seq<char>| nm != fcat_file() ==> #[trigger] final(tx).blocks(nm) == old(tx).blocks(nm),
{
    let ghost fs = fcat_fields();
    let ghost name = fcat_file();
    let ghost tx0 = *tx;
    proof {
        lemma_catalog_fields();
    }
    proof {
        ts.lemma_valid(tx);
    }
    ts.insert(tx);
    let ghost tx1 = *tx;
    let ghost n = ts.bnum();
    let ghost t = ts.slot();
    proof {
        ts.lemma_valid(tx);
        ts.lemma_blk(tx);
        lemma_insert_used(&tx0, &tx1, name, fs, n, t);
    }
    ts.set_string(tx, "tblname", tblname);
    let ghost tx2 = *tx;
    proof {
        ts.lemma_blk(tx);
        tx1.lemma_same_but_self(*tx, ts.blk(), ts.cur_bytes(tx));
        lemma_records_kept_slot(&tx0, &tx1, tx, ts.blk(), ts.cur_bytes(tx), fs, t);
        lemma_flags_kept_used(&tx1, tx, ts.blk(), ts.cur_bytes(tx), fs);
        ts.lemma_valid(tx);
    }
    ts.set_string(tx, "fldname", fldname);
    let ghost tx3 = *tx;
    proof {
        ts.lemma_blk(tx);
        tx2.lemma_same_but_self(*tx, ts.blk(), ts.cur_bytes(tx));
        lemma_records_kept_slot(&tx0, &tx2, tx, ts.blk(), ts.cur_bytes(tx), fs, t);
        lemma_flags_kept_used(&tx2, tx, ts.blk(), ts.cur_bytes(tx), fs);
        ts.lemma_valid(tx);
    }
    ts.set_int(tx, "type", ftype);
    let ghost tx4 = *tx;
    proof {
        ts.lemma_blk(tx);
        tx3.lemma_same_but_self(*tx, ts.blk(), ts.cur_bytes(tx));
        lemma_records_kept_slot(&tx0, &tx3, tx, ts.blk(), ts.cur_bytes(tx), fs, t);
        lemma_flags_kept_used(&tx3, tx, ts.blk(), ts.cur_bytes(tx), fs);
        ts.lemma_valid(tx);
    }
    ts.set_int(tx, "length", length);
    let ghost tx5 = *tx;
    proof {
        ts.lemma_blk(tx);
        tx4.lemma_same_but_self(*tx, ts.blk(), ts.cur_bytes(tx));
        lemma_records_kept_slot(&tx0, &tx4, tx, ts.blk(), ts.cur_bytes(tx), fs, t);
        lemma_flags_kept_used(&tx4, tx, ts.blk(), ts.cur_bytes(tx), fs);
        ts.lemma_valid(tx);
    }
    ts.set_int(tx, "offset", offset);
    proof {
        ts.lemma_blk(tx);
        tx5.lemma_same_but_self(*tx, ts.blk(), ts.cur_bytes(tx));
        lemma_records_kept_slot(&tx0, &tx5, tx, ts.blk(), ts.cur_bytes(tx), fs, t);
        lemma_flags_kept_used(&tx5, tx, ts.blk(), ts.cur_bytes(tx), fs);
        ts.lemma_valid(tx);
        let rec = seq![
            ConstVal::Str(tblname@),
            ConstVal::Str(fldname@),
            ConstVal::Int(ftype),
            ConstVal::Int(length),
            ConstVal::Int(offset),
        ];
        assert(rec_at(tx, name, fs, n, t) =~= rec);
        assert(used_at(tx, name, fs, n, t));
    }
}

/// Adding the record of the next field in a slot after the last one keeps
/// the field records listed in scan order.
proof fn lemma_fields_added_step(
    tx0: &Transaction,
    tx1: &Transaction,
    tx2: &Transaction,
    tblname: Seq<char>,
    fs: Seq<FieldSpec>,
    qs: Seq<(int, int)>,
    q: (int, int),
    b: int,
    s: int,
)
    requires
        fields_added(tx0, tx1, tblname, fs, qs),
        qs.len() < fs.len(),
        qs.len() > 0 ==> qs.last() == (b, s),
        pos_before(b, s, q.0, q.1),
        added_at(tx1, tx2, fcat_file(), fcat_fields(), q.0, q.1),
        records_kept(tx0, tx1, fcat_file(), fcat_fields()),
        records_kept(tx1, tx2, fcat_file(), fcat_fields()),
        forall|n: int, m: int| #[trigger] used_at(tx1, fcat_file(), fcat_fields(), n, m) ==> used_at(tx0, fcat_file(), fcat_fields(), n, m)
            || exists|i: int| 0 <= i < qs.len() && #[trigger] qs[i] == (n, m),
        rec_at(tx2, fcat_file(), fcat_fields(), q.0, q.1) == field_rec(tblname, fs, qs.len() as int),
    ensures
        fields_added(tx0, tx2, tblname, fs, qs.push(q)),
{
    let qs2 = qs.push(q);
    assert forall|i: int, j: int| 0 <= i < j < qs2.len() implies pos_before(
        #[trigger] qs2[i].0,
        qs2[i].1,
        #[trigger] qs2[j].0,
        qs2[j].1,
    ) by {
        if j < qs.len() {
            assert(qs2[i] == qs[i] && qs2[j] == qs[j]);
        } else {
            assert(qs2[i] == qs[i]);
            if i < qs.len() - 1 {
                assert(pos_before(qs[i].0, qs[i].1, qs[qs.len() - 1].0, qs[qs.len() - 1].1));
            }
        }
    }
    assert forall|i: int| 0 <= i < qs2.len() implies {
        &&& used_at(tx2, fcat_file(), fcat_fields(), #[trigger] qs2[i].0, qs2[i].1)
        &&& !used_at(tx0, fcat_file(), fcat_fields(), qs2[i].0, qs2[i].1)
        &&& rec_at(tx2, fcat_file(), fcat_fields(), qs2[i].0, qs2[i].1) == field_rec(tblname, fs, i)
    } by {
        if i < qs.len() {
            assert(qs2[i] == qs[i]);
            assert(used_at(tx1, fcat_file(), fcat_fields(), qs[i].0, qs[i].1));
        } else {
            assert(qs2[i] == q);
            if used_at(tx0, fcat_file(), fcat_fields(), q.0, q.1) {
                assert(used_at(tx1, fcat_file(), fcat_fields(), q.0, q.1));
            }
        }
    }
    assert forall|n: int, m: int| #[trigger] used_at(tx2, fcat_file(), fcat_fields(), n, m) implies used_at(
        tx0,
        fcat_file(),
        fcat_fields(),
        n,
        m,
    ) || exists|i: int| 0 <= i < qs2.len() && #[trigger] qs2[i] == (n, m) by {
        if n == q.0 && m == q.1 {
            assert(qs2[qs.len() as int] == (n, m));
        } else {
            assert(used_at(tx1, fcat_file(), fcat_fields(), n, m));
            if !used_at(tx0, fcat_file(), fcat_fields(), n, m) {
                let i = choose|i: int| 0 <= i < qs.len() && #[trigger] qs[i] == (n, m);
                assert(qs2[i] == (n, m));
            }
        }
    }
}

/// The catalogs list the table `tblname` as a table of the fields `fs`:
/// every listing of its field records gives `fs`, at their offsets one after
/// another, and the slot size they record for it is that of `fs`.
pub open spec fn catalog_lists(tx: &Transaction, tblname: Seq<char>, fs: Seq<FieldSpec>) -> bool {
    &&& forall|ps: Seq<(int, int)>|
        #[trigger] listed_matches(tx, tblname, ps) ==> {
            &&& listed_fields(tx, ps) == fs
            &&& listed_offsets(tx, ps) == Seq::new(fs.len(), |i: int| field_offset(fs, i) as i32)
        }
    &&& forall|size: i32| #[trigger] recorded_size(tx, tblname, size) ==> size == slot_bytes(fs)
}

/// The layout that the catalogs give for a table they list as a table of
/// the fields `fs` holds those fields, one after another, in slots of their
/// size: after `create_table` of a table the catalogs held no record of,
/// `get_layout` gives back the schema it was created with.
pub proof fn lemma_created_table_layout(tx: &Transaction, tblname: Seq<char>, fs: Seq<FieldSpec>, layout: Layout)
    requires
        catalog_lists(tx, tblname, fs),
        recorded_size(tx, tblname, layout.spec_slot_size()),
        exists|ps: Seq<(int, int)>|
            {
                &&& #[trigger] listed_matches(tx, tblname, ps)
                &&& layout.fields() == listed_fields(tx, ps)
                &&& layout.spec_offsets() == listed_offsets(tx, ps)
            },
    ensures
        layout.fields() == fs,
        layout.spec_slot_size() == slot_bytes(fs),
        layout.spec_offsets() == Seq::new(fs.len(), |i: int| field_offset(fs, i) as i32),
{
    let ps = choose|ps: Seq<(int, int)>|
        {
            &&& #[trigger] listed_matches(tx, tblname, ps)
            &&& layout.fields() == listed_fields(tx, ps)
            &&& layout.spec_offsets() == listed_offsets(tx, ps)
        };
}

/// How the catalogs list a table depends on the catalogs' files alone.
pub proof fn lemma_catalog_lists_same(tx1: &Transaction, tx2: &Transaction, t: Seq<char>, f: Seq<FieldSpec>)
    requires
        tx2.blocks(tcat_file()) == tx1.blocks(tcat_file()),
        tx2.blocks(fcat_file()) == tx1.blocks(fcat_file()),
        catalog_lists(tx1, t, f),
    ensures
        catalog_lists(tx2, t, f),
{
    assert forall|n: int, s: int|
        #![trigger tcat_match(tx2, n, s, t)]
        #![trigger tcat_match(tx1, n, s, t)]
        tcat_match(tx2, n, s, t) == tcat_match(tx1, n, s, t) by {
    }
    assert forall|n: int, s: int|
        #![trigger fcat_match(tx2, n, s, t)]
        #![trigger fcat_match(tx1, n, s, t)]
        fcat_match(tx2, n, s, t) == fcat_match(tx1, n, s, t) by {
    }
    assert forall|ps: Seq<(int, int)>| #[trigger] listed_matches(tx2, t, ps) implies {
        &&& listed_fields(tx2, ps) == f
        &&& listed_offsets(tx2, ps) == Seq::new(f.len(), |i: int| field_offset(f, i) as i32)
    } by {
        assert(listed_matches(tx1, t, ps));
        assert(listed_fields(tx2, ps) =~= listed_fields(tx1, ps));
        assert(listed_offsets(tx2, ps) =~= listed_offsets(tx1, ps));
    }
    assert forall|size: i32| #[trigger] recorded_size(tx2, t, size) implies size == slot_bytes(f) by {
        lemma_recorded_size_same(tx2, tx1, t, size);
    }
}

/// Whether the slots `a` are in strict scan order.
pub open spec fn scan_sorted(a: Seq<(int, int)>) -> bool {
    forall|i: int, j: int| 0 <= i < j < a.len() ==> pos_before(#[trigger] a[i].0, a[i].1, #[trigger] a[j].0, a[j].1)
}

/// Two lists of slots in strict scan order that hold the same slots are
/// the same.
proof fn lemma_sorted_same(a: Seq<(int, int)>, b: Seq<(int, int)>)
    requires
        scan_sorted(a),
        scan_sorted(b),
        forall|x: (int, int)| a.contains(x) <==> b.contains(x),
    ensures
        a == b,
    decreases a.len(),
{
    if a.len() == 0 {
        if b.len() > 0 {
            assert(b.contains(b[0]));
        }
        assert(a =~= b);
    } else {
        assert(a.contains(a[0]));
        assert(b.contains(a[0]));
        assert(b.len() > 0);
        assert(b.contains(b[0]));
        assert(a.contains(b[0]));
        let j = choose|j: int| 0 <= j < b.len() && b[j] == a[0];
        let k = choose|k: int| 0 <= k < a.len() && a[k] == b[0];
        if j > 0 {
            assert(pos_before(b[0].0, b[0].1, b[j].0, b[j].1));
            if k > 0 {
                assert(pos_before(a[0].0, a[0].1, a[k].0, a[k].1));
            }
            assert(false);
        }
        let a2 = a.drop_first();
        let b2 = b.drop_first();
        assert forall|x: (int, int)| a2.contains(x) <==> b2.contains(x) by {
            if a2.contains(x) {
                let i = choose|i: int| 0 <= i < a2.len() && a2[i] == x;
                assert(a[i + 1] == x);
                assert(pos_before(a[0].0, a[0].1, a[i + 1].0, a[i + 1].1));
                assert(a.contains(x));
                assert(b.contains(x));
                let m = choose|m: int| 0 <= m < b.len() && b[m] == x;
                assert(m != 0);
                assert(b2[m - 1] == x);
            }
            if b2.contains(x) {
                let i = choose|i: int| 0 <= i < b2.len() && b2[i] == x;
                assert(b[i + 1] == x);
                assert(pos_before(b[0].0, b[0].1, b[i + 1].0, b[i + 1].1));
                assert(b.contains(x));
                assert(a.contains(x));
                let m = choose|m: int| 0 <= m < a.len() && a[m] == x;
                assert(m != 0);
                assert(a2[m - 1] == x);
            }
        }
        assert(scan_sorted(a2)) by {
            assert forall|i: int, j: int| 0 <= i < j < a2.len() implies pos_before(
                #[trigger] a2[i].0,
                a2[i].1,
                #[trigger] a2[j].0,
                a2[j].1,
            ) by {
                assert(a2[i] == a[i + 1] && a2[j] == a[j + 1]);
            }
        }
        assert(scan_sorted(b2)) by {
            assert forall|i: int, j: int| 0 <= i < j < b2.len() implies pos_before(
                #[trigger] b2[i].0,
                b2[i].1,
                #[trigger] b2[j].0,
                b2[j].1,
            ) by {
                assert(b2[i] == b[i + 1] && b2[j] == b[j + 1]);
            }
        }
        lemma_sorted_same(a2, b2);
        assert(a =~= b) by {
            assert forall|i: int| 0 <= i < a.len() implies a[i] == b[i] by {
                if i > 0 {
                    assert(a[i] == a2[i - 1]);
                    assert(b[i] == b2[i - 1]);
                }
            }
        }
    }
}

/// A table created where the catalogs held no record of it is what they
/// then describe: every listing of its field records gives the fields it was
/// created with, at their offsets, and its recorded slot size is theirs.
#[verifier::spinoff_prover]
#[verifier::rlimit(40)]
pub proof fn lemma_created_listing(
    tx0: &Transaction,
    tx1: &Transaction,
    tblname: Seq<char>,
    fs: Seq<FieldSpec>,
    p: (int, int),
    qs: Seq<(int, int)>,
)
    requires
        forall|n: int, s: int| !#[trigger] tcat_match(tx0, n, s, tblname),
        forall|n: int, s: int| !#[trigger] fcat_match(tx0, n, s, tblname),
        records_kept(tx0, tx1, tcat_file(), tcat_fields()),
        records_kept(tx0, tx1, fcat_file(), fcat_fields()),
        added_at(tx0, tx1, tcat_file(), tcat_fields(), p.0, p.1),
        rec_at(tx1, tcat_file(), tcat_fields(), p.0, p.1) == table_rec(tblname, fs),
        fields_added(tx0, tx1, tblname, fs, qs),
        qs.len() == fs.len(),
        names_distinct(fs),
        fields_fit(fs),
    ensures
        forall|ps: Seq<(int, int)>|
            #[trigger] listed_matches(tx1, tblname, ps) ==> {
                &&& listed_fields(tx1, ps) == fs
                &&& listed_offsets(tx1, ps) == Seq::new(fs.len(), |i: int| field_offset(fs, i) as i32)
            },
        forall|size: i32| #[trigger] recorded_size(tx1, tblname, size) ==> size == slot_bytes(fs),
{
    assert forall|n: int, s: int| #[trigger] fcat_match(tx1, n, s, tblname) implies exists|i: int|
        0 <= i < qs.len() && qs[i] == (n, s) by {
        if used_at(tx0, fcat_file(), fcat_fields(), n, s) {
            assert(rec_at(tx1, fcat_file(), fcat_fields(), n, s) == rec_at(tx0, fcat_file(), fcat_fields(), n, s));
            assert(fcat_match(tx0, n, s, tblname));
        }
        let i = choose|i: int| 0 <= i < qs.len() && #[trigger] qs[i] == (n, s);
    }
    assert forall|i: int| 0 <= i < qs.len() implies fcat_match(tx1, #[trigger] qs[i].0, qs[i].1, tblname) by {
        assert(rec_at(tx1, fcat_file(), fcat_fields(), qs[i].0, qs[i].1) == field_rec(tblname, fs, i));
    }
    assert forall|ps: Seq<(int, int)>| #[trigger] listed_matches(tx1, tblname, ps) implies {
        &&& listed_fields(tx1, ps) == fs
        &&& listed_offsets(tx1, ps) == Seq::new(fs.len(), |i: int| field_offset(fs, i) as i32)
    } by {
        assert forall|x: (int, int)| ps.contains(x) <==> qs.contains(x) by {
            if ps.contains(x) {
                let i = choose|i: int| 0 <= i < ps.len() && ps[i] == x;
                assert(fcat_match(tx1, ps[i].0, ps[i].1, tblname));
                let k = choose|k: int| 0 <= k < qs.len() && qs[k] == (x.0, x.1);
                assert(qs[k] == x);
            }
            if qs.contains(x) {
                let i = choose|i: int| 0 <= i < qs.len() && qs[i] == x;
                assert(fcat_match(tx1, qs[i].0, qs[i].1, tblname));
                let k = choose|k: int| 0 <= k < ps.len() && #[trigger] ps[k] == (x.0, x.1);
                assert(ps[k] == x);
            }
        }
        lemma_sorted_same(ps, qs);
        assert forall|i: int| 0 <= i < fs.len() implies #[trigger] listed_fields(tx1, ps)[i] == fs[i] && listed_offsets(
            tx1,
            ps,
        )[i] == field_offset(fs, i) as i32 by {
            lemma_fidx_own(fs, i);
            assert(rec_at(tx1, fcat_file(), fcat_fields(), qs[i].0, qs[i].1) == field_rec(tblname, fs, i));
        }
        assert(listed_fields(tx1, ps) =~= fs);
        assert(listed_offsets(tx1, ps) =~= Seq::new(fs.len(), |i: int| field_offset(fs, i) as i32));
    }
    assert forall|n: int, s: int| #[trigger] tcat_match(tx1, n, s, tblname) implies n == p.0 && s == p.1 by {
        if used_at(tx0, tcat_file(), tcat_fields(), n, s) {
            assert(rec_at(tx1, tcat_file(), tcat_fields(), n, s) == rec_at(tx0, tcat_file(), tcat_fields(), n, s));
            assert(tcat_match(tx0, n, s, tblname));
        }
    }
    assert(tcat_match(tx1, p.0, p.1, tblname));
    crate::record::layout::lemma_sum_bytes_nonneg(fs);
    assert forall|size: i32| #[trigger] recorded_size(tx1, tblname, size) implies size == slot_bytes(fs) by {
        if size == -1 && forall|n: int, s: int| !#[trigger] tcat_match(tx1, n, s, tblname) {
            assert(false);
        }
    }
}

/// Records added for the table `name` leave the catalogs' records of every
/// other table as they were, and the way the catalogs list it.
pub proof fn lemma_other_lists_kept(
    tx0: &Transaction,
    tx1: &Transaction,
    name: Seq<char>,
    fs: Seq<FieldSpec>,
    p: (int, int),
    qs: Seq<(int, int)>,
    t: Seq<char>,
)
    requires
        t != name,
        records_kept(tx0, tx1, tcat_file(), tcat_fields()),
        records_kept(tx0, tx1, fcat_file(), fcat_fields()),
        added_at(tx0, tx1, tcat_file(), tcat_fields(), p.0, p.1),
        rec_at(tx1, tcat_file(), tcat_fields(), p.0, p.1) == table_rec(name, fs),
        fields_added(tx0, tx1, name, fs, qs),
    ensures
        forall|n: int, s: int| #[trigger] tcat_match(tx1, n, s, t) == tcat_match(tx0, n, s, t),
        forall|n: int, s: int| #[trigger] fcat_match(tx1, n, s, t) == fcat_match(tx0, n, s, t),
        forall|ps: Seq<(int, int)>| #[trigger] listed_matches(tx1, t, ps) == listed_matches(tx0, t, ps),
        forall|ps: Seq<(int, int)>|
            #[trigger] listed_matches(tx0, t, ps) ==> listed_fields(tx1, ps) == listed_fields(tx0, ps)
                && listed_offsets(tx1, ps) == listed_offsets(tx0, ps),
        forall|size: i32| #[trigger] recorded_size(tx1, t, size) == recorded_size(tx0, t, size),
        forall|f: Seq<FieldSpec>| catalog_lists(tx0, t, f) ==> #[trigger] catalog_lists(tx1, t, f),
{
    assert forall|n: int, s: int| #[trigger] tcat_match(tx1, n, s, t) == tcat_match(tx0, n, s, t) by {
        if tcat_match(tx0, n, s, t) {
            assert(used_at(tx1, tcat_file(), tcat_fields(), n, s));
        }
        if tcat_match(tx1, n, s, t) && !used_at(tx0, tcat_file(), tcat_fields(), n, s) {
            assert(n == p.0 && s == p.1);
            assert(ConstVal::Str(name) != ConstVal::Str(t));
        }
    }
    assert forall|n: int, s: int| #[trigger] fcat_match(tx1, n, s, t) == fcat_match(tx0, n, s, t) by {
        if fcat_match(tx0, n, s, t) {
            assert(used_at(tx1, fcat_file(), fcat_fields(), n, s));
        }
        if fcat_match(tx1, n, s, t) && !used_at(tx0, fcat_file(), fcat_fields(), n, s) {
            let i = choose|i: int| 0 <= i < qs.len() && #[trigger] qs[i] == (n, s);
            assert(rec_at(tx1, fcat_file(), fcat_fields(), qs[i].0, qs[i].1) == field_rec(name, fs, i));
            assert(ConstVal::Str(name) != ConstVal::Str(t));
        }
    }
    assert forall|ps: Seq<(int, int)>| #[trigger] listed_matches(tx1, t, ps) == listed_matches(tx0, t, ps) by {
        assert forall|n: int, s: int|
            #![trigger fcat_match(tx1, n, s, t)]
            #![trigger fcat_match(tx0, n, s, t)]
            fcat_match(tx1, n, s, t) == fcat_match(tx0, n, s, t) by {
        }
    }
    assert forall|ps: Seq<(int, int)>| #[trigger] listed_matches(tx0, t, ps) implies listed_fields(tx1, ps)
        == listed_fields(tx0, ps) && listed_offsets(tx1, ps) == listed_offsets(tx0, ps) by {
        assert forall|i: int| 0 <= i < ps.len() implies #[trigger] rec_at(tx1, fcat_file(), fcat_fields(), ps[i].0, ps[i].1)
            == rec_at(tx0, fcat_file(), fcat_fields(), ps[i].0, ps[i].1) by {
            assert(fcat_match(tx0, ps[i].0, ps[i].1, t));
        }
        assert(listed_fields(tx1, ps) =~= listed_fields(tx0, ps));
        assert(listed_offsets(tx1, ps) =~= listed_offsets(tx0, ps));
    }
    assert forall|size: i32| #[trigger] recorded_size(tx1, t, size) == recorded_size(tx0, t, size) by {
        assert forall|n: int, s: int|
            #![trigger tcat_match(tx1, n, s, t)]
            #![trigger tcat_match(tx0, n, s, t)]
            tcat_match(tx1, n, s, t) == tcat_match(tx0, n, s, t) by {
        }
        if recorded_size(tx1, t, size) && size != -1 {
            let (n, s) = choose|n: int, s: int|
                {
                    &&& #[trigger] tcat_match(tx1, n, s, t)
                    &&& rec_at(tx1, tcat_file(), tcat_fields(), n, s)[1] == ConstVal::Int(size)
                    &&& forall|m: int, u: int| pos_before(m, u, n, s) ==> !#[trigger] tcat_match(tx1, m, u, t)
                };
            assert(tcat_match(tx0, n, s, t));
        }
        if recorded_size(tx0, t, size) && size != -1 {
            let (n, s) = choose|n: int, s: int|
                {
                    &&& #[trigger] tcat_match(tx0, n, s, t)
                    &&& rec_at(tx0, tcat_file(), tcat_fields(), n, s)[1] == ConstVal::Int(size)
                    &&& forall|m: int, u: int| pos_before(m, u, n, s) ==> !#[trigger] tcat_match(tx0, m, u, t)
                };
            assert(tcat_match(tx1, n, s, t));
        }
    }
}

/// The catalog manager: it records in the table catalog each table's name and
/// slot size, and in the field catalog each field's name, type, length and
/// offset.
pub struct TableMgr {
    tcat_layout: Layout,
    fcat_layout: Layout,
}

impl TableMgr {
    /// The manager's layouts are those of the two catalogs.
    pub closed spec fn wf(&self) -> bool {
        &&& self.tcat_layout.wf()
        &&& self.tcat_layout.fields() == tcat_fields()
        &&& self.fcat_layout.wf()
        &&& self.fcat_layout.fields() == fcat_fields()
    }

    /// The catalog manager; for a new database it first records the two
    /// catalogs themselves in the catalogs.
    pub fn new(is_new: bool, tx: &mut Transaction) -> (r: Self)
        requires
            catalogs_ok(old(tx)),
            is_new ==> old(tx).blocks(tcat_file()).len() + 4 < i32::MAX,
            is_new ==> old(tx).blocks(fcat_file()).len() + 10 < i32::MAX,
        ensures
            r.wf(),
            catalogs_ok(final(tx)),
            final(tx).spec_block_size() == old(tx).spec_block_size(),
            forall|nm: Seq<char>|
                nm != tcat_file() && nm != fcat_file() ==> #[trigger] final(tx).blocks(nm) == old(tx).blocks(nm),
            is_new ==> {
                &&& catalog_holds(final(tx), "tblcat"@, tcat_fields())
                &&& catalog_holds(final(tx), "fldcat"@, fcat_fields())
                &&& records_kept(old(tx), final(tx), tcat_file(), tcat_fields())
                &&& records_kept(old(tx), final(tx), fcat_file(), fcat_fields())
            },
            !is_new ==> *final(tx) == *old(tx),
            is_new ==> final(tx).blocks(tcat_file()).len() <= old(tx).blocks(tcat_file()).len() + 4,
            is_new ==> final(tx).blocks(fcat_file()).len() <= old(tx).blocks(fcat_file()).len() + 9,
            is_new ==> forall|t: Seq<char>, n: int, s: int|
                t != "tblcat"@ && t != "fldcat"@ ==> (#[trigger] tcat_match(final(tx), n, s, t) == tcat_match(
                    old(tx),
                    n,
                    s,
                    t,
                )),
            is_new ==> forall|t: Seq<char>, n: int, s: int|
                t != "tblcat"@ && t != "fldcat"@ ==> (#[trigger] fcat_match(final(tx), n, s, t) == fcat_match(
                    old(tx),
                    n,
                    s,
                    t,
                )),
            is_new && old(tx).blocks(tcat_file()).len() == 0 && old(tx).blocks(fcat_file()).len() == 0 ==> {
                &&& catalog_lists(final(tx), "tblcat"@, tcat_fields())
                &&& catalog_lists(final(tx), "fldcat"@, fcat_fields())
            },
    {
        proof {
            lemma_catalog_fields();
            lemma_catalog_names_fit();
        }
        let mut tcat_schema = Schema::new();
        tcat_schema.add_string_field("tblname", MAX_NAME);
        tcat_schema.add_int_field("slotsize");
        assert(tcat_schema@ =~= tcat_fields());
        let tcat_layout = Layout::new(tcat_schema.clone());
        let mut fcat_schema = Schema::new();
        fcat_schema.add_string_field("tblname", MAX_NAME);
        fcat_schema.add_string_field("fldname", MAX_NAME);
        fcat_schema.add_int_field("type");
        fcat_schema.add_int_field("length");
        fcat_schema.add_int_field("offset");
        assert(fcat_schema@ =~= fcat_fields());
        let fcat_layout = Layout::new(fcat_schema.clone());
        let tm = TableMgr { tcat_layout, fcat_layout };
        if is_new {
            let ghost tx0 = *tx;
            tm.create_table("tblcat", tcat_schema, tx);
            let ghost tx1 = *tx;
            tm.create_table("fldcat", fcat_schema, tx);
            proof {
                reveal_strlit("tblcat");
                reveal_strlit("fldcat");
                assert("tblcat"@ != "fldcat"@) by {
                    assert("tblcat"@[0] != "fldcat"@[0]);
                }
                if tx0.blocks(tcat_file()).len() == 0 && tx0.blocks(fcat_file()).len() == 0 {
                    assert(forall|n: int, s: int| !#[trigger] tcat_match(&tx0, n, s, "tblcat"@));
                    assert(forall|n: int, s: int| !#[trigger] fcat_match(&tx0, n, s, "tblcat"@));
                    assert(catalog_lists(&tx1, "tblcat"@, tcat_fields()));
                    assert forall|n: int, s: int| !#[trigger] tcat_match(&tx1, n, s, "fldcat"@) by {
                        assert(tcat_match(&tx1, n, s, "fldcat"@) == tcat_match(&tx0, n, s, "fldcat"@));
                    }
                    assert forall|n: int, s: int| !#[trigger] fcat_match(&tx1, n, s, "fldcat"@) by {
                        assert(fcat_match(&tx1, n, s, "fldcat"@) == fcat_match(&tx0, n, s, "fldcat"@));
                    }
                    assert(catalog_lists(tx, "fldcat"@, fcat_fields()));
                    assert(catalog_lists(tx, "tblcat"@, tcat_fields()));
                }
                assert forall|t: Seq<char>, n: int, s: int|
                    t != "tblcat"@ && t != "fldcat"@ implies (#[trigger] tcat_match(tx, n, s, t) == tcat_match(
                        &tx0,
                        n,
                        s,
                        t,
                    )) by {
                    assert(tcat_match(tx, n, s, t) == tcat_match(&tx1, n, s, t));
                    assert(tcat_match(&tx1, n, s, t) == tcat_match(&tx0, n, s, t));
                }
                assert forall|t: Seq<char>, n: int, s: int|
                    t != "tblcat"@ && t != "fldcat"@ implies (#[trigger] fcat_match(tx, n, s, t) == fcat_match(
                        &tx0,
                        n,
                        s,
                        t,
                    )) by {
                    assert(fcat_match(tx, n, s, t) == fcat_match(&tx1, n, s, t));
                    assert(fcat_match(&tx1, n, s, t) == fcat_match(&tx0, n, s, t));
                }
                lemma_records_kept_trans(&tx0, &tx1, tx, tcat_file(), tcat_fields());
                lemma_records_kept_trans(&tx0, &tx1, tx, fcat_file(), fcat_fields());
                let r = table_rec("tblcat"@, tcat_fields());
                lemma_has_record_kept(&tx1, tx, tcat_file(), tcat_fields(), r);
                assert forall|i: int| 0 <= i < tcat_fields().len() implies has_record(
                    tx,
                    fcat_file(),
                    fcat_fields(),
                    #[trigger] field_rec("tblcat"@, tcat_fields(), i),
                ) by {
                    lemma_has_record_kept(&tx1, tx, fcat_file(), fcat_fields(), field_rec("tblcat"@, tcat_fields(), i));
                }
            }
        }
        tm
    }

    /// Records in the catalogs the table `tblname` of schema `sch`: its slot
    /// size in the table catalog, and each field in the field catalog.
    pub fn create_table(&self, tblname: &str, sch: Schema, tx: &mut Transaction)
        requires
            self.wf(),
            catalogs_ok(old(tx)),
            fields_fit(sch@),
            name_fits(tblname@),
            forall|i: int| 0 <= i < sch@.len() ==> name_fits(#[trigger] sch@[i].name),
            old(tx).blocks(tcat_file()).len() + 2 < i32::MAX,
            old(tx).blocks(fcat_file()).len() + sch@.len() + 2 < i32::MAX,
        ensures
            catalogs_ok(final(tx)),
            catalog_holds(final(tx), tblname@, sch@),
            records_kept(old(tx), final(tx), tcat_file(), tcat_fields()),
            records_kept(old(tx), final(tx), fcat_file(), fcat_fields()),
            final(tx).spec_block_size() == old(tx).spec_block_size(),
            forall|nm: Seq<char>|
                nm != tcat_file() && nm != fcat_file() ==> #[trigger] final(tx).blocks(nm) == old(tx).blocks(nm),
            final(tx).blocks(tcat_file()).len() <= old(tx).blocks(tcat_file()).len() + 2,
            final(tx).blocks(fcat_file()).len() <= old(tx).blocks(fcat_file()).len() + sch@.len() + 1,
            exists|p: (int, int)|
                {
                    &&& #[trigger] added_at(old(tx), final(tx), tcat_file(), tcat_fields(), p.0, p.1)
                    &&& rec_at(final(tx), tcat_file(), tcat_fields(), p.0, p.1) == table_rec(tblname@, sch@)
                },
            exists|qs: Seq<(int, int)>|
                #[trigger] fields_added(old(tx), final(tx), tblname@, sch@, qs) && qs.len() == sch@.len(),
            (forall|n: int, s: int| !#[trigger] tcat_match(old(tx), n, s, tblname@)) && (forall|n: int, s: int|
                !#[trigger] fcat_match(old(tx), n, s, tblname@)) && names_distinct(sch@) ==> catalog_lists(
                final(tx),
                tblname@,
                sch@,
            ),
            forall|t: Seq<char>, f: Seq<FieldSpec>|
                t != tblname@ && catalog_lists(old(tx), t, f) ==> #[trigger] catalog_lists(final(tx), t, f),
            forall|t: Seq<char>, n: int, s: int|
                t != tblname@ ==> (#[trigger] tcat_match(final(tx), n, s, t) == tcat_match(old(tx), n, s, t)),
            forall|t: Seq<char>, n: int, s: int|
                t != tblname@ ==> (#[trigger] fcat_match(final(tx), n, s, t) == fcat_match(old(tx), n, s, t)),
            exists|n: int, s: int| #[trigger] tcat_match(final(tx), n, s, tblname@),
    {
        let ghost fs = sch@;
        let ghost tx0 = *tx;
        proof {
            lemma_catalog_fields();
            reveal_strlit("tblcat");
            reveal_strlit("fldcat");
            assert(tcat_file() != fcat_file()) by {
                assert(tcat_file()[0] != fcat_file()[0]);
            }
        }
        let layout = Layout::new(sch);
        let mut tcat = TableScan::new(tx, "tblcat", self.tcat_layout.clone());
        proof {
            lemma_scan_opened(&tx0, tx, tcat_file(), tcat_fields());
            lemma_open_used(&tx0, tx, tcat_file(), tcat_fields());
        }
        let ghost tx1 = *tx;
        let slotsize = layout.slot_size();
        add_table_rec(&mut tcat, tx, tblname, slotsize);
        let ghost tx2 = *tx;
        let ghost p = (tcat.bnum(), tcat.slot());
        proof {
            assert(table_rec(tblname@, fs) =~= seq![ConstVal::Str(tblname@), ConstVal::Int(slotsize)]);
            assert(added_at(&tx0, tx, tcat_file(), tcat_fields(), p.0, p.1));
            lemma_records_kept_trans(&tx0, &tx1, tx, tcat_file(), tcat_fields());
            assert(table_ok(tx, fcat_file(), fcat_fields())) by {
                assert(tx.blocks(fcat_file()) == tx0.blocks(fcat_file()));
                tcat.lemma_valid(tx);
            }
        }
        let mut fcat = TableScan::new(tx, "fldcat", self.fcat_layout.clone());
        let ghost tx3 = *tx;
        let ghost mut qs: Seq<(int, int)> = Seq::empty();
        proof {
            lemma_scan_opened(&tx2, tx, fcat_file(), fcat_fields());
            lemma_open_used(&tx2, tx, fcat_file(), fcat_fields());
            assert(tx2.blocks(fcat_file()) == tx0.blocks(fcat_file()));
            assert(tx.blocks(tcat_file()) == tx2.blocks(tcat_file()));
            assert forall|n: int, s: int|
                #![trigger used_at(tx, tcat_file(), tcat_fields(), n, s)]
                #![trigger used_at(&tx2, tcat_file(), tcat_fields(), n, s)]
                used_at(tx, tcat_file(), tcat_fields(), n, s) == used_at(&tx2, tcat_file(), tcat_fields(), n, s) by {
            }
            assert(added_at(&tx0, tx, tcat_file(), tcat_fields(), p.0, p.1));
            assert forall|n: int, s: int| #[trigger] used_at(tx, fcat_file(), fcat_fields(), n, s) implies used_at(
                &tx0,
                fcat_file(),
                fcat_fields(),
                n,
                s,
            ) || exists|i: int| 0 <= i < qs.len() && #[trigger] qs[i] == (n, s) by {
                assert(used_at(&tx2, fcat_file(), fcat_fields(), n, s));
            }
            assert(fields_added(&tx0, tx, tblname@, fs, qs));
            lemma_records_kept_trans(&tx0, &tx2, tx, fcat_file(), fcat_fields());
            tcat.lemma_valid(&tx2);
            fcat.lemma_valid(tx);
            assert(tx.blocks(tcat_file()) == tx2.blocks(tcat_file()));
            assert(table_ok(tx, tcat_file(), tcat_fields()));
            let rec = seq![ConstVal::Str(tblname@), ConstVal::Int(slotsize)];
            assert(table_rec(tblname@, fs) =~= rec);
            let (n, s) = choose|n: int, s: int| #[trigger] used_at(&tx2, tcat_file(), tcat_fields(), n, s)
                && rec_at(&tx2, tcat_file(), tcat_fields(), n, s) == rec;
            assert(used_at(tx, tcat_file(), tcat_fields(), n, s));
            assert forall|n: int, s: int| #[trigger] used_at(&tx0, tcat_file(), tcat_fields(), n, s) implies used_at(
                tx,
                tcat_file(),
                tcat_fields(),
                n,
                s,
            ) && rec_at(tx, tcat_file(), tcat_fields(), n, s) == rec_at(&tx0, tcat_file(), tcat_fields(), n, s) by {
                assert(used_at(&tx2, tcat_file(), tcat_fields(), n, s));
            }
        }
        let fields = layout.schema().fields();
        let mut i: usize = 0;
        while i < fields.len()
            invariant
                i <= fields@.len(),
                fields@.len() == fs.len(),
                forall|j: int| 0 <= j < fields@.len() ==> #[trigger] fields@[j]@ == fs[j].name,
                layout.wf(),
                layout.fields() == fs,
                fields_fit(fs),
                name_fits(tblname@),
                forall|j: int| 0 <= j < fs.len() ==> name_fits(#[trigger] fs[j].name),
                fcat.valid(tx),
                fcat.file() == fcat_file(),
                fcat.fs() == fcat_fields(),
                catalogs_ok(tx),
                tx0 == *old(tx),
                tcat_file() != fcat_file(),
                has_record(tx, tcat_file(), tcat_fields(), table_rec(tblname@, fs)),
                records_kept(&tx0, tx, tcat_file(), tcat_fields()),
                records_kept(&tx0, tx, fcat_file(), fcat_fields()),
                forall|j: int| 0 <= j < i ==> has_record(tx, fcat_file(), fcat_fields(), #[trigger] field_rec(tblname@, fs, j)),
                tx.spec_block_size() == tx0.spec_block_size(),
                forall|nm: Seq<char>| nm != tcat_file() && nm != fcat_file() ==> #[trigger] tx.blocks(nm) == tx0.blocks(nm),
                tx.blocks(tcat_file()).len() <= tx0.blocks(tcat_file()).len() + 2,
                tx.blocks(fcat_file()).len() <= tx0.blocks(fcat_file()).len() + 1 + i,
                tx0.blocks(fcat_file()).len() + fs.len() + 2 < i32::MAX,
                qs.len() == i,
                fields_added(&tx0, tx, tblname@, fs, qs),
                i > 0 ==> qs.last() == (fcat.bnum(), fcat.slot()),
                added_at(&tx0, tx, tcat_file(), tcat_fields(), p.0, p.1),
                rec_at(tx, tcat_file(), tcat_fields(), p.0, p.1) == table_rec(tblname@, fs),
            decreases fields@.len() - i,
        {
            let fldname = fields[i].as_str();
            proof {
                assert(fs[i as int].name == fldname@);
                assert(has_field_spec(fs, fldname@));
            }
            let ftype = layout.schema().ftype(fldname);
            let length = layout.schema().length(fldname);
            let offset = layout.offset(fldname);
            let ghost before = *tx;
            let ghost old_qs = qs;
            let ghost scan_before = fcat;
            add_field_rec(&mut fcat, tx, tblname, fldname, ftype, length, offset);
            proof {
                let q = (fcat.bnum(), fcat.slot());
                qs = qs.push(q);
                assert(field_rec(tblname@, fs, i as int) =~= seq![
                    ConstVal::Str(tblname@),
                    ConstVal::Str(fldname@),
                    ConstVal::Int(ftype),
                    ConstVal::Int(length),
                    ConstVal::Int(offset),
                ]);
                lemma_fields_added_step(&tx0, &before, tx, tblname@, fs, old_qs, q, scan_before.bnum(), scan_before.slot());
                assert(tx.blocks(tcat_file()) == before.blocks(tcat_file()));
                assert forall|n: int, s: int|
                    #![trigger used_at(tx, tcat_file(), tcat_fields(), n, s)]
                    #![trigger used_at(&before, tcat_file(), tcat_fields(), n, s)]
                    used_at(tx, tcat_file(), tcat_fields(), n, s) == used_at(&before, tcat_file(), tcat_fields(), n, s) by {
                }
                lemma_records_kept_trans(&tx0, &before, tx, fcat_file(), fcat_fields());
                assert(tx.blocks(tcat_file()) == before.blocks(tcat_file()));
                assert forall|j: int| 0 <= j < i + 1 implies has_record(
                    tx,
                    fcat_file(),
                    fcat_fields(),
                    #[trigger] field_rec(tblname@, fs, j),
                ) by {
                    if j < i {
                        lemma_has_record_kept(&before, tx, fcat_file(), fcat_fields(), field_rec(tblname@, fs, j));
                    } else {
                        assert(field_rec(tblname@, fs, j) =~= seq![
                            ConstVal::Str(tblname@),
                            ConstVal::Str(fldname@),
                            ConstVal::Int(ftype),
                            ConstVal::Int(length),
                            ConstVal::Int(offset),
                        ]);
                    }
                }
                assert forall|r: Seq<ConstVal>| has_record(&before, tcat_file(), tcat_fields(), r) implies has_record(
                    tx,
                    tcat_file(),
                    tcat_fields(),
                    r,
                ) by {
                    let (n, s) = choose|n: int, s: int| #[trigger] used_at(&before, tcat_file(), tcat_fields(), n, s)
                        && rec_at(&before, tcat_file(), tcat_fields(), n, s) == r;
                    assert(used_at(tx, tcat_file(), tcat_fields(), n, s));
                }
                assert forall|n: int, s: int| #[trigger] used_at(&tx0, tcat_file(), tcat_fields(), n, s) implies used_at(
                    tx,
                    tcat_file(),
                    tcat_fields(),
                    n,
                    s,
                ) && rec_at(tx, tcat_file(), tcat_fields(), n, s) == rec_at(&tx0, tcat_file(), tcat_fields(), n, s) by {
                    assert(used_at(&before, tcat_file(), tcat_fields(), n, s));
                }
                fcat.lemma_valid(tx);
            }
            i = i + 1;
        }
        proof {
            let qs_all = qs;
            assert(fields_added(&tx0, tx, tblname@, fs, qs_all));
            if (forall|n: int, s: int| !#[trigger] tcat_match(&tx0, n, s, tblname@)) && (forall|n: int, s: int|
                !#[trigger] fcat_match(&tx0, n, s, tblname@)) && names_distinct(fs) {
                lemma_created_listing(&tx0, tx, tblname@, fs, p, qs_all);
            }
            assert forall|t: Seq<char>, f: Seq<FieldSpec>|
                t != tblname@ && catalog_lists(&tx0, t, f) implies #[trigger] catalog_lists(tx, t, f) by {
                lemma_other_lists_kept(&tx0, tx, tblname@, fs, p, qs_all, t);
            }
            assert forall|t: Seq<char>, n: int, s: int|
                t != tblname@ implies (#[trigger] tcat_match(tx, n, s, t) == tcat_match(&tx0, n, s, t)) by {
                lemma_other_lists_kept(&tx0, tx, tblname@, fs, p, qs_all, t);
            }
            assert forall|t: Seq<char>, n: int, s: int|
                t != tblname@ implies (#[trigger] fcat_match(tx, n, s, t) == fcat_match(&tx0, n, s, t)) by {
                lemma_other_lists_kept(&tx0, tx, tblname@, fs, p, qs_all, t);
            }
            assert(tcat_match(tx, p.0, p.1, tblname@));
        }
    }

    /// The layout of the table `tblname` as the catalogs record it: the slot
    /// size in its first table catalog record, or -1, and the fields, with
    /// their offsets, of its field catalog records in order.
    pub fn get_layout(&self, tblname: &str, tx: &mut Transaction) -> (r: Layout)
        requires
            self.wf(),
            catalogs_ok(old(tx)),
        ensures
            catalogs_ok(final(tx)),
            final(tx).spec_block_size() == old(tx).spec_block_size(),
            forall|nm: Seq<char>|
                nm != tcat_file() && nm != fcat_file() ==> #[trigger] final(tx).blocks(nm) == old(tx).blocks(nm),
            records_kept(old(tx), final(tx), tcat_file(), tcat_fields()),
            records_kept(old(tx), final(tx), fcat_file(), fcat_fields()),
            old(tx).blocks(tcat_file()).len() != 0 && old(tx).blocks(fcat_file()).len() != 0 ==> *final(tx)
                == *old(tx),
            recorded_size(final(tx), tblname@, r.spec_slot_size()),
            exists|ps: Seq<(int, int)>|
                {
                    &&& #[trigger] listed_matches(final(tx), tblname@, ps)
                    &&& r.fields() == listed_fields(final(tx), ps)
                    &&& r.spec_offsets() == listed_offsets(final(tx), ps)
                },
    {
        let ghost tx0 = *tx;
        proof {
            lemma_catalog_fields();
            reveal_strlit("tblcat");
            reveal_strlit("fldcat");
            assert(tcat_file() != fcat_file()) by {
                assert(tcat_file()[0] != fcat_file()[0]);
            }
        }
        let target = tblname.to_owned();
        let mut tcat = TableScan::new(tx, "tblcat", self.tcat_layout.clone());
        let ghost tx1 = *tx;
        proof {
            tcat.lemma_valid(tx);
            assert(tx.blocks(fcat_file()) == tx0.blocks(fcat_file()));
        }
        let mut size: i32 = -1;
        loop
            invariant_except_break
                tcat.valid(tx),
                tcat.file() == tcat_file(),
                tcat.fs() == tcat_fields(),
                size == -1,
                forall|n: int, s: int|
                    #[trigger] tcat_match(tx, n, s, tblname@) ==> pos_before(tcat.bnum(), tcat.slot(), n, s),
            invariant
                *tx == tx1,
                target@ == tblname@,
            ensures
                recorded_size(tx, tblname@, size),
            decreases tx.blocks(tcat_file()).len() - tcat.bnum(), tx.spec_block_size() - tcat.slot(),
        {
            proof {
                tcat.lemma_valid(tx);
                lemma_catalog_fields();
            }
            let ghost head = tcat;
            if !tcat.next(tx) {
                proof {
                    assert forall|n: int, s: int| !#[trigger] tcat_match(tx, n, s, tblname@) by {
                        if tcat_match(tx, n, s, tblname@) {
                            assert(pos_before(head.bnum(), head.slot(), n, s));
                        }
                    }
                }
                break;
            }
            proof {
                tcat.lemma_valid(tx);
                crate::index::btree::page_format::lemma_slot_pos_ge(tcat_fields(), tcat.slot() + 1);
            }
            let name = tcat.get_string(tx, "tblname");
            if name == target {
                size = tcat.get_int(tx, "slotsize");
                proof {
                    let n = tcat.bnum();
                    let s = tcat.slot();
                    assert(tcat_match(tx, n, s, tblname@));
                    let b = tcat.cur_bytes(tx);
                    assert(rec_val(b, tcat_fields(), s)[1] == crate::index::btree::page_format::field_val(
                        b,
                        tcat_fields(),
                        s,
                        1,
                    ));
                    assert(rec_at(tx, tcat_file(), tcat_fields(), n, s)[1] == ConstVal::Int(size));
                    assert forall|m: int, t: int| pos_before(m, t, n, s) implies !#[trigger] tcat_match(
                        tx,
                        m,
                        t,
                        tblname@,
                    ) by {
                        if tcat_match(tx, m, t, tblname@) {
                            assert(pos_before(head.bnum(), head.slot(), m, t));
                        }
                    }
                }
                break;
            }
        }
        let mut sch = Schema::new();
        let mut offsets: Vec<i32> = Vec::new();
        let mut fcat = TableScan::new(tx, "fldcat", self.fcat_layout.clone());
        let ghost tx2 = *tx;
        let ghost mut ps: Seq<(int, int)> = Seq::empty();
        proof {
            fcat.lemma_valid(tx);
            assert(tx.blocks(tcat_file()) == tx1.blocks(tcat_file()));
            lemma_recorded_size_same(&tx1, tx, tblname@, size);
            lemma_scan_opened(&tx0, &tx1, tcat_file(), tcat_fields());
            lemma_kept_same_blocks(&tx1, tx, tcat_file(), tcat_fields());
            lemma_records_kept_trans(&tx0, &tx1, tx, tcat_file(), tcat_fields());
            lemma_kept_same_blocks(&tx0, &tx1, fcat_file(), fcat_fields());
            lemma_scan_opened(&tx1, tx, fcat_file(), fcat_fields());
            lemma_records_kept_trans(&tx0, &tx1, tx, fcat_file(), fcat_fields());
            assert(sch@ =~= listed_fields(tx, ps));
            assert(offsets@ =~= listed_offsets(tx, ps));
        }
        loop
            invariant
                *tx == tx2,
                records_kept(&tx0, tx, tcat_file(), tcat_fields()),
                records_kept(&tx0, tx, fcat_file(), fcat_fields()),
                tx.spec_block_size() == tx0.spec_block_size(),
                forall|nm: Seq<char>| nm != tcat_file() && nm != fcat_file() ==> #[trigger] tx.blocks(nm) == tx0.blocks(nm),
                tx0 == *old(tx),
                tx0.blocks(tcat_file()).len() != 0 && tx0.blocks(fcat_file()).len() != 0 ==> *tx == tx0,
                catalogs_ok(tx),
                target@ == tblname@,
                fcat.valid(tx),
                fcat.file() == fcat_file(),
                fcat.fs() == fcat_fields(),
                recorded_size(tx, tblname@, size),
                sch@ == listed_fields(tx, ps),
                offsets@ == listed_offsets(tx, ps),
                forall|i: int, j: int|
                    0 <= i < j < ps.len() ==> pos_before(#[trigger] ps[i].0, ps[i].1, #[trigger] ps[j].0, ps[j].1),
                forall|i: int|
                    0 <= i < ps.len() ==> fcat_match(tx, #[trigger] ps[i].0, ps[i].1, tblname@) && !pos_before(
                        fcat.bnum(),
                        fcat.slot(),
                        ps[i].0,
                        ps[i].1,
                    ),
                forall|n: int, s: int|
                    #[trigger] fcat_match(tx, n, s, tblname@) && !pos_before(fcat.bnum(), fcat.slot(), n, s)
                        ==> exists|i: int| 0 <= i < ps.len() && #[trigger] ps[i] == (n, s),
            decreases tx.blocks(fcat_file()).len() - fcat.bnum(), tx.spec_block_size() - fcat.slot(),
        {
            proof {
                fcat.lemma_valid(tx);
                lemma_catalog_fields();
            }
            let ghost head = fcat;
            if !fcat.next(tx) {
                proof {
                    assert(listed_matches(tx, tblname@, ps)) by {
                        assert forall|n: int, s: int| #[trigger] fcat_match(tx, n, s, tblname@) implies exists|i: int|
                            0 <= i < ps.len() && #[trigger] ps[i] == (n, s) by {
                            if pos_before(head.bnum(), head.slot(), n, s) {
                                assert(!used_at(tx, fcat_file(), fcat_fields(), n, s));
                            }
                        }
                    }
                }
                return Layout::from_metadata(sch, offsets, size);
            }
            proof {
                fcat.lemma_valid(tx);
                crate::index::btree::page_format::lemma_slot_pos_ge(fcat_fields(), fcat.slot() + 1);
            }
            let name = fcat.get_string(tx, "tblname");
            if name == target {
                let fldname = fcat.get_string(tx, "fldname");
                let fldtype = fcat.get_int(tx, "type");
                let fldlen = fcat.get_int(tx, "length");
                let offset = fcat.get_int(tx, "offset");
                offsets.push(offset);
                sch.add_field(fldname.as_str(), fldtype, fldlen);
                proof {
                    let p = (fcat.bnum(), fcat.slot());
                    let old_ps = ps;
                    ps = ps.push(p);
                    assert(sch@ =~= listed_fields(tx, ps));
                    assert(offsets@ =~= listed_offsets(tx, ps));
                    assert forall|n: int, s: int|
                        #[trigger] fcat_match(tx, n, s, tblname@) && !pos_before(fcat.bnum(), fcat.slot(), n, s)
                            implies exists|i: int| 0 <= i < ps.len() && #[trigger] ps[i] == (n, s) by {
                        if n == p.0 && s == p.1 {
                            assert(ps[old_ps.len() as int] == (n, s));
                        } else if pos_before(head.bnum(), head.slot(), n, s) {
                            assert(!used_at(tx, fcat_file(), fcat_fields(), n, s));
                        } else {
                            let i = choose|i: int| 0 <= i < old_ps.len() && #[trigger] old_ps[i] == (n, s);
                            assert(ps[i] == (n, s));
                        }
                    }
                }
            } else {
                proof {
                    assert forall|n: int, s: int|
                        #[trigger] fcat_match(tx, n, s, tblname@) && !pos_before(fcat.bnum(), fcat.slot(), n, s)
                            implies exists|i: int| 0 <= i < ps.len() && #[trigger] ps[i] == (n, s) by {
                        if pos_before(head.bnum(), head.slot(), n, s) {
                            if n == fcat.bnum() && s == fcat.slot() {
                            } else {
                                assert(!used_at(tx, fcat_file(), fcat_fields(), n, s));
                            }
                        }
                    }
                }
            }
        }
    }
}

} // verus!
