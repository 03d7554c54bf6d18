use vstd::prelude::*;

use crate::index::btree::bt_page::{fidx, lemma_fidx_own, names_distinct};
use crate::metadata::table_mgr::{
    catalog_holds, catalog_lists, catalogs_ok, fcat_file, fcat_match, lemma_ascii_name_fits, listed_fields, listed_matches,
    listed_offsets, name_fits, recorded_size, tcat_file, tcat_match, TableMgr, MAX_NAME,
};
use crate::query::constant::ConstVal;
use crate::record::layout::{field_offset, fields_fit, slot_bytes, sum_bytes};
use crate::record::schema::{has_field_spec, FieldSpec, Schema, VARCHAR};
use crate::record::table_scan::{
    has_record, pos_before, rec_at, records_kept, table_file, table_ok, used_at, TableScan,
};
use crate::tx::Transaction;
use vstd::utf8::encode_utf8;

verus! {

/// The most characters a view definition can have.
pub const MAX_VIEWDEF: i32 = 100;

/// The fields of the view catalog: a view's name and definition.
pub open spec fn view_fields() -> Seq<FieldSpec> {
    seq![
        FieldSpec { name: "viewname"@, ftype: VARCHAR, length: MAX_NAME },
        FieldSpec { name: "viewdef"@, ftype: VARCHAR, length: MAX_VIEWDEF },
    ]
}

/// The file of the view catalog.
pub open spec fn viewcat_file() -> Seq<char> {
    table_file("viewcat"@)
}

/// The catalogs describe the table `tblname` as a table of the fields `fs`,
/// laid out one after another, and its file is a well-formed table of such
/// records.
pub open spec fn described_as(tx: &Transaction, tblname: Seq<char>, fs: Seq<FieldSpec>) -> bool {
    &&& forall|ps: Seq<(int, int)>|
        #[trigger] listed_matches(tx, tblname, ps) ==> {
            &&& listed_fields(tx, ps) == fs
            &&& listed_offsets(tx, ps) == Seq::new(fs.len(), |i: int| field_offset(fs, i) as i32)
        }
    &&& forall|size: i32| #[trigger] recorded_size(tx, tblname, size) ==> size == slot_bytes(fs)
    &&& table_ok(tx, table_file(tblname), fs)
}

/// Whether slot `s` of block `n` of the view catalog holds the view `vname`.
pub open spec fn view_match(tx: &Transaction, n: int, s: int, vname: Seq<char>) -> bool {
    &&& used_at(tx, viewcat_file(), view_fields(), n, s)
    &&& rec_at(tx, viewcat_file(), view_fields(), n, s)[0] == ConstVal::Str(vname)
}

/// `def` is the definition in the first record of the view `vname`, or none
/// where the view catalog has no record of it.
pub open spec fn view_def_is(tx: &Transaction, vname: Seq<char>, def: Option<Seq<char>>) -> bool {
    match def {
        None => forall|n: int, s: int| !#[trigger] view_match(tx, n, s, vname),
        Some(d) => exists|n: int, s: int|
            {
                &&& #[trigger] view_match(tx, n, s, vname)
                &&& rec_at(tx, viewcat_file(), view_fields(), n, s)[1] == ConstVal::Str(d)
                &&& forall|m: int, t: int| pos_before(m, t, n, s) ==> !#[trigger] view_match(tx, m, t, vname)
            },
    }
}

/// The view catalog's fields are distinct, fit a slot, are found by name,
/// and its file differs from the other catalogs'.
pub proof fn lemma_view_fields()
    ensures
        fields_fit(view_fields()),
        names_distinct(view_fields()),
        fidx(view_fields(), "viewname"@) == 0,
        fidx(view_fields(), "viewdef"@) == 1,
        has_field_spec(view_fields(), "viewname"@),
        has_field_spec(view_fields(), "viewdef"@),
        name_fits("viewcat"@),
        name_fits("viewname"@),
        name_fits("viewdef"@),
        viewcat_file() != tcat_file(),
        viewcat_file() != fcat_file(),
{
    reveal_strlit("viewname");
    reveal_strlit("viewdef");
    reveal_strlit("viewcat");
    reveal_strlit("tblcat");
    reveal_strlit("fldcat");
    let v = view_fields();
    assert(v.drop_last() =~= seq![v[0]]);
    assert(seq![v[0]].drop_last() =~= Seq::<FieldSpec>::empty());
    assert(sum_bytes(Seq::<FieldSpec>::empty()) == 0);
    assert(seq![v[0]].last() == v[0]);
    assert(sum_bytes(seq![v[0]]) == 68);
    assert(sum_bytes(v) == 472);
    assert(v[0].name.len() == 8 && v[1].name.len() == 7);
    assert(names_distinct(v));
    lemma_fidx_own(v, 0);
    lemma_fidx_own(v, 1);
    assert(v[0].name == "viewname"@);
    assert(v[1].name == "viewdef"@);
    lemma_ascii_name_fits("viewcat"@);
    lemma_ascii_name_fits("viewname"@);
    lemma_ascii_name_fits("viewdef"@);
    assert(viewcat_file()[0] != tcat_file()[0]);
    assert(viewcat_file()[0] != fcat_file()[0]);
}

/// Where the catalogs describe a table as a table of some fields, they are
/// not empty, and the layout they give is well formed.
pub proof fn lemma_described_catalogs(tx: &Transaction, tblname: Seq<char>, fs: Seq<FieldSpec>)
    requires
        described_as(tx, tblname, fs),
        fs.len() > 0,
        fields_fit(fs),
    ensures
        tx.blocks(tcat_file()).len() != 0,
        tx.blocks(fcat_file()).len() != 0,
{
    if tx.blocks(fcat_file()).len() == 0 {
        let ps = Seq::<(int, int)>::empty();
        assert(listed_matches(tx, tblname, ps));
        assert(listed_fields(tx, ps) =~= Seq::<FieldSpec>::empty());
    }
    if tx.blocks(tcat_file()).len() == 0 {
        assert forall|n: int, s: int| !#[trigger] tcat_match(tx, n, s, tblname) by {
        }
        assert(recorded_size(tx, tblname, -1i32));
        crate::record::layout::lemma_sum_bytes_nonneg(fs);
    }
}

/// A layout that the catalogs give for a table they describe as a table of
/// fields `fs` places those fields one after another.
pub proof fn lemma_described_layout(tx: &Transaction, tblname: Seq<char>, fs: Seq<FieldSpec>, layout: crate::record::layout::Layout)
    requires
        described_as(tx, tblname, fs),
        fields_fit(fs),
        recorded_size(tx, tblname, layout.spec_slot_size()),
        exists|ps: Seq<(int, int)>|
            {
                &&& #[trigger] listed_matches(tx, tblname, ps)
                &&& layout.fields() == listed_fields(tx, ps)
                &&& layout.spec_offsets() == listed_offsets(tx, ps)
            },
    ensures
        layout.wf(),
        layout.fields() == fs,
{
    let ps = choose|ps: Seq<(int, int)>|
        {
            &&& #[trigger] listed_matches(tx, tblname, ps)
            &&& layout.fields() == listed_fields(tx, ps)
            &&& layout.spec_offsets() == listed_offsets(tx, ps)
        };
    layout.lemma_wf_from_parts();
}

/// A change of files other than the catalogs and the table's own keeps a
/// description of the table, where the table's file stays well formed.
pub proof fn lemma_described_kept(tx1: &Transaction, tx2: &Transaction, tblname: Seq<char>, fs: Seq<FieldSpec>)
    requires
        described_as(tx1, tblname, fs),
        tx2.blocks(tcat_file()) == tx1.blocks(tcat_file()),
        tx2.blocks(fcat_file()) == tx1.blocks(fcat_file()),
        table_ok(tx2, table_file(tblname), fs),
    ensures
        described_as(tx2, tblname, fs),
{
    assert forall|n: int, s: int|
        #![trigger crate::metadata::table_mgr::fcat_match(tx2, n, s, tblname)]
        #![trigger crate::metadata::table_mgr::fcat_match(tx1, n, s, tblname)]
        crate::metadata::table_mgr::fcat_match(tx2, n, s, tblname) == crate::metadata::table_mgr::fcat_match(
            tx1,
            n,
            s,
            tblname,
        ) by {
    }
    assert forall|ps: Seq<(int, int)>| #[trigger] listed_matches(tx2, tblname, ps) implies {
        &&& listed_fields(tx2, ps) == fs
        &&& listed_offsets(tx2, ps) == Seq::new(fs.len(), |i: int| field_offset(fs, i) as i32)
    } by {
        assert(listed_matches(tx1, tblname, ps));
        assert(listed_fields(tx2, ps) =~= listed_fields(tx1, ps));
        assert(listed_offsets(tx2, ps) =~= listed_offsets(tx1, ps));
    }
    assert forall|size: i32| #[trigger] recorded_size(tx2, tblname, size) implies size == slot_bytes(fs) by {
        crate::metadata::table_mgr::lemma_recorded_size_same(tx2, tx1, tblname, size);
    }
}

/// A view that the view catalog records has a definition: `get_view_def`
/// finds one for it.
pub proof fn lemma_created_view_found(tx: &Transaction, vname: Seq<char>, vdef: Seq<char>, def: Option<Seq<char>>)
    requires
        has_record(tx, viewcat_file(), view_fields(), seq![ConstVal::Str(vname), ConstVal::Str(vdef)]),
        view_def_is(tx, vname, def),
    ensures
        def is Some,
{
    let rec = seq![ConstVal::Str(vname), ConstVal::Str(vdef)];
    let (n, s) = choose|n: int, s: int|
        #[trigger] used_at(tx, viewcat_file(), view_fields(), n, s) && rec_at(tx, viewcat_file(), view_fields(), n, s)
            == rec;
    assert(view_match(tx, n, s, vname));
}

/// The view manager: it keeps the definition of each view in the view catalog.
pub struct ViewMgr {
    tbl_mgr: TableMgr,
}

impl ViewMgr {
    /// The table manager of the view manager.
    pub closed spec fn tables(&self) -> TableMgr {
        self.tbl_mgr
    }

    /// The view manager; for a new database it first records the view
    /// catalog in the catalogs.
    pub fn new(is_new: bool, tbl_mgr: TableMgr, tx: &mut Transaction) -> (r: Self)
        requires
            tbl_mgr.wf(),
            catalogs_ok(old(tx)),
            is_new ==> old(tx).blocks(tcat_file()).len() + 2 < i32::MAX,
            is_new ==> old(tx).blocks(fcat_file()).len() + 4 < i32::MAX,
        ensures
            r.tables() == tbl_mgr,
            catalogs_ok(final(tx)),
            final(tx).spec_block_size() == old(tx).spec_block_size(),
            forall|nm: Seq<char>|
                nm != tcat_file() && nm != fcat_file() ==> #[trigger] final(tx).blocks(nm) == old(tx).blocks(nm),
            is_new ==> catalog_holds(final(tx), "viewcat"@, view_fields()),
            !is_new ==> *final(tx) == *old(tx),
            is_new ==> final(tx).blocks(tcat_file()).len() <= old(tx).blocks(tcat_file()).len() + 2,
            is_new ==> final(tx).blocks(fcat_file()).len() <= old(tx).blocks(fcat_file()).len() + 3,
            is_new ==> forall|t: Seq<char>, n: int, s: int|
                t != "viewcat"@ ==> (#[trigger] tcat_match(final(tx), n, s, t) == tcat_match(old(tx), n, s, t)),
            is_new ==> forall|t: Seq<char>, n: int, s: int|
                t != "viewcat"@ ==> (#[trigger] fcat_match(final(tx), n, s, t) == fcat_match(old(tx), n, s, t)),
            is_new ==> forall|t: Seq<char>, f: Seq<FieldSpec>|
                t != "viewcat"@ && catalog_lists(old(tx), t, f) ==> #[trigger] catalog_lists(final(tx), t, f),
            is_new && (forall|n: int, s: int| !#[trigger] tcat_match(old(tx), n, s, "viewcat"@)) && (forall|n: int, s: int|
                !#[trigger] fcat_match(old(tx), n, s, "viewcat"@)) ==> catalog_lists(final(tx), "viewcat"@, view_fields()),
    {
        if is_new {
            proof {
                lemma_view_fields();
            }
            let mut sch = Schema::new();
            sch.add_string_field("viewname", MAX_NAME);
            sch.add_string_field("viewdef", MAX_VIEWDEF);
            assert(sch@ =~= view_fields());
            tbl_mgr.create_table("viewcat", sch, tx);
        }
        ViewMgr { tbl_mgr }
    }

    /// Records the view `vname` with the definition `vdef` in the view catalog.
    pub fn create_view(&self, vname: &str, vdef: &str, tx: &mut Transaction)
        requires
            self.tables().wf(),
            catalogs_ok(old(tx)),
            described_as(old(tx), "viewcat"@, view_fields()),
            name_fits(vname@),
            encode_utf8(vdef@).len() <= 4 * MAX_VIEWDEF,
            old(tx).blocks(viewcat_file()).len() + 1 < i32::MAX,
        ensures
            catalogs_ok(final(tx)),
            described_as(final(tx), "viewcat"@, view_fields()),
            has_record(final(tx), viewcat_file(), view_fields(), seq![ConstVal::Str(vname@), ConstVal::Str(vdef@)]),
            records_kept(old(tx), final(tx), viewcat_file(), view_fields()),
            final(tx).blocks(viewcat_file()).len() <= old(tx).blocks(viewcat_file()).len() + 2,
            final(tx).spec_block_size() == old(tx).spec_block_size(),
            forall|nm: Seq<char>| nm != viewcat_file() ==> #[trigger] final(tx).blocks(nm) == old(tx).blocks(nm),
    {
        let ghost tx0 = *tx;
        proof {
            lemma_view_fields();
            lemma_described_catalogs(tx, "viewcat"@, view_fields());
        }
        let layout = self.tbl_mgr.get_layout("viewcat", tx);
        proof {
            lemma_described_layout(tx, "viewcat"@, view_fields(), layout);
        }
        let mut ts = TableScan::new(tx, "viewcat", layout);
        let ghost fs = view_fields();
        let ghost name = viewcat_file();
        let ghost tx1 = *tx;
        ts.insert(tx);
        let ghost tx2 = *tx;
        let ghost n = ts.bnum();
        let ghost t = ts.slot();
        proof {
            ts.lemma_valid(tx);
            ts.lemma_blk(tx);
            lemma_view_fields();
        }
        ts.set_string(tx, "viewname", vname);
        let ghost tx3 = *tx;
        proof {
            ts.lemma_blk(tx);
            tx2.lemma_same_but_self(*tx, ts.blk(), ts.cur_bytes(tx));
            crate::record::table_scan::lemma_records_kept_slot(&tx1, &tx2, tx, ts.blk(), ts.cur_bytes(tx), fs, t);
            ts.lemma_valid(tx);
        }
        ts.set_string(tx, "viewdef", vdef);
        proof {
            ts.lemma_blk(tx);
            tx3.lemma_same_but_self(*tx, ts.blk(), ts.cur_bytes(tx));
            crate::record::table_scan::lemma_records_kept_slot(&tx1, &tx3, tx, ts.blk(), ts.cur_bytes(tx), fs, t);
            ts.lemma_valid(tx);
            let rec = seq![ConstVal::Str(vname@), ConstVal::Str(vdef@)];
            assert(rec_at(tx, name, fs, n, t) =~= rec);
            assert(used_at(tx, name, fs, n, t));
            crate::metadata::table_mgr::lemma_scan_opened(&tx0, &tx1, name, fs);
            crate::record::table_scan::lemma_records_kept_trans(&tx0, &tx1, tx, name, fs);
            lemma_described_kept(&tx0, tx, "viewcat"@, fs);
        }
    }

    /// The definition of the view `vname`: the one in its first record of
    /// the view catalog, or none.
    pub fn get_view_def(&self, vname: &str, tx: &mut Transaction) -> (r: Option<String>)
        requires
            self.tables().wf(),
            catalogs_ok(old(tx)),
            described_as(old(tx), "viewcat"@, view_fields()),
        ensures
            catalogs_ok(final(tx)),
            described_as(final(tx), "viewcat"@, view_fields()),
            view_def_is(
                final(tx),
                vname@,
                match r {
                    Some(d) => Some(d@),
                    None => None,
                },
            ),
            records_kept(old(tx), final(tx), viewcat_file(), view_fields()),
            final(tx).spec_block_size() == old(tx).spec_block_size(),
            forall|nm: Seq<char>| nm != viewcat_file() ==> #[trigger] final(tx).blocks(nm) == old(tx).blocks(nm),
            old(tx).blocks(viewcat_file()).len() != 0 ==> *final(tx) == *old(tx),
    {
        let ghost tx0 = *tx;
        proof {
            lemma_view_fields();
            lemma_described_catalogs(tx, "viewcat"@, view_fields());
        }
        let layout = self.tbl_mgr.get_layout("viewcat", tx);
        proof {
            lemma_described_layout(tx, "viewcat"@, view_fields(), layout);
        }
        let target = vname.to_owned();
        let mut ts = TableScan::new(tx, "viewcat", layout);
        let ghost fs = view_fields();
        let ghost name = viewcat_file();
        let ghost tx1 = *tx;
        proof {
            ts.lemma_valid(tx);
            crate::metadata::table_mgr::lemma_scan_opened(&tx0, &tx1, name, fs);
            lemma_described_kept(&tx0, tx, "viewcat"@, fs);
        }
        let mut result: Option<String> = None;
        loop
            invariant_except_break
                ts.valid(tx),
                ts.file() == name,
                ts.fs() == fs,
                result is None,
                forall|n: int, s: int| #[trigger] view_match(tx, n, s, vname@) ==> pos_before(ts.bnum(), ts.slot(), n, s),
            invariant
                *tx == tx1,
                target@ == vname@,
                fs == view_fields(),
                name == viewcat_file(),
            ensures
                view_def_is(
                    tx,
                    vname@,
                    match result {
                        Some(d) => Some(d@),
                        None => None,
                    },
                ),
            decreases tx.blocks(name).len() - ts.bnum(), tx.spec_block_size() - ts.slot(),
        {
            proof {
                ts.lemma_valid(tx);
                lemma_view_fields();
            }
            let ghost head = ts;
            if !ts.next(tx) {
                proof {
                    assert forall|n: int, s: int| !#[trigger] view_match(tx, n, s, vname@) by {
                        if view_match(tx, n, s, vname@) {
                            assert(pos_before(head.bnum(), head.slot(), n, s));
                        }
                    }
                }
                break;
            }
            proof {
                ts.lemma_valid(tx);
                crate::index::btree::page_format::lemma_slot_pos_ge(fs, ts.slot() + 1);
            }
            let vn = ts.get_string(tx, "viewname");
            if vn == target {
                let def = ts.get_string(tx, "viewdef");
                proof {
                    let n = ts.bnum();
                    let s = ts.slot();
                    assert(view_match(tx, n, s, vname@));
                    assert(rec_at(tx, name, fs, n, s)[1] == ConstVal::Str(def@));
                    assert forall|m: int, t: int| pos_before(m, t, n, s) implies !#[trigger] view_match(tx, m, t, vname@) by {
                        if view_match(tx, m, t, vname@) {
                            assert(pos_before(head.bnum(), head.slot(), m, t));
                        }
                    }
                }
                result = Some(def);
                break;
            }
        }
        result
    }
}

} // verus!
