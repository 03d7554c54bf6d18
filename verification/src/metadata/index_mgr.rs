use vstd::prelude::*;

use crate::index::btree::bt_page::{fidx, lemma_fidx_own, names_distinct};
use crate::metadata::index_info::{idx_fields, IndexInfo, IndexType};
use crate::metadata::stat_mgr::{
    cache_put, cached, files_grown, stats_are, lemma_after_scan_open, lemma_catalogs_same,
    lemma_files_grown_trans, recorded, tables_described, StatMgr,
};
use crate::metadata::table_mgr::{
    catalog_holds, catalog_lists, catalogs_ok, fcat_file, fcat_match, lemma_ascii_name_fits, listed_fields, listed_matches, name_fits,
    str_of, tcat_file, tcat_match, TableMgr, MAX_NAME,
};
use crate::metadata::view_mgr::{
    described_as, lemma_described_catalogs, lemma_described_kept, lemma_described_layout,
};
use crate::query::constant::ConstVal;
use crate::record::layout::{fields_fit, sum_bytes, Layout};
use crate::record::schema::{find_field, has_field_spec, FieldSpec, Schema, VARCHAR};
use crate::record::table_scan::{has_record, pos_before, rec_at, records_kept, table_file, used_at, TableScan};
use crate::tx::transaction::{find_name, lemma_find_name, lemma_find_name_absent, lemma_find_name_at};
use crate::tx::Transaction;

verus! {

/// The fields of the index catalog: an index's name, its table and its field.
pub open spec fn idxcat_fields() -> Seq<FieldSpec> {
    seq![
        FieldSpec { name: "indexname"@, ftype: VARCHAR, length: MAX_NAME },
        FieldSpec { name: "tablename"@, ftype: VARCHAR, length: MAX_NAME },
        FieldSpec { name: "fieldname"@, ftype: VARCHAR, length: MAX_NAME },
    ]
}

/// The file of the index catalog.
pub open spec fn idxcat_file() -> Seq<char> {
    table_file("idxcat"@)
}

/// The record of the index catalog in slot `s` of block `n`.
pub open spec fn idx_rec(tx: &Transaction, n: int, s: int) -> Seq<ConstVal> {
    rec_at(tx, idxcat_file(), idxcat_fields(), n, s)
}

/// Whether slot `s` of block `n` of the index catalog holds an index on a
/// field of the table `tblname`.
pub open spec fn idx_match(tx: &Transaction, n: int, s: int, tblname: Seq<char>) -> bool {
    &&& used_at(tx, idxcat_file(), idxcat_fields(), n, s)
    &&& idx_rec(tx, n, s)[1] == ConstVal::Str(tblname)
}

/// The index catalog's fields are distinct, fit a slot, are found by name,
/// and its file differs from the other catalogs'.
pub proof fn lemma_idxcat_fields()
    ensures
        fields_fit(idxcat_fields()),
        names_distinct(idxcat_fields()),
        fidx(idxcat_fields(), "indexname"@) == 0,
        fidx(idxcat_fields(), "tablename"@) == 1,
        fidx(idxcat_fields(), "fieldname"@) == 2,
        has_field_spec(idxcat_fields(), "indexname"@),
        has_field_spec(idxcat_fields(), "tablename"@),
        has_field_spec(idxcat_fields(), "fieldname"@),
        name_fits("idxcat"@),
        name_fits("indexname"@),
        name_fits("tablename"@),
        name_fits("fieldname"@),
        idxcat_file() != tcat_file(),
        idxcat_file() != fcat_file(),
{
    reveal_strlit("indexname");
    reveal_strlit("tablename");
    reveal_strlit("fieldname");
    reveal_strlit("idxcat");
    reveal_strlit("tblcat");
    reveal_strlit("fldcat");
    let v = idxcat_fields();
    assert(v.drop_last() =~= seq![v[0], v[1]]);
    assert(seq![v[0], v[1]].drop_last() =~= seq![v[0]]);
    assert(seq![v[0]].drop_last() =~= Seq::<FieldSpec>::empty());
    assert(sum_bytes(Seq::<FieldSpec>::empty()) == 0);
    assert(seq![v[0]].last() == v[0]);
    assert(seq![v[0], v[1]].last() == v[1]);
    assert(sum_bytes(seq![v[0]]) == 68);
    assert(sum_bytes(seq![v[0], v[1]]) == 136);
    assert(sum_bytes(v) == 204);
    assert(v[0].name.len() == 9 && v[1].name.len() == 9 && v[2].name.len() == 9);
    assert(v[0].name[0] == 'i' && v[1].name[0] == 't' && v[2].name[0] == 'f');
    assert(names_distinct(v));
    lemma_fidx_own(v, 0);
    lemma_fidx_own(v, 1);
    lemma_fidx_own(v, 2);
    assert(v[0].name == "indexname"@);
    assert(v[1].name == "tablename"@);
    assert(v[2].name == "fieldname"@);
    lemma_ascii_name_fits("idxcat"@);
    lemma_ascii_name_fits("indexname"@);
    lemma_ascii_name_fits("tablename"@);
    lemma_ascii_name_fits("fieldname"@);
    assert(idxcat_file()[0] != tcat_file()[0]);
    assert(idxcat_file()[0] != fcat_file()[0]);
}

/// The slots `ps`, in scan order, are all the slots of the index catalog that
/// hold indexes on fields of the table `tblname`.
pub open spec fn listed_indexes(tx: &Transaction, tblname: Seq<char>, ps: Seq<(int, int)>) -> bool {
    &&& forall|i: int, j: int|
        0 <= i < j < ps.len() ==> pos_before(#[trigger] ps[i].0, ps[i].1, #[trigger] ps[j].0, ps[j].1)
    &&& forall|i: int| 0 <= i < ps.len() ==> idx_match(tx, #[trigger] ps[i].0, ps[i].1, tblname)
    &&& forall|n: int, s: int|
        #[trigger] idx_match(tx, n, s, tblname) ==> exists|i: int| 0 <= i < ps.len() && #[trigger] ps[i] == (n, s)
}

/// The field names of a map of fields to index names.
pub open spec fn index_keys(m: Seq<(Seq<char>, Seq<char>)>) -> Seq<Seq<char>> {
    m.map_values(|e: (Seq<char>, Seq<char>)| e.0)
}

/// The map after the field `f` gets the index `idx`: in place of its entry,
/// or after the others where it has none.
pub open spec fn index_put(m: Seq<(Seq<char>, Seq<char>)>, f: Seq<char>, idx: Seq<char>) -> Seq<
    (Seq<char>, Seq<char>),
> {
    let i = find_name(index_keys(m), f);
    if i < m.len() {
        m.update(i, (f, idx))
    } else {
        m.push((f, idx))
    }
}

/// The fields of the index records at the slots `ps`, each with the index
/// of the last of those records that names it, in the order the fields first
/// come.
pub open spec fn index_map(tx: &Transaction, ps: Seq<(int, int)>) -> Seq<(Seq<char>, Seq<char>)>
    decreases ps.len(),
{
    if ps.len() == 0 {
        Seq::empty()
    } else {
        let p = ps.last();
        index_put(
            index_map(tx, ps.drop_last()),
            str_of(idx_rec(tx, p.0, p.1)[2]),
            str_of(idx_rec(tx, p.0, p.1)[0]),
        )
    }
}

/// The view of a map of fields to index information: field names and
/// index names.
pub open spec fn infos_view(v: Seq<(String, IndexInfo)>) -> Seq<(Seq<char>, Seq<char>)> {
    v.map_values(|e: (String, IndexInfo)| (e.0@, e.1.spec_index_name()))
}

/// Every index on a field of the table `tblname` names one of its fields
/// `fs`, and the records of the index fit a slot.
pub open spec fn index_fields_ok(tx: &Transaction, tblname: Seq<char>, fs: Seq<FieldSpec>) -> bool {
    forall|n: int, s: int|
        #[trigger] idx_match(tx, n, s, tblname) ==> {
            &&& has_field_spec(fs, str_of(idx_rec(tx, n, s)[2]))
            &&& fields_fit(idx_fields(fs[find_field(fs, str_of(idx_rec(tx, n, s)[2]))]))
        }
}

/// The information `e.1` is that of an index of kind `kind` on the field
/// `e.0` of the table `tblname`, whose fields the catalogs list.
pub open spec fn info_ok(tx: &Transaction, tblname: Seq<char>, kind: IndexType, e: (String, IndexInfo)) -> bool {
    &&& e.1.spec_field_name() == e.0@
    &&& e.1.spec_type() == kind
    &&& e.1.wf()
    &&& forall|ps: Seq<(int, int)>|
        #[trigger] listed_matches(tx, tblname, ps) ==> e.1.spec_idx_fields() == idx_fields(
            listed_fields(tx, ps)[find_field(listed_fields(tx, ps), e.0@)],
        )
}

/// The index map depends on the index catalog's file alone.
proof fn lemma_index_map_same(tx1: &Transaction, tx2: &Transaction, ps: Seq<(int, int)>)
    requires
        tx1.blocks(idxcat_file()) == tx2.blocks(idxcat_file()),
    ensures
        index_map(tx1, ps) == index_map(tx2, ps),
    decreases ps.len(),
{
    if ps.len() > 0 {
        lemma_index_map_same(tx1, tx2, ps.drop_last());
    }
}

/// Giving the field `f` an index keeps the fields the map had, and adds `f`.
proof fn lemma_index_put_keys(m: Seq<(Seq<char>, Seq<char>)>, f: Seq<char>, idx: Seq<char>)
    ensures
        index_keys(index_put(m, f, idx)).contains(f),
        forall|g: Seq<char>| index_keys(m).contains(g) ==> #[trigger] index_keys(index_put(m, f, idx)).contains(g),
{
    let keys = index_keys(m);
    let put = index_put(m, f, idx);
    let pkeys = index_keys(put);
    lemma_find_name(keys, f);
    let k = find_name(keys, f);
    assert(pkeys[k] == f);
    assert forall|g: Seq<char>| keys.contains(g) implies #[trigger] pkeys.contains(g) by {
        let j = choose|j: int| 0 <= j < keys.len() && keys[j] == g;
        if j == k {
            assert(pkeys[k] == f);
            assert(keys[k] == f);
        } else {
            assert(pkeys[j] == keys[j]);
        }
    }
}

/// The index map holds the field of every index record it was built from.
proof fn lemma_index_map_keys(tx: &Transaction, ps: Seq<(int, int)>, k: int)
    requires
        0 <= k < ps.len(),
    ensures
        index_keys(index_map(tx, ps)).contains(str_of(idx_rec(tx, ps[k].0, ps[k].1)[2])),
    decreases ps.len(),
{
    let init = ps.drop_last();
    let p = ps.last();
    lemma_index_put_keys(index_map(tx, init), str_of(idx_rec(tx, p.0, p.1)[2]), str_of(idx_rec(tx, p.0, p.1)[0]));
    if k < ps.len() - 1 {
        lemma_index_map_keys(tx, init, k);
        assert(init[k] == ps[k]);
    }
}

/// An index that the index catalog records on a field of a table is among
/// the indexes found for the table: the field is a key of the map that
/// `get_index_info` returns for it.
pub proof fn lemma_created_index_found(
    tx: &Transaction,
    idxname: Seq<char>,
    tblname: Seq<char>,
    fldname: Seq<char>,
    ps: Seq<(int, int)>,
)
    requires
        has_record(
            tx,
            idxcat_file(),
            idxcat_fields(),
            seq![ConstVal::Str(idxname), ConstVal::Str(tblname), ConstVal::Str(fldname)],
        ),
        listed_indexes(tx, tblname, ps),
    ensures
        index_keys(index_map(tx, ps)).contains(fldname),
{
    let rec = seq![ConstVal::Str(idxname), ConstVal::Str(tblname), ConstVal::Str(fldname)];
    let (n, s) = choose|n: int, s: int|
        #[trigger] used_at(tx, idxcat_file(), idxcat_fields(), n, s) && rec_at(tx, idxcat_file(), idxcat_fields(), n, s)
            == rec;
    assert(idx_rec(tx, n, s) == rec);
    assert(idx_match(tx, n, s, tblname));
    let k = choose|k: int| 0 <= k < ps.len() && #[trigger] ps[k] == (n, s);
    lemma_index_map_keys(tx, ps, k);
}

/// Where the catalogs list the same fields, index information that agrees
/// with them keeps agreeing.
proof fn lemma_info_ok_kept(tx1: &Transaction, tx2: &Transaction, tblname: Seq<char>, kind: IndexType, e: (String, IndexInfo))
    requires
        info_ok(tx1, tblname, kind, e),
        forall|t: Seq<char>, ps: Seq<(int, int)>| #[trigger] listed_matches(tx2, t, ps) == listed_matches(tx1, t, ps),
        forall|ps: Seq<(int, int)>| #[trigger] listed_fields(tx2, ps) == listed_fields(tx1, ps),
    ensures
        info_ok(tx2, tblname, kind, e),
{
    assert forall|ps: Seq<(int, int)>| #[trigger] listed_matches(tx2, tblname, ps) implies e.1.spec_idx_fields()
        == idx_fields(listed_fields(tx2, ps)[find_field(listed_fields(tx2, ps), e.0@)]) by {
        assert(listed_matches(tx1, tblname, ps));
        assert(listed_fields(tx2, ps) == listed_fields(tx1, ps));
    }
}

/// Where the catalogs describe a table, they record it.
pub proof fn lemma_described_recorded(tx: &Transaction, tblname: Seq<char>, fs: Seq<FieldSpec>)
    requires
        described_as(tx, tblname, fs),
        fields_fit(fs),
    ensures
        recorded(tx, tblname),
{
    if !recorded(tx, tblname) {
        assert forall|n: int, s: int| !#[trigger] crate::metadata::table_mgr::tcat_match(tx, n, s, tblname) by {
            assert(!crate::metadata::table_mgr::tcat_match(tx, n, s, tblname));
        }
        assert(crate::metadata::table_mgr::recorded_size(tx, tblname, -1i32));
        crate::record::layout::lemma_sum_bytes_nonneg(fs);
    }
}

/// Files that grew twice by blocks of zeros where they had none grew once.
proof fn lemma_files_grown_chain(tx0: &Transaction, tx1: &Transaction, tx2: &Transaction)
    requires
        files_grown(tx0, tx1),
        files_grown(tx1, tx2),
    ensures
        files_grown(tx0, tx2),
{
    assert forall|nm: Seq<char>|
        #[trigger] tx2.blocks(nm) == tx0.blocks(nm) || (tx0.blocks(nm).len() == 0 && tx2.blocks(nm) == seq![
            crate::record::table_scan::zero_block(tx0.spec_block_size()),
        ]) by {
        assert(tx1.blocks(nm) == tx0.blocks(nm) || (tx0.blocks(nm).len() == 0 && tx1.blocks(nm) == seq![
            crate::record::table_scan::zero_block(tx0.spec_block_size()),
        ]));
        assert(tx2.blocks(nm) == tx1.blocks(nm) || (tx1.blocks(nm).len() == 0 && tx2.blocks(nm) == seq![
            crate::record::table_scan::zero_block(tx1.spec_block_size()),
        ]));
    }
}

/// The slots `ps` are, in scan order, all the slots up to slot `s` of block
/// `b` of the index catalog that hold indexes on fields of `tblname`.
pub open spec fn indexes_upto(tx: &Transaction, tblname: Seq<char>, ps: Seq<(int, int)>, b: int, s: int) -> bool {
    &&& forall|i: int, j: int|
        0 <= i < j < ps.len() ==> pos_before(#[trigger] ps[i].0, ps[i].1, #[trigger] ps[j].0, ps[j].1)
    &&& forall|i: int|
        0 <= i < ps.len() ==> idx_match(tx, #[trigger] ps[i].0, ps[i].1, tblname) && !pos_before(b, s, ps[i].0, ps[i].1)
    &&& forall|n: int, m: int|
        #[trigger] idx_match(tx, n, m, tblname) && !pos_before(b, s, n, m) ==> exists|i: int|
            0 <= i < ps.len() && #[trigger] ps[i] == (n, m)
}

/// A step of a scan of the index catalog keeps the listing of the indexes
/// met so far, with the slot it reaches added where it holds one.
proof fn lemma_indexes_step(
    tx: &Transaction,
    tblname: Seq<char>,
    old_ps: Seq<(int, int)>,
    ps: Seq<(int, int)>,
    b0: int,
    s0: int,
    b1: int,
    s1: int,
)
    requires
        indexes_upto(tx, tblname, old_ps, b0, s0),
        pos_before(b0, s0, b1, s1),
        forall|n: int, m: int|
            pos_before(b0, s0, n, m) && pos_before(n, m, b1, s1) ==> !#[trigger] idx_match(tx, n, m, tblname),
        idx_match(tx, b1, s1, tblname) ==> ps == old_ps.push((b1, s1)),
        !idx_match(tx, b1, s1, tblname) ==> ps == old_ps,
    ensures
        indexes_upto(tx, tblname, ps, b1, s1),
{
    assert forall|i: int, j: int| 0 <= i < j < ps.len() implies pos_before(
        #[trigger] ps[i].0,
        ps[i].1,
        #[trigger] ps[j].0,
        ps[j].1,
    ) by {
        if j < old_ps.len() {
            assert(ps[i] == old_ps[i] && ps[j] == old_ps[j]);
        } else {
            assert(ps[i] == old_ps[i]);
        }
    }
    assert forall|i: int| 0 <= i < ps.len() implies idx_match(tx, #[trigger] ps[i].0, ps[i].1, tblname)
        && !pos_before(b1, s1, ps[i].0, ps[i].1) by {
        if i < old_ps.len() {
            assert(ps[i] == old_ps[i]);
        }
    }
    assert forall|n: int, m: int| #[trigger] idx_match(tx, n, m, tblname) && !pos_before(b1, s1, n, m) implies exists|i: int|
        0 <= i < ps.len() && #[trigger] ps[i] == (n, m) by {
        if n == b1 && m == s1 {
            assert(ps[old_ps.len() as int] == (n, m));
        } else if pos_before(b0, s0, n, m) {
        } else {
            let i = choose|i: int| 0 <= i < old_ps.len() && #[trigger] old_ps[i] == (n, m);
            assert(ps[i] == (n, m));
        }
    }
}

/// The position of the entry of the field `name` in the map, or its length.
fn info_index(v: &Vec<(String, IndexInfo)>, name: &str) -> (r: usize)
    ensures
        r == find_name(index_keys(infos_view(v@)), name@),
{
    let ghost names = index_keys(infos_view(v@));
    proof {
        lemma_find_name(names, name@);
    }
    let target = name.to_owned();
    let mut i: usize = 0;
    while i < v.len()
        invariant
            target@ == name@,
            names == index_keys(infos_view(v@)),
            names.len() == v@.len(),
            i <= v@.len(),
            forall|j: int| 0 <= j < i ==> names[j] != name@,
        decreases v@.len() - i,
    {
        if v[i].0 == target {
            proof {
                assert(names[i as int] == v@[i as int].0@);
                lemma_find_name_at(names, name@, i as int);
            }
            return i;
        }
        proof {
            assert(names[i as int] == v@[i as int].0@);
        }
        i = i + 1;
    }
    proof {
        lemma_find_name_absent(names, name@);
    }
    i
}

/// Records the index information `ii` for the field `f` in the map.
fn put_info(v: &mut Vec<(String, IndexInfo)>, f: String, ii: IndexInfo)
    ensures
        infos_view(final(v)@) == index_put(infos_view(old(v)@), f@, ii.spec_index_name()),
        forall|i: int|
            0 <= i < final(v)@.len() ==> #[trigger] final(v)@[i] == (f, ii) || (i < old(v)@.len() && final(v)@[i]
                == old(v)@[i]),
{
    let i = info_index(v, f.as_str());
    if i < v.len() {
        let ghost fv = f@;
        let ghost idx = ii.spec_index_name();
        v.set(i, (f, ii));
        assert(infos_view(v@) =~= index_put(infos_view(old(v)@), fv, idx));
    } else {
        let ghost fv = f@;
        let ghost idx = ii.spec_index_name();
        v.push((f, ii));
        assert(infos_view(v@) =~= index_put(infos_view(old(v)@), fv, idx));
    }
}

/// The index manager: it keeps a record of each index in the index catalog.
pub struct IndexMgr {
    layout: Layout,
    tbl_mgr: TableMgr,
    stat_mgr: StatMgr,
    idx_type: IndexType,
}

impl IndexMgr {
    /// The layout of the index catalog that the manager uses.
    pub closed spec fn layout(&self) -> Layout {
        self.layout
    }

    /// The table manager of the index manager.
    pub closed spec fn tables(&self) -> TableMgr {
        self.tbl_mgr
    }

    /// The statistics manager of the index manager.
    pub closed spec fn stats(&self) -> StatMgr {
        self.stat_mgr
    }

    /// The kind of the indexes.
    pub closed spec fn kind(&self) -> IndexType {
        self.idx_type
    }

    /// The managers it uses are well formed, and its layout of the index
    /// catalog lays out the catalog's fields one after another.
    pub open spec fn wf(&self) -> bool {
        &&& self.tables().wf()
        &&& self.stats().wf()
        &&& self.layout().wf()
        &&& self.layout().fields() == idxcat_fields()
    }

    /// The index manager; for a new database it first records the index
    /// catalog in the catalogs. Its layout of the index catalog is the one
    /// the catalogs give.
    pub fn new(is_new: bool, tbl_mgr: TableMgr, stat_mgr: StatMgr, tx: &mut Transaction, idx_type: IndexType) -> (r: Self)
        requires
            tbl_mgr.wf(),
            stat_mgr.wf(),
            catalogs_ok(old(tx)),
            is_new ==> old(tx).blocks(tcat_file()).len() + 2 < i32::MAX,
            is_new ==> old(tx).blocks(fcat_file()).len() + 5 < i32::MAX,
        ensures
            r.tables() == tbl_mgr,
            r.stats() == stat_mgr,
            r.kind() == idx_type,
            catalogs_ok(final(tx)),
            final(tx).spec_block_size() == old(tx).spec_block_size(),
            forall|nm: Seq<char>|
                nm != tcat_file() && nm != fcat_file() ==> #[trigger] final(tx).blocks(nm) == old(tx).blocks(nm),
            is_new ==> catalog_holds(final(tx), "idxcat"@, idxcat_fields()),
            is_new ==> final(tx).blocks(tcat_file()).len() <= old(tx).blocks(tcat_file()).len() + 2,
            is_new ==> final(tx).blocks(fcat_file()).len() <= old(tx).blocks(fcat_file()).len() + 4,
            is_new ==> forall|t: Seq<char>, n: int, s: int|
                t != "idxcat"@ ==> (#[trigger] tcat_match(final(tx), n, s, t) == tcat_match(old(tx), n, s, t)),
            is_new ==> forall|t: Seq<char>, n: int, s: int|
                t != "idxcat"@ ==> (#[trigger] fcat_match(final(tx), n, s, t) == fcat_match(old(tx), n, s, t)),
            is_new ==> forall|t: Seq<char>, f: Seq<FieldSpec>|
                t != "idxcat"@ && catalog_lists(old(tx), t, f) ==> #[trigger] catalog_lists(final(tx), t, f),
            is_new && (forall|n: int, s: int| !#[trigger] tcat_match(old(tx), n, s, "idxcat"@)) && (forall|n: int, s: int|
                !#[trigger] fcat_match(old(tx), n, s, "idxcat"@)) ==> catalog_lists(final(tx), "idxcat"@, idxcat_fields()),
            !is_new && old(tx).blocks(tcat_file()).len() != 0 && old(tx).blocks(fcat_file()).len() != 0
                ==> *final(tx) == *old(tx),
            exists|ps: Seq<(int, int)>|
                #[trigger] listed_matches(final(tx), "idxcat"@, ps) && r.layout().fields() == listed_fields(
                    final(tx),
                    ps,
                ),
            described_as(final(tx), "idxcat"@, idxcat_fields()) ==> r.wf(),
    {
        let ghost tx0 = *tx;
        proof {
            lemma_idxcat_fields();
        }
        if is_new {
            let mut sch = Schema::new();
            sch.add_string_field("indexname", MAX_NAME);
            sch.add_string_field("tablename", MAX_NAME);
            sch.add_string_field("fieldname", MAX_NAME);
            assert(sch@ =~= idxcat_fields());
            tbl_mgr.create_table("idxcat", sch, tx);
        }
        let ghost tx1 = *tx;
        proof {
            if is_new {
                let r = crate::metadata::table_mgr::table_rec("idxcat"@, idxcat_fields());
                let (n, s) = choose|n: int, s: int|
                    #[trigger] used_at(tx, tcat_file(), crate::metadata::table_mgr::tcat_fields(), n, s) && rec_at(
                        tx,
                        tcat_file(),
                        crate::metadata::table_mgr::tcat_fields(),
                        n,
                        s,
                    ) == r;
                let r0 = crate::metadata::table_mgr::field_rec("idxcat"@, idxcat_fields(), 0);
                assert(has_record(tx, fcat_file(), crate::metadata::table_mgr::fcat_fields(), r0));
                let (m, u) = choose|m: int, u: int|
                    #[trigger] used_at(tx, fcat_file(), crate::metadata::table_mgr::fcat_fields(), m, u) && rec_at(
                        tx,
                        fcat_file(),
                        crate::metadata::table_mgr::fcat_fields(),
                        m,
                        u,
                    ) == r0;
            }
        }
        let layout = tbl_mgr.get_layout("idxcat", tx);
        proof {
            if is_new {
                crate::record::table_scan::lemma_has_record_kept(&tx1, tx, tcat_file(), crate::metadata::table_mgr::tcat_fields(), crate::metadata::table_mgr::table_rec("idxcat"@, idxcat_fields()));
                assert forall|i: int| 0 <= i < idxcat_fields().len() implies has_record(
                    tx,
                    fcat_file(),
                    crate::metadata::table_mgr::fcat_fields(),
                    #[trigger] crate::metadata::table_mgr::field_rec("idxcat"@, idxcat_fields(), i),
                ) by {
                    crate::record::table_scan::lemma_has_record_kept(&tx1, tx, fcat_file(), crate::metadata::table_mgr::fcat_fields(), crate::metadata::table_mgr::field_rec("idxcat"@, idxcat_fields(), i));
                }
            }
            if described_as(tx, "idxcat"@, idxcat_fields()) {
                lemma_described_layout(tx, "idxcat"@, idxcat_fields(), layout);
            }
        }
        IndexMgr { layout, tbl_mgr, stat_mgr, idx_type }
    }

    /// Records the index `idxname` on the field `fldname` of the table
    /// `tblname` in the index catalog.
    pub fn create_index(&self, idxname: &str, tblname: &str, fldname: &str, tx: &mut Transaction)
        requires
            self.wf(),
            catalogs_ok(old(tx)),
            described_as(old(tx), "idxcat"@, idxcat_fields()),
            name_fits(idxname@),
            name_fits(tblname@),
            name_fits(fldname@),
            old(tx).blocks(idxcat_file()).len() + 1 < i32::MAX,
        ensures
            catalogs_ok(final(tx)),
            described_as(final(tx), "idxcat"@, idxcat_fields()),
            has_record(
                final(tx),
                idxcat_file(),
                idxcat_fields(),
                seq![ConstVal::Str(idxname@), ConstVal::Str(tblname@), ConstVal::Str(fldname@)],
            ),
            records_kept(old(tx), final(tx), idxcat_file(), idxcat_fields()),
            final(tx).blocks(idxcat_file()).len() <= old(tx).blocks(idxcat_file()).len() + 2,
            final(tx).spec_block_size() == old(tx).spec_block_size(),
            forall|nm: Seq<char>| nm != idxcat_file() ==> #[trigger] final(tx).blocks(nm) == old(tx).blocks(nm),
    {
        let ghost tx0 = *tx;
        proof {
            lemma_idxcat_fields();
        }
        let mut ts = TableScan::new(tx, "idxcat", self.layout.clone());
        let ghost fs = idxcat_fields();
        let ghost name = idxcat_file();
        let ghost tx1 = *tx;
        ts.insert(tx);
        let ghost tx2 = *tx;
        let ghost n = ts.bnum();
        let ghost t = ts.slot();
        proof {
            ts.lemma_valid(tx);
            ts.lemma_blk(tx);
            lemma_idxcat_fields();
        }
        ts.set_string(tx, "indexname", idxname);
        let ghost tx3 = *tx;
        proof {
            ts.lemma_blk(tx);
            tx2.lemma_same_but_self(*tx, ts.blk(), ts.cur_bytes(tx));
            crate::record::table_scan::lemma_records_kept_slot(&tx1, &tx2, tx, ts.blk(), ts.cur_bytes(tx), fs, t);
            ts.lemma_valid(tx);
        }
        ts.set_string(tx, "tablename", tblname);
        let ghost tx4 = *tx;
        proof {
            ts.lemma_blk(tx);
            tx3.lemma_same_but_self(*tx, ts.blk(), ts.cur_bytes(tx));
            crate::record::table_scan::lemma_records_kept_slot(&tx1, &tx3, tx, ts.blk(), ts.cur_bytes(tx), fs, t);
            ts.lemma_valid(tx);
        }
        ts.set_string(tx, "fieldname", fldname);
        proof {
            ts.lemma_blk(tx);
            tx4.lemma_same_but_self(*tx, ts.blk(), ts.cur_bytes(tx));
            crate::record::table_scan::lemma_records_kept_slot(&tx1, &tx4, tx, ts.blk(), ts.cur_bytes(tx), fs, t);
            ts.lemma_valid(tx);
            let rec = seq![ConstVal::Str(idxname@), ConstVal::Str(tblname@), ConstVal::Str(fldname@)];
            assert(rec_at(tx, name, fs, n, t) =~= rec);
            assert(used_at(tx, name, fs, n, t));
            crate::metadata::table_mgr::lemma_scan_opened(&tx0, &tx1, name, fs);
            crate::record::table_scan::lemma_records_kept_trans(&tx0, &tx1, tx, name, fs);
            lemma_described_kept(&tx0, tx, "idxcat"@, fs);
        }
    }

    /// The statistics of the table `tblname`, whose layout in the catalogs is
    /// `layout`, from the statistics manager of the index manager.
    pub fn get_stat_info(&mut self, tblname: &str, layout: &Layout, tx: &mut Transaction) -> (r: crate::metadata::StatInfo)
        requires
            old(self).wf(),
            tables_described(old(tx)),
            recorded(old(tx), tblname@),
            layout.wf(),
            exists|ps: Seq<(int, int)>|
                #[trigger] listed_matches(old(tx), tblname@, ps) && layout.fields() == listed_fields(old(tx), ps),
        ensures
            final(self).wf(),
            final(self).tables() == old(self).tables(),
            final(self).kind() == old(self).kind(),
            final(self).layout() == old(self).layout(),
            final(self).stats().tables() == old(self).stats().tables(),
            tables_described(final(tx)),
            files_grown(old(tx), final(tx)),
            final(tx).blocks(tcat_file()) == old(tx).blocks(tcat_file()),
            final(tx).blocks(fcat_file()) == old(tx).blocks(fcat_file()),
            old(self).stats().calls() == 100 ==> stats_are(
                final(tx),
                table_file(tblname@),
                layout.fields(),
                r.spec_blocks() as int,
                r.spec_recs() as int,
            ),
            old(self).stats().calls() < 100 && cached(old(self).stats().entries(), tblname@) is Some ==> {
                &&& cached(old(self).stats().entries(), tblname@) == Some(r)
                &&& final(self).stats().entries() == old(self).stats().entries()
                &&& *final(tx) == *old(tx)
            },
            old(self).stats().calls() < 100 && cached(old(self).stats().entries(), tblname@) is None ==> {
                &&& stats_are(
                    final(tx),
                    table_file(tblname@),
                    layout.fields(),
                    r.spec_blocks() as int,
                    r.spec_recs() as int,
                )
                &&& final(self).stats().entries() == cache_put(old(self).stats().entries(), tblname@, r)
            },
    {
        self.stat_mgr.get_stat_info(tblname, layout, tx)
    }

    /// The information about the index `idxname` on the field `fldname` of the
    /// table `tblname`, with the table's statistics.
    fn info_for(&mut self, tblname: &str, idxname: String, fldname: String, tx: &mut Transaction) -> (r: IndexInfo)
        requires
            old(self).wf(),
            tables_described(old(tx)),
            recorded(old(tx), tblname@),
            forall|q: Seq<(int, int)>|
                #[trigger] listed_matches(old(tx), tblname@, q) ==> {
                    &&& has_field_spec(listed_fields(old(tx), q), fldname@)
                    &&& fields_fit(idx_fields(listed_fields(old(tx), q)[find_field(listed_fields(old(tx), q), fldname@)]))
                },
        ensures
            final(self).wf(),
            final(self).tables() == old(self).tables(),
            final(self).kind() == old(self).kind(),
            final(self).layout() == old(self).layout(),
            tables_described(final(tx)),
            files_grown(old(tx), final(tx)),
            final(tx).blocks(tcat_file()) == old(tx).blocks(tcat_file()),
            final(tx).blocks(fcat_file()) == old(tx).blocks(fcat_file()),
            r.spec_index_name() == idxname@,
            info_ok(final(tx), tblname@, old(self).kind(), (fldname, r)),
    {
        let ghost fv = fldname@;
        let ghost tx0 = *tx;
        proof {
            crate::metadata::table_mgr::lemma_catalog_fields();
            lemma_described_catalogs(tx, "tblcat"@, crate::metadata::table_mgr::tcat_fields());
        }
        let layout = self.tbl_mgr.get_layout(tblname, tx);
        let ghost pl = choose|q: Seq<(int, int)>|
            {
                &&& #[trigger] listed_matches(tx, tblname@, q)
                &&& layout.fields() == listed_fields(tx, q)
                &&& layout.spec_offsets() == crate::metadata::table_mgr::listed_offsets(tx, q)
            };
        proof {
            assert(listed_matches(tx, tblname@, pl));
            assert(described_as(tx, tblname@, layout.fields()));
            lemma_described_layout(tx, tblname@, layout.fields(), layout);
        }
        let si = self.stat_mgr.get_stat_info(tblname, &layout, tx);
        let schema = layout.schema().clone();
        let ii = IndexInfo::new(idxname, fldname.clone(), schema, si, self.idx_type);
        proof {
            lemma_catalogs_same(&tx0, tx);
            assert forall|q: Seq<(int, int)>| #[trigger] listed_matches(tx, tblname@, q) implies ii.spec_idx_fields()
                == idx_fields(listed_fields(tx, q)[find_field(listed_fields(tx, q), fv)]) by {
                assert(listed_matches(&tx0, tblname@, q));
                assert(listed_fields(tx, q) == listed_fields(&tx0, q));
            }
        }
        ii
    }

    /// The information about the indexes on fields of the table `tblname`, by
    /// field: for a field of several indexes, that of the last one the index
    /// catalog records. Each carries the table's statistics.
    pub fn get_index_info(&mut self, tblname: &str, tx: &mut Transaction) -> (r: Vec<(String, IndexInfo)>)
        requires
            old(self).wf(),
            tables_described(old(tx)),
            described_as(old(tx), "idxcat"@, idxcat_fields()),
            forall|n: int, s: int| #[trigger] idx_match(old(tx), n, s, tblname@) ==> recorded(old(tx), tblname@),
            forall|ps: Seq<(int, int)>|
                #[trigger] listed_matches(old(tx), tblname@, ps) ==> index_fields_ok(
                    old(tx),
                    tblname@,
                    listed_fields(old(tx), ps),
                ),
        ensures
            final(self).wf(),
            final(self).tables() == old(self).tables(),
            final(self).kind() == old(self).kind(),
            final(self).layout() == old(self).layout(),
            tables_described(final(tx)),
            described_as(final(tx), "idxcat"@, idxcat_fields()),
            files_grown(old(tx), final(tx)),
            final(tx).blocks(tcat_file()) == old(tx).blocks(tcat_file()),
            final(tx).blocks(fcat_file()) == old(tx).blocks(fcat_file()),
            exists|ps: Seq<(int, int)>|
                #[trigger] listed_indexes(final(tx), tblname@, ps) && infos_view(r@) == index_map(final(tx), ps),
            forall|i: int| 0 <= i < r@.len() ==> #[trigger] info_ok(final(tx), tblname@, old(self).kind(), r@[i]),
    {
        let ghost tx0 = *tx;
        let ghost fs = idxcat_fields();
        let ghost name = idxcat_file();
        proof {
            lemma_idxcat_fields();
            lemma_described_recorded(tx, "idxcat"@, fs);
        }
        let mut ts = TableScan::new(tx, "idxcat", self.layout.clone());
        let ghost tx1 = *tx;
        proof {
            ts.lemma_valid(tx);
            lemma_after_scan_open(&tx0, tx, "idxcat"@, fs);
            assert(files_grown(&tx0, &tx0));
            lemma_files_grown_trans(&tx0, &tx0, tx, name);
            lemma_described_kept(&tx0, tx, "idxcat"@, fs);
            crate::record::table_scan::lemma_zero_block(fs, tx0.spec_block_size());
            assert forall|n: int, s: int| #[trigger] idx_match(tx, n, s, tblname@) implies idx_match(&tx0, n, s, tblname@)
                && idx_rec(tx, n, s) == idx_rec(&tx0, n, s) by {
                if tx0.blocks(name).len() == 0 {
                    assert(tx.blocks(name)[0] == crate::record::table_scan::zero_block(tx0.spec_block_size()));
                }
            }
        }
        let target = tblname.to_owned();
        let mut result: Vec<(String, IndexInfo)> = Vec::new();
        let ghost mut ps: Seq<(int, int)> = Seq::empty();
        proof {
            assert(infos_view(result@) =~= index_map(&tx1, ps));
        }
        loop
            invariant_except_break
                ts.valid(tx),
                indexes_upto(&tx1, tblname@, ps, ts.bnum(), ts.slot()),
                infos_view(result@) == index_map(&tx1, ps),
            invariant
                ts.file() == name,
                ts.fs() == fs,
                fs == idxcat_fields(),
                name == idxcat_file(),
                target@ == tblname@,
                self.wf(),
                self.tables() == old(self).tables(),
                self.kind() == old(self).kind(),
                self.layout() == old(self).layout(),
                tables_described(tx),
                described_as(tx, "idxcat"@, fs),
                files_grown(&tx0, tx),
                tx.blocks(tcat_file()) == tx0.blocks(tcat_file()),
                tx.blocks(fcat_file()) == tx0.blocks(fcat_file()),
                tx.blocks(name) == tx1.blocks(name),
                tx.spec_block_size() == tx1.spec_block_size(),
                tx1.blocks(name).len() >= 1,
                forall|n: int, s: int|
                    #[trigger] idx_match(&tx1, n, s, tblname@) ==> idx_match(&tx0, n, s, tblname@) && idx_rec(&tx1, n, s)
                        == idx_rec(&tx0, n, s),
                forall|n: int, s: int| #[trigger] idx_match(&tx0, n, s, tblname@) ==> recorded(&tx0, tblname@),
                forall|q: Seq<(int, int)>|
                    #[trigger] listed_matches(&tx0, tblname@, q) ==> index_fields_ok(
                        &tx0,
                        tblname@,
                        listed_fields(&tx0, q),
                    ),
                forall|i: int| 0 <= i < result@.len() ==> #[trigger] info_ok(tx, tblname@, self.kind(), result@[i]),
            ensures
                listed_indexes(&tx1, tblname@, ps),
                infos_view(result@) == index_map(&tx1, ps),
            decreases tx.blocks(name).len() - ts.bnum(), tx.spec_block_size() - ts.slot(),
        {
            proof {
                ts.lemma_valid(tx);
                lemma_idxcat_fields();
            }
            let ghost head = ts;
            let ghost txn = *tx;
            if !ts.next(tx) {
                proof {
                    assert forall|n: int, s: int| #[trigger] idx_match(&tx1, n, s, tblname@) implies exists|i: int|
                        0 <= i < ps.len() && #[trigger] ps[i] == (n, s) by {
                        if pos_before(head.bnum(), head.slot(), n, s) {
                            assert(used_at(&txn, name, fs, n, s));
                        }
                    }
                }
                break;
            }
            proof {
                ts.lemma_valid(tx);
                crate::index::btree::page_format::lemma_slot_pos_ge(fs, ts.slot() + 1);
                assert forall|n: int, s: int|
                    pos_before(head.bnum(), head.slot(), n, s) && pos_before(n, s, ts.bnum(), ts.slot()) implies !#[trigger] idx_match(
                        &tx1,
                        n,
                        s,
                        tblname@,
                    ) by {
                    if idx_match(&tx1, n, s, tblname@) {
                        assert(used_at(&txn, name, fs, n, s));
                    }
                }
            }
            let ghost p = (ts.bnum(), ts.slot());
            let tn = ts.get_string(tx, "tablename");
            proof {
                assert(idx_rec(&tx1, p.0, p.1) == idx_rec(tx, p.0, p.1));
                assert(idx_rec(&tx1, p.0, p.1)[1] == ConstVal::Str(tn@));
            }
            let ghost old_ps = ps;
            if tn == target {
                let idxname = ts.get_string(tx, "indexname");
                let fldname = ts.get_string(tx, "fieldname");
                let ghost txa = *tx;
                proof {
                    assert(idx_rec(&tx1, p.0, p.1)[0] == ConstVal::Str(idxname@));
                    assert(idx_rec(&tx1, p.0, p.1)[2] == ConstVal::Str(fldname@));
                    assert(idx_match(&tx1, p.0, p.1, tblname@));
                    assert(idx_match(&tx0, p.0, p.1, tblname@));
                    lemma_catalogs_same(&tx0, tx);
                    assert(recorded(tx, tblname@));
                    assert forall|q: Seq<(int, int)>| #[trigger] listed_matches(tx, tblname@, q) implies {
                        &&& has_field_spec(listed_fields(tx, q), fldname@)
                        &&& fields_fit(idx_fields(listed_fields(tx, q)[find_field(listed_fields(tx, q), fldname@)]))
                    } by {
                        assert(listed_matches(&tx0, tblname@, q));
                        assert(index_fields_ok(&tx0, tblname@, listed_fields(&tx0, q)));
                        assert(listed_fields(tx, q) == listed_fields(&tx0, q));
                    }
                }
                let ii = self.info_for(tblname, idxname, fldname.clone(), tx);
                proof {
                    lemma_catalogs_same(&txa, tx);
                    assert forall|i: int| 0 <= i < result@.len() implies #[trigger] info_ok(tx, tblname@, self.kind(), result@[i]) by {
                        lemma_info_ok_kept(&txa, tx, tblname@, self.kind(), result@[i]);
                    }
                    assert(tx.blocks(name) == txa.blocks(name));
                    ts.lemma_valid_other_change(&txa, tx);
                    lemma_described_kept(&txa, tx, "idxcat"@, fs);
                    lemma_files_grown_chain(&tx0, &txa, tx);
                }
                let ghost before = result@;
                put_info(&mut result, fldname, ii);
                proof {
                    ps = ps.push(p);
                    assert(ps.drop_last() =~= old_ps);
                    assert(index_map(&tx1, ps) == index_put(
                        index_map(&tx1, old_ps),
                        str_of(idx_rec(&tx1, p.0, p.1)[2]),
                        str_of(idx_rec(&tx1, p.0, p.1)[0]),
                    ));
                    assert forall|i: int| 0 <= i < result@.len() implies #[trigger] info_ok(tx, tblname@, self.kind(), result@[i]) by {
                        if i < before.len() && result@[i] == before[i] {
                            assert(info_ok(tx, tblname@, self.kind(), before[i]));
                        }
                    }
                }
            }
            proof {
                lemma_indexes_step(&tx1, tblname@, old_ps, ps, head.bnum(), head.slot(), p.0, p.1);
            }
        }
        proof {
            assert forall|n: int, s: int|
                #![trigger idx_match(&tx1, n, s, tblname@)]
                #![trigger idx_match(tx, n, s, tblname@)]
                idx_match(&tx1, n, s, tblname@) == idx_match(tx, n, s, tblname@) by {
            }
            assert(listed_indexes(tx, tblname@, ps));
            lemma_index_map_same(&tx1, tx, ps);
        }
        result
    }
}

} // verus!
