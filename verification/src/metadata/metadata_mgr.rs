use vstd::prelude::*;

use crate::metadata::index_info::{IndexInfo, IndexType};
use crate::metadata::index_mgr::{
    idx_match, idxcat_fields, idxcat_file, index_fields_ok, index_map, info_ok, infos_view, listed_indexes, IndexMgr,
};
use crate::metadata::stat_info::StatInfo;
use crate::metadata::stat_mgr::{cache_put, cached, files_grown, recorded, stats_are, tables_described, StatMgr};
use crate::metadata::table_mgr::{
    catalog_holds, catalog_lists, catalogs_ok, fcat_file, fcat_match, listed_fields, listed_matches, listed_offsets,
    name_fits, recorded_size, tcat_file, tcat_match, TableMgr,
};
use crate::metadata::view_mgr::{described_as, view_def_is, view_fields, viewcat_file, ViewMgr, MAX_VIEWDEF};
use crate::query::constant::ConstVal;
use crate::record::layout::{fields_fit, Layout};
use crate::record::schema::{FieldSpec, Schema};
use crate::record::table_scan::{has_record, records_kept, table_file, table_ok, used_at, zero_block};
use crate::tx::Transaction;
use vstd::utf8::encode_utf8;

verus! {

/// After the catalogs of tables, fields and views were recorded in empty
/// catalogs, the catalogs describe those three tables and record no other.
proof fn lemma_fresh_three(tx0: &Transaction, txa: &Transaction, txb: &Transaction)
    requires
        catalogs_ok(tx0),
        tx0.blocks(tcat_file()).len() == 0,
        tx0.blocks(fcat_file()).len() == 0,
        tx0.blocks(viewcat_file()).len() == 0,
        table_ok(tx0, viewcat_file(), view_fields()),
        table_ok(tx0, idxcat_file(), idxcat_fields()),
        17 * tx0.spec_block_size() < i32::MAX,
        catalogs_ok(txa),
        txa.spec_block_size() == tx0.spec_block_size(),
        forall|nm: Seq<char>| nm != tcat_file() && nm != fcat_file() ==> #[trigger] txa.blocks(nm) == tx0.blocks(nm),
        txa.blocks(tcat_file()).len() <= tx0.blocks(tcat_file()).len() + 4,
        txa.blocks(fcat_file()).len() <= tx0.blocks(fcat_file()).len() + 9,
        forall|t: Seq<char>, n: int, s: int|
            t != "tblcat"@ && t != "fldcat"@ ==> (#[trigger] tcat_match(txa, n, s, t) == tcat_match(tx0, n, s, t)),
        forall|t: Seq<char>, n: int, s: int|
            t != "tblcat"@ && t != "fldcat"@ ==> (#[trigger] fcat_match(txa, n, s, t) == fcat_match(tx0, n, s, t)),
        catalog_lists(txa, "tblcat"@, crate::metadata::table_mgr::tcat_fields()),
        catalog_lists(txa, "fldcat"@, crate::metadata::table_mgr::fcat_fields()),
        catalogs_ok(txb),
        txb.spec_block_size() == txa.spec_block_size(),
        forall|nm: Seq<char>| nm != tcat_file() && nm != fcat_file() ==> #[trigger] txb.blocks(nm) == txa.blocks(nm),
        txb.blocks(tcat_file()).len() <= txa.blocks(tcat_file()).len() + 2,
        txb.blocks(fcat_file()).len() <= txa.blocks(fcat_file()).len() + 3,
        forall|t: Seq<char>, n: int, s: int| t != "viewcat"@ ==> (#[trigger] tcat_match(txb, n, s, t) == tcat_match(txa, n, s, t)),
        forall|t: Seq<char>, n: int, s: int| t != "viewcat"@ ==> (#[trigger] fcat_match(txb, n, s, t) == fcat_match(txa, n, s, t)),
        forall|t: Seq<char>, f: Seq<FieldSpec>| t != "viewcat"@ && catalog_lists(txa, t, f) ==> #[trigger] catalog_lists(txb, t, f),
        (forall|n: int, s: int| !#[trigger] tcat_match(txa, n, s, "viewcat"@)) && (forall|n: int, s: int|
            !#[trigger] fcat_match(txa, n, s, "viewcat"@)) ==> catalog_lists(txb, "viewcat"@, view_fields()),
    ensures
        tables_described(txb),
        catalog_lists(txb, "tblcat"@, crate::metadata::table_mgr::tcat_fields()),
        catalog_lists(txb, "fldcat"@, crate::metadata::table_mgr::fcat_fields()),
        catalog_lists(txb, "viewcat"@, view_fields()),
        forall|t: Seq<char>, n: int, s: int|
            t != "tblcat"@ && t != "fldcat"@ && t != "viewcat"@ ==> !#[trigger] tcat_match(txb, n, s, t),
        forall|t: Seq<char>, n: int, s: int|
            t != "tblcat"@ && t != "fldcat"@ && t != "viewcat"@ ==> !#[trigger] fcat_match(txb, n, s, t),
        txb.blocks(tcat_file()).len() <= 6,
        txb.blocks(fcat_file()).len() <= 12,
        txb.blocks(viewcat_file()).len() == 0,
        txb.blocks(idxcat_file()) == tx0.blocks(idxcat_file()),
        table_ok(txb, viewcat_file(), view_fields()),
        table_ok(txb, idxcat_file(), idxcat_fields()),
{
    crate::metadata::table_mgr::lemma_catalog_fields();
    crate::metadata::view_mgr::lemma_view_fields();
    crate::metadata::index_mgr::lemma_idxcat_fields();
    reveal_strlit("tblcat");
    reveal_strlit("fldcat");
    reveal_strlit("viewcat");
    reveal_strlit("idxcat");
    assert("viewcat"@ != "tblcat"@ && "viewcat"@ != "fldcat"@) by {
        assert("viewcat"@[0] != "tblcat"@[0] && "viewcat"@[0] != "fldcat"@[0]);
    }
    assert(idxcat_file() != tcat_file() && idxcat_file() != fcat_file());
    assert forall|n: int, s: int| !#[trigger] tcat_match(txa, n, s, "viewcat"@) by {
        assert(tcat_match(txa, n, s, "viewcat"@) == tcat_match(tx0, n, s, "viewcat"@));
    }
    assert forall|n: int, s: int| !#[trigger] fcat_match(txa, n, s, "viewcat"@) by {
        assert(fcat_match(txa, n, s, "viewcat"@) == fcat_match(tx0, n, s, "viewcat"@));
    }
    assert(catalog_lists(txb, "tblcat"@, crate::metadata::table_mgr::tcat_fields()));
    assert(catalog_lists(txb, "fldcat"@, crate::metadata::table_mgr::fcat_fields()));
    assert forall|t: Seq<char>, n: int, s: int|
        t != "tblcat"@ && t != "fldcat"@ && t != "viewcat"@ implies !#[trigger] tcat_match(txb, n, s, t) by {
        assert(tcat_match(txb, n, s, t) == tcat_match(txa, n, s, t));
        assert(tcat_match(txa, n, s, t) == tcat_match(tx0, n, s, t));
    }
    assert forall|t: Seq<char>, n: int, s: int|
        t != "tblcat"@ && t != "fldcat"@ && t != "viewcat"@ implies !#[trigger] fcat_match(txb, n, s, t) by {
        assert(fcat_match(txb, n, s, t) == fcat_match(txa, n, s, t));
        assert(fcat_match(txa, n, s, t) == fcat_match(tx0, n, s, t));
    }
    assert(txb.blocks(viewcat_file()) == tx0.blocks(viewcat_file()));
    assert(txb.blocks(idxcat_file()) == tx0.blocks(idxcat_file()));
    let bs = txb.spec_block_size();
    assert(table_ok(txb, viewcat_file(), view_fields()));
    let names = seq!["tblcat"@, "fldcat"@, "viewcat"@];
    let fss = seq![crate::metadata::table_mgr::tcat_fields(), crate::metadata::table_mgr::fcat_fields(), view_fields()];
    assert(7 * bs < i32::MAX && 13 * bs < i32::MAX && bs >= 0);
    assert((txb.blocks(tcat_file()).len() + 1) * bs <= 7 * bs) by (nonlinear_arith)
        requires
            txb.blocks(tcat_file()).len() <= 6,
            bs >= 0,
    ;
    assert((txb.blocks(fcat_file()).len() + 1) * bs <= 13 * bs) by (nonlinear_arith)
        requires
            txb.blocks(fcat_file()).len() <= 12,
            bs >= 0,
    ;
    assert(tcat_file() == table_file(names[0]));
    assert(fcat_file() == table_file(names[1]));
    assert(viewcat_file() == table_file(names[2]));
    assert forall|t: Seq<char>| #[trigger] recorded(txb, t) implies exists|i: int| 0 <= i < names.len() && names[i] == t by {
        if t != "tblcat"@ && t != "fldcat"@ && t != "viewcat"@ {
            let (n, s) = choose|n: int, s: int| #[trigger] tcat_match(txb, n, s, t);
        } else if t == "tblcat"@ {
            assert(names[0] == t);
        } else if t == "fldcat"@ {
            assert(names[1] == t);
        } else {
            assert(names[2] == t);
        }
    }
    assert(table_ok(txb, idxcat_file(), idxcat_fields()));
    assert forall|i: int| 0 <= i < names.len() implies {
        &&& #[trigger] catalog_lists(txb, names[i], fss[i])
        &&& table_ok(txb, table_file(names[i]), fss[i])
        &&& fields_fit(fss[i])
        &&& fss[i].len() > 0
        &&& (txb.blocks(table_file(names[i])).len() + 1) * txb.spec_block_size() < i32::MAX
    } by {
        if i == 0 {
        } else if i == 1 {
        } else {
            assert(i == 2);
        }
    }
    crate::metadata::stat_mgr::lemma_tables_described_from(txb, names, fss);
}

/// After the index catalog too was recorded, the catalogs describe the four
/// catalog tables and record no other.
proof fn lemma_fresh_four(tx0: &Transaction, txb: &Transaction, txc: &Transaction, txd: &Transaction)
    requires
        table_ok(tx0, viewcat_file(), view_fields()),
        table_ok(tx0, idxcat_file(), idxcat_fields()),
        tx0.blocks(idxcat_file()).len() == 0,
        17 * tx0.spec_block_size() < i32::MAX,
        txb.spec_block_size() == tx0.spec_block_size(),
        catalog_lists(txb, "tblcat"@, crate::metadata::table_mgr::tcat_fields()),
        catalog_lists(txb, "fldcat"@, crate::metadata::table_mgr::fcat_fields()),
        catalog_lists(txb, "viewcat"@, view_fields()),
        forall|t: Seq<char>, n: int, s: int|
            t != "tblcat"@ && t != "fldcat"@ && t != "viewcat"@ ==> !#[trigger] tcat_match(txb, n, s, t),
        forall|t: Seq<char>, n: int, s: int|
            t != "tblcat"@ && t != "fldcat"@ && t != "viewcat"@ ==> !#[trigger] fcat_match(txb, n, s, t),
        txb.blocks(tcat_file()).len() <= 6,
        txb.blocks(fcat_file()).len() <= 12,
        txb.blocks(viewcat_file()).len() == 0,
        txb.blocks(idxcat_file()) == tx0.blocks(idxcat_file()),
        table_ok(txb, viewcat_file(), view_fields()),
        table_ok(txb, idxcat_file(), idxcat_fields()),
        files_grown(txb, txc),
        txc.blocks(tcat_file()) == txb.blocks(tcat_file()),
        txc.blocks(fcat_file()) == txb.blocks(fcat_file()),
        catalogs_ok(txd),
        txd.spec_block_size() == txc.spec_block_size(),
        forall|nm: Seq<char>| nm != tcat_file() && nm != fcat_file() ==> #[trigger] txd.blocks(nm) == txc.blocks(nm),
        txd.blocks(tcat_file()).len() <= txc.blocks(tcat_file()).len() + 2,
        txd.blocks(fcat_file()).len() <= txc.blocks(fcat_file()).len() + 4,
        forall|t: Seq<char>, n: int, s: int| t != "idxcat"@ ==> (#[trigger] tcat_match(txd, n, s, t) == tcat_match(txc, n, s, t)),
        forall|t: Seq<char>, n: int, s: int| t != "idxcat"@ ==> (#[trigger] fcat_match(txd, n, s, t) == fcat_match(txc, n, s, t)),
        forall|t: Seq<char>, f: Seq<FieldSpec>| t != "idxcat"@ && catalog_lists(txc, t, f) ==> #[trigger] catalog_lists(txd, t, f),
        (forall|n: int, s: int| !#[trigger] tcat_match(txc, n, s, "idxcat"@)) && (forall|n: int, s: int|
            !#[trigger] fcat_match(txc, n, s, "idxcat"@)) ==> catalog_lists(txd, "idxcat"@, idxcat_fields()),
    ensures
        tables_described(txd),
        described_as(txd, "viewcat"@, view_fields()),
        described_as(txd, "idxcat"@, idxcat_fields()),
        catalog_lists(txd, "tblcat"@, crate::metadata::table_mgr::tcat_fields()),
        catalog_lists(txd, "fldcat"@, crate::metadata::table_mgr::fcat_fields()),
        forall|t: Seq<char>|
            #[trigger] recorded(txd, t) ==> t == "tblcat"@ || t == "fldcat"@ || t == "viewcat"@ || t == "idxcat"@,
{
    crate::metadata::table_mgr::lemma_catalog_fields();
    crate::metadata::view_mgr::lemma_view_fields();
    crate::metadata::index_mgr::lemma_idxcat_fields();
    reveal_strlit("tblcat");
    reveal_strlit("fldcat");
    reveal_strlit("viewcat");
    reveal_strlit("idxcat");
    assert("idxcat"@ != "tblcat"@ && "idxcat"@ != "fldcat"@ && "idxcat"@ != "viewcat"@) by {
        assert("idxcat"@[0] != "tblcat"@[0] && "idxcat"@[0] != "fldcat"@[0] && "idxcat"@[0] != "viewcat"@[0]);
    }
    assert(viewcat_file() != tcat_file() && viewcat_file() != fcat_file());
    assert(idxcat_file() != tcat_file() && idxcat_file() != fcat_file());
    crate::metadata::table_mgr::lemma_catalog_lists_same(txb, txc, "tblcat"@, crate::metadata::table_mgr::tcat_fields());
    crate::metadata::table_mgr::lemma_catalog_lists_same(txb, txc, "fldcat"@, crate::metadata::table_mgr::fcat_fields());
    crate::metadata::table_mgr::lemma_catalog_lists_same(txb, txc, "viewcat"@, view_fields());
    assert forall|t: Seq<char>, n: int, s: int|
        #![trigger tcat_match(txc, n, s, t)]
        #![trigger tcat_match(txb, n, s, t)]
        tcat_match(txc, n, s, t) == tcat_match(txb, n, s, t) by {
    }
    assert forall|t: Seq<char>, n: int, s: int|
        #![trigger fcat_match(txc, n, s, t)]
        #![trigger fcat_match(txb, n, s, t)]
        fcat_match(txc, n, s, t) == fcat_match(txb, n, s, t) by {
    }
    assert forall|n: int, s: int| !#[trigger] tcat_match(txc, n, s, "idxcat"@) by {
        assert(!tcat_match(txb, n, s, "idxcat"@));
    }
    assert forall|n: int, s: int| !#[trigger] fcat_match(txc, n, s, "idxcat"@) by {
        assert(!fcat_match(txb, n, s, "idxcat"@));
    }
    assert(catalog_lists(txd, "idxcat"@, idxcat_fields()));
    assert(catalog_lists(txd, "tblcat"@, crate::metadata::table_mgr::tcat_fields()));
    assert(catalog_lists(txd, "fldcat"@, crate::metadata::table_mgr::fcat_fields()));
    assert(catalog_lists(txd, "viewcat"@, view_fields()));
    // the files of the views and indexes catalogs
    let bs = tx0.spec_block_size();
    assert(txc.blocks(viewcat_file()) == txb.blocks(viewcat_file()) || (txb.blocks(viewcat_file()).len() == 0
        && txc.blocks(viewcat_file()) == seq![zero_block(txb.spec_block_size())]));
    assert(txc.blocks(idxcat_file()) == txb.blocks(idxcat_file()) || (txb.blocks(idxcat_file()).len() == 0
        && txc.blocks(idxcat_file()) == seq![zero_block(txb.spec_block_size())]));
    assert(txd.blocks(viewcat_file()) == txc.blocks(viewcat_file()));
    assert(txd.blocks(idxcat_file()) == txc.blocks(idxcat_file()));
    crate::metadata::stat_mgr::lemma_table_ok_grown(txb, txd, viewcat_file(), view_fields());
    crate::metadata::stat_mgr::lemma_table_ok_grown(txb, txd, idxcat_file(), idxcat_fields());
    let names = seq!["tblcat"@, "fldcat"@, "viewcat"@, "idxcat"@];
    let fss = seq![
        crate::metadata::table_mgr::tcat_fields(),
        crate::metadata::table_mgr::fcat_fields(),
        view_fields(),
        idxcat_fields(),
    ];
    assert(txd.blocks(tcat_file()).len() <= 8);
    assert(txd.blocks(fcat_file()).len() <= 16);
    assert(txd.blocks(viewcat_file()).len() <= 1);
    assert(txd.blocks(idxcat_file()).len() <= 1);
    let l0 = txd.blocks(tcat_file()).len() as int;
    let l1 = txd.blocks(fcat_file()).len() as int;
    let l2 = txd.blocks(viewcat_file()).len() as int;
    let l3 = txd.blocks(idxcat_file()).len() as int;
    assert((l0 + 1) * bs < i32::MAX && (l1 + 1) * bs < i32::MAX && (l2 + 1) * bs < i32::MAX && (l3 + 1) * bs
        < i32::MAX) by (nonlinear_arith)
        requires
            0 <= l0 <= 8,
            0 <= l1 <= 16,
            0 <= l2 <= 1,
            0 <= l3 <= 1,
            bs >= 0,
            17 * bs < i32::MAX,
    ;
    assert(tcat_file() == table_file(names[0]));
    assert(fcat_file() == table_file(names[1]));
    assert(viewcat_file() == table_file(names[2]));
    assert(idxcat_file() == table_file(names[3]));
    assert((txd.blocks(table_file(names[0])).len() + 1) * bs < i32::MAX);
    assert((txd.blocks(table_file(names[1])).len() + 1) * bs < i32::MAX);
    assert((txd.blocks(table_file(names[2])).len() + 1) * bs < i32::MAX);
    assert((txd.blocks(table_file(names[3])).len() + 1) * bs < i32::MAX);
    assert forall|t: Seq<char>| #[trigger] recorded(txd, t) implies exists|i: int| 0 <= i < names.len() && names[i] == t by {
        if t != "tblcat"@ && t != "fldcat"@ && t != "viewcat"@ && t != "idxcat"@ {
            let (n, s) = choose|n: int, s: int| #[trigger] tcat_match(txd, n, s, t);
            assert(tcat_match(txc, n, s, t));
        } else if t == "tblcat"@ {
            assert(names[0] == t);
        } else if t == "fldcat"@ {
            assert(names[1] == t);
        } else if t == "viewcat"@ {
            assert(names[2] == t);
        } else {
            assert(names[3] == t);
        }
    }
    assert forall|t: Seq<char>| #[trigger] recorded(txd, t) implies t == "tblcat"@ || t == "fldcat"@ || t == "viewcat"@
        || t == "idxcat"@ by {
        if t != "tblcat"@ && t != "fldcat"@ && t != "viewcat"@ && t != "idxcat"@ {
            let (n, s) = choose|n: int, s: int| #[trigger] tcat_match(txd, n, s, t);
            assert(tcat_match(txc, n, s, t));
        }
    }
    assert forall|i: int| 0 <= i < names.len() implies {
        &&& #[trigger] catalog_lists(txd, names[i], fss[i])
        &&& table_ok(txd, table_file(names[i]), fss[i])
        &&& fields_fit(fss[i])
        &&& fss[i].len() > 0
        &&& (txd.blocks(table_file(names[i])).len() + 1) * txd.spec_block_size() < i32::MAX
    } by {
        if i == 0 {
        } else if i == 1 {
        } else if i == 2 {
        } else {
            assert(i == 3);
        }
    }
    crate::metadata::stat_mgr::lemma_tables_described_from(txd, names, fss);
}

/// The metadata manager: the managers of tables, views, statistics and
/// indexes together.
pub struct MetadataMgr {
    tbl_mgr: TableMgr,
    view_mgr: ViewMgr,
    idx_mgr: IndexMgr,
}

impl MetadataMgr {
    /// The table manager.
    pub closed spec fn tables(&self) -> TableMgr {
        self.tbl_mgr
    }

    /// The view manager.
    pub closed spec fn views(&self) -> ViewMgr {
        self.view_mgr
    }

    /// The index manager, which holds the statistics manager.
    pub closed spec fn indexes(&self) -> IndexMgr {
        self.idx_mgr
    }

    /// The managers are well formed.
    pub open spec fn wf(&self) -> bool {
        &&& self.tables().wf()
        &&& self.views().tables().wf()
        &&& self.indexes().wf()
    }

    /// The metadata manager. For a new database, whose catalogs and catalog
    /// files are still empty, it first records the catalogs of tables, fields,
    /// views and indexes; the catalogs of an existing database describe the
    /// tables they record, the view catalog and the index catalog among them.
    /// The statistics of the tables recorded before the index catalog are
    /// computed.
    pub fn new(is_new: bool, tx: &mut Transaction, index_type: IndexType) -> (r: Self)
        requires
            !is_new ==> {
                &&& tables_described(old(tx))
                &&& described_as(old(tx), "viewcat"@, view_fields())
                &&& described_as(old(tx), "idxcat"@, idxcat_fields())
            },
            is_new ==> {
                &&& catalogs_ok(old(tx))
                &&& old(tx).blocks(tcat_file()).len() == 0
                &&& old(tx).blocks(fcat_file()).len() == 0
                &&& old(tx).blocks(viewcat_file()).len() == 0
                &&& old(tx).blocks(idxcat_file()).len() == 0
                &&& table_ok(old(tx), viewcat_file(), view_fields())
                &&& table_ok(old(tx), idxcat_file(), idxcat_fields())
                &&& 17 * old(tx).spec_block_size() < i32::MAX
            },
        ensures
            r.wf(),
            r.indexes().kind() == index_type,
            tables_described(final(tx)),
            described_as(final(tx), "viewcat"@, view_fields()),
            described_as(final(tx), "idxcat"@, idxcat_fields()),
            r.indexes().stats().calls() == 0,
            is_new ==> {
                &&& catalog_lists(final(tx), "tblcat"@, crate::metadata::table_mgr::tcat_fields())
                &&& catalog_lists(final(tx), "fldcat"@, crate::metadata::table_mgr::fcat_fields())
                &&& forall|t: Seq<char>|
                    #[trigger] recorded(final(tx), t) ==> t == "tblcat"@ || t == "fldcat"@ || t == "viewcat"@ || t
                        == "idxcat"@
                &&& forall|i: int|
                    0 <= i < r.indexes().stats().entries().len() ==> {
                        let t = #[trigger] r.indexes().stats().entries()[i].0;
                        t == "tblcat"@ || t == "fldcat"@ || t == "viewcat"@
                    }
                &&& forall|n: int, s: int| !#[trigger] used_at(final(tx), viewcat_file(), view_fields(), n, s)
                &&& forall|n: int, s: int| !#[trigger] used_at(final(tx), idxcat_file(), idxcat_fields(), n, s)
            },
            !is_new ==> {
                &&& files_grown(old(tx), final(tx))
                &&& final(tx).blocks(tcat_file()) == old(tx).blocks(tcat_file())
                &&& final(tx).blocks(fcat_file()) == old(tx).blocks(fcat_file())
                &&& forall|t: Seq<char>|
                    #[trigger] recorded(final(tx), t) ==> cached(r.indexes().stats().entries(), t) is Some
            },
    {
        let ghost tx0 = *tx;
        proof {
            crate::metadata::table_mgr::lemma_catalog_fields();
            crate::metadata::index_mgr::lemma_idxcat_fields();
            crate::metadata::view_mgr::lemma_view_fields();
            reveal_strlit("tblcat");
            reveal_strlit("fldcat");
            reveal_strlit("viewcat");
            reveal_strlit("idxcat");
            if !is_new {
                crate::metadata::view_mgr::lemma_described_catalogs(
                    tx,
                    "tblcat"@,
                    crate::metadata::table_mgr::tcat_fields(),
                );
            }
        }
        let tbl_mgr = TableMgr::new(is_new, tx);
        let ghost txa = *tx;
        let view_mgr = ViewMgr::new(is_new, TableMgr::new(false, tx), tx);
        let ghost txb = *tx;
        proof {
            if is_new {
                lemma_fresh_three(&tx0, &txa, &txb);
            }
        }
        let stat_mgr = StatMgr::new(TableMgr::new(false, tx), tx);
        let ghost txc = *tx;
        proof {
            crate::metadata::stat_mgr::lemma_catalogs_same(&txb, tx);
            if !is_new {
                assert(described_as(tx, "viewcat"@, view_fields())) by {
                    crate::metadata::index_mgr::lemma_described_recorded(&tx0, "viewcat"@, view_fields());
                    crate::metadata::stat_mgr::lemma_described_of_recorded(&tx0, tx, "viewcat"@, view_fields());
                }
                assert(described_as(tx, "idxcat"@, idxcat_fields())) by {
                    crate::metadata::index_mgr::lemma_described_recorded(&tx0, "idxcat"@, idxcat_fields());
                    crate::metadata::stat_mgr::lemma_described_of_recorded(&tx0, tx, "idxcat"@, idxcat_fields());
                }
            }
            crate::metadata::view_mgr::lemma_described_catalogs(tx, "tblcat"@, crate::metadata::table_mgr::tcat_fields());
        }
        let idx_mgr = IndexMgr::new(is_new, TableMgr::new(false, tx), stat_mgr, tx, index_type);
        proof {
            if is_new {
                lemma_fresh_four(&tx0, &txb, &txc, tx);
                assert forall|i: int| 0 <= i < stat_mgr.entries().len() implies {
                    let t = #[trigger] stat_mgr.entries()[i].0;
                    t == "tblcat"@ || t == "fldcat"@ || t == "viewcat"@
                } by {
                    let t = stat_mgr.entries()[i].0;
                    assert(recorded(&txc, t));
                    let (n, s) = choose|n: int, s: int| #[trigger] crate::metadata::table_mgr::tcat_match(&txc, n, s, t);
                    assert(crate::metadata::table_mgr::tcat_match(&txb, n, s, t));
                }
                crate::metadata::view_mgr::lemma_view_fields();
                crate::metadata::index_mgr::lemma_idxcat_fields();
                crate::record::table_scan::lemma_zero_block(view_fields(), tx0.spec_block_size());
                crate::record::table_scan::lemma_zero_block(idxcat_fields(), tx0.spec_block_size());
                assert(tx.blocks(viewcat_file()) == txc.blocks(viewcat_file()));
                assert(tx.blocks(idxcat_file()) == txc.blocks(idxcat_file()));
                assert(txc.blocks(viewcat_file()) == txb.blocks(viewcat_file()) || txc.blocks(viewcat_file()) == seq![
                    zero_block(txb.spec_block_size()),
                ]);
                assert(txc.blocks(idxcat_file()) == txb.blocks(idxcat_file()) || txc.blocks(idxcat_file()) == seq![
                    zero_block(txb.spec_block_size()),
                ]);
                assert forall|n: int, s: int| !#[trigger] used_at(tx, viewcat_file(), view_fields(), n, s) by {
                    if used_at(tx, viewcat_file(), view_fields(), n, s) {
                        assert(tx.blocks(viewcat_file())[n] == zero_block(tx0.spec_block_size()));
                    }
                }
                assert forall|n: int, s: int| !#[trigger] used_at(tx, idxcat_file(), idxcat_fields(), n, s) by {
                    if used_at(tx, idxcat_file(), idxcat_fields(), n, s) {
                        assert(tx.blocks(idxcat_file())[n] == zero_block(tx0.spec_block_size()));
                    }
                }
            }
        }
        MetadataMgr { tbl_mgr, view_mgr, idx_mgr }
    }

    /// Records the table `tblname` of schema `sch` in the catalogs.
    pub fn create_table(&self, tblname: &str, sch: Schema, tx: &mut Transaction)
        requires
            self.wf(),
            catalogs_ok(old(tx)),
            fields_fit(sch@),
            name_fits(tblname@),
            forall|i: int| 0 <= i < sch@.len() ==> name_fits(#[trigger] sch@[i].name),
            old(tx).blocks(tcat_file()).len() + 2 < i32::MAX,
            old(tx).blocks(fcat_file()).len() + sch@.len() + 2 < i32::MAX,
        ensures
            catalogs_ok(final(tx)),
            catalog_holds(final(tx), tblname@, sch@),
            records_kept(old(tx), final(tx), tcat_file(), crate::metadata::table_mgr::tcat_fields()),
            records_kept(old(tx), final(tx), fcat_file(), crate::metadata::table_mgr::fcat_fields()),
            final(tx).spec_block_size() == old(tx).spec_block_size(),
            forall|nm: Seq<char>|
                nm != tcat_file() && nm != fcat_file() ==> #[trigger] final(tx).blocks(nm) == old(tx).blocks(nm),
            forall|t: Seq<char>, f: Seq<FieldSpec>|
                t != tblname@ && table_file(t) != tcat_file() && table_file(t) != fcat_file() && described_as(old(tx), t, f)
                    ==> #[trigger] described_as(final(tx), t, f),
            ({
                let bs = old(tx).spec_block_size();
                &&& tables_described(old(tx))
                &&& described_as(old(tx), "fldcat"@, crate::metadata::table_mgr::fcat_fields())
                &&& !recorded(old(tx), tblname@)
                &&& (forall|n: int, s: int| !#[trigger] fcat_match(old(tx), n, s, tblname@))
                &&& crate::index::btree::bt_page::names_distinct(sch@)
                &&& sch@.len() > 0
                &&& table_ok(old(tx), table_file(tblname@), sch@)
                &&& (old(tx).blocks(table_file(tblname@)).len() + 1) * bs < i32::MAX
                &&& (old(tx).blocks(tcat_file()).len() + 3) * bs < i32::MAX
                &&& (old(tx).blocks(fcat_file()).len() + sch@.len() + 2) * bs < i32::MAX
            }) ==> tables_described(final(tx)) && described_as(
                final(tx),
                "fldcat"@,
                crate::metadata::table_mgr::fcat_fields(),
            ),
    {
        let ghost tx0 = *tx;
        let ghost fs = sch@;
        self.tbl_mgr.create_table(tblname, sch, tx);
        proof {
            assert forall|t: Seq<char>, f: Seq<FieldSpec>|
                t != tblname@ && table_file(t) != tcat_file() && table_file(t) != fcat_file() && described_as(&tx0, t, f)
                    implies #[trigger] described_as(tx, t, f) by {
                assert(catalog_lists(&tx0, t, f));
                assert(catalog_lists(tx, t, f));
                assert(tx.blocks(table_file(t)) == tx0.blocks(table_file(t)));
            }
            let bs = tx0.spec_block_size();
            if tables_described(&tx0) && described_as(&tx0, "fldcat"@, crate::metadata::table_mgr::fcat_fields())
                && !recorded(&tx0, tblname@) && (forall|n: int, s: int| !#[trigger] fcat_match(&tx0, n, s, tblname@))
                && crate::index::btree::bt_page::names_distinct(fs) && fs.len() > 0 && table_ok(
                &tx0,
                table_file(tblname@),
                fs,
            ) && (tx0.blocks(table_file(tblname@)).len() + 1) * bs < i32::MAX && (tx0.blocks(tcat_file()).len() + 3)
                * bs < i32::MAX && (tx0.blocks(fcat_file()).len() + fs.len() + 2) * bs < i32::MAX {
                assert forall|n: int, s: int| !#[trigger] tcat_match(&tx0, n, s, tblname@) by {
                    if tcat_match(&tx0, n, s, tblname@) {
                        assert(recorded(&tx0, tblname@));
                    }
                }
                assert(catalog_lists(tx, tblname@, fs));
                let l0 = tx0.blocks(tcat_file()).len() as int;
                let l1 = tx.blocks(tcat_file()).len() as int;
                let m0 = tx0.blocks(fcat_file()).len() as int + fs.len();
                let m1 = tx.blocks(fcat_file()).len() as int;
                assert((l1 + 1) * bs < i32::MAX) by (nonlinear_arith)
                    requires
                        l1 <= l0 + 2,
                        (l0 + 3) * bs < i32::MAX,
                        bs >= 0,
                        l1 >= 0,
                ;
                assert((m1 + 1) * bs < i32::MAX) by (nonlinear_arith)
                    requires
                        m1 <= m0 + 1,
                        (m0 + 2) * bs < i32::MAX,
                        bs >= 0,
                        m1 >= 0,
                ;
                crate::metadata::stat_mgr::lemma_described_after_create(&tx0, tx, tblname@, fs);
            }
        }
    }

    /// The layout of the table `tblname` that the catalogs give.
    pub fn get_layout(&self, tblname: &str, tx: &mut Transaction) -> (r: Layout)
        requires
            self.wf(),
            catalogs_ok(old(tx)),
        ensures
            catalogs_ok(final(tx)),
            final(tx).spec_block_size() == old(tx).spec_block_size(),
            forall|nm: Seq<char>|
                nm != tcat_file() && nm != fcat_file() ==> #[trigger] final(tx).blocks(nm) == old(tx).blocks(nm),
            records_kept(old(tx), final(tx), tcat_file(), crate::metadata::table_mgr::tcat_fields()),
            records_kept(old(tx), final(tx), fcat_file(), crate::metadata::table_mgr::fcat_fields()),
            old(tx).blocks(tcat_file()).len() != 0 && old(tx).blocks(fcat_file()).len() != 0 ==> *final(tx)
                == *old(tx),
            recorded_size(final(tx), tblname@, r.spec_slot_size()),
            exists|ps: Seq<(int, int)>|
                {
                    &&& #[trigger] listed_matches(final(tx), tblname@, ps)
                    &&& r.fields() == listed_fields(final(tx), ps)
                    &&& r.spec_offsets() == listed_offsets(final(tx), ps)
                },
    {
        self.tbl_mgr.get_layout(tblname, tx)
    }

    /// Records the view `vname` with the definition `vdef`.
    pub fn create_view(&self, vname: &str, vdef: &str, tx: &mut Transaction)
        requires
            self.wf(),
            catalogs_ok(old(tx)),
            described_as(old(tx), "viewcat"@, view_fields()),
            name_fits(vname@),
            encode_utf8(vdef@).len() <= 4 * MAX_VIEWDEF,
            old(tx).blocks(viewcat_file()).len() + 1 < i32::MAX,
        ensures
            catalogs_ok(final(tx)),
            described_as(final(tx), "viewcat"@, view_fields()),
            has_record(final(tx), viewcat_file(), view_fields(), seq![ConstVal::Str(vname@), ConstVal::Str(vdef@)]),
            records_kept(old(tx), final(tx), viewcat_file(), view_fields()),
            final(tx).blocks(viewcat_file()).len() <= old(tx).blocks(viewcat_file()).len() + 2,
            final(tx).spec_block_size() == old(tx).spec_block_size(),
            forall|nm: Seq<char>| nm != viewcat_file() ==> #[trigger] final(tx).blocks(nm) == old(tx).blocks(nm),
            tables_described(old(tx)) && (old(tx).blocks(viewcat_file()).len() + 3) * old(tx).spec_block_size()
                < i32::MAX ==> tables_described(final(tx)),
    {
        let ghost tx0 = *tx;
        self.view_mgr.create_view(vname, vdef, tx);
        proof {
            crate::metadata::view_mgr::lemma_view_fields();
            if tables_described(&tx0) && (tx0.blocks(viewcat_file()).len() + 3) * tx0.spec_block_size() < i32::MAX {
                let l0 = tx0.blocks(viewcat_file()).len() as int;
                let l1 = tx.blocks(viewcat_file()).len() as int;
                let bs = tx0.spec_block_size() as int;
                assert((l1 + 1) * bs < i32::MAX) by (nonlinear_arith)
                    requires
                        0 <= l1 <= l0 + 2,
                        (l0 + 3) * bs < i32::MAX,
                        bs >= 0,
                ;
                crate::metadata::stat_mgr::lemma_described_after_insert(&tx0, tx, "viewcat"@, view_fields());
            }
        }
    }

    /// The definition of the view `vname`, or none.
    pub fn get_view_def(&self, vname: &str, tx: &mut Transaction) -> (r: Option<String>)
        requires
            self.wf(),
            catalogs_ok(old(tx)),
            described_as(old(tx), "viewcat"@, view_fields()),
        ensures
            catalogs_ok(final(tx)),
            described_as(final(tx), "viewcat"@, view_fields()),
            view_def_is(
                final(tx),
                vname@,
                match r {
                    Some(d) => Some(d@),
                    None => None,
                },
            ),
            records_kept(old(tx), final(tx), viewcat_file(), view_fields()),
            final(tx).spec_block_size() == old(tx).spec_block_size(),
            forall|nm: Seq<char>| nm != viewcat_file() ==> #[trigger] final(tx).blocks(nm) == old(tx).blocks(nm),
            old(tx).blocks(viewcat_file()).len() != 0 ==> *final(tx) == *old(tx),
    {
        self.view_mgr.get_view_def(vname, tx)
    }

    /// Records the index `idxname` on the field `fldname` of the table
    /// `tblname`.
    pub fn create_index(&self, idxname: &str, tblname: &str, fldname: &str, tx: &mut Transaction)
        requires
            self.wf(),
            catalogs_ok(old(tx)),
            described_as(old(tx), "idxcat"@, idxcat_fields()),
            name_fits(idxname@),
            name_fits(tblname@),
            name_fits(fldname@),
            old(tx).blocks(idxcat_file()).len() + 1 < i32::MAX,
        ensures
            catalogs_ok(final(tx)),
            described_as(final(tx), "idxcat"@, idxcat_fields()),
            has_record(
                final(tx),
                idxcat_file(),
                idxcat_fields(),
                seq![ConstVal::Str(idxname@), ConstVal::Str(tblname@), ConstVal::Str(fldname@)],
            ),
            records_kept(old(tx), final(tx), idxcat_file(), idxcat_fields()),
            final(tx).blocks(idxcat_file()).len() <= old(tx).blocks(idxcat_file()).len() + 2,
            final(tx).spec_block_size() == old(tx).spec_block_size(),
            forall|nm: Seq<char>| nm != idxcat_file() ==> #[trigger] final(tx).blocks(nm) == old(tx).blocks(nm),
            tables_described(old(tx)) && (old(tx).blocks(idxcat_file()).len() + 3) * old(tx).spec_block_size()
                < i32::MAX ==> tables_described(final(tx)),
    {
        let ghost tx0 = *tx;
        self.idx_mgr.create_index(idxname, tblname, fldname, tx);
        proof {
            crate::metadata::index_mgr::lemma_idxcat_fields();
            if tables_described(&tx0) && (tx0.blocks(idxcat_file()).len() + 3) * tx0.spec_block_size() < i32::MAX {
                let l0 = tx0.blocks(idxcat_file()).len() as int;
                let l1 = tx.blocks(idxcat_file()).len() as int;
                let bs = tx0.spec_block_size() as int;
                assert((l1 + 1) * bs < i32::MAX) by (nonlinear_arith)
                    requires
                        0 <= l1 <= l0 + 2,
                        (l0 + 3) * bs < i32::MAX,
                        bs >= 0,
                ;
                crate::metadata::stat_mgr::lemma_described_after_insert(&tx0, tx, "idxcat"@, idxcat_fields());
            }
        }
    }

    /// The information about the indexes on fields of the table `tblname`,
    /// by field.
    pub fn get_index_info(&mut self, tblname: &str, tx: &mut Transaction) -> (r: Vec<(String, IndexInfo)>)
        requires
            old(self).wf(),
            tables_described(old(tx)),
            described_as(old(tx), "idxcat"@, idxcat_fields()),
            forall|n: int, s: int| #[trigger] idx_match(old(tx), n, s, tblname@) ==> recorded(old(tx), tblname@),
            forall|ps: Seq<(int, int)>|
                #[trigger] listed_matches(old(tx), tblname@, ps) ==> index_fields_ok(
                    old(tx),
                    tblname@,
                    listed_fields(old(tx), ps),
                ),
        ensures
            final(self).wf(),
            final(self).tables() == old(self).tables(),
            final(self).views() == old(self).views(),
            final(self).indexes().kind() == old(self).indexes().kind(),
            tables_described(final(tx)),
            described_as(final(tx), "idxcat"@, idxcat_fields()),
            files_grown(old(tx), final(tx)),
            final(tx).blocks(tcat_file()) == old(tx).blocks(tcat_file()),
            final(tx).blocks(fcat_file()) == old(tx).blocks(fcat_file()),
            exists|ps: Seq<(int, int)>|
                #[trigger] listed_indexes(final(tx), tblname@, ps) && infos_view(r@) == index_map(final(tx), ps),
            forall|i: int|
                0 <= i < r@.len() ==> #[trigger] info_ok(final(tx), tblname@, old(self).indexes().kind(), r@[i]),
    {
        self.idx_mgr.get_index_info(tblname, tx)
    }

    /// The statistics of the table `tblname`, whose layout in the catalogs is
    /// `layout`.
    pub fn get_stat_info(&mut self, tblname: &str, layout: &Layout, tx: &mut Transaction) -> (r: StatInfo)
        requires
            old(self).wf(),
            tables_described(old(tx)),
            recorded(old(tx), tblname@),
            layout.wf(),
            exists|ps: Seq<(int, int)>|
                #[trigger] listed_matches(old(tx), tblname@, ps) && layout.fields() == listed_fields(old(tx), ps),
        ensures
            final(self).wf(),
            final(self).tables() == old(self).tables(),
            final(self).views() == old(self).views(),
            final(self).indexes().kind() == old(self).indexes().kind(),
            tables_described(final(tx)),
            files_grown(old(tx), final(tx)),
            final(tx).blocks(tcat_file()) == old(tx).blocks(tcat_file()),
            final(tx).blocks(fcat_file()) == old(tx).blocks(fcat_file()),
            old(self).indexes().stats().calls() == 100 ==> stats_are(
                final(tx),
                table_file(tblname@),
                layout.fields(),
                r.spec_blocks() as int,
                r.spec_recs() as int,
            ),
            old(self).indexes().stats().calls() < 100 && cached(old(self).indexes().stats().entries(), tblname@) is Some
                ==> {
                &&& cached(old(self).indexes().stats().entries(), tblname@) == Some(r)
                &&& *final(tx) == *old(tx)
            },
            old(self).indexes().stats().calls() < 100 && cached(old(self).indexes().stats().entries(), tblname@) is None
                ==> {
                &&& stats_are(
                    final(tx),
                    table_file(tblname@),
                    layout.fields(),
                    r.spec_blocks() as int,
                    r.spec_recs() as int,
                )
                &&& final(self).indexes().stats().entries() == cache_put(
                    old(self).indexes().stats().entries(),
                    tblname@,
                    r,
                )
            },
    {
        self.idx_mgr.get_stat_info(tblname, layout, tx)
    }
}

} // verus!
