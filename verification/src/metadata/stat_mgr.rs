use vstd::prelude::*;

use crate::index::btree::page_format::lemma_slot_pos_ge;
use crate::metadata::stat_info::StatInfo;
use crate::metadata::table_mgr::{
    catalog_lists, catalogs_ok, fcat_file, listed_fields, listed_matches, str_of, tcat_fields, tcat_file, tcat_match,
    TableMgr,
};
use crate::metadata::view_mgr::described_as;
use crate::record::layout::fields_fit;
use crate::record::layout::Layout;
use crate::record::schema::FieldSpec;
use crate::record::table_scan::{pos_before, rec_at, table_file, table_ok, used_at, zero_block, TableScan};
use crate::tx::transaction::{find_name, lemma_find_name, lemma_find_name_absent, lemma_find_name_at};
use crate::tx::Transaction;

verus! {

/// The slots `ps`, in scan order, are all the slots of the table `name` that
/// hold records.
pub open spec fn listed_used(tx: &Transaction, name: Seq<char>, fs: Seq<FieldSpec>, ps: Seq<(int, int)>) -> bool {
    &&& forall|i: int, j: int|
        0 <= i < j < ps.len() ==> pos_before(#[trigger] ps[i].0, ps[i].1, #[trigger] ps[j].0, ps[j].1)
    &&& forall|i: int| 0 <= i < ps.len() ==> used_at(tx, name, fs, #[trigger] ps[i].0, ps[i].1)
    &&& forall|n: int, s: int|
        #[trigger] used_at(tx, name, fs, n, s) ==> exists|i: int| 0 <= i < ps.len() && #[trigger] ps[i] == (n, s)
}

/// The table `name` holds `recs` records, the last of them in block
/// `blocks - 1`; no records and no blocks where it holds none.
pub open spec fn stats_are(tx: &Transaction, name: Seq<char>, fs: Seq<FieldSpec>, blocks: int, recs: int) -> bool {
    exists|ps: Seq<(int, int)>|
        {
            &&& #[trigger] listed_used(tx, name, fs, ps)
            &&& recs == ps.len()
            &&& blocks == if ps.len() == 0 {
                0
            } else {
                ps.last().0 + 1
            }
        }
}

/// Slots listed in scan order within `len` blocks of `bs` slots at most are
/// no more than `len * bs`.
proof fn lemma_listed_len(ps: Seq<(int, int)>, len: int, bs: int)
    requires
        bs > 0,
        len >= 0,
        forall|i: int, j: int|
            0 <= i < j < ps.len() ==> pos_before(#[trigger] ps[i].0, ps[i].1, #[trigger] ps[j].0, ps[j].1),
        forall|i: int| 0 <= i < ps.len() ==> 0 <= #[trigger] ps[i].0 < len && 0 <= ps[i].1 < bs,
    ensures
        ps.len() <= len * bs,
{
    assert forall|i: int| 0 <= i < ps.len() implies 0 <= #[trigger] ps[i].0 && 0 <= ps[i].1 < bs && ps[i].0 * bs
        + ps[i].1 < len * bs by {
        let (n, s) = (ps[i].0, ps[i].1);
        assert(n * bs + s < len * bs) by (nonlinear_arith)
            requires
                0 <= n < len,
                0 <= s < bs,
        ;
    }
    assert(len * bs >= 0) by (nonlinear_arith)
        requires
            len >= 0,
            bs > 0,
    ;
    lemma_listed_code_len(ps, len * bs, bs);
}

/// Slots listed in scan order before slot `code % bs` of block `code / bs`
/// are no more than `code`.
proof fn lemma_listed_code_len(ps: Seq<(int, int)>, code: int, bs: int)
    requires
        bs > 0,
        forall|i: int, j: int|
            0 <= i < j < ps.len() ==> pos_before(#[trigger] ps[i].0, ps[i].1, #[trigger] ps[j].0, ps[j].1),
        forall|i: int| 0 <= i < ps.len() ==> 0 <= #[trigger] ps[i].0 && 0 <= ps[i].1 < bs && ps[i].0 * bs + ps[i].1 < code,
        code >= 0,
    ensures
        ps.len() <= code,
    decreases ps.len(),
{
    if ps.len() > 0 {
        let init = ps.drop_last();
        let last = ps.last();
        assert(ps[ps.len() - 1] == last);
        assert(0 <= last.0 && 0 <= last.1 < bs && last.0 * bs + last.1 < code);
        assert(last.0 * bs + last.1 >= 0) by (nonlinear_arith)
            requires
                last.0 >= 0,
                last.1 >= 0,
                bs > 0,
        ;
        assert forall|i: int, j: int| 0 <= i < j < init.len() implies pos_before(
            #[trigger] init[i].0,
            init[i].1,
            #[trigger] init[j].0,
            init[j].1,
        ) by {
            assert(init[i] == ps[i] && init[j] == ps[j]);
        }
        assert forall|i: int| 0 <= i < init.len() implies 0 <= #[trigger] init[i].0 && 0 <= init[i].1 < bs
            && init[i].0 * bs + init[i].1 < last.0 * bs + last.1 by {
            assert(init[i] == ps[i]);
            assert(pos_before(ps[i].0, ps[i].1, last.0, last.1));
            let (n1, s1) = (ps[i].0, ps[i].1);
            let (n2, s2) = (last.0, last.1);
            assert(n1 * bs + s1 < n2 * bs + s2) by (nonlinear_arith)
                requires
                    n1 < n2 || (n1 == n2 && s1 < s2),
                    0 <= s1 < bs,
                    0 <= s2 < bs,
            ;
        }
        lemma_listed_code_len(init, last.0 * bs + last.1, bs);
    }
}

/// The statistics of the table `tblname` of layout `layout`: the number of its
/// records, and of its blocks up to the one of its last record.
fn calc_table_stats(tblname: &str, layout: &Layout, tx: &mut Transaction) -> (r: StatInfo)
    requires
        layout.wf(),
        table_ok(old(tx), table_file(tblname@), layout.fields()),
        (old(tx).blocks(table_file(tblname@)).len() + 1) * old(tx).spec_block_size() < i32::MAX,
    ensures
        stats_are(final(tx), table_file(tblname@), layout.fields(), r.spec_blocks() as int, r.spec_recs() as int),
        table_ok(final(tx), table_file(tblname@), layout.fields()),
        final(tx).spec_block_size() == old(tx).spec_block_size(),
        forall|nm: Seq<char>| nm != table_file(tblname@) ==> #[trigger] final(tx).blocks(nm) == old(tx).blocks(nm),
        old(tx).blocks(table_file(tblname@)).len() == 0 ==> final(tx).blocks(table_file(tblname@)) == seq![
            zero_block(old(tx).spec_block_size()),
        ],
        old(tx).blocks(table_file(tblname@)).len() != 0 ==> *final(tx) == *old(tx),
{
    let ghost name = table_file(tblname@);
    let ghost fs = layout.fields();
    let mut num_recs: i32 = 0;
    let mut num_blocks: i32 = 0;
    let mut ts = TableScan::new(tx, tblname, layout.clone());
    let ghost tx1 = *tx;
    let ghost bs = tx.spec_block_size() as int;
    let ghost mut ps: Seq<(int, int)> = Seq::empty();
    proof {
        ts.lemma_valid(tx);
        let l0 = old(tx).blocks(name).len() as int;
        let l1 = tx.blocks(name).len() as int;
        assert(l1 <= l0 + 1);
        assert(l1 * bs <= (l0 + 1) * bs) by (nonlinear_arith)
            requires
                l1 <= l0 + 1,
                bs >= 0,
        ;
    }
    loop
        invariant_except_break
            ts.valid(tx),
            ts.file() == name,
            ts.fs() == fs,
            forall|i: int, j: int|
                0 <= i < j < ps.len() ==> pos_before(#[trigger] ps[i].0, ps[i].1, #[trigger] ps[j].0, ps[j].1),
            forall|i: int|
                0 <= i < ps.len() ==> used_at(tx, name, fs, #[trigger] ps[i].0, ps[i].1) && !pos_before(
                    ts.bnum(),
                    ts.slot(),
                    ps[i].0,
                    ps[i].1,
                ),
            forall|n: int, s: int|
                #[trigger] used_at(tx, name, fs, n, s) && !pos_before(ts.bnum(), ts.slot(), n, s) ==> exists|i: int|
                    0 <= i < ps.len() && #[trigger] ps[i] == (n, s),
            num_recs == ps.len(),
            num_blocks == if ps.len() == 0 {
                0
            } else {
                ps.last().0 + 1
            },
        invariant
            *tx == tx1,
            bs == tx.spec_block_size(),
            tx.blocks(name).len() * bs < i32::MAX,
            table_ok(tx, name, fs),
        ensures
            stats_are(tx, name, fs, num_blocks as int, num_recs as int),
        decreases tx.blocks(name).len() - ts.bnum(), tx.spec_block_size() - ts.slot(),
    {
        proof {
            ts.lemma_valid(tx);
        }
        let ghost head = ts;
        if !ts.next(tx) {
            proof {
                assert(listed_used(tx, name, fs, ps)) by {
                    assert forall|n: int, s: int| #[trigger] used_at(tx, name, fs, n, s) implies exists|i: int|
                        0 <= i < ps.len() && #[trigger] ps[i] == (n, s) by {
                        if pos_before(head.bnum(), head.slot(), n, s) {
                            assert(!used_at(tx, name, fs, n, s));
                        }
                    }
                }
            }
            break;
        }
        let ghost p = (ts.bnum(), ts.slot());
        let ghost old_ps = ps;
        proof {
            ts.lemma_valid(tx);
            crate::record::table_scan::lemma_used_in_block(tx, name, fs, p.0, p.1);
            ps = ps.push(p);
            assert forall|i: int| 0 <= i < ps.len() implies 0 <= #[trigger] ps[i].0 < tx.blocks(name).len() && 0
                <= ps[i].1 < bs by {
                if i < old_ps.len() {
                    assert(ps[i] == old_ps[i]);
                }
                assert(used_at(tx, name, fs, ps[i].0, ps[i].1));
                lemma_slot_pos_ge(fs, ps[i].1 + 1);
                crate::record::table_scan::lemma_used_in_block(tx, name, fs, ps[i].0, ps[i].1);
            }
            assert forall|i: int, j: int| 0 <= i < j < ps.len() implies pos_before(
                #[trigger] ps[i].0,
                ps[i].1,
                #[trigger] ps[j].0,
                ps[j].1,
            ) by {
                if j < old_ps.len() {
                    assert(ps[i] == old_ps[i] && ps[j] == old_ps[j]);
                } else {
                    assert(ps[i] == old_ps[i]);
                }
            }
            lemma_listed_len(ps, tx.blocks(name).len() as int, bs);
            assert(ps.len() <= tx.blocks(name).len() * bs) by (nonlinear_arith)
                requires
                    ps.len() <= tx.blocks(name).len() as int * bs,
            ;
        }
        num_recs = num_recs + 1;
        num_blocks = ts.get_rid().block_number() + 1;
        proof {
            assert forall|n: int, s: int|
                #[trigger] used_at(tx, name, fs, n, s) && !pos_before(ts.bnum(), ts.slot(), n, s) implies exists|i: int|
                    0 <= i < ps.len() && #[trigger] ps[i] == (n, s) by {
                if n == p.0 && s == p.1 {
                    assert(ps[old_ps.len() as int] == (n, s));
                } else if pos_before(head.bnum(), head.slot(), n, s) {
                    assert(!used_at(tx, name, fs, n, s));
                } else {
                    let i = choose|i: int| 0 <= i < old_ps.len() && #[trigger] old_ps[i] == (n, s);
                    assert(ps[i] == (n, s));
                }
            }
            assert forall|i: int| 0 <= i < ps.len() implies used_at(tx, name, fs, #[trigger] ps[i].0, ps[i].1)
                && !pos_before(ts.bnum(), ts.slot(), ps[i].0, ps[i].1) by {
                if i < old_ps.len() {
                    assert(ps[i] == old_ps[i]);
                }
            }
        }
    }
    StatInfo::new(num_blocks, num_recs)
}

/// The names of the cached statistics, in order.
pub open spec fn stat_names(entries: Seq<(Seq<char>, StatInfo)>) -> Seq<Seq<char>> {
    entries.map_values(|e: (Seq<char>, StatInfo)| e.0)
}

/// The cached statistics of the table `name`, if there are any.
pub open spec fn cached(entries: Seq<(Seq<char>, StatInfo)>, name: Seq<char>) -> Option<StatInfo> {
    let i = find_name(stat_names(entries), name);
    if i < entries.len() {
        Some(entries[i].1)
    } else {
        None
    }
}

/// The cache after recording `si` for the table `name`: in place of its
/// entry, or after the others where it has none.
pub open spec fn cache_put(entries: Seq<(Seq<char>, StatInfo)>, name: Seq<char>, si: StatInfo) -> Seq<
    (Seq<char>, StatInfo),
> {
    let i = find_name(stat_names(entries), name);
    if i < entries.len() {
        entries.update(i, (name, si))
    } else {
        entries.push((name, si))
    }
}

/// The view of a cache of statistics.
pub open spec fn cache_view(v: Seq<(String, StatInfo)>) -> Seq<(Seq<char>, StatInfo)> {
    v.map_values(|e: (String, StatInfo)| (e.0@, e.1))
}

/// The position of the entry of the table `name` in the cache, or its length.
fn stat_index(v: &Vec<(String, StatInfo)>, name: &str) -> (r: usize)
    ensures
        r == find_name(stat_names(cache_view(v@)), name@),
{
    let ghost names = stat_names(cache_view(v@));
    proof {
        lemma_find_name(names, name@);
    }
    let target = name.to_owned();
    let mut i: usize = 0;
    while i < v.len()
        invariant
            target@ == name@,
            names == stat_names(cache_view(v@)),
            names.len() == v@.len(),
            i <= v@.len(),
            forall|j: int| 0 <= j < i ==> names[j] != name@,
        decreases v@.len() - i,
    {
        if v[i].0 == target {
            proof {
                assert(names[i as int] == v@[i as int].0@);
                lemma_find_name_at(names, name@, i as int);
            }
            return i;
        }
        proof {
            assert(names[i as int] == v@[i as int].0@);
        }
        i = i + 1;
    }
    proof {
        lemma_find_name_absent(names, name@);
    }
    i
}

/// Records `si` for the table `name` in the cache.
fn put_stat(v: &mut Vec<(String, StatInfo)>, name: &str, si: StatInfo)
    ensures
        cache_view(final(v)@) == cache_put(cache_view(old(v)@), name@, si),
{
    let i = stat_index(v, name);
    if i < v.len() {
        v.set(i, (name.to_owned(), si));
        assert(cache_view(v@) =~= cache_put(cache_view(old(v)@), name@, si));
    } else {
        v.push((name.to_owned(), si));
        assert(cache_view(v@) =~= cache_put(cache_view(old(v)@), name@, si));
    }
}

/// Whether the table catalog has a record of the table `tblname`.
pub open spec fn recorded(tx: &Transaction, tblname: Seq<char>) -> bool {
    exists|n: int, s: int| #[trigger] tcat_match(tx, n, s, tblname)
}

/// A table stays recorded in any state that holds the same table catalog.
pub proof fn lemma_recorded_frame(t1: &Transaction, t2: &Transaction, t: Seq<char>)
    requires
        recorded(t1, t),
        t2.blocks(tcat_file()) == t1.blocks(tcat_file()),
    ensures
        recorded(t2, t),
{
    let (n, s) = choose|n: int, s: int| #[trigger] tcat_match(t1, n, s, t);
    assert(tcat_match(t2, n, s, t));
}

/// Every table that the table catalog records, the catalogs describe as a
/// table of one or more fields laid out one after another, and its file is
/// small enough for its records to be counted.
pub open spec fn tables_described(tx: &Transaction) -> bool {
    &&& catalogs_ok(tx)
    &&& described_as(tx, "tblcat"@, tcat_fields())
    &&& 2 * tx.spec_block_size() < i32::MAX
    &&& forall|tbl: Seq<char>, ps: Seq<(int, int)>|
        recorded(tx, tbl) && #[trigger] listed_matches(tx, tbl, ps) ==> {
            &&& described_as(tx, tbl, listed_fields(tx, ps))
            &&& fields_fit(listed_fields(tx, ps))
            &&& listed_fields(tx, ps).len() > 0
            &&& (tx.blocks(table_file(tbl)).len() + 1) * tx.spec_block_size() < i32::MAX
        }
}

/// The cached statistics `e` are those of the table `e.0` in `tx`.
pub open spec fn entry_ok(tx: &Transaction, e: (Seq<char>, StatInfo)) -> bool {
    exists|ps: Seq<(int, int)>|
        {
            &&& #[trigger] listed_matches(tx, e.0, ps)
            &&& stats_are(tx, table_file(e.0), listed_fields(tx, ps), e.1.spec_blocks() as int, e.1.spec_recs() as int)
        }
}

/// Tables are kept in distinct files.
pub proof fn lemma_table_file_injective(a: Seq<char>, b: Seq<char>)
    requires
        table_file(a) == table_file(b),
    ensures
        a == b,
{
    assert(table_file(a).len() == a.len() + ".tbl"@.len());
    assert(table_file(b).len() == b.len() + ".tbl"@.len());
    assert(a.len() == b.len());
    assert(a =~= table_file(a).subrange(0, a.len() as int));
    assert(b =~= table_file(b).subrange(0, b.len() as int));
}

/// A catalog description of a table gives the same fields for every listing.
proof fn lemma_described_fields(tx: &Transaction, tbl: Seq<char>, f: Seq<FieldSpec>, ps: Seq<(int, int)>)
    requires
        described_as(tx, tbl, f),
        listed_matches(tx, tbl, ps),
    ensures
        listed_fields(tx, ps) == f,
{
}

/// Giving a recorded table that had no block one block of zeros, as opening a
/// scan of it does, keeps the descriptions of all tables and the statistics
/// of the cached entries.
pub proof fn lemma_after_scan_open(tx: &Transaction, tx2: &Transaction, tbl: Seq<char>, fs: Seq<FieldSpec>)
    requires
        tables_described(tx),
        recorded(tx, tbl),
        described_as(tx, tbl, fs),
        table_ok(tx2, table_file(tbl), fs),
        tx2.spec_block_size() == tx.spec_block_size(),
        forall|nm: Seq<char>| nm != table_file(tbl) ==> #[trigger] tx2.blocks(nm) == tx.blocks(nm),
        tx.blocks(table_file(tbl)).len() == 0 ==> tx2.blocks(table_file(tbl)) == seq![
            zero_block(tx.spec_block_size()),
        ],
        tx.blocks(table_file(tbl)).len() != 0 ==> *tx2 == *tx,
    ensures
        tables_described(tx2),
        forall|e: (Seq<char>, StatInfo)| entry_ok(tx, e) ==> #[trigger] entry_ok(tx2, e),
        forall|t: Seq<char>| #[trigger] recorded(tx2, t) == recorded(tx, t),
        forall|t: Seq<char>, ps: Seq<(int, int)>| #[trigger] listed_matches(tx2, t, ps) == listed_matches(tx, t, ps),
        forall|ps: Seq<(int, int)>| #[trigger] listed_fields(tx2, ps) == listed_fields(tx, ps),
{
    if tx.blocks(table_file(tbl)).len() != 0 {
        return;
    }
    let name = table_file(tbl);
    let bs = tx.spec_block_size();
    crate::metadata::table_mgr::lemma_catalog_fields();
    crate::metadata::view_mgr::lemma_described_catalogs(tx, "tblcat"@, tcat_fields());
    assert(name != tcat_file());
    assert(name != fcat_file());
    assert(tx2.blocks(tcat_file()) == tx.blocks(tcat_file()));
    assert(tx2.blocks(fcat_file()) == tx.blocks(fcat_file()));
    assert forall|n: int, s: int|
        #![trigger tcat_match(tx2, n, s, tbl)]
        #![trigger tcat_match(tx, n, s, tbl)]
        tcat_match(tx2, n, s, tbl) == tcat_match(tx, n, s, tbl) by {
    }
    assert forall|t: Seq<char>| #[trigger] recorded(tx2, t) == recorded(tx, t) by {
        assert forall|n: int, s: int|
            #![trigger tcat_match(tx2, n, s, t)]
            #![trigger tcat_match(tx, n, s, t)]
            tcat_match(tx2, n, s, t) == tcat_match(tx, n, s, t) by {
        }
    }
    assert forall|t: Seq<char>, ps: Seq<(int, int)>| #[trigger] listed_matches(tx2, t, ps) == listed_matches(tx, t, ps) by {
        assert forall|n: int, s: int|
            #![trigger crate::metadata::table_mgr::fcat_match(tx2, n, s, t)]
            #![trigger crate::metadata::table_mgr::fcat_match(tx, n, s, t)]
            crate::metadata::table_mgr::fcat_match(tx2, n, s, t) == crate::metadata::table_mgr::fcat_match(tx, n, s, t) by {
        }
    }
    assert forall|ps: Seq<(int, int)>| #[trigger] listed_fields(tx2, ps) == listed_fields(tx, ps) by {
        assert(listed_fields(tx2, ps) =~= listed_fields(tx, ps));
    }
    let rec2 = tx2.blocks(name);
    crate::record::table_scan::lemma_zero_block(fs, bs);
    assert forall|n: int, s: int| !#[trigger] used_at(tx2, name, fs, n, s) by {
        if used_at(tx2, name, fs, n, s) {
            assert(n == 0);
            assert(tx2.blocks(name)[0] == zero_block(bs));
        }
    }
    // catalogs and the description of the table catalog
    assert(catalogs_ok(tx2));
    crate::metadata::view_mgr::lemma_described_kept(tx, tx2, "tblcat"@, tcat_fields());
    assert forall|t: Seq<char>, ps: Seq<(int, int)>|
        recorded(tx2, t) && #[trigger] listed_matches(tx2, t, ps) implies {
            &&& described_as(tx2, t, listed_fields(tx2, ps))
            &&& fields_fit(listed_fields(tx2, ps))
            &&& listed_fields(tx2, ps).len() > 0
            &&& (tx2.blocks(table_file(t)).len() + 1) * tx2.spec_block_size() < i32::MAX
        } by {
        assert(recorded(tx, t) && listed_matches(tx, t, ps));
        let f = listed_fields(tx, ps);
        if table_file(t) == name {
            lemma_table_file_injective(t, tbl);
            assert(f == fs);
            assert(tx2.blocks(name).len() == 1);
        } else {
            assert(tx2.blocks(table_file(t)) == tx.blocks(table_file(t)));
        }
        crate::metadata::view_mgr::lemma_described_kept(tx, tx2, t, f);
    }
    assert forall|e: (Seq<char>, StatInfo)| entry_ok(tx, e) implies #[trigger] entry_ok(tx2, e) by {
        let ps = choose|ps: Seq<(int, int)>|
            {
                &&& #[trigger] listed_matches(tx, e.0, ps)
                &&& stats_are(tx, table_file(e.0), listed_fields(tx, ps), e.1.spec_blocks() as int, e.1.spec_recs() as int)
            };
        let f = listed_fields(tx, ps);
        let file = table_file(e.0);
        let us = choose|us: Seq<(int, int)>|
            {
                &&& #[trigger] listed_used(tx, file, f, us)
                &&& e.1.spec_recs() == us.len()
                &&& e.1.spec_blocks() == if us.len() == 0 {
                    0
                } else {
                    us.last().0 + 1
                }
            };
        assert(listed_matches(tx2, e.0, ps));
        if file == name {
            lemma_table_file_injective(e.0, tbl);
            assert(f == fs);
            if us.len() > 0 {
                assert(used_at(tx, file, f, us[0].0, us[0].1));
            }
            assert(listed_used(tx2, file, f, us));
        } else {
            assert(tx2.blocks(file) == tx.blocks(file));
            assert forall|n: int, s: int|
                #![trigger used_at(tx2, file, f, n, s)]
                #![trigger used_at(tx, file, f, n, s)]
                used_at(tx2, file, f, n, s) == used_at(tx, file, f, n, s) by {
            }
            assert(listed_used(tx2, file, f, us));
        }
        assert(stats_are(tx2, file, listed_fields(tx2, ps), e.1.spec_blocks() as int, e.1.spec_recs() as int));
    }
}

/// Statistics computed just after the scan of a recorded table was opened
/// are those of the table in the catalogs.
proof fn lemma_fresh_entry(
    tx1: &Transaction,
    tx: &Transaction,
    tbl: Seq<char>,
    ps: Seq<(int, int)>,
    si: StatInfo,
)
    requires
        listed_matches(tx1, tbl, ps),
        forall|t: Seq<char>, qs: Seq<(int, int)>| #[trigger] listed_matches(tx, t, qs) == listed_matches(tx1, t, qs),
        forall|qs: Seq<(int, int)>| #[trigger] listed_fields(tx, qs) == listed_fields(tx1, qs),
        stats_are(tx, table_file(tbl), listed_fields(tx1, ps), si.spec_blocks() as int, si.spec_recs() as int),
    ensures
        entry_ok(tx, (tbl, si)),
{
    let e = (tbl, si);
    assert(listed_matches(tx, e.0, ps));
    assert(listed_fields(tx, ps) == listed_fields(tx1, ps));
    assert(stats_are(tx, table_file(e.0), listed_fields(tx, ps), e.1.spec_blocks() as int, e.1.spec_recs() as int));
}

/// Opening a scan keeps the files of `tx2` those of `tx0` or a block of zeros
/// where it had none.
pub proof fn lemma_files_grown_trans(tx0: &Transaction, tx1: &Transaction, tx: &Transaction, file: Seq<char>)
    requires
        files_grown(tx0, tx1),
        tx.spec_block_size() == tx1.spec_block_size(),
        forall|nm: Seq<char>| nm != file ==> #[trigger] tx.blocks(nm) == tx1.blocks(nm),
        tx1.blocks(file).len() == 0 ==> tx.blocks(file) == seq![zero_block(tx1.spec_block_size())],
        tx1.blocks(file).len() != 0 ==> *tx == *tx1,
    ensures
        files_grown(tx0, tx),
{
    assert forall|nm: Seq<char>|
        #[trigger] tx.blocks(nm) == tx0.blocks(nm) || (tx0.blocks(nm).len() == 0 && tx.blocks(nm) == seq![
            zero_block(tx0.spec_block_size()),
        ]) by {
        assert(tx1.blocks(nm) == tx0.blocks(nm) || (tx0.blocks(nm).len() == 0 && tx1.blocks(nm) == seq![
            zero_block(tx0.spec_block_size()),
        ]));
    }
}

/// Recording statistics for a table keeps the entries of other tables and
/// of every table that had one, and gives the table its entry.
proof fn lemma_cache_put(entries: Seq<(Seq<char>, StatInfo)>, name: Seq<char>, si: StatInfo)
    ensures
        cached(cache_put(entries, name, si), name) == Some(si),
        forall|t: Seq<char>| cached(entries, t) is Some ==> #[trigger] cached(cache_put(entries, name, si), t) is Some,
        forall|t: Seq<char>| t != name ==> #[trigger] cached(cache_put(entries, name, si), t) == cached(entries, t),
        forall|i: int|
            0 <= i < cache_put(entries, name, si).len() ==> #[trigger] cache_put(entries, name, si)[i] == (name, si) || (i
                < entries.len() && cache_put(entries, name, si)[i] == entries[i]),
{
    let names = stat_names(entries);
    let put = cache_put(entries, name, si);
    let pnames = stat_names(put);
    lemma_find_name(names, name);
    let k = find_name(names, name);
    if k < entries.len() {
        assert(pnames =~= names.update(k, name));
    } else {
        assert(pnames =~= names.push(name));
    }
    assert forall|j: int| 0 <= j < k implies pnames[j] != name by {
        assert(pnames[j] == names[j]);
    }
    lemma_find_name_at(pnames, name, k);
    assert forall|t: Seq<char>| t != name implies #[trigger] cached(put, t) == cached(entries, t) by {
        lemma_find_name(names, t);
        let kt = find_name(names, t);
        if kt < entries.len() {
            assert forall|j: int| 0 <= j < kt implies pnames[j] != t by {
                assert(names[j] != t);
                if j == k {
                } else {
                    assert(pnames[j] == names[j]);
                }
            }
            assert(pnames[kt] == t);
            lemma_find_name_at(pnames, t, kt);
        } else {
            assert forall|j: int| 0 <= j < pnames.len() implies pnames[j] != t by {
                if j < names.len() && j != k {
                    assert(pnames[j] == names[j]);
                }
            }
            lemma_find_name_absent(pnames, t);
        }
    }
}

/// Where the catalogs' files are the same, so are the tables they record and
/// the fields they list.
pub proof fn lemma_catalogs_same(tx1: &Transaction, tx2: &Transaction)
    requires
        tx2.spec_block_size() == tx1.spec_block_size(),
        tx2.blocks(tcat_file()) == tx1.blocks(tcat_file()),
        tx2.blocks(fcat_file()) == tx1.blocks(fcat_file()),
    ensures
        forall|t: Seq<char>| #[trigger] recorded(tx2, t) == recorded(tx1, t),
        forall|t: Seq<char>, ps: Seq<(int, int)>| #[trigger] listed_matches(tx2, t, ps) == listed_matches(tx1, t, ps),
        forall|ps: Seq<(int, int)>| #[trigger] listed_fields(tx2, ps) == listed_fields(tx1, ps),
{
    assert forall|t: Seq<char>| #[trigger] recorded(tx2, t) == recorded(tx1, t) by {
        assert forall|n: int, s: int|
            #![trigger tcat_match(tx2, n, s, t)]
            #![trigger tcat_match(tx1, n, s, t)]
            tcat_match(tx2, n, s, t) == tcat_match(tx1, n, s, t) by {
        }
    }
    assert forall|t: Seq<char>, ps: Seq<(int, int)>| #[trigger] listed_matches(tx2, t, ps) == listed_matches(tx1, t, ps) by {
        assert forall|n: int, s: int|
            #![trigger crate::metadata::table_mgr::fcat_match(tx2, n, s, t)]
            #![trigger crate::metadata::table_mgr::fcat_match(tx1, n, s, t)]
            crate::metadata::table_mgr::fcat_match(tx2, n, s, t) == crate::metadata::table_mgr::fcat_match(tx1, n, s, t) by {
        }
    }
    assert forall|ps: Seq<(int, int)>| #[trigger] listed_fields(tx2, ps) == listed_fields(tx1, ps) by {
        assert(listed_fields(tx2, ps) =~= listed_fields(tx1, ps));
    }
}

/// The catalogs describe every table they record where each is one of
/// `names`, which they list as of the fields `fss`, with a well-formed file
/// small enough to count, and the first of which is the table catalog.
pub proof fn lemma_tables_described_from(tx: &Transaction, names: Seq<Seq<char>>, fss: Seq<Seq<FieldSpec>>)
    requires
        catalogs_ok(tx),
        2 * tx.spec_block_size() < i32::MAX,
        names.len() == fss.len(),
        names.len() > 0,
        names[0] == "tblcat"@,
        fss[0] == tcat_fields(),
        forall|i: int|
            0 <= i < names.len() ==> {
                &&& #[trigger] catalog_lists(tx, names[i], fss[i])
                &&& table_ok(tx, table_file(names[i]), fss[i])
                &&& fields_fit(fss[i])
                &&& fss[i].len() > 0
                &&& (tx.blocks(table_file(names[i])).len() + 1) * tx.spec_block_size() < i32::MAX
            },
        forall|t: Seq<char>| #[trigger] recorded(tx, t) ==> exists|i: int| 0 <= i < names.len() && names[i] == t,
    ensures
        tables_described(tx),
{
    assert(catalog_lists(tx, names[0], fss[0]));
    assert(described_as(tx, "tblcat"@, tcat_fields()));
    assert forall|tbl: Seq<char>, ps: Seq<(int, int)>|
        recorded(tx, tbl) && #[trigger] listed_matches(tx, tbl, ps) implies {
            &&& described_as(tx, tbl, listed_fields(tx, ps))
            &&& fields_fit(listed_fields(tx, ps))
            &&& listed_fields(tx, ps).len() > 0
            &&& (tx.blocks(table_file(tbl)).len() + 1) * tx.spec_block_size() < i32::MAX
        } by {
        let i = choose|i: int| 0 <= i < names.len() && names[i] == tbl;
        assert(catalog_lists(tx, names[i], fss[i]));
        assert(listed_fields(tx, ps) == fss[i]);
    }
}

/// Where the catalogs describe every table they record, recording a new
/// table of well-formed fields, whose file is well formed, keeps them so.
pub proof fn lemma_described_after_create(tx0: &Transaction, tx1: &Transaction, name: Seq<char>, fs: Seq<FieldSpec>)
    requires
        tables_described(tx0),
        described_as(tx0, "fldcat"@, crate::metadata::table_mgr::fcat_fields()),
        !recorded(tx0, name),
        fields_fit(fs),
        fs.len() > 0,
        table_ok(tx0, table_file(name), fs),
        catalogs_ok(tx1),
        tx1.spec_block_size() == tx0.spec_block_size(),
        forall|nm: Seq<char>| nm != tcat_file() && nm != fcat_file() ==> #[trigger] tx1.blocks(nm) == tx0.blocks(nm),
        catalog_lists(tx1, name, fs),
        forall|t: Seq<char>, f: Seq<FieldSpec>| t != name && catalog_lists(tx0, t, f) ==> #[trigger] catalog_lists(tx1, t, f),
        forall|t: Seq<char>, n: int, s: int| t != name ==> (#[trigger] tcat_match(tx1, n, s, t) == tcat_match(tx0, n, s, t)),
        forall|t: Seq<char>, n: int, s: int|
            t != name ==> (#[trigger] crate::metadata::table_mgr::fcat_match(tx1, n, s, t)
                == crate::metadata::table_mgr::fcat_match(tx0, n, s, t)),
        (tx0.blocks(table_file(name)).len() + 1) * tx0.spec_block_size() < i32::MAX,
        (tx1.blocks(tcat_file()).len() + 1) * tx0.spec_block_size() < i32::MAX,
        (tx1.blocks(fcat_file()).len() + 1) * tx0.spec_block_size() < i32::MAX,
    ensures
        tables_described(tx1),
        described_as(tx1, "fldcat"@, crate::metadata::table_mgr::fcat_fields()),
{
    crate::metadata::table_mgr::lemma_catalog_fields();
    crate::metadata::index_mgr::lemma_described_recorded(tx0, "tblcat"@, tcat_fields());
    crate::metadata::index_mgr::lemma_described_recorded(tx0, "fldcat"@, crate::metadata::table_mgr::fcat_fields());
    assert(name != "tblcat"@ && name != "fldcat"@);
    if table_file(name) == tcat_file() {
        lemma_table_file_injective(name, "tblcat"@);
    }
    if table_file(name) == fcat_file() {
        lemma_table_file_injective(name, "fldcat"@);
    }
    assert forall|t: Seq<char>| #[trigger] recorded(tx1, t) == (recorded(tx0, t) || t == name) by {
        if t != name {
            assert forall|n: int, s: int|
                #![trigger tcat_match(tx1, n, s, t)]
                #![trigger tcat_match(tx0, n, s, t)]
                tcat_match(tx1, n, s, t) == tcat_match(tx0, n, s, t) by {
            }
        } else {
            if !recorded(tx1, name) {
                assert forall|n: int, s: int| !#[trigger] tcat_match(tx1, n, s, name) by {
                }
                assert(crate::metadata::table_mgr::recorded_size(tx1, name, -1i32));
                crate::record::layout::lemma_sum_bytes_nonneg(fs);
            }
        }
    }
    assert forall|t: Seq<char>, ps: Seq<(int, int)>| t != name implies #[trigger] listed_matches(tx1, t, ps)
        == listed_matches(tx0, t, ps) by {
        assert forall|n: int, s: int|
            #![trigger crate::metadata::table_mgr::fcat_match(tx1, n, s, t)]
            #![trigger crate::metadata::table_mgr::fcat_match(tx0, n, s, t)]
            crate::metadata::table_mgr::fcat_match(tx1, n, s, t) == crate::metadata::table_mgr::fcat_match(tx0, n, s, t) by {
        }
    }
    assert(catalog_lists(tx0, "tblcat"@, tcat_fields()));
    assert(catalog_lists(tx1, "tblcat"@, tcat_fields()));
    assert(catalog_lists(tx0, "fldcat"@, crate::metadata::table_mgr::fcat_fields()));
    assert(catalog_lists(tx1, "fldcat"@, crate::metadata::table_mgr::fcat_fields()));
    assert(described_as(tx1, "tblcat"@, tcat_fields()));
    assert(described_as(tx1, "fldcat"@, crate::metadata::table_mgr::fcat_fields()));
    assert forall|tbl: Seq<char>, ps: Seq<(int, int)>|
        recorded(tx1, tbl) && #[trigger] listed_matches(tx1, tbl, ps) implies {
            &&& described_as(tx1, tbl, listed_fields(tx1, ps))
            &&& fields_fit(listed_fields(tx1, ps))
            &&& listed_fields(tx1, ps).len() > 0
            &&& (tx1.blocks(table_file(tbl)).len() + 1) * tx1.spec_block_size() < i32::MAX
        } by {
        if tbl == name {
            assert(listed_fields(tx1, ps) == fs);
            assert(tx1.blocks(table_file(name)) == tx0.blocks(table_file(name)));
            assert(described_as(tx1, name, fs));
        } else {
            assert(recorded(tx0, tbl));
            assert(listed_matches(tx0, tbl, ps));
            let f = listed_fields(tx0, ps);
            assert(described_as(tx0, tbl, f));
            assert(catalog_lists(tx0, tbl, f));
            assert(catalog_lists(tx1, tbl, f));
            assert(listed_fields(tx1, ps) == f);
            if table_file(tbl) == tcat_file() {
                lemma_table_file_injective(tbl, "tblcat"@);
                assert(listed_fields(tx0, ps) == tcat_fields());
            } else if table_file(tbl) == fcat_file() {
                lemma_table_file_injective(tbl, "fldcat"@);
                assert(listed_fields(tx0, ps) == crate::metadata::table_mgr::fcat_fields());
            } else {
                assert(tx1.blocks(table_file(tbl)) == tx0.blocks(table_file(tbl)));
            }
            assert(described_as(tx1, tbl, f));
        }
    }
}

/// Where the catalogs describe every table they record, adding records to
/// the file of one of them, which stays as they describe it, keeps them so.
pub proof fn lemma_described_after_insert(tx0: &Transaction, tx1: &Transaction, tbl: Seq<char>, fs: Seq<FieldSpec>)
    requires
        tables_described(tx0),
        described_as(tx0, tbl, fs),
        described_as(tx1, tbl, fs),
        tx1.spec_block_size() == tx0.spec_block_size(),
        forall|nm: Seq<char>| nm != table_file(tbl) ==> #[trigger] tx1.blocks(nm) == tx0.blocks(nm),
        table_file(tbl) != tcat_file(),
        table_file(tbl) != fcat_file(),
        (tx1.blocks(table_file(tbl)).len() + 1) * tx1.spec_block_size() < i32::MAX,
    ensures
        tables_described(tx1),
{
    crate::metadata::table_mgr::lemma_catalog_fields();
    lemma_catalogs_same(tx0, tx1);
    crate::metadata::view_mgr::lemma_described_catalogs(tx0, "tblcat"@, tcat_fields());
    assert(tx1.wf()) by {
        assert(tx1.blocks(tcat_file()) == tx0.blocks(tcat_file()));
    }
    assert(catalogs_ok(tx1)) by {
        assert(tx1.blocks(tcat_file()) == tx0.blocks(tcat_file()));
        assert(tx1.blocks(fcat_file()) == tx0.blocks(fcat_file()));
    }
    assert(described_as(tx1, "tblcat"@, tcat_fields())) by {
        assert(tx1.blocks(tcat_file()) == tx0.blocks(tcat_file()));
        assert(tx1.blocks(fcat_file()) == tx0.blocks(fcat_file()));
        crate::metadata::view_mgr::lemma_described_kept(tx0, tx1, "tblcat"@, tcat_fields());
    }
    assert forall|t: Seq<char>, ps: Seq<(int, int)>|
        recorded(tx1, t) && #[trigger] listed_matches(tx1, t, ps) implies {
            &&& described_as(tx1, t, listed_fields(tx1, ps))
            &&& fields_fit(listed_fields(tx1, ps))
            &&& listed_fields(tx1, ps).len() > 0
            &&& (tx1.blocks(table_file(t)).len() + 1) * tx1.spec_block_size() < i32::MAX
        } by {
        assert(recorded(tx0, t));
        assert(listed_matches(tx0, t, ps));
        let f = listed_fields(tx0, ps);
        assert(listed_fields(tx1, ps) == f);
        if table_file(t) == table_file(tbl) {
            lemma_table_file_injective(t, tbl);
            assert(f == fs);
        } else {
            assert(tx1.blocks(table_file(t)) == tx0.blocks(table_file(t)));
            assert(tx1.blocks(tcat_file()) == tx0.blocks(tcat_file()));
            assert(tx1.blocks(fcat_file()) == tx0.blocks(fcat_file()));
            crate::metadata::view_mgr::lemma_described_kept(tx0, tx1, t, f);
        }
    }
}

/// A table's file that only grew by a block of zeros where it had none
/// stays well formed.
pub proof fn lemma_table_ok_grown(tx: &Transaction, tx2: &Transaction, name: Seq<char>, fs: Seq<FieldSpec>)
    requires
        table_ok(tx, name, fs),
        tx2.wf(),
        tx2.spec_block_size() == tx.spec_block_size(),
        tx2.blocks(name) == tx.blocks(name) || (tx.blocks(name).len() == 0 && tx2.blocks(name) == seq![
            zero_block(tx.spec_block_size()),
        ]),
    ensures
        table_ok(tx2, name, fs),
{
    crate::record::table_scan::lemma_zero_block(fs, tx.spec_block_size());
    assert forall|n: int| 0 <= n < tx2.blocks(name).len() implies crate::index::btree::page_format::slots_ok(
        #[trigger] tx2.blocks(name)[n],
        fs,
    ) by {
        if tx2.blocks(name) != tx.blocks(name) {
            assert(tx2.blocks(name)[n] == zero_block(tx.spec_block_size()));
        }
    }
}

/// A table that the catalogs describe stays described where its file only
/// grew by a block of zeros and the catalogs stayed the same.
pub proof fn lemma_described_of_recorded(tx: &Transaction, tx2: &Transaction, tbl: Seq<char>, fs: Seq<FieldSpec>)
    requires
        described_as(tx, tbl, fs),
        tx2.wf(),
        files_grown(tx, tx2),
        tx2.blocks(tcat_file()) == tx.blocks(tcat_file()),
        tx2.blocks(fcat_file()) == tx.blocks(fcat_file()),
    ensures
        described_as(tx2, tbl, fs),
{
    let name = table_file(tbl);
    crate::record::table_scan::lemma_zero_block(fs, tx.spec_block_size());
    assert(tx2.blocks(name) == tx.blocks(name) || (tx.blocks(name).len() == 0 && tx2.blocks(name) == seq![
        zero_block(tx.spec_block_size()),
    ]));
    assert forall|n: int| 0 <= n < tx2.blocks(name).len() implies crate::index::btree::page_format::slots_ok(
        #[trigger] tx2.blocks(name)[n],
        fs,
    ) by {
        if tx2.blocks(name) != tx.blocks(name) {
            assert(tx2.blocks(name)[n] == zero_block(tx.spec_block_size()));
        }
    }
    crate::metadata::view_mgr::lemma_described_kept(tx, tx2, tbl, fs);
}

/// A file of `tx2` is that of `tx`, or a block of zeros where it had no block.
pub open spec fn files_grown(tx: &Transaction, tx2: &Transaction) -> bool {
    &&& tx2.spec_block_size() == tx.spec_block_size()
    &&& forall|nm: Seq<char>|
        #[trigger] tx2.blocks(nm) == tx.blocks(nm) || (tx.blocks(nm).len() == 0 && tx2.blocks(nm) == seq![
            zero_block(tx.spec_block_size()),
        ])
}

/// The statistics manager: it keeps the statistics of tables, computed once
/// and computed again for all tables after every hundred requests.
pub struct StatMgr {
    tbl_mgr: TableMgr,
    table_stats: Vec<(String, StatInfo)>,
    num_calls: i32,
}

impl StatMgr {
    /// The table manager of the statistics manager.
    pub closed spec fn tables(&self) -> TableMgr {
        self.tbl_mgr
    }

    /// The cached statistics, by table name.
    pub closed spec fn entries(&self) -> Seq<(Seq<char>, StatInfo)> {
        cache_view(self.table_stats@)
    }

    /// The number of requests since the statistics were last computed anew.
    pub closed spec fn calls(&self) -> i32 {
        self.num_calls
    }

    /// The manager's table manager is well formed, and it has counted no more
    /// requests than those after which it computes the statistics anew.
    pub open spec fn wf(&self) -> bool {
        &&& self.tables().wf()
        &&& 0 <= self.calls() <= 100
    }

    /// Creates the statistics manager, with the statistics of every table that
    /// the table catalog records.
    pub fn new(tbl_mgr: TableMgr, tx: &mut Transaction) -> (r: Self)
        requires
            tbl_mgr.wf(),
            tables_described(old(tx)),
        ensures
            r.wf(),
            r.tables() == tbl_mgr,
            r.calls() == 0,
            tables_described(final(tx)),
            files_grown(old(tx), final(tx)),
            final(tx).blocks(tcat_file()) == old(tx).blocks(tcat_file()),
            final(tx).blocks(fcat_file()) == old(tx).blocks(fcat_file()),
            forall|i: int| 0 <= i < r.entries().len() ==> entry_ok(final(tx), #[trigger] r.entries()[i]),
            forall|i: int| 0 <= i < r.entries().len() ==> recorded(final(tx), #[trigger] r.entries()[i].0),
            forall|t: Seq<char>| #[trigger] recorded(final(tx), t) ==> cached(r.entries(), t) is Some,
    {
        let mut stat_mgr = StatMgr { tbl_mgr, table_stats: Vec::new(), num_calls: 0 };
        stat_mgr.refresh_statistics(tx);
        stat_mgr
    }

    /// The statistics of the table `tblname`, whose layout in the catalogs is
    /// `layout`. Every request is counted; after a hundred, the statistics of
    /// all tables are computed anew. Statistics that the manager holds are
    /// returned as they are; others are computed and kept.
    pub fn get_stat_info(&mut self, tblname: &str, layout: &Layout, tx: &mut Transaction) -> (r: StatInfo)
        requires
            old(self).wf(),
            tables_described(old(tx)),
            recorded(old(tx), tblname@),
            layout.wf(),
            exists|ps: Seq<(int, int)>|
                #[trigger] listed_matches(old(tx), tblname@, ps) && layout.fields() == listed_fields(old(tx), ps),
        ensures
            final(self).wf(),
            final(self).tables() == old(self).tables(),
            tables_described(final(tx)),
            files_grown(old(tx), final(tx)),
            final(tx).blocks(tcat_file()) == old(tx).blocks(tcat_file()),
            final(tx).blocks(fcat_file()) == old(tx).blocks(fcat_file()),
            old(self).calls() == 100 ==> {
                &&& final(self).calls() == 0
                &&& forall|i: int|
                    0 <= i < final(self).entries().len() ==> entry_ok(final(tx), #[trigger] final(self).entries()[i])
                &&& forall|t: Seq<char>| #[trigger] recorded(final(tx), t) ==> cached(final(self).entries(), t) is Some
                &&& cached(final(self).entries(), tblname@) == Some(r)
                &&& stats_are(
                    final(tx),
                    table_file(tblname@),
                    layout.fields(),
                    r.spec_blocks() as int,
                    r.spec_recs() as int,
                )
            },
            old(self).calls() < 100 ==> final(self).calls() == old(self).calls() + 1,
            old(self).calls() < 100 && cached(old(self).entries(), tblname@) is Some ==> {
                &&& cached(old(self).entries(), tblname@) == Some(r)
                &&& final(self).entries() == old(self).entries()
                &&& *final(tx) == *old(tx)
            },
            old(self).calls() < 100 && cached(old(self).entries(), tblname@) is None ==> {
                &&& stats_are(
                    final(tx),
                    table_file(tblname@),
                    layout.fields(),
                    r.spec_blocks() as int,
                    r.spec_recs() as int,
                )
                &&& final(self).entries() == cache_put(old(self).entries(), tblname@, r)
            },
    {
        let ghost tx0 = *tx;
        let ghost ps0 = choose|ps: Seq<(int, int)>|
            #[trigger] listed_matches(old(tx), tblname@, ps) && layout.fields() == listed_fields(old(tx), ps);
        self.num_calls = self.num_calls + 1;
        if self.num_calls > 100 {
            self.refresh_statistics(tx);
            proof {
                lemma_catalogs_same(&tx0, tx);
            }
        }
        proof {
            if old(self).calls() < 100 {
                assert(*tx == tx0);
            }
            assert(listed_matches(tx, tblname@, ps0));
            assert(listed_fields(tx, ps0) == layout.fields());
            assert(recorded(tx, tblname@));
        }
        let i = stat_index(&self.table_stats, tblname);
        if i < self.table_stats.len() {
            let si = self.table_stats[i].1.clone();
            proof {
                lemma_find_name(stat_names(self.entries()), tblname@);
                assert(stat_names(self.entries())[i as int] == self.entries()[i as int].0);
                assert(self.entries()[i as int] == (tblname@, si));
                if old(self).calls() == 100 {
                    assert(entry_ok(tx, self.entries()[i as int]));
                    let ps = choose|ps: Seq<(int, int)>|
                        {
                            &&& #[trigger] listed_matches(tx, tblname@, ps)
                            &&& stats_are(
                                tx,
                                table_file(tblname@),
                                listed_fields(tx, ps),
                                si.spec_blocks() as int,
                                si.spec_recs() as int,
                            )
                        };
                    crate::metadata::table_mgr::lemma_catalog_fields();
                    lemma_described_fields(tx, tblname@, listed_fields(tx, ps0), ps);
                }
            }
            return si;
        }
        proof {
            crate::metadata::table_mgr::lemma_catalog_fields();
            assert(described_as(tx, tblname@, layout.fields()));
        }
        let si = calc_table_stats(tblname, layout, tx);
        put_stat(&mut self.table_stats, tblname, si);
        proof {
            lemma_after_scan_open(&tx0, tx, tblname@, layout.fields());
            lemma_files_grown_trans(&tx0, &tx0, tx, table_file(tblname@));
            if table_file(tblname@) == tcat_file() {
                lemma_table_file_injective(tblname@, "tblcat"@);
            }
            if table_file(tblname@) == fcat_file() {
                lemma_table_file_injective(tblname@, "fldcat"@);
                reveal_strlit("fldcat");
            }
        }
        si
    }

    /// Computes anew the statistics of every table that the table catalog
    /// records.
    #[verifier::rlimit(40)]
    fn refresh_statistics(&mut self, tx: &mut Transaction)
        requires
            old(self).tables().wf(),
            tables_described(old(tx)),
        ensures
            final(self).tables() == old(self).tables(),
            final(self).calls() == 0,
            tables_described(final(tx)),
            files_grown(old(tx), final(tx)),
            final(tx).blocks(tcat_file()) == old(tx).blocks(tcat_file()),
            final(tx).blocks(fcat_file()) == old(tx).blocks(fcat_file()),
            forall|i: int| 0 <= i < final(self).entries().len() ==> entry_ok(final(tx), #[trigger] final(self).entries()[i]),
            forall|i: int| 0 <= i < final(self).entries().len() ==> recorded(final(tx), #[trigger] final(self).entries()[i].0),
            forall|t: Seq<char>| #[trigger] recorded(final(tx), t) ==> cached(final(self).entries(), t) is Some,
    {
        self.table_stats = Vec::new();
        self.num_calls = 0;
        let ghost tx0 = *tx;
        proof {
            crate::metadata::table_mgr::lemma_catalog_fields();
            crate::metadata::view_mgr::lemma_described_catalogs(tx, "tblcat"@, tcat_fields());
        }
        let tcat_layout = self.tbl_mgr.get_layout("tblcat", tx);
        proof {
            crate::metadata::view_mgr::lemma_described_layout(tx, "tblcat"@, tcat_fields(), tcat_layout);
        }
        let mut tcat = TableScan::new(tx, "tblcat", tcat_layout);
        proof {
            assert(self.entries() =~= Seq::<(Seq<char>, StatInfo)>::empty());
        }
        loop
            invariant_except_break
                tcat.valid(tx),
                tcat.file() == tcat_file(),
                tcat.fs() == tcat_fields(),
                forall|n: int, s: int|
                    #[trigger] used_at(tx, tcat_file(), tcat_fields(), n, s) && !pos_before(tcat.bnum(), tcat.slot(), n, s)
                        ==> cached(self.entries(), str_of(rec_at(tx, tcat_file(), tcat_fields(), n, s)[0])) is Some,
            invariant
                self.tables() == old(self).tables(),
                self.tables().wf(),
                self.calls() == 0,
                tables_described(tx),
                tx0 == *old(tx),
                files_grown(&tx0, tx),
                tx.blocks(tcat_file()) == tx0.blocks(tcat_file()),
                tx.blocks(fcat_file()) == tx0.blocks(fcat_file()),
                forall|i: int| 0 <= i < self.entries().len() ==> entry_ok(tx, #[trigger] self.entries()[i]),
                forall|i: int| 0 <= i < self.entries().len() ==> recorded(tx, #[trigger] self.entries()[i].0),
            ensures
                forall|t: Seq<char>| #[trigger] recorded(tx, t) ==> cached(self.entries(), t) is Some,
            decreases tx.blocks(tcat_file()).len() - tcat.bnum(), tx.spec_block_size() - tcat.slot(),
        {
            proof {
                tcat.lemma_valid(tx);
                crate::metadata::table_mgr::lemma_catalog_fields();
            }
            let ghost head = tcat;
            if !tcat.next(tx) {
                proof {
                    assert forall|t: Seq<char>| #[trigger] recorded(tx, t) implies cached(self.entries(), t) is Some by {
                        let (n, s) = choose|n: int, s: int| #[trigger] tcat_match(tx, n, s, t);
                        assert(used_at(tx, tcat_file(), tcat_fields(), n, s));
                        if pos_before(head.bnum(), head.slot(), n, s) {
                            assert(!used_at(tx, tcat_file(), tcat_fields(), n, s));
                        }
                        assert(str_of(rec_at(tx, tcat_file(), tcat_fields(), n, s)[0]) == t);
                    }
                }
                break;
            }
            proof {
                tcat.lemma_valid(tx);
                crate::index::btree::page_format::lemma_slot_pos_ge(tcat_fields(), tcat.slot() + 1);
            }
            let tblname = tcat.get_string(tx, "tblname");
            let ghost tx1 = *tx;
            let ghost p = (tcat.bnum(), tcat.slot());
            proof {
                assert(tcat_match(tx, p.0, p.1, tblname@));
                assert(recorded(tx, tblname@));
                crate::metadata::view_mgr::lemma_described_catalogs(tx, "tblcat"@, tcat_fields());
            }
            let layout = self.tbl_mgr.get_layout(tblname.as_str(), tx);
            let ghost ps = choose|ps: Seq<(int, int)>|
                {
                    &&& #[trigger] listed_matches(tx, tblname@, ps)
                    &&& layout.fields() == listed_fields(tx, ps)
                    &&& layout.spec_offsets() == crate::metadata::table_mgr::listed_offsets(tx, ps)
                };
            proof {
                assert(listed_matches(tx, tblname@, ps));
                crate::metadata::view_mgr::lemma_described_layout(tx, tblname@, layout.fields(), layout);
            }
            let si = calc_table_stats(tblname.as_str(), &layout, tx);
            proof {
                assert(described_as(&tx1, tblname@, layout.fields()));
                lemma_after_scan_open(&tx1, tx, tblname@, layout.fields());
                if tblname@ == "tblcat"@ {
                    assert(tx.blocks(tcat_file()) == tx1.blocks(tcat_file()));
                }
                if table_file(tblname@) == tcat_file() {
                    lemma_table_file_injective(tblname@, "tblcat"@);
                }
                if table_file(tblname@) == fcat_file() {
                    lemma_table_file_injective(tblname@, "fldcat"@);
                    reveal_strlit("fldcat");
                }
                assert(tx.blocks(tcat_file()) == tx1.blocks(tcat_file()));
                assert(tx.blocks(fcat_file()) == tx1.blocks(fcat_file()));
                tcat.lemma_valid_other_change(&tx1, tx);
                lemma_fresh_entry(&tx1, tx, tblname@, ps, si);
                lemma_files_grown_trans(&tx0, &tx1, tx, table_file(tblname@));
            }
            let ghost before = self.entries();
            put_stat(&mut self.table_stats, tblname.as_str(), si);
            proof {
                lemma_cache_put(before, tblname@, si);
                assert forall|i: int| 0 <= i < self.entries().len() implies entry_ok(tx, #[trigger] self.entries()[i]) by {
                    if self.entries()[i] != (tblname@, si) {
                        let j = if i < before.len() { i } else { 0 };
                        assert(self.entries()[i] == before[i]);
                        assert(entry_ok(&tx1, before[i]));
                    }
                }
                assert forall|i: int| 0 <= i < self.entries().len() implies recorded(tx, #[trigger] self.entries()[i].0) by {
                    if self.entries()[i] != (tblname@, si) {
                        assert(self.entries()[i] == before[i]);
                        assert(recorded(&tx1, before[i].0));
                        lemma_recorded_frame(&tx1, tx, before[i].0);
                    } else {
                        lemma_recorded_frame(&tx1, tx, tblname@);
                    }
                }
                assert forall|n: int, s: int|
                    #[trigger] used_at(tx, tcat_file(), tcat_fields(), n, s) && !pos_before(tcat.bnum(), tcat.slot(), n, s)
                        implies cached(self.entries(), str_of(rec_at(tx, tcat_file(), tcat_fields(), n, s)[0])) is Some by {
                    let t = str_of(rec_at(tx, tcat_file(), tcat_fields(), n, s)[0]);
                    assert(used_at(&tx1, tcat_file(), tcat_fields(), n, s));
                    if n == p.0 && s == p.1 {
                        assert(t == tblname@);
                    } else if pos_before(head.bnum(), head.slot(), n, s) {
                        assert(!used_at(&tx1, tcat_file(), tcat_fields(), n, s));
                    } else {
                        assert(cached(before, t) is Some);
                    }
                }
            }
        }
    }
}

} // verus!
