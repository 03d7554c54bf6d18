use vstd::prelude::*;
use vstd::multiset::Multiset;
use crate::file::BlockId;
use crate::index::index_scan::IndexScan;
use crate::index::btree::bt_dir::{
    descend, dir_file_ok, dir_parented, dir_sorted, lemma_parented_after_new_root, lemma_parented_frame, level0_child, BTreeDir,
};
use crate::index::btree::bt_leaf::{
    leaf_deleted, leaf_file_ok, leaf_inserted, leaf_rec, leaf_stepped, sorted, split_point, BTreeLeaf,
};
use crate::index::btree::entries::{
    dir_entries0, leaf_entries, lemma_dir_entries0_has, lemma_entries_after_insert, lemma_entries_after_remove,
};
use crate::index::btree::bt_page::{dir_layout, dv, kind_fits, leaf_layout, names_distinct, BTPage};
use crate::index::btree::page_format::{flag_of, num_of, recs_of, slot_pos, val_fits};
use crate::query::constant::{
    lemma_val_order_basics, lemma_val_order_trans, same_kind, val_order, ConstVal, Constant,
};
use crate::record::layout::Layout;
use crate::record::layout::sum_bytes;
use crate::record::schema::{FieldSpec, Schema, INTEGER};
use crate::util::concat;
use crate::record::RID;
use crate::tx::Transaction;

verus! {

/// The leaf file `leaf` and the directory file `dir` form a well-formed
/// B-tree index: each file is well formed, the directory's values are of the
/// leaves' kind, every level-0 directory record names a leaf block, every
/// leaf block is reached from the directory, and every directory block but
/// the root is named from one level above, and every directory block holds
/// its records in the order of their values.
pub open spec fn index_ok(
    tx: &Transaction,
    leaf: Seq<char>,
    dir: Seq<char>,
    leaf_fs: Seq<FieldSpec>,
    dir_fs: Seq<FieldSpec>,
) -> bool {
    &&& leaf_file_ok(tx, leaf, leaf_fs)
    &&& leaf_pages_sorted(tx, leaf, leaf_fs)
    &&& dir_file_ok(tx, dir, dir_fs)
    &&& leaf != dir
    &&& dir_fs[1].ftype == leaf_fs[2].ftype
    &&& dir_fs[1].length == leaf_fs[2].length
    &&& forall|c: int| #[trigger] level0_child(tx, dir, dir_fs, c) ==> 0 <= c < tx.blocks(leaf).len()
    &&& forall|n: int| 0 <= n < tx.blocks(leaf).len() ==> #[trigger] leaf_reached(tx, leaf, dir, dir_fs, n)
    &&& dir_parented(tx, dir, dir_fs)
    &&& dir_sorted(tx, dir, dir_fs)
}

/// The level-0 entries of the directory file `dir` are those of `tx0`, or
/// those and one more: for a new last block of the leaf file `leaf`, with the
/// first value that block holds.
pub open spec fn dir_grown(
    tx0: &Transaction,
    tx1: &Transaction,
    leaf: Seq<char>,
    dir: Seq<char>,
    leaf_fs: Seq<FieldSpec>,
    dir_fs: Seq<FieldSpec>,
) -> bool {
    let len = tx0.blocks(leaf).len();
    let lb = tx1.blocks(leaf);
    ||| dir_entries0(tx1, dir, dir_fs) == dir_entries0(tx0, dir, dir_fs)
    ||| {
        &&& lb.len() == len + 1
        &&& exists|v: ConstVal|
            {
                &&& dir_entries0(tx1, dir, dir_fs) == dir_entries0(tx0, dir, dir_fs).insert(
                    #[trigger] crate::index::btree::bt_dir::dir_rec(v, len as i32),
                )
                &&& recs_of(lb[len as int], leaf_fs).len() > 0 ==> v == dv(recs_of(lb[len as int], leaf_fs)[0])
            }
    }
}

/// The search for `key` from block `n` of a directory file depends on that
/// file's blocks only.
pub proof fn lemma_descend_frame(
    t0: &Transaction,
    t1: &Transaction,
    name: Seq<char>,
    fs: Seq<FieldSpec>,
    n: int,
    key: ConstVal,
)
    requires
        t1.blocks(name) == t0.blocks(name),
    ensures
        descend(t1, name, fs, n, key) == descend(t0, name, fs, n, key),
    decreases flag_of(t0.blocks(name)[n]),
{
    let b = t0.blocks(name)[n];
    let c = crate::index::btree::bt_dir::child_for(recs_of(b, fs), key);
    if flag_of(b) > 0 && 0 <= c < t0.blocks(name).len() && 0 <= flag_of(t0.blocks(name)[c]) < flag_of(b) {
        lemma_descend_frame(t0, t1, name, fs, c, key);
    }
}

/// The leaf block that the directory search for `key` reaches holds the
/// leaf record of `key` and `rid` after records below `key` only.
pub open spec fn found_first(
    tx: &Transaction,
    leaf: Seq<char>,
    dir: Seq<char>,
    leaf_fs: Seq<FieldSpec>,
    dir_fs: Seq<FieldSpec>,
    key: ConstVal,
    rid: RID,
) -> bool {
    let recs = recs_of(tx.blocks(leaf)[descend(tx, dir, dir_fs, 0, key)], leaf_fs);
    exists|s: int|
        0 <= s < recs.len() && #[trigger] recs[s] == leaf_rec(key, rid) && forall|t: int|
            0 <= t < s ==> val_order(#[trigger] dv(recs[t]), key) < 0
}

/// Lookup after insertion: where the leaf block that the search for `key`
/// reaches holds the record of `key` and `rid` after records below `key`
/// only, positioning before the first record of `key` there and stepping once
/// finds a record, and its data record id is `rid`.
pub proof fn lemma_lookup_finds_first(
    tx: &Transaction,
    leaf: Seq<char>,
    dir: Seq<char>,
    leaf_fs: Seq<FieldSpec>,
    dir_fs: Seq<FieldSpec>,
    key: ConstVal,
    rid: RID,
    l: BTreeLeaf,
    l2: BTreeLeaf,
    r: bool,
    out: RID,
)
    requires
        index_ok(tx, leaf, dir, leaf_fs, dir_fs),
        found_first(tx, leaf, dir, leaf_fs, dir_fs, key, rid),
        l.valid(tx),
        l.file() == leaf,
        l.fs() == leaf_fs,
        l.key() == key,
        l.blk().spec_number() == descend(tx, dir, dir_fs, 0, key),
        -1 <= l.slot() < l.recs(tx).len(),
        forall|s: int| 0 <= s <= l.slot() ==> val_order(#[trigger] dv(l.recs(tx)[s]), key) < 0,
        l.slot() + 1 < l.recs(tx).len() ==> val_order(dv(l.recs(tx)[l.slot() + 1]), key) >= 0,
        leaf_stepped(l, l2, tx, r),
        l2.page().slot_rec(tx, l2.slot()) == leaf_rec(l2.page().slot_rec(tx, l2.slot())[2], out),
    ensures
        r,
        out == rid,
{
    let n = descend(tx, dir, dir_fs, 0, key);
    let recs = l.recs(tx);
    assert(recs == recs_of(tx.blocks(leaf)[n], leaf_fs));
    let s = choose|s: int|
        0 <= s < recs.len() && #[trigger] recs[s] == leaf_rec(key, rid) && forall|t: int|
            0 <= t < s ==> val_order(#[trigger] dv(recs[t]), key) < 0;
    assert(dv(recs[s]) == key);
    lemma_val_order_basics(key, key);
    if l.slot() + 1 < s {
        assert(val_order(dv(recs[l.slot() + 1]), key) < 0);
    }
    if l.slot() + 1 > s {
        assert(val_order(dv(recs[s]), key) < 0);
    }
    assert(l.slot() + 1 == s);
    assert(l2.slot() == s && l2.page() == l.page());
    assert(l2.page().slot_rec(tx, s) == recs[s]);
}

/// Block `n` of the leaf file `leaf` is reached from the directory file
/// `dir`: a level-0 directory record names it, or a leaf block links to it
/// as its overflow block.
pub open spec fn leaf_reached(tx: &Transaction, leaf: Seq<char>, dir: Seq<char>, dir_fs: Seq<FieldSpec>, n: int) -> bool {
    ||| level0_child(tx, dir, dir_fs, n)
    ||| overflow_target(tx, leaf, n)
}

/// A block of the leaf file `leaf` links to block `n` as its overflow block.
pub open spec fn overflow_target(tx: &Transaction, leaf: Seq<char>, n: int) -> bool {
    exists|m: int| 0 <= m < tx.blocks(leaf).len() && flag_of(#[trigger] tx.blocks(leaf)[m]) == n
}

/// A level-0 entry of a directory file names one of its level-0 children.
proof fn lemma_entry_names_child(tx: &Transaction, name: Seq<char>, fs: Seq<FieldSpec>, rec: Seq<ConstVal>)
    requires
        dir_entries0(tx, name, fs).count(rec) > 0,
    ensures
        level0_child(tx, name, fs, crate::index::btree::bt_dir::child_of(rec)),
{
    lemma_dir_entries0_has(tx, name, fs, rec);
}

/// Every level-0 child of a directory file stays one where the level-0
/// entries of the file are kept.
proof fn lemma_children_kept(t0: &Transaction, t1: &Transaction, name: Seq<char>, fs: Seq<FieldSpec>)
    requires
        forall|rec: Seq<ConstVal>| dir_entries0(t0, name, fs).count(rec) > 0 ==> #[trigger] dir_entries0(
            t1,
            name,
            fs,
        ).count(rec) > 0,
    ensures
        forall|c: int| #[trigger] level0_child(t0, name, fs, c) ==> level0_child(t1, name, fs, c),
{
    assert forall|c: int| #[trigger] level0_child(t0, name, fs, c) implies level0_child(t1, name, fs, c) by {
        let (m, i) = choose|m: int, i: int|
            0 <= m < t0.blocks(name).len() && flag_of(t0.blocks(name)[m]) == 0 && 0 <= i < recs_of(
                t0.blocks(name)[m],
                fs,
            ).len() && crate::index::btree::bt_dir::child_of(#[trigger] recs_of(t0.blocks(name)[m], fs)[i]) == c;
        let rec = recs_of(t0.blocks(name)[m], fs)[i];
        lemma_dir_entries0_has(t0, name, fs, rec);
        assert(dir_entries0(t1, name, fs).count(rec) > 0);
        lemma_entry_names_child(t1, name, fs, rec);
    }
}

/// A leaf file is well formed in any state that holds the same blocks for it.
pub proof fn lemma_leaf_frame(t1: &Transaction, t2: &Transaction, name: Seq<char>, fs: Seq<FieldSpec>)
    requires
        leaf_file_ok(t1, name, fs),
        t2.wf(),
        t2.spec_block_size() == t1.spec_block_size(),
        t2.blocks(name) == t1.blocks(name),
    ensures
        leaf_file_ok(t2, name, fs),
{
    let rank = choose|rank: spec_fn(int) -> nat| crate::index::btree::bt_leaf::ranked(t1, name, rank);
    assert(crate::index::btree::bt_leaf::ranked(t2, name, rank));
}

/// A directory file is well formed in any state that holds the same blocks
/// for it, with the same level-0 children.
pub proof fn lemma_dir_frame(t1: &Transaction, t2: &Transaction, name: Seq<char>, fs: Seq<FieldSpec>)
    requires
        dir_file_ok(t1, name, fs),
        t2.wf(),
        t2.spec_block_size() == t1.spec_block_size(),
        t2.blocks(name) == t1.blocks(name),
    ensures
        dir_file_ok(t2, name, fs),
        forall|c: int| #[trigger] level0_child(t2, name, fs, c) == level0_child(t1, name, fs, c),
{
}

/// Whether `tx1` is `tx0` with the record in slot `s` of block `n` of the
/// leaf file `name`, a record of the data record id `rid`, removed.
pub open spec fn leaf_record_deleted(
    tx0: &Transaction,
    tx1: &Transaction,
    name: Seq<char>,
    fs: Seq<FieldSpec>,
    rid: RID,
    n: int,
    s: int,
) -> bool {
    let recs = recs_of(tx0.blocks(name)[n], fs);
    &&& 0 <= n < tx0.blocks(name).len()
    &&& 0 <= s < recs.len()
    &&& recs[s][0] == ConstVal::Int(rid.blknum)
    &&& recs[s][1] == ConstVal::Int(rid.slot)
    &&& tx1.blocks(name) == tx0.blocks(name).update(n, tx1.blocks(name)[n])
    &&& recs_of(tx1.blocks(name)[n], fs) == recs.remove(s)
    &&& forall|nm: Seq<char>| nm != name ==> #[trigger] tx1.blocks(nm) == tx0.blocks(nm)
}

/// The fields of the directory records of a B-tree whose leaf records have
/// the fields `leaf_fs`: the child block, and the indexed value.
pub open spec fn dir_fields(leaf_fs: Seq<FieldSpec>) -> Seq<FieldSpec> {
    seq![
        FieldSpec { name: "block"@, ftype: INTEGER, length: 0 },
        FieldSpec { name: "dataval"@, ftype: leaf_fs[2].ftype, length: leaf_fs[2].length },
    ]
}

/// The least value of the kind the field `f` stores: the least integer for an
/// integer field, the empty string for a string field.
pub open spec fn least_val(f: FieldSpec) -> ConstVal {
    if f.ftype == INTEGER {
        ConstVal::Int(i32::MIN)
    } else {
        ConstVal::Str(Seq::empty())
    }
}

/// The files `leaf` and `dir` can be opened as a B-tree index over leaf
/// records of the fields `lfs`: each file is empty or well formed; where both
/// hold blocks they form a B-tree index; where only the directory does, its
/// level-0 records name leaf block 0 and no other block; where only the leaf
/// file does, each of its blocks but block 0 is the overflow block of one of
/// them.
pub open spec fn btree_files_ok(tx: &Transaction, leaf: Seq<char>, dir: Seq<char>, lfs: Seq<FieldSpec>) -> bool {
    let dfs = dir_fields(lfs);
    let lb = tx.blocks(leaf);
    let leaf_empty = lb.len() == 0;
    let dir_empty = tx.blocks(dir).len() == 0;
    &&& leaf_empty || (leaf_file_ok(tx, leaf, lfs) && leaf_pages_sorted(tx, leaf, lfs))
    &&& dir_empty || (dir_file_ok(tx, dir, dfs) && dir_parented(tx, dir, dfs) && dir_sorted(tx, dir, dfs))
    &&& !leaf_empty && !dir_empty ==> index_ok(tx, leaf, dir, lfs, dfs)
    &&& leaf_empty && !dir_empty ==> {
        &&& level0_child(tx, dir, dfs, 0)
        &&& forall|c: int| #[trigger] level0_child(tx, dir, dfs, c) ==> c == 0
    }
    &&& !leaf_empty && dir_empty ==> forall|n: int| 0 < n < lb.len() ==> #[trigger] overflow_target(tx, leaf, n)
}

/// A block of size `bs` can hold two leaf records and three directory records.
pub open spec fn btree_fits(leaf_fs: Seq<FieldSpec>, bs: int) -> bool {
    &&& 8 <= bs <= i32::MAX
    &&& slot_pos(leaf_fs, 2) < bs
    &&& slot_pos(dir_fields(leaf_fs), 3) < bs
}

/// Every page of the leaf file `name` holds its records in the order of their values.
pub open spec fn leaf_pages_sorted(tx: &Transaction, name: Seq<char>, fs: Seq<FieldSpec>) -> bool {
    forall|n: int| 0 <= n < tx.blocks(name).len() ==> #[trigger] sorted(recs_of(tx.blocks(name)[n], fs))
}

/// Inserting a record of value `key` after the records below `key` keeps
/// records sorted.
pub proof fn lemma_insert_sorted(recs: Seq<Seq<ConstVal>>, k: int, nrec: Seq<ConstVal>, key: ConstVal)
    requires
        sorted(recs),
        0 <= k <= recs.len(),
        dv(nrec) == key,
        forall|s: int| 0 <= s < recs.len() ==> #[trigger] same_kind(dv(recs[s]), key),
        forall|s: int| 0 <= s < k ==> val_order(#[trigger] dv(recs[s]), key) < 0,
        k < recs.len() ==> val_order(dv(recs[k]), key) >= 0,
    ensures
        sorted(recs.insert(k, nrec)),
{
    let r1 = recs.insert(k, nrec);
    assert forall|i: int, j: int| 0 <= i < j < r1.len() implies val_order(#[trigger] dv(r1[i]), #[trigger] dv(r1[j])) <= 0 by {
        if j < k {
            assert(r1[i] == recs[i] && r1[j] == recs[j]);
        } else if j == k {
            assert(r1[i] == recs[i]);
        } else if i == k {
            assert(r1[j] == recs[j - 1]);
            lemma_val_order_basics(dv(recs[k]), key);
            if j - 1 > k {
                assert(same_kind(dv(recs[j - 1]), key));
                assert(same_kind(dv(recs[k]), key));
                assert(val_order(dv(recs[k]), dv(recs[j - 1])) <= 0);
                lemma_val_order_trans(key, dv(recs[k]), dv(recs[j - 1]));
            }
        } else if i < k {
            assert(r1[i] == recs[i] && r1[j] == recs[j - 1]);
        } else {
            assert(r1[i] == recs[i - 1] && r1[j] == recs[j - 1]);
        }
    }
}

/// Parts of sorted records are sorted.
pub proof fn lemma_parts_sorted(recs: Seq<Seq<ConstVal>>, sp: int)
    requires
        sorted(recs),
        0 <= sp <= recs.len(),
    ensures
        sorted(recs.take(sp)),
        sorted(recs.skip(sp)),
{
    assert forall|i: int, j: int| 0 <= i < j < recs.take(sp).len() implies val_order(
        #[trigger] dv(recs.take(sp)[i]),
        #[trigger] dv(recs.take(sp)[j]),
    ) <= 0 by {
        assert(recs.take(sp)[i] == recs[i] && recs.take(sp)[j] == recs[j]);
    }
    assert forall|i: int, j: int| 0 <= i < j < recs.skip(sp).len() implies val_order(
        #[trigger] dv(recs.skip(sp)[i]),
        #[trigger] dv(recs.skip(sp)[j]),
    ) <= 0 by {
        assert(recs.skip(sp)[i] == recs[i + sp] && recs.skip(sp)[j] == recs[j + sp]);
    }
}

/// Removing a record of a page keeps every page of a sorted leaf file sorted.
pub proof fn lemma_remove_sorted(tx0: &Transaction, tx1: &Transaction, name: Seq<char>, fs: Seq<FieldSpec>, n: int, s: int)
    requires
        leaf_pages_sorted(tx0, name, fs),
        0 <= n < tx0.blocks(name).len(),
        0 <= s < recs_of(tx0.blocks(name)[n], fs).len(),
        tx1.blocks(name) == tx0.blocks(name).update(n, tx1.blocks(name)[n]),
        recs_of(tx1.blocks(name)[n], fs) == recs_of(tx0.blocks(name)[n], fs).remove(s),
    ensures
        leaf_pages_sorted(tx1, name, fs),
{
    let recs = recs_of(tx0.blocks(name)[n], fs);
    assert(sorted(recs));
    let r = recs.remove(s);
    assert forall|i: int, j: int| 0 <= i < j < r.len() implies val_order(#[trigger] dv(r[i]), #[trigger] dv(r[j])) <= 0 by {
        let i0 = if i < s { i } else { i + 1 };
        let j0 = if j < s { j } else { j + 1 };
        assert(r[i] == recs[i0] && r[j] == recs[j0]);
    }
    assert forall|m: int| 0 <= m < tx1.blocks(name).len() implies #[trigger] sorted(recs_of(tx1.blocks(name)[m], fs)) by {
        if m != n {
            assert(tx1.blocks(name)[m] == tx0.blocks(name)[m]);
        }
    }
}

/// An insertion into a leaf positioned after the records below its key keeps
/// every page of the leaf file sorted.
pub proof fn lemma_leaf_inserted_sorted(
    a: BTreeLeaf,
    tx0: &Transaction,
    tx1: &Transaction,
    datarid: RID,
    r: Option<crate::index::btree::dir_entry::DirEntry>,
)
    requires
        a.valid(tx0),
        -1 <= a.slot() < a.recs(tx0).len(),
        forall|s: int| 0 <= s <= a.slot() ==> val_order(#[trigger] dv(a.recs(tx0)[s]), a.key()) < 0,
        a.slot() + 1 < a.recs(tx0).len() ==> val_order(dv(a.recs(tx0)[a.slot() + 1]), a.key()) >= 0,
        leaf_inserted(a, tx0, tx1, datarid, r),
        leaf_pages_sorted(tx0, a.file(), a.fs()),
        tx1.blocks(a.file()).len() >= tx0.blocks(a.file()).len(),
        forall|m: int|
            0 <= m < tx0.blocks(a.file()).len() && m != a.blk().spec_number() ==> #[trigger] tx1.blocks(
                a.file(),
            )[m] == tx0.blocks(a.file())[m],
    ensures
        leaf_pages_sorted(tx1, a.file(), a.fs()),
{
    let name = a.file();
    let fs = a.fs();
    let n = a.blk().spec_number() as int;
    let len = tx0.blocks(name).len() as int;
    let recs = a.recs(tx0);
    let nrec = leaf_rec(a.key(), datarid);
    let r1 = recs.insert(a.slot() + 1, nrec);
    let here = tx1.blocks(name)[n];
    let newb = tx1.blocks(name)[len];
    a.lemma_valid(tx0);
    assert(recs == recs_of(tx0.blocks(name)[n], fs));
    assert(sorted(recs));
    lemma_insert_sorted(recs, a.slot() + 1, nrec, a.key());
    if a.page().flag(tx0) >= 0 && val_order(dv(a.page().slot_rec(tx0, 0)), a.key()) > 0 {
        assert(sorted(seq![nrec]));
        assert(sorted(recs_of(here, fs)));
        assert(sorted(recs_of(newb, fs)));
    } else if slot_pos(fs, r1.len() + 1int) < tx0.spec_block_size() {
        assert(sorted(recs_of(here, fs)));
    } else {
        let sp = if dv(r1[0]) == dv(r1[r1.len() - 1]) {
            1int
        } else {
            choose|sp: int| #[trigger] split_point(r1, sp) && recs_of(here, fs) == r1.take(sp) && recs_of(
                newb,
                fs,
            ) == r1.skip(sp)
        };
        lemma_parts_sorted(r1, sp);
        assert(sorted(recs_of(here, fs)));
        assert(sorted(recs_of(newb, fs)));
    }
    assert forall|m: int| 0 <= m < tx1.blocks(name).len() implies #[trigger] sorted(recs_of(tx1.blocks(name)[m], fs)) by {
        if m != n && m != len {
            assert(tx1.blocks(name)[m] == tx0.blocks(name)[m]);
        }
    }
}

/// After an insertion into a leaf, every block of the leaf file that was
/// reached from the unchanged directory still is, but for a new block that
/// the returned entry names.
pub proof fn lemma_leaf_inserted_reached(
    a: BTreeLeaf,
    tx0: &Transaction,
    tx1: &Transaction,
    datarid: RID,
    r: Option<crate::index::btree::dir_entry::DirEntry>,
    dir: Seq<char>,
    dir_fs: Seq<FieldSpec>,
)
    requires
        a.valid(tx0),
        leaf_inserted(a, tx0, tx1, datarid, r),
        tx1.blocks(a.file()).len() >= tx0.blocks(a.file()).len(),
        forall|m: int|
            0 <= m < tx0.blocks(a.file()).len() && m != a.blk().spec_number() ==> #[trigger] tx1.blocks(
                a.file(),
            )[m] == tx0.blocks(a.file())[m],
        forall|c: int| #[trigger] level0_child(tx1, dir, dir_fs, c) == level0_child(tx0, dir, dir_fs, c),
        forall|n: int| 0 <= n < tx0.blocks(a.file()).len() ==> #[trigger] leaf_reached(tx0, a.file(), dir, dir_fs, n),
    ensures
        forall|n: int|
            0 <= n < tx1.blocks(a.file()).len() ==> #[trigger] leaf_reached(tx1, a.file(), dir, dir_fs, n) || (
            r matches Some(e) && n == e.spec_block_number()),
{
    let name = a.file();
    let n = a.blk().spec_number() as int;
    let len = tx0.blocks(name).len() as int;
    let b0 = tx0.blocks(name);
    let b1 = tx1.blocks(name);
    let f = flag_of(b0[n]);
    a.lemma_valid(tx0);
    assert(a.page().flag(tx0) == f);
    let rank = choose|rank: spec_fn(int) -> nat| crate::index::btree::bt_leaf::ranked(tx0, name, rank);
    assert(flag_of(tx0.blocks(name)[n]) == f);
    assert(f != n);
    let here = b1[n];
    let newb = b1[len];
    let recs = a.recs(tx0);
    let r1 = recs.insert(a.slot() + 1, leaf_rec(a.key(), datarid));
    let case1 = f >= 0 && val_order(dv(a.page().slot_rec(tx0, 0)), a.key()) > 0;
    let case2 = !case1 && slot_pos(a.fs(), r1.len() + 1int) < tx0.spec_block_size();
    let case3 = !case1 && !case2 && dv(r1[0]) == dv(r1[r1.len() - 1]);
    if case2 {
        assert(b1 == b0.update(n, here));
    }
    assert(b1.len() <= len + 1);
    assert forall|x: int| 0 <= x < b1.len() implies #[trigger] leaf_reached(tx1, name, dir, dir_fs, x) || (
    r matches Some(e) && x == e.spec_block_number()) by {
        if x < len {
            assert(leaf_reached(tx0, name, dir, dir_fs, x));
            if !level0_child(tx0, dir, dir_fs, x) {
                let m = choose|m: int| 0 <= m < len && flag_of(#[trigger] tx0.blocks(name)[m]) == x;
                if m != n {
                    assert(b1[m] == b0[m]);
                    assert(flag_of(tx1.blocks(name)[m]) == x);
                } else if case1 || case3 {
                    assert(flag_of(tx1.blocks(name)[len]) == x);
                } else {
                    assert(flag_of(tx1.blocks(name)[n]) == x);
                }
            }
        } else if case3 {
            assert(flag_of(tx1.blocks(name)[n]) == x);
        }
    }
}

/// Every leaf block stays reached across a change that keeps the leaf
/// blocks' flags and the directory's level-0 children.
pub proof fn lemma_reached_kept(
    tx0: &Transaction,
    tx1: &Transaction,
    leaf: Seq<char>,
    dir: Seq<char>,
    dir_fs: Seq<FieldSpec>,
)
    requires
        tx1.blocks(leaf).len() == tx0.blocks(leaf).len(),
        forall|m: int| 0 <= m < tx0.blocks(leaf).len() ==> #[trigger] flag_of(tx1.blocks(leaf)[m]) == flag_of(
            tx0.blocks(leaf)[m],
        ),
        forall|c: int| #[trigger] level0_child(tx1, dir, dir_fs, c) == level0_child(tx0, dir, dir_fs, c),
        forall|n: int| 0 <= n < tx0.blocks(leaf).len() ==> #[trigger] leaf_reached(tx0, leaf, dir, dir_fs, n),
    ensures
        forall|n: int| 0 <= n < tx1.blocks(leaf).len() ==> #[trigger] leaf_reached(tx1, leaf, dir, dir_fs, n),
{
    assert forall|n: int| 0 <= n < tx1.blocks(leaf).len() implies #[trigger] leaf_reached(tx1, leaf, dir, dir_fs, n) by {
        assert(leaf_reached(tx0, leaf, dir, dir_fs, n));
        if !level0_child(tx0, dir, dir_fs, n) {
            let m = choose|m: int| 0 <= m < tx0.blocks(leaf).len() && flag_of(#[trigger] tx0.blocks(leaf)[m]) == n;
            assert(flag_of(tx1.blocks(leaf)[m]) == n);
        }
    }
}

/// An insertion into a leaf adds exactly the new index record to the leaf
/// file's records.
pub proof fn lemma_leaf_inserted_entries(
    a: BTreeLeaf,
    tx0: &Transaction,
    tx1: &Transaction,
    datarid: RID,
    r: Option<crate::index::btree::dir_entry::DirEntry>,
)
    requires
        a.valid(tx0),
        -1 <= a.slot() < a.recs(tx0).len(),
        leaf_inserted(a, tx0, tx1, datarid, r),
        forall|m: int|
            0 <= m < tx0.blocks(a.file()).len() && m != a.blk().spec_number() ==> #[trigger] tx1.blocks(
                a.file(),
            )[m] == tx0.blocks(a.file())[m],
    ensures
        leaf_entries(tx1, a.file(), a.fs()) == leaf_entries(tx0, a.file(), a.fs()).insert(
            leaf_rec(a.key(), datarid),
        ),
{
    broadcast use {vstd::seq_lib::group_to_multiset_ensures, vstd::multiset::group_multiset_axioms};

    let name = a.file();
    let fs = a.fs();
    let n = a.blk().spec_number() as int;
    let len = tx0.blocks(name).len() as int;
    let recs = a.recs(tx0);
    let nrec = leaf_rec(a.key(), datarid);
    let r1 = recs.insert(a.slot() + 1, nrec);
    let here = tx1.blocks(name)[n];
    let newb = tx1.blocks(name)[len];
    assert(recs == recs_of(tx0.blocks(name)[n], fs));
    let mo = recs.to_multiset();
    assert(r1.to_multiset() == mo.insert(nrec));
    if a.page().flag(tx0) >= 0 && val_order(dv(a.page().slot_rec(tx0, 0)), a.key()) > 0 {
        assert(recs_of(here, fs).to_multiset().add(recs_of(newb, fs).to_multiset()) =~= mo.insert(nrec)) by {
            assert(seq![nrec].to_multiset() =~= Multiset::<Seq<ConstVal>>::empty().insert(nrec)) by {
                assert(seq![nrec] =~= Seq::<Seq<ConstVal>>::empty().push(nrec));
            }
        }
        lemma_entries_after_insert(tx0, tx1, name, fs, n, true, nrec);
    } else if slot_pos(fs, r1.len() + 1int) < tx0.spec_block_size() {
        lemma_entries_after_insert(tx0, tx1, name, fs, n, false, nrec);
    } else {
        let sp = if dv(r1[0]) == dv(r1[r1.len() - 1]) {
            1int
        } else {
            choose|sp: int| #[trigger] split_point(r1, sp) && recs_of(here, fs) == r1.take(sp) && recs_of(
                newb,
                fs,
            ) == r1.skip(sp)
        };
        assert(0 <= sp <= r1.len());
        assert(r1 =~= r1.take(sp) + r1.skip(sp));
        vstd::seq_lib::lemma_multiset_commutative(r1.take(sp), r1.skip(sp));
        lemma_entries_after_insert(tx0, tx1, name, fs, n, true, nrec);
    }
}

/// A B-tree index: a directory file whose first block is the root, over a
/// leaf file of index records.
pub struct BTreeIndex {
    dir_layout: Layout,
    leaf_layout: Layout,
    leaftbl: String,
    leaf: Option<BTreeLeaf>,
    rootblk: BlockId,
}

impl BTreeIndex {
    /// The leaf file.
    pub closed spec fn leaf_file(&self) -> Seq<char> {
        self.leaftbl@
    }

    /// The directory file.
    pub closed spec fn dir_file(&self) -> Seq<char> {
        self.rootblk.spec_file_name()
    }

    /// The fields of the leaf records.
    pub closed spec fn leaf_fs(&self) -> Seq<FieldSpec> {
        self.leaf_layout.fields()
    }

    /// The fields of the directory records.
    pub closed spec fn dir_fs(&self) -> Seq<FieldSpec> {
        self.dir_layout.fields()
    }

    /// The open leaf, if any.
    pub closed spec fn cur(&self) -> Option<BTreeLeaf> {
        self.leaf
    }

    /// The index's files form a B-tree, and its open leaf, if any, is a valid
    /// leaf of the leaf file.
    pub closed spec fn valid(&self, tx: &Transaction) -> bool {
        &&& index_ok(tx, self.leaftbl@, self.rootblk.spec_file_name(), self.leaf_layout.fields(), self.dir_layout.fields())
        &&& self.rootblk.spec_number() == 0
        &&& self.leaf_layout.wf()
        &&& self.dir_layout.wf()
        &&& self.leaf matches Some(l) ==> {
            &&& l.valid(tx)
            &&& l.file() == self.leaftbl@
            &&& l.fs() == self.leaf_layout.fields()
        }
    }

    /// Whether `other` is this index over the same files.
    pub open spec fn same_index(&self, other: &BTreeIndex) -> bool {
        &&& other.leaf_file() == self.leaf_file()
        &&& other.dir_file() == self.dir_file()
        &&& other.leaf_fs() == self.leaf_fs()
        &&& other.dir_fs() == self.dir_fs()
    }

    /// The fields of a valid index's files are those of a B-tree.
    pub proof fn lemma_valid(&self, tx: &Transaction)
        requires
            self.valid(tx),
        ensures
            index_ok(tx, self.leaf_file(), self.dir_file(), self.leaf_fs(), self.dir_fs()),
            self.cur() matches Some(l) ==> l.valid(tx) && l.file() == self.leaf_file() && l.fs()
                == self.leaf_fs(),
    {
    }

    /// Closes the index by closing its open leaf.
    pub fn close(&mut self)
        ensures
            final(self).cur() is None,
            old(self).same_index(&*final(self)),
            forall|tx: &Transaction| old(self).valid(tx) ==> #[trigger] final(self).valid(tx),
    {
        if let Some(mut leaf) = self.leaf.take() {
            leaf.close();
        }
    }

    /// Positions the index before the first leaf record of `searchkey`: at the
    /// leaf block that the directory search for it reaches, just before the
    /// first record whose value is not below it.
    pub fn before_first(&mut self, tx: &Transaction, searchkey: &Constant)
        requires
            old(self).valid(tx),
            kind_fits(searchkey@, old(self).leaf_fs()[2]),
        ensures
            final(self).valid(tx),
            old(self).same_index(&*final(self)),
            final(self).cur() matches Some(l) && {
                &&& l.key() == searchkey@
                &&& l.blk().spec_number() == descend(
                    tx,
                    old(self).dir_file(),
                    old(self).dir_fs(),
                    0,
                    searchkey@,
                )
                &&& -1 <= l.slot() < l.recs(tx).len()
                &&& forall|s: int| 0 <= s <= l.slot() ==> val_order(#[trigger] dv(l.recs(tx)[s]), searchkey@) < 0
                &&& l.slot() + 1 < l.recs(tx).len() ==> val_order(dv(l.recs(tx)[l.slot() + 1]), searchkey@) >= 0
            },
    {
        self.close();
        assert(self.valid(tx));
        proof {
            self.dir_layout.lemma_wf();
        }
        let mut root = BTreeDir::new(self.rootblk.clone(), self.dir_layout.clone());
        let blknum = root.search(tx, searchkey);
        root.close();
        let leafblk = BlockId::new(self.leaftbl.clone(), blknum);
        self.leaf = Some(BTreeLeaf::new(tx, leafblk, self.leaf_layout.clone(), searchkey.clone()));
    }

    /// Moves to the next leaf record of the search key; false when there is
    /// none, or no leaf is open.
    pub fn next(&mut self, tx: &Transaction) -> (r: bool)
        requires
            old(self).valid(tx),
            old(self).cur() matches Some(l) ==> l.slot() + 1 < i32::MAX,
        ensures
            final(self).valid(tx),
            old(self).same_index(&*final(self)),
            match old(self).cur() {
                Some(l) => final(self).cur() matches Some(l2) && l2.key() == l.key() && leaf_stepped(l, l2, tx, r),
                None => !r && final(self).cur() is None,
            },
    {
        match &mut self.leaf {
            Some(leaf) => leaf.next(tx),
            None => false,
        }
    }

    /// The data record id of the current leaf record; (0, 0) when no leaf is open.
    pub fn get_data_rid(&self, tx: &Transaction) -> (r: RID)
        requires
            self.valid(tx),
            self.cur() matches Some(l) ==> l.page().slot_in(tx, l.slot()),
        ensures
            match self.cur() {
                Some(l) => l.page().slot_rec(tx, l.slot()) == leaf_rec(l.page().slot_rec(tx, l.slot())[2], r),
                None => r.blknum == 0 && r.slot == 0,
            },
    {
        match &self.leaf {
            Some(leaf) => leaf.get_data_rid(tx),
            None => RID::new(0, 0),
        }
    }

    /// Inserts the index record for `dataval` and `datarid`: into the leaf
    /// block that the search for `dataval` reaches, splitting it when full and
    /// then inserting the new block's entry into the directory, which gets a
    /// new root when its root splits. Where the directory is left as it was,
    /// the block that the search for `dataval` reaches holds the new record
    /// right after the records below `dataval`.
    #[verifier::spinoff_prover]
    #[verifier::rlimit(80)]
    pub fn insert(&mut self, tx: &mut Transaction, dataval: &Constant, datarid: &RID)
        requires
            old(self).valid(old(tx)),
            val_fits(dataval@, old(self).leaf_fs()[2]),
            old(tx).blocks(old(self).leaf_file()).len() + 1 < i32::MAX,
            2 * old(tx).blocks(old(self).dir_file()).len() + 4 < i32::MAX,
        ensures
            final(self).valid(final(tx)),
            old(self).same_index(&*final(self)),
            final(self).cur() is None,
            leaf_entries(final(tx), old(self).leaf_file(), old(self).leaf_fs()) == leaf_entries(
                old(tx),
                old(self).leaf_file(),
                old(self).leaf_fs(),
            ).insert(leaf_rec(dataval@, *datarid)),
            forall|nm: Seq<char>|
                nm != old(self).leaf_file() && nm != old(self).dir_file() ==> #[trigger] final(tx).blocks(nm)
                    == old(tx).blocks(nm),
            final(tx).spec_block_size() == old(tx).spec_block_size(),
            dir_grown(old(tx), final(tx), old(self).leaf_file(), old(self).dir_file(), old(self).leaf_fs(), old(self).dir_fs()),
            final(tx).blocks(old(self).dir_file()) == old(tx).blocks(old(self).dir_file()) ==> found_first(
                final(tx),
                old(self).leaf_file(),
                old(self).dir_file(),
                old(self).leaf_fs(),
                old(self).dir_fs(),
                dataval@,
                *datarid,
            ),
    {
        let ghost tx0 = *tx;
        let ghost leafname = self.leaf_file();
        let ghost dirname = self.dir_file();
        let ghost lfs = self.leaf_fs();
        let ghost dfs = self.dir_fs();
        self.before_first(tx, dataval);
        let leaf_opt = self.leaf.take();
        if let Some(mut leaf) = leaf_opt {
            let ghost before = leaf;
            let e_opt = leaf.insert(tx, datarid);
            proof {
                lemma_leaf_inserted_entries(before, &tx0, tx, *datarid, e_opt);
                lemma_leaf_inserted_sorted(before, &tx0, tx, *datarid, e_opt);
            }
            leaf.close();
            let ghost txa = *tx;
            proof {
                lemma_dir_frame(&tx0, &txa, dirname, dfs);
                lemma_leaf_inserted_reached(before, &tx0, &txa, *datarid, e_opt, dirname, dfs);
            }
            if let Some(e) = e_opt {
                proof {
                    self.dir_layout.lemma_wf();
                }
                let mut root = BTreeDir::new(self.rootblk.clone(), self.dir_layout.clone());
                proof {
                    lemma_parented_frame(&tx0, tx, dirname, dfs);
                    assert(tx.blocks(dirname) == tx0.blocks(dirname));
                    assert(dir_sorted(tx, dirname, dfs));
                }
                let e2_opt = root.insert(tx, e);
                let ghost txb = *tx;
                if let Some(e2) = e2_opt {
                    root.make_new_root(tx, e2);
                    proof {
                        lemma_parented_after_new_root(
                            &txb,
                            tx,
                            dirname,
                            dfs,
                            e2.spec_data_val(),
                            e2.spec_block_number(),
                        );
                    }
                }
                root.close();
                proof {
                    let erec = crate::index::btree::bt_dir::dir_rec(e.spec_data_val(), e.spec_block_number());
                    assert(dir_entries0(&txb, dirname, dfs) == dir_entries0(&txa, dirname, dfs).insert(erec));
                    assert(txa.blocks(dirname) == tx0.blocks(dirname));
                    assert(dir_entries0(&txa, dirname, dfs) == dir_entries0(&tx0, dirname, dfs));
                    assert(dir_entries0(tx, dirname, dfs) == dir_entries0(&txb, dirname, dfs));
                    let len = tx0.blocks(leafname).len() as int;
                    let lb = tx.blocks(leafname);
                    assert(lb == txa.blocks(leafname));
                    assert(e.spec_block_number() == len);
                    if recs_of(lb[len], lfs).len() > 0 {
                        let recs = before.recs(&tx0);
                        if before.page().flag(&tx0) >= 0 && val_order(dv(before.page().slot_rec(&tx0, 0)), before.key()) > 0 {
                            assert(recs_of(lb[len], lfs) == recs);
                            assert(recs[0] == before.page().slot_rec(&tx0, 0));
                        } else {
                            let r1 = recs.insert(before.slot() + 1, leaf_rec(before.key(), *datarid));
                            let sp = choose|sp: int| #[trigger] split_point(r1, sp) && e.spec_data_val() == dv(r1[sp]) && recs_of(
                                txa.blocks(leafname)[before.blk().spec_number() as int],
                                lfs,
                            ) == r1.take(sp) && recs_of(lb[len], lfs) == r1.skip(sp);
                            assert(r1.skip(sp)[0] == r1[sp]);
                        }
                    }
                    assert(recs_of(lb[len], lfs).len() > 0 ==> e.spec_data_val() == dv(recs_of(lb[len], lfs)[0]));
                    assert(lb.len() == len + 1);
                    assert(crate::index::btree::bt_dir::dir_rec(e.spec_data_val(), len as i32) == erec);
                    assert(dir_grown(&tx0, tx, leafname, dirname, lfs, dfs));
                    assert(dir_entries0(tx, dirname, dfs).count(erec) == dir_entries0(&tx0, dirname, dfs).count(erec) + 1);
                    assert(tx.blocks(dirname) != tx0.blocks(dirname));
                    lemma_children_kept(&txa, &txb, dirname, dfs);
                    lemma_children_kept(&txb, tx, dirname, dfs);
                    lemma_entry_names_child(&txb, dirname, dfs, erec);
                    assert(tx.blocks(leafname) == txa.blocks(leafname));
                    assert forall|n: int| 0 <= n < tx.blocks(leafname).len() implies #[trigger] leaf_reached(
                        tx,
                        leafname,
                        dirname,
                        dfs,
                        n,
                    ) by {
                        assert(leaf_reached(&txa, leafname, dirname, dfs, n) || n == e.spec_block_number());
                        if level0_child(&txa, dirname, dfs, n) {
                            assert(level0_child(&txb, dirname, dfs, n));
                        } else if n == e.spec_block_number() {
                            assert(level0_child(&txb, dirname, dfs, n));
                        } else {
                            let m = choose|m: int| 0 <= m < txa.blocks(leafname).len() && flag_of(#[trigger] txa.blocks(leafname)[m]) == n;
                            assert(flag_of(tx.blocks(leafname)[m]) == n);
                        }
                    }
                    lemma_leaf_frame(&txa, tx, leafname, lfs);
                    assert forall|c: int| #[trigger] level0_child(tx, dirname, dfs, c) implies 0 <= c
                        < tx.blocks(leafname).len() by {
                        assert(level0_child(&txb, dirname, dfs, c));
                        if c != e.spec_block_number() {
                            assert(level0_child(&txa, dirname, dfs, c));
                            assert(level0_child(&tx0, dirname, dfs, c));
                        }
                    }
                }
            } else {
                proof {
                    assert forall|c: int| #[trigger] level0_child(tx, dirname, dfs, c) implies 0 <= c
                        < tx.blocks(leafname).len() by {
                        assert(level0_child(&tx0, dirname, dfs, c));
                    }
                    assert forall|n: int| 0 <= n < tx.blocks(leafname).len() implies #[trigger] leaf_reached(
                        tx,
                        leafname,
                        dirname,
                        dfs,
                        n,
                    ) by {
                        assert(leaf_reached(&txa, leafname, dirname, dfs, n));
                    }
                    assert(tx.blocks(dirname) == tx0.blocks(dirname));
                    assert(dir_entries0(tx, dirname, dfs) == dir_entries0(&tx0, dirname, dfs));
                    lemma_parented_frame(&tx0, tx, dirname, dfs);
                    let key = dataval@;
                    lemma_descend_frame(&tx0, tx, dirname, dfs, 0, key);
                    let n = before.blk().spec_number() as int;
                    let recs = before.recs(&tx0);
                    let nrec = leaf_rec(key, *datarid);
                    let r1 = recs.insert(before.slot() + 1, nrec);
                    assert(n == descend(tx, dirname, dfs, 0, key));
                    if tx.blocks(leafname).len() == tx0.blocks(leafname).len() {
                        assert(recs_of(tx.blocks(leafname)[n], lfs) == r1);
                        let s = before.slot() + 1;
                        assert(r1[s] == nrec);
                        assert forall|t: int| 0 <= t < s implies val_order(#[trigger] dv(r1[t]), key) < 0 by {
                            assert(r1[t] == recs[t]);
                        }
                        assert(found_first(tx, leafname, dirname, lfs, dfs, key, *datarid));
                    } else {
                        // a full page of one value: the new record, first of the run, stays alone
                        before.lemma_valid(&tx0);
                        assert(recs == recs_of(tx0.blocks(leafname)[n], lfs));
                        assert(sorted(recs));
                        lemma_insert_sorted(recs, before.slot() + 1, nrec, key);
                        let last = r1.len() - 1;
                        assert(dv(r1[0]) == dv(r1[last]));
                        if before.slot() >= 0 {
                            assert(r1[0] == recs[0]);
                            assert(val_order(dv(r1[0]), key) < 0);
                            assert(r1[before.slot() + 1] == nrec);
                            assert(dv(nrec) == key);
                            if before.slot() + 1 < last {
                                assert(val_order(dv(r1[before.slot() + 1]), dv(r1[last])) <= 0);
                            }
                            lemma_val_order_basics(key, dv(r1[last]));
                            assert(same_kind(dv(r1[0]), key));
                            lemma_val_order_basics(dv(r1[0]), key);
                            assert(val_order(key, dv(r1[last])) <= 0);
                            lemma_val_order_trans(dv(r1[0]), key, dv(r1[last]));
                            assert(false);
                        }
                        assert(r1[0] == nrec);
                        assert(recs_of(tx.blocks(leafname)[n], lfs) == r1.take(1));
                        assert(r1.take(1)[0] == nrec);
                        assert(found_first(tx, leafname, dirname, lfs, dfs, key, *datarid));
                    }
                }
            }
        }
    }

    /// Deletes the index record for `dataval` and `datarid`: the first record
    /// of `datarid` among the leaf records of `dataval`, when there is one.
    #[verifier::spinoff_prover]
    #[verifier::rlimit(30)]
    pub fn delete(&mut self, tx: &mut Transaction, dataval: &Constant, datarid: &RID)
        requires
            old(self).valid(old(tx)),
            kind_fits(dataval@, old(self).leaf_fs()[2]),
        ensures
            final(self).valid(final(tx)),
            old(self).same_index(&*final(self)),
            final(self).cur() is None,
            *final(tx) == *old(tx) || exists|n: int, s: int|
                #[trigger] leaf_record_deleted(
                    old(tx),
                    final(tx),
                    old(self).leaf_file(),
                    old(self).leaf_fs(),
                    *datarid,
                    n,
                    s,
                ),
            *final(tx) == *old(tx) || exists|rec: Seq<ConstVal>|
                #[trigger] leaf_entries(old(tx), old(self).leaf_file(), old(self).leaf_fs()).count(rec) > 0
                    && rec[0] == ConstVal::Int(datarid.blknum) && rec[1] == ConstVal::Int(datarid.slot)
                    && leaf_entries(final(tx), old(self).leaf_file(), old(self).leaf_fs()) == leaf_entries(
                    old(tx),
                    old(self).leaf_file(),
                    old(self).leaf_fs(),
                ).remove(rec),
            exists|l0: BTreeLeaf, l1: BTreeLeaf|
                {
                    &&& l0.key() == dataval@
                    &&& l0.file() == old(self).leaf_file()
                    &&& l0.blk().spec_number() == descend(old(tx), old(self).dir_file(), old(self).dir_fs(), 0, dataval@)
                    &&& -1 <= l0.slot() < l0.recs(old(tx)).len()
                    &&& forall|s: int| 0 <= s <= l0.slot() ==> val_order(#[trigger] dv(l0.recs(old(tx))[s]), dataval@) < 0
                    &&& l0.slot() + 1 < l0.recs(old(tx)).len() ==> val_order(dv(l0.recs(old(tx))[l0.slot() + 1]), dataval@)
                        >= 0
                    &&& #[trigger] leaf_deleted(l0, old(tx), final(tx), *datarid, l1)
                },
    {
        let ghost tx0 = *tx;
        let ghost leafname = self.leaf_file();
        let ghost dirname = self.dir_file();
        let ghost dfs = self.dir_fs();
        self.before_first(tx, dataval);
        let leaf_opt = self.leaf.take();
        if let Some(mut leaf) = leaf_opt {
            let ghost l0 = leaf;
            proof {
                l0.lemma_valid(tx);
            }
            leaf.delete(tx, datarid);
            proof {
                assert(leaf_deleted(l0, &tx0, tx, *datarid, leaf));
                if *tx != tx0 {
                    let blk = leaf.blk();
                    tx0.lemma_same_but_self(*tx, blk, tx.block(blk));
                    assert(leaf_record_deleted(
                        &tx0,
                        tx,
                        leafname,
                        self.leaf_fs(),
                        *datarid,
                        blk.spec_number() as int,
                        leaf.slot(),
                    ));
                    lemma_entries_after_remove(&tx0, tx, leafname, self.leaf_fs(), blk.spec_number() as int, leaf.slot());
                    lemma_remove_sorted(&tx0, tx, leafname, self.leaf_fs(), blk.spec_number() as int, leaf.slot());
                    assert forall|m: int| 0 <= m < tx0.blocks(leafname).len() implies #[trigger] flag_of(
                        tx.blocks(leafname)[m],
                    ) == flag_of(tx0.blocks(leafname)[m]) by {
                        if m != blk.spec_number() {
                            assert(tx.blocks(leafname)[m] == tx0.blocks(leafname)[m]);
                        }
                    }
                }
                lemma_dir_frame(&tx0, tx, dirname, dfs);
                lemma_reached_kept(&tx0, tx, leafname, dirname, dfs);
                lemma_parented_frame(&tx0, tx, dirname, dfs);
            }
            leaf.close();
        }
    }

    /// Opens the B-tree index `idxname` over the leaf records of `leaf_layout`,
    /// in the files `idxname` + `leaf` and `idxname` + `dir`, each on its own:
    /// an empty leaf file gets an empty leaf block, and an empty directory
    /// file a root block of level 0 whose one record holds the least value of
    /// the indexed kind and names leaf block 0. A file that holds blocks is
    /// left as it is.
    pub fn new(tx: &mut Transaction, idxname: &str, leaf_layout: Layout) -> (r: Self)
        requires
            old(tx).wf(),
            leaf_layout.wf(),
            crate::index::btree::bt_page::leaf_layout(leaf_layout.fields()),
            names_distinct(leaf_layout.fields()),
            btree_fits(leaf_layout.fields(), old(tx).spec_block_size() as int),
            btree_files_ok(old(tx), idxname@ + "leaf"@, idxname@ + "dir"@, leaf_layout.fields()),
        ensures
            r.valid(final(tx)),
            r.cur() is None,
            r.leaf_file() == idxname@ + "leaf"@,
            r.dir_file() == idxname@ + "dir"@,
            r.leaf_fs() == leaf_layout.fields(),
            r.dir_fs() == dir_fields(leaf_layout.fields()),
            final(tx).spec_block_size() == old(tx).spec_block_size(),
            forall|nm: Seq<char>|
                nm != idxname@ + "leaf"@ && nm != idxname@ + "dir"@ ==> #[trigger] final(tx).blocks(nm)
                    == old(tx).blocks(nm),
            old(tx).blocks(idxname@ + "leaf"@).len() == 0 ==> {
                let lb = final(tx).blocks(idxname@ + "leaf"@);
                &&& lb.len() == 1
                &&& flag_of(lb[0]) == -1
                &&& num_of(lb[0]) == 0
            },
            old(tx).blocks(idxname@ + "leaf"@).len() != 0 ==> final(tx).blocks(idxname@ + "leaf"@) == old(
                tx,
            ).blocks(idxname@ + "leaf"@),
            old(tx).blocks(idxname@ + "dir"@).len() == 0 ==> {
                let db = final(tx).blocks(idxname@ + "dir"@);
                &&& db.len() == 1
                &&& flag_of(db[0]) == 0
                &&& recs_of(db[0], dir_fields(leaf_layout.fields())) == seq![
                    seq![ConstVal::Int(0), least_val(leaf_layout.fields()[2])],
                ]
            },
            old(tx).blocks(idxname@ + "dir"@).len() != 0 ==> final(tx).blocks(idxname@ + "dir"@) == old(
                tx,
            ).blocks(idxname@ + "dir"@),
            old(tx).blocks(idxname@ + "leaf"@).len() != 0 && old(tx).blocks(idxname@ + "dir"@).len() != 0
                ==> *final(tx) == *old(tx),
    {
        let ghost tx0 = *tx;
        let ghost lfs = leaf_layout.fields();
        let leaftbl = concat(idxname, "leaf");
        let dirtbl = concat(idxname, "dir");
        proof {
            reveal_strlit("leaf");
            reveal_strlit("dir");
            assert(leaftbl@.len() != dirtbl@.len());
            leaf_layout.lemma_wf();
        }
        let rootblk = BlockId::new(dirtbl.clone(), 0);
        if tx.size(leaftbl.as_str()) == 0 {
            let blk = tx.append(leaftbl.as_str());
            let node = BTPage::new(blk.clone(), leaf_layout.clone());
            node.format(tx, &blk, -1);
            proof {
                crate::index::btree::page_format::lemma_slot_pos_mono(lfs, 1, 2);
                let rank = |n: int| 0nat;
                assert(crate::index::btree::bt_leaf::ranked(tx, leaftbl@, rank));
                assert(crate::index::btree::bt_leaf::leaf_block_ok(
                    tx.blocks(leaftbl@)[0],
                    lfs,
                    1,
                    tx.spec_block_size() as int,
                ));
                assert(leaf_file_ok(tx, leaftbl@, lfs));
                assert(sorted(recs_of(tx.blocks(leaftbl@)[0], lfs)));
                assert(leaf_pages_sorted(tx, leaftbl@, lfs));
            }
        }
        let ghost txl = *tx;
        proof {
            assert(txl.blocks(dirtbl@) == tx0.blocks(dirtbl@));
            lemma_leaf_frame(&txl, &txl, leaftbl@, lfs);
        }
        let mut dir_schema = Schema::new();
        dir_schema.add_int_field("block");
        proof {
            crate::index::btree::bt_page::lemma_fidx_own(lfs, 2);
            reveal_with_fuel(sum_bytes, 4);
            crate::record::layout::lemma_sum_bytes_nonneg(lfs);
        }
        dir_schema.add("dataval", leaf_layout.schema());
        proof {
            assert(dir_schema@ =~= dir_fields(lfs));
            reveal_with_fuel(sum_bytes, 4);
        }
        let dir_layout = Layout::new(dir_schema.clone());
        let ghost dfs = dir_layout.fields();
        if tx.size(dirtbl.as_str()) == 0 {
            let ghost txa = *tx;
            tx.append(dirtbl.as_str());
            let node = BTPage::new(rootblk.clone(), dir_layout.clone());
            proof {
                dir_layout.lemma_wf();
                crate::index::btree::page_format::lemma_slot_pos_mono(dfs, 1, 3);
                crate::index::btree::page_format::lemma_slot_pos_mono(dfs, 2, 3);
            }
            node.format(tx, &rootblk, 0);
            let fldtype = dir_schema.ftype("dataval");
            let minval = if fldtype == INTEGER {
                Constant::from_int(i32::MIN)
            } else {
                Constant::from_string(String::new())
            };
            proof {
                node.lemma_block_len(tx);
                reveal_strlit("block");
                reveal_strlit("dataval");
                assert(names_distinct(dfs));
                crate::index::btree::bt_page::lemma_fidx_own(dfs, 1);
                assert(vstd::utf8::encode_utf8(Seq::<char>::empty()) =~= Seq::<u8>::empty());
            }
            node.insert_dir(tx, 0, &minval, 0);
            proof {
                let db = tx.blocks(dirtbl@);
                assert(db.len() == 1);
                assert(crate::index::btree::bt_dir::dir_block_ok(db[0], dfs, tx.spec_block_size() as int));
                assert(tx.blocks(leaftbl@) == txa.blocks(leaftbl@));
                lemma_leaf_frame(&txa, tx, leaftbl@, lfs);
                assert forall|c: int| #[trigger] level0_child(tx, dirtbl@, dfs, c) implies c == 0 by {
                    let (m, i) = choose|m: int, i: int|
                        0 <= m < db.len() && flag_of(db[m]) == 0 && 0 <= i < recs_of(db[m], dfs).len()
                            && crate::index::btree::bt_dir::child_of(#[trigger] recs_of(db[m], dfs)[i]) == c;
                    assert(m == 0 && i == 0);
                }
                assert(crate::index::btree::bt_dir::child_of(recs_of(tx.blocks(dirtbl@)[0], dfs)[0]) == 0);
                assert(level0_child(tx, dirtbl@, dfs, 0));
                assert forall|n: int| 0 <= n < tx.blocks(leaftbl@).len() implies #[trigger] leaf_reached(
                    tx,
                    leaftbl@,
                    dirtbl@,
                    dfs,
                    n,
                ) by {
                    if n != 0 {
                        assert(tx0.blocks(leaftbl@).len() != 0);
                        assert(tx.blocks(leaftbl@) == tx0.blocks(leaftbl@));
                        assert(overflow_target(&tx0, leaftbl@, n));
                        let m = choose|m: int|
                            0 <= m < tx0.blocks(leaftbl@).len() && flag_of(#[trigger] tx0.blocks(leaftbl@)[m]) == n;
                        assert(flag_of(tx.blocks(leaftbl@)[m]) == n);
                    }
                }
            }
        } else {
            proof {
                lemma_dir_frame(&tx0, tx, dirtbl@, dfs);
                lemma_parented_frame(&tx0, tx, dirtbl@, dfs);
                if tx0.blocks(leaftbl@).len() == 0 {
                    assert(level0_child(tx, dirtbl@, dfs, 0));
                    assert forall|n: int| 0 <= n < tx.blocks(leaftbl@).len() implies #[trigger] leaf_reached(
                        tx,
                        leaftbl@,
                        dirtbl@,
                        dfs,
                        n,
                    ) by {
                        assert(n == 0);
                    }
                } else {
                    assert(*tx == tx0);
                }
            }
        }
        BTreeIndex { dir_layout, leaf_layout, leaftbl, leaf: None, rootblk }
    }
}

impl IndexScan for BTreeIndex {
    open spec fn scan_ok(&self, tx: &Transaction) -> bool {
        self.valid(tx)
    }

    open spec fn key_ok(&self, key: ConstVal) -> bool {
        val_fits(key, self.leaf_fs()[2])
    }

    open spec fn can_step(&self, tx: &Transaction) -> bool {
        self.cur() matches Some(l) ==> l.slot() + 1 < i32::MAX
    }

    open spec fn at_record(&self, tx: &Transaction) -> bool {
        self.cur() matches Some(l) ==> l.page().slot_in(tx, l.slot())
    }

    open spec fn has_room(&self, tx: &Transaction) -> bool {
        &&& tx.blocks(self.leaf_file()).len() + 1 < i32::MAX
        &&& 2 * tx.blocks(self.dir_file()).len() + 4 < i32::MAX
    }

    fn before_first(&mut self, tx: &mut Transaction, searchkey: &Constant)
        ensures
            *final(tx) == *old(tx),
            final(self).valid(final(tx)),
            old(self).same_index(&*final(self)),
            final(self).cur() matches Some(l) && {
                &&& l.key() == searchkey@
                &&& l.blk().spec_number() == descend(
                    final(tx),
                    old(self).dir_file(),
                    old(self).dir_fs(),
                    0,
                    searchkey@,
                )
                &&& -1 <= l.slot() < l.recs(final(tx)).len()
                &&& forall|s: int| 0 <= s <= l.slot() ==> val_order(#[trigger] dv(l.recs(final(tx))[s]), searchkey@) < 0
                &&& l.slot() + 1 < l.recs(final(tx)).len() ==> val_order(dv(l.recs(final(tx))[l.slot() + 1]), searchkey@) >= 0
            },
    {
        BTreeIndex::before_first(self, tx, searchkey)
    }

    fn next(&mut self, tx: &Transaction) -> (r: bool)
        ensures
            final(self).valid(tx),
            old(self).same_index(&*final(self)),
            match old(self).cur() {
                Some(l) => final(self).cur() matches Some(l2) && l2.key() == l.key() && leaf_stepped(l, l2, tx, r),
                None => !r && final(self).cur() is None,
            },
    {
        BTreeIndex::next(self, tx)
    }

    fn get_data_rid(&self, tx: &Transaction) -> (r: RID)
        ensures
            match self.cur() {
                Some(l) => l.page().slot_rec(tx, l.slot()) == leaf_rec(l.page().slot_rec(tx, l.slot())[2], r),
                None => r.blknum == 0 && r.slot == 0,
            },
    {
        BTreeIndex::get_data_rid(self, tx)
    }

    fn insert(&mut self, tx: &mut Transaction, dataval: &Constant, datarid: &RID)
        ensures
            final(self).valid(final(tx)),
            old(self).same_index(&*final(self)),
            final(self).cur() is None,
            leaf_entries(final(tx), old(self).leaf_file(), old(self).leaf_fs()) == leaf_entries(
                old(tx),
                old(self).leaf_file(),
                old(self).leaf_fs(),
            ).insert(leaf_rec(dataval@, *datarid)),
            forall|nm: Seq<char>|
                nm != old(self).leaf_file() && nm != old(self).dir_file() ==> #[trigger] final(tx).blocks(nm)
                    == old(tx).blocks(nm),
            final(tx).spec_block_size() == old(tx).spec_block_size(),
            dir_grown(old(tx), final(tx), old(self).leaf_file(), old(self).dir_file(), old(self).leaf_fs(), old(self).dir_fs()),
            final(tx).blocks(old(self).dir_file()) == old(tx).blocks(old(self).dir_file()) ==> found_first(
                final(tx),
                old(self).leaf_file(),
                old(self).dir_file(),
                old(self).leaf_fs(),
                old(self).dir_fs(),
                dataval@,
                *datarid,
            ),
    {
        BTreeIndex::insert(self, tx, dataval, datarid)
    }

    fn delete(&mut self, tx: &mut Transaction, dataval: &Constant, datarid: &RID)
        ensures
            final(self).valid(final(tx)),
            old(self).same_index(&*final(self)),
            final(self).cur() is None,
            *final(tx) == *old(tx) || exists|n: int, s: int|
                #[trigger] leaf_record_deleted(
                    old(tx),
                    final(tx),
                    old(self).leaf_file(),
                    old(self).leaf_fs(),
                    *datarid,
                    n,
                    s,
                ),
            *final(tx) == *old(tx) || exists|rec: Seq<ConstVal>|
                #[trigger] leaf_entries(old(tx), old(self).leaf_file(), old(self).leaf_fs()).count(rec) > 0
                    && rec[0] == ConstVal::Int(datarid.blknum) && rec[1] == ConstVal::Int(datarid.slot)
                    && leaf_entries(final(tx), old(self).leaf_file(), old(self).leaf_fs()) == leaf_entries(
                    old(tx),
                    old(self).leaf_file(),
                    old(self).leaf_fs(),
                ).remove(rec),
            exists|l0: BTreeLeaf, l1: BTreeLeaf|
                {
                    &&& l0.key() == dataval@
                    &&& l0.file() == old(self).leaf_file()
                    &&& l0.blk().spec_number() == descend(old(tx), old(self).dir_file(), old(self).dir_fs(), 0, dataval@)
                    &&& -1 <= l0.slot() < l0.recs(old(tx)).len()
                    &&& forall|s: int| 0 <= s <= l0.slot() ==> val_order(#[trigger] dv(l0.recs(old(tx))[s]), dataval@) < 0
                    &&& l0.slot() + 1 < l0.recs(old(tx)).len() ==> val_order(dv(l0.recs(old(tx))[l0.slot() + 1]), dataval@)
                        >= 0
                    &&& #[trigger] leaf_deleted(l0, old(tx), final(tx), *datarid, l1)
                },
    {
        BTreeIndex::delete(self, tx, dataval, datarid)
    }

    fn close(&mut self)
        ensures
            final(self).cur() is None,
            old(self).same_index(&*final(self)),
            forall|tx: &Transaction| old(self).valid(tx) ==> #[trigger] final(self).valid(tx),
    {
        BTreeIndex::close(self)
    }
}

} // verus!
