use vstd::prelude::*;

use crate::file::BlockId;
use crate::index::btree::bt_index::{lemma_insert_sorted, lemma_parts_sorted};
use crate::index::btree::bt_leaf::sorted;
use crate::index::btree::bt_page::{dir_layout, dv, kind_fits, names_distinct, BTPage};
use crate::index::btree::dir_entry::DirEntry;
use crate::index::btree::entries::{dir_entries0, lemma_level0_after_insert, lemma_level0_after_new_root};
use crate::index::btree::page_format::{flag_of, num_of, page_wf, recs_of, slot_pos, val_fits};
use crate::query::constant::{val_order, ConstVal, Constant};
use crate::record::layout::{fields_fit, Layout};
use crate::record::schema::FieldSpec;
use crate::tx::Transaction;

verus! {

/// The child block named by a directory record.
pub open spec fn child_of(rec: Seq<ConstVal>) -> int {
    match rec[0] {
        ConstVal::Int(v) => v as int,
        ConstVal::Str(_) => -1,
    }
}

/// The number of leading records whose indexed value is below `key`.
pub open spec fn below_count(recs: Seq<Seq<ConstVal>>, key: ConstVal) -> int
    decreases recs.len(),
{
    if recs.len() == 0 {
        0
    } else if val_order(dv(recs[0]), key) >= 0 {
        0
    } else {
        1 + below_count(recs.drop_first(), key)
    }
}

/// The slot of the directory record to follow for `key`: the record that
/// holds `key` itself when it comes right after the last record below `key`,
/// else that last record; the first record where no record is below `key`.
pub open spec fn child_slot(recs: Seq<Seq<ConstVal>>, key: ConstVal) -> int {
    let s = below_count(recs, key) - 1;
    let t = if s + 1 < recs.len() && dv(recs[s + 1]) == key {
        s + 1
    } else {
        s
    };
    if t < 0 {
        0
    } else {
        t
    }
}

/// The child block that a directory page of records `recs` gives for `key`.
pub open spec fn child_for(recs: Seq<Seq<ConstVal>>, key: ConstVal) -> int {
    child_of(recs[child_slot(recs, key)])
}

/// `below_count` is the one slot after which the records stop being below `key`.
pub proof fn lemma_below_count(recs: Seq<Seq<ConstVal>>, key: ConstVal, r: int)
    requires
        -1 <= r < recs.len(),
        forall|s: int| 0 <= s <= r ==> val_order(#[trigger] dv(recs[s]), key) < 0,
        r + 1 < recs.len() ==> val_order(dv(recs[r + 1]), key) >= 0,
    ensures
        below_count(recs, key) == r + 1,
    decreases recs.len(),
{
    if r >= 0 {
        assert(val_order(dv(recs[0]), key) < 0);
        let t = recs.drop_first();
        assert forall|s: int| 0 <= s <= r - 1 implies val_order(#[trigger] dv(t[s]), key) < 0 by {
            assert(t[s] == recs[s + 1]);
        }
        if r < recs.len() - 1 {
            assert(t[r] == recs[r + 1]);
        }
        lemma_below_count(t, key, r - 1);
    }
}

/// `below_count` counts some of the records, and the child slot is a slot of
/// a page that has records.
pub proof fn lemma_child_slot(recs: Seq<Seq<ConstVal>>, key: ConstVal)
    ensures
        0 <= below_count(recs, key) <= recs.len(),
        recs.len() >= 1 ==> 0 <= child_slot(recs, key) < recs.len(),
    decreases recs.len(),
{
    if recs.len() > 0 {
        lemma_child_slot(recs.drop_first(), key);
    }
}

/// A block of a directory file: a well-formed page of level 0 or more, with
/// at least one record and room for one more.
pub open spec fn dir_block_ok(b: Seq<u8>, fs: Seq<FieldSpec>, bs: int) -> bool {
    &&& page_wf(b, fs)
    &&& flag_of(b) >= 0
    &&& num_of(b) >= 1
    &&& slot_pos(fs, num_of(b) + 1) < bs
}

/// Every record of a directory block above level 0 names a block of the file,
/// other than the first, one level below.
pub open spec fn dir_children_ok(tx: &Transaction, name: Seq<char>, fs: Seq<FieldSpec>) -> bool {
    forall|n: int, i: int|
        0 <= n < tx.blocks(name).len() && flag_of(tx.blocks(name)[n]) > 0 && 0 <= i < recs_of(
            tx.blocks(name)[n],
            fs,
        ).len() ==> {
            let c = child_of(#[trigger] recs_of(tx.blocks(name)[n], fs)[i]);
            &&& 1 <= c < tx.blocks(name).len()
            &&& flag_of(tx.blocks(name)[c]) == flag_of(tx.blocks(name)[n]) - 1
        }
}

/// The file `name` is a well-formed directory file of a B-tree: its first
/// block is the root, each page holds directory records, and the levels go
/// down by one from parent to child.
pub open spec fn dir_file_ok(tx: &Transaction, name: Seq<char>, fs: Seq<FieldSpec>) -> bool {
    &&& tx.wf()
    &&& 8 <= tx.spec_block_size() <= i32::MAX
    &&& dir_layout(fs)
    &&& fields_fit(fs)
    &&& names_distinct(fs)
    &&& slot_pos(fs, 3) < tx.spec_block_size()
    &&& 1 <= tx.blocks(name).len()
    &&& forall|n: int|
        0 <= n < tx.blocks(name).len() ==> #[trigger] dir_block_ok(
            tx.blocks(name)[n],
            fs,
            tx.spec_block_size() as int,
        )
    &&& forall|n: int|
        0 <= n < tx.blocks(name).len() ==> #[trigger] flag_of(tx.blocks(name)[n]) < tx.blocks(
            name,
        ).len()
    &&& dir_children_ok(tx, name, fs)
}

/// The block that the search for `key` reaches from block `n` of the
/// directory file `name`: at each level the child that `key` falls in, down
/// from a level-0 block to its child, a leaf block.
pub open spec fn descend(tx: &Transaction, name: Seq<char>, fs: Seq<FieldSpec>, n: int, key: ConstVal) -> int
    decreases flag_of(tx.blocks(name)[n]),
{
    let b = tx.blocks(name)[n];
    let c = child_for(recs_of(b, fs), key);
    if flag_of(b) > 0 && 0 <= c < tx.blocks(name).len() && 0 <= flag_of(tx.blocks(name)[c]) < flag_of(
        b,
    ) {
        descend(tx, name, fs, c, key)
    } else {
        c
    }
}

/// Whether `c` is the child of a record of a level-0 block of the directory
/// file `name`: a leaf block that the directory reaches.
pub open spec fn level0_child(tx: &Transaction, name: Seq<char>, fs: Seq<FieldSpec>, c: int) -> bool {
    exists|n: int, i: int|
        0 <= n < tx.blocks(name).len() && flag_of(tx.blocks(name)[n]) == 0 && 0 <= i < recs_of(
            tx.blocks(name)[n],
            fs,
        ).len() && child_of(#[trigger] recs_of(tx.blocks(name)[n], fs)[i]) == c
}

/// The directory record of the entry with value `val` and block `blk`.
pub open spec fn dir_rec(val: ConstVal, blk: i32) -> Seq<ConstVal> {
    seq![ConstVal::Int(blk), val]
}

/// Slot positions grow strictly with the slot.
pub proof fn lemma_slot_pos_strict(fs: Seq<FieldSpec>, a: int, b: int)
    requires
        fields_fit(fs),
        0 <= a < b,
    ensures
        slot_pos(fs, a) < slot_pos(fs, b),
{
    crate::index::btree::page_format::lemma_slot_order(fs, a, b);
    crate::record::layout::lemma_sum_bytes_nonneg(fs);
}

/// A full page of `k` records, in a file whose pages hold three records,
/// splits at `k / 2` into two pages of at least one record with room for one more.
pub proof fn lemma_split_room(fs: Seq<FieldSpec>, k: int, bs: int)
    requires
        fields_fit(fs),
        slot_pos(fs, 3) < bs,
        slot_pos(fs, k) <= bs,
        slot_pos(fs, k + 1) >= bs,
        k >= 0,
    ensures
        k >= 3,
        1 <= k / 2,
        1 <= k - k / 2,
        slot_pos(fs, k / 2 + 1) < bs,
        slot_pos(fs, k - k / 2 + 1) < bs,
{
    if k < 3 {
        if k + 1 < 3 {
            lemma_slot_pos_strict(fs, k + 1, 3);
        }
    }
    if k >= 4 {
        lemma_slot_pos_strict(fs, k / 2 + 1, k);
        lemma_slot_pos_strict(fs, k - k / 2 + 1, k);
    } else if k == 3 {
        lemma_slot_pos_strict(fs, 2, 3);
    }
}

/// A change of block `n` of a directory file, perhaps with a new last block
/// of the same level, keeps the file well formed when the changed blocks are
/// good directory blocks whose records, above level 0, name blocks one level below.
pub proof fn lemma_dir_ok_after_change(
    tx0: &Transaction,
    tx1: &Transaction,
    name: Seq<char>,
    fs: Seq<FieldSpec>,
    n: int,
    grew: bool,
)
    requires
        dir_file_ok(tx0, name, fs),
        0 <= n < tx0.blocks(name).len(),
        tx1.wf(),
        tx1.spec_block_size() == tx0.spec_block_size(),
        tx1.blocks(name).len() == tx0.blocks(name).len() + if grew {
            1int
        } else {
            0int
        },
        forall|m: int|
            0 <= m < tx0.blocks(name).len() && m != n ==> #[trigger] tx1.blocks(name)[m]
                == tx0.blocks(name)[m],
        flag_of(tx1.blocks(name)[n]) == flag_of(tx0.blocks(name)[n]),
        grew ==> flag_of(tx1.blocks(name)[tx0.blocks(name).len() as int]) == flag_of(
            tx0.blocks(name)[n],
        ),
        dir_block_ok(tx1.blocks(name)[n], fs, tx0.spec_block_size() as int),
        grew ==> dir_block_ok(
            tx1.blocks(name)[tx0.blocks(name).len() as int],
            fs,
            tx0.spec_block_size() as int,
        ),
        flag_of(tx0.blocks(name)[n]) > 0 ==> forall|m: int, i: int|
            (m == n || (grew && m == tx0.blocks(name).len())) && 0 <= i < recs_of(
                tx1.blocks(name)[m],
                fs,
            ).len() ==> {
                let c = child_of(#[trigger] recs_of(tx1.blocks(name)[m], fs)[i]);
                &&& 1 <= c < tx0.blocks(name).len()
                &&& flag_of(tx0.blocks(name)[c]) == flag_of(tx0.blocks(name)[n]) - 1
            },
    ensures
        dir_file_ok(tx1, name, fs),
{
    let len0 = tx0.blocks(name).len() as int;
    let b0 = tx0.blocks(name);
    let b1 = tx1.blocks(name);
    assert forall|m: int| 0 <= m < b1.len() implies #[trigger] dir_block_ok(
        b1[m],
        fs,
        tx1.spec_block_size() as int,
    ) by {
        if m != n && m < len0 {
            assert(dir_block_ok(b0[m], fs, tx0.spec_block_size() as int));
        }
    }
    assert forall|m: int| 0 <= m < b1.len() implies #[trigger] flag_of(b1[m]) < b1.len() by {
        if m != n && m < len0 {
            assert(flag_of(b0[m]) < len0);
        } else {
            assert(flag_of(b0[n]) < len0);
        }
    }
    assert forall|m: int, i: int|
        0 <= m < b1.len() && flag_of(b1[m]) > 0 && 0 <= i < recs_of(b1[m], fs).len() implies {
        let c = child_of(#[trigger] recs_of(b1[m], fs)[i]);
        &&& 1 <= c < b1.len()
        &&& flag_of(b1[c]) == flag_of(b1[m]) - 1
    } by {
        let c = child_of(recs_of(b1[m], fs)[i]);
        if m == n || m == len0 {
            assert(1 <= c < len0 && flag_of(b0[c]) == flag_of(b0[n]) - 1);
            assert(c != n);
            assert(b1[c] == b0[c]);
        } else {
            assert(b1[m] == b0[m]);
            assert(recs_of(b0[m], fs)[i] == recs_of(b1[m], fs)[i]);
            assert(1 <= c < len0 && flag_of(b0[c]) == flag_of(b0[m]) - 1);
            if c != n {
                assert(b1[c] == b0[c]);
            }
        }
    }
}

/// Level-0 children after a change of block `n` (and perhaps a new last
/// block) come from before, or are `extra`, when the changed blocks hold only
/// the entry `erec` or records that block `n` held.
pub proof fn lemma_level0_after_change(
    tx0: &Transaction,
    tx1: &Transaction,
    name: Seq<char>,
    fs: Seq<FieldSpec>,
    n: int,
    grew: bool,
    erec: Seq<ConstVal>,
)
    requires
        0 <= n < tx0.blocks(name).len(),
        tx1.blocks(name).len() == tx0.blocks(name).len() + if grew {
            1int
        } else {
            0int
        },
        forall|m: int|
            0 <= m < tx0.blocks(name).len() && m != n ==> #[trigger] tx1.blocks(name)[m]
                == tx0.blocks(name)[m],
        flag_of(tx1.blocks(name)[n]) == flag_of(tx0.blocks(name)[n]),
        grew ==> flag_of(tx1.blocks(name)[tx0.blocks(name).len() as int]) == flag_of(
            tx0.blocks(name)[n],
        ),
        forall|m: int, i: int|
            (m == n || (grew && m == tx0.blocks(name).len())) && 0 <= i < recs_of(
                tx1.blocks(name)[m],
                fs,
            ).len() ==> #[trigger] recs_of(tx1.blocks(name)[m], fs)[i] == erec || recs_of(
                tx0.blocks(name)[n],
                fs,
            ).contains(recs_of(tx1.blocks(name)[m], fs)[i]),
    ensures
        forall|c: int|
            #[trigger] level0_child(tx1, name, fs, c) ==> level0_child(tx0, name, fs, c) || (c
                == child_of(erec) && flag_of(tx0.blocks(name)[n]) == 0),
{
    let len0 = tx0.blocks(name).len() as int;
    let b0 = tx0.blocks(name);
    let b1 = tx1.blocks(name);
    assert forall|c: int| #[trigger] level0_child(tx1, name, fs, c) implies level0_child(
        tx0,
        name,
        fs,
        c,
    ) || (c == child_of(erec) && flag_of(tx0.blocks(name)[n]) == 0) by {
        let (m, i) = choose|m: int, i: int|
            0 <= m < b1.len() && flag_of(b1[m]) == 0 && 0 <= i < recs_of(b1[m], fs).len()
                && child_of(#[trigger] recs_of(b1[m], fs)[i]) == c;
        if m == n || m == len0 {
            let x = recs_of(b1[m], fs)[i];
            if x != erec {
                let j = choose|j: int| 0 <= j < recs_of(b0[n], fs).len() && recs_of(b0[n], fs)[j] == x;
                assert(child_of(recs_of(b0[n], fs)[j]) == c);
            }
        } else {
            assert(b1[m] == b0[m]);
            assert(recs_of(b0[m], fs)[i] == recs_of(b1[m], fs)[i]);
        }
    }
}

/// What an insertion of an entry for block `eblk` through block `p` of level
/// `level` of the directory file `name` leaves: a well-formed file with at
/// most one new block per level from `level` down, the same flags, the blocks
/// of level `level` or more other than `p` as they were, and, at level 0, the
/// children of before and `eblk`.
pub open spec fn dir_insert_done(
    tx0: &Transaction,
    tx1: &Transaction,
    name: Seq<char>,
    fs: Seq<FieldSpec>,
    p: int,
    level: int,
    eblk: int,
) -> bool {
    let len0 = tx0.blocks(name).len();
    let len1 = tx1.blocks(name).len();
    &&& dir_file_ok(tx1, name, fs)
    &&& tx1.spec_block_size() == tx0.spec_block_size()
    &&& len0 <= len1 <= len0 + level + 1
    &&& forall|nm: Seq<char>| nm != name ==> #[trigger] tx1.blocks(nm) == tx0.blocks(nm)
    &&& forall|m: int|
        0 <= m < len0 ==> #[trigger] flag_of(tx1.blocks(name)[m]) == flag_of(tx0.blocks(name)[m])
    &&& forall|m: int|
        0 <= m < len0 && m != p && flag_of(tx0.blocks(name)[m]) >= level ==> #[trigger] tx1.blocks(
            name,
        )[m] == tx0.blocks(name)[m]
    &&& forall|c: int|
        #[trigger] level0_child(tx1, name, fs, c) ==> level0_child(tx0, name, fs, c) || c == eblk
}

/// The records of `r1` are `erec` or records of `recs`.
pub open spec fn from_recs(r1: Seq<Seq<ConstVal>>, recs: Seq<Seq<ConstVal>>, erec: Seq<ConstVal>) -> bool {
    forall|i: int| 0 <= i < r1.len() ==> #[trigger] r1[i] == erec || recs.contains(r1[i])
}

/// Inserting `erec` gives records that are `erec` or were there, and so do
/// the two parts of a split.
pub proof fn lemma_from_recs(recs: Seq<Seq<ConstVal>>, k: int, erec: Seq<ConstVal>, sp: int)
    requires
        0 <= k <= recs.len(),
        0 <= sp <= recs.len() + 1,
    ensures
        from_recs(recs.insert(k, erec), recs, erec),
        from_recs(recs.insert(k, erec).take(sp), recs, erec),
        from_recs(recs.insert(k, erec).skip(sp), recs, erec),
{
    let r1 = recs.insert(k, erec);
    assert forall|i: int| 0 <= i < r1.len() implies #[trigger] r1[i] == erec || recs.contains(r1[i]) by {
        if i < k {
            assert(r1[i] == recs[i]);
        } else if i > k {
            assert(r1[i] == recs[i - 1]);
        }
    }
    assert forall|i: int| 0 <= i < r1.take(sp).len() implies #[trigger] r1.take(sp)[i] == erec
        || recs.contains(r1.take(sp)[i]) by {
        assert(r1.take(sp)[i] == r1[i]);
    }
    assert forall|i: int| 0 <= i < r1.skip(sp).len() implies #[trigger] r1.skip(sp)[i] == erec
        || recs.contains(r1.skip(sp)[i]) by {
        assert(r1.skip(sp)[i] == r1[i + sp]);
    }
}

/// What inserting the entry (`val`, `blk`) into the page `page` does: the
/// entry goes after the records below `val`; a page that is then full splits
/// at its middle record into a new last block of the file, of the same flag,
/// and the entry for that block is returned.
pub open spec fn entry_inserted(
    page: BTPage,
    tx0: &Transaction,
    tx1: &Transaction,
    val: ConstVal,
    blk: i32,
    r: Option<DirEntry>,
) -> bool {
    let fs = page.fs();
    let name = page.blk().unwrap().spec_file_name();
    let len = tx0.blocks(name).len() as int;
    let recs = page.recs(tx0);
    let r1 = recs.insert(below_count(recs, val), dir_rec(val, blk));
    let here = tx1.block(page.blk().unwrap());
    let flag = page.flag(tx0);
    if slot_pos(fs, r1.len() + 1int) < tx0.spec_block_size() {
        &&& r is None
        &&& tx0.same_but(*tx1, page.blk().unwrap(), here)
        &&& recs_of(here, fs) == r1
        &&& flag_of(here) == flag
    } else {
        let sp = (r1.len() / 2) as int;
        let newb = tx1.blocks(name)[len];
        &&& r matches Some(d) && d.spec_data_val() == dv(r1[sp]) && d.spec_block_number() == len
            && val_fits(d.spec_data_val(), fs[1])
        &&& page.grew_by_one(tx0, tx1)
        &&& recs_of(here, fs) == r1.take(sp)
        &&& flag_of(here) == flag
        &&& page_wf(newb, fs)
        &&& recs_of(newb, fs) == r1.skip(sp)
        &&& flag_of(newb) == flag
    }
}

/// The entry for a block split off by an entry insertion holds the first
/// value of that block.
pub proof fn lemma_split_entry_value(
    page: BTPage,
    tx0: &Transaction,
    tx1: &Transaction,
    val: ConstVal,
    blk: i32,
    r: Option<DirEntry>,
)
    requires
        entry_inserted(page, tx0, tx1, val, blk, r),
    ensures
        r matches Some(d) ==> {
            let nb = tx1.blocks(page.blk().unwrap().spec_file_name())[d.spec_block_number() as int];
            &&& recs_of(nb, page.fs()).len() >= 1
            &&& d.spec_data_val() == dv(recs_of(nb, page.fs())[0])
        },
{
    let recs = page.recs(tx0);
    let r1 = recs.insert(below_count(recs, val), dir_rec(val, blk));
    lemma_below_count_range(recs, val);
    let sp = (r1.len() / 2) as int;
    if r is Some {
        assert(r1.skip(sp)[0] == r1[sp]);
    }
}

/// `below_count` counts at most all the records.
pub proof fn lemma_below_count_range(recs: Seq<Seq<ConstVal>>, key: ConstVal)
    ensures
        0 <= below_count(recs, key) <= recs.len(),
    decreases recs.len(),
{
    if recs.len() > 0 {
        lemma_below_count_range(recs.drop_first(), key);
    }
}

/// Every block of the directory file `name` holds its records in the order
/// of their values.
pub open spec fn dir_sorted(tx: &Transaction, name: Seq<char>, fs: Seq<FieldSpec>) -> bool {
    forall|n: int| 0 <= n < tx.blocks(name).len() ==> #[trigger] sorted(recs_of(tx.blocks(name)[n], fs))
}

/// An entry insertion that leaves its block, and the block split off from
/// it, sorted keeps a sorted directory file sorted.
pub proof fn lemma_sorted_after_entry(
    page: BTPage,
    tx0: &Transaction,
    tx1: &Transaction,
    val: ConstVal,
    blk: i32,
    r: Option<DirEntry>,
)
    requires
        entry_inserted(page, tx0, tx1, val, blk, r),
        page.blk() is Some,
        tx0.has_block(page.blk().unwrap()),
        dir_sorted(tx0, page.blk().unwrap().spec_file_name(), page.fs()),
        sorted(recs_of(tx1.block(page.blk().unwrap()), page.fs())),
        r matches Some(d) ==> sorted(
            recs_of(tx1.blocks(page.blk().unwrap().spec_file_name())[d.spec_block_number() as int], page.fs()),
        ),
    ensures
        dir_sorted(tx1, page.blk().unwrap().spec_file_name(), page.fs()),
{
    let name = page.blk().unwrap().spec_file_name();
    let p = page.blk().unwrap().spec_number() as int;
    let len0 = tx0.blocks(name).len() as int;
    let recs = page.recs(tx0);
    let r1 = recs.insert(below_count(recs, val), dir_rec(val, blk));
    if slot_pos(page.fs(), r1.len() + 1int) < tx0.spec_block_size() {
        assert(tx1.blocks(name) == tx0.blocks(name).update(p, tx1.blocks(name)[p]));
    }
    assert forall|n: int| 0 <= n < tx1.blocks(name).len() implies #[trigger] sorted(
        recs_of(tx1.blocks(name)[n], page.fs()),
    ) by {
        if n != p && n < len0 {
            assert(tx1.blocks(name)[n] == tx0.blocks(name)[n]);
        }
    }
}

/// Block `m` of the directory file `name` is named by a record of a block one
/// level above it.
pub open spec fn parented(tx: &Transaction, name: Seq<char>, fs: Seq<FieldSpec>, m: int) -> bool {
    exists|p: int, i: int|
        0 <= p < tx.blocks(name).len() && flag_of(tx.blocks(name)[p]) == flag_of(tx.blocks(name)[m]) + 1 && 0 <= i
            < recs_of(tx.blocks(name)[p], fs).len() && child_of(#[trigger] recs_of(tx.blocks(name)[p], fs)[i]) == m
}

/// Every block of the directory file `name` but the root is named by a record
/// of a block one level above it, so the search from the root can reach it.
pub open spec fn dir_parented(tx: &Transaction, name: Seq<char>, fs: Seq<FieldSpec>) -> bool {
    forall|m: int| 1 <= m < tx.blocks(name).len() ==> #[trigger] parented(tx, name, fs, m)
}

/// A block of level `level` of the directory file `name` holds the record `rec`.
pub open spec fn held_at_level(tx: &Transaction, name: Seq<char>, fs: Seq<FieldSpec>, level: int, rec: Seq<ConstVal>) -> bool {
    exists|q: int, i: int|
        0 <= q < tx.blocks(name).len() && flag_of(tx.blocks(name)[q]) == level && 0 <= i < recs_of(
            tx.blocks(name)[q],
            fs,
        ).len() && #[trigger] recs_of(tx.blocks(name)[q], fs)[i] == rec
}

/// After an entry insertion into block `p` of level `flag`, every block that
/// was named from one level above still is, and so is the entry's block
/// when it is a directory block; a new block from a split is the one the
/// returned entry names.
pub proof fn lemma_parented_after_entry(
    page: BTPage,
    tx0: &Transaction,
    tx1: &Transaction,
    val: ConstVal,
    blk: i32,
    r: Option<DirEntry>,
)
    requires
        entry_inserted(page, tx0, tx1, val, blk, r),
        page.blk() is Some,
        tx0.has_block(page.blk().unwrap()),
        page.flag(tx0) >= 0,
        forall|m: int|
            1 <= m < tx0.blocks(page.blk().unwrap().spec_file_name()).len() && (page.flag(tx0) == 0 || m != blk)
                ==> #[trigger] parented(tx0, page.blk().unwrap().spec_file_name(), page.fs(), m),
        page.flag(tx0) > 0 ==> {
            &&& 1 <= blk < tx0.blocks(page.blk().unwrap().spec_file_name()).len()
            &&& flag_of(tx0.blocks(page.blk().unwrap().spec_file_name())[blk as int]) == page.flag(tx0) - 1
        },
    ensures
        forall|m: int|
            1 <= m < tx1.blocks(page.blk().unwrap().spec_file_name()).len() ==> #[trigger] parented(
                tx1,
                page.blk().unwrap().spec_file_name(),
                page.fs(),
                m,
            ) || (r matches Some(d) && m == d.spec_block_number()),
{
    let name = page.blk().unwrap().spec_file_name();
    let fs = page.fs();
    let p = page.blk().unwrap().spec_number() as int;
    let len0 = tx0.blocks(name).len() as int;
    let b0 = tx0.blocks(name);
    let b1 = tx1.blocks(name);
    let recs = page.recs(tx0);
    let erec = dir_rec(val, blk);
    let k = below_count(recs, val);
    let r1 = recs.insert(k, erec);
    let flag = page.flag(tx0);
    let split = !(slot_pos(fs, r1.len() + 1int) < tx0.spec_block_size());
    let sp = (r1.len() / 2) as int;
    assert(b0[p] == page.bytes(tx0));
    assert(recs == recs_of(b0[p], fs));
    assert(0 <= k <= recs.len()) by {
        lemma_below_count_range(recs, val);
    }
    if !split {
        assert(b1 == b0.update(p, b1[p]));
    }
    assert(b1[p] == tx1.block(page.blk().unwrap()));
    assert forall|x: int| 0 <= x < len0 implies #[trigger] flag_of(b1[x]) == flag_of(b0[x]) by {
        if x != p {
            assert(b1[x] == b0[x]);
        }
    }
    assert forall|j: int| 0 <= j < r1.len() implies #[trigger] held_at_level(tx1, name, fs, flag as int, r1[j]) by {
        if !split {
            assert(recs_of(b1[p], fs)[j] == r1[j]);
        } else if j < sp {
            assert(recs_of(b1[p], fs) == r1.take(sp));
            assert(recs_of(b1[p], fs)[j] == r1[j]);
        } else {
            assert(recs_of(b1[len0], fs) == r1.skip(sp));
            assert(recs_of(b1[len0], fs)[j - sp] == r1[j]);
        }
    }
    assert forall|m: int| 1 <= m < b1.len() implies #[trigger] parented(tx1, name, fs, m) || (r matches Some(
        d,
    ) && m == d.spec_block_number()) by {
        if m < len0 {
            if flag > 0 && m == blk {
                let j = k;
                assert(r1[j] == erec);
                assert(held_at_level(tx1, name, fs, flag as int, r1[j]));
                let (q, i) = choose|q: int, i: int|
                    0 <= q < b1.len() && flag_of(b1[q]) == flag && 0 <= i < recs_of(b1[q], fs).len() && #[trigger] recs_of(
                        b1[q],
                        fs,
                    )[i] == r1[j];
                assert(child_of(recs_of(tx1.blocks(name)[q], fs)[i]) == m);
            } else {
                assert(parented(tx0, name, fs, m));
                let (q0, i0) = choose|q0: int, i0: int|
                    0 <= q0 < b0.len() && flag_of(b0[q0]) == flag_of(b0[m]) + 1 && 0 <= i0 < recs_of(b0[q0], fs).len()
                        && child_of(#[trigger] recs_of(b0[q0], fs)[i0]) == m;
                if q0 != p {
                    assert(b1[q0] == b0[q0]);
                    assert(child_of(recs_of(tx1.blocks(name)[q0], fs)[i0]) == m);
                } else {
                    let j = if i0 < k { i0 } else { i0 + 1 };
                    assert(r1[j] == recs[i0]);
                    assert(held_at_level(tx1, name, fs, flag as int, r1[j]));
                    let (q, i) = choose|q: int, i: int|
                        0 <= q < b1.len() && flag_of(b1[q]) == flag && 0 <= i < recs_of(b1[q], fs).len() && #[trigger] recs_of(
                            b1[q],
                            fs,
                        )[i] == r1[j];
                    assert(child_of(recs_of(tx1.blocks(name)[q], fs)[i]) == m);
                }
            }
        }
    }
}

/// Every non-root directory block keeps a parent in any state that holds the
/// same blocks for the file.
pub proof fn lemma_parented_frame(t1: &Transaction, t2: &Transaction, name: Seq<char>, fs: Seq<FieldSpec>)
    requires
        dir_parented(t1, name, fs),
        t2.blocks(name) == t1.blocks(name),
    ensures
        dir_parented(t2, name, fs),
{
    assert forall|m: int| 1 <= m < t2.blocks(name).len() implies #[trigger] parented(t2, name, fs, m) by {
        assert(parented(t1, name, fs, m));
    }
}

/// A new root whose records name the block that took the old root's records
/// and the block `eblk` of the old root's level gives every non-root block a
/// parent, where every block but `eblk` had one.
pub proof fn lemma_parented_after_new_root(
    tx0: &Transaction,
    tx1: &Transaction,
    name: Seq<char>,
    fs: Seq<FieldSpec>,
    eval: ConstVal,
    eblk: i32,
)
    requires
        1 <= tx0.blocks(name).len(),
        tx0.blocks(name).len() + 1 < i32::MAX,
        tx1.blocks(name).len() == tx0.blocks(name).len() + 1,
        forall|m: int| 1 <= m < tx0.blocks(name).len() ==> #[trigger] tx1.blocks(name)[m] == tx0.blocks(name)[m],
        recs_of(tx1.blocks(name)[tx0.blocks(name).len() as int], fs) == recs_of(tx0.blocks(name)[0], fs),
        flag_of(tx1.blocks(name)[tx0.blocks(name).len() as int]) == flag_of(tx0.blocks(name)[0]),
        flag_of(tx1.blocks(name)[0]) == flag_of(tx0.blocks(name)[0]) + 1,
        ({
            let first = seq![dir_rec(dv(recs_of(tx0.blocks(name)[0], fs)[0]), tx0.blocks(name).len() as i32)];
            recs_of(tx1.blocks(name)[0], fs) == first.insert(below_count(first, eval), dir_rec(eval, eblk))
        }),
        1 <= eblk < tx0.blocks(name).len(),
        flag_of(tx0.blocks(name)[eblk as int]) == flag_of(tx0.blocks(name)[0]),
        forall|m: int|
            1 <= m < tx0.blocks(name).len() && m != eblk ==> #[trigger] parented(tx0, name, fs, m),
    ensures
        dir_parented(tx1, name, fs),
{
    let len0 = tx0.blocks(name).len() as int;
    let b0 = tx0.blocks(name);
    let b1 = tx1.blocks(name);
    let first = seq![dir_rec(dv(recs_of(b0[0], fs)[0]), len0 as i32)];
    let k = below_count(first, eval);
    lemma_below_count_range(first, eval);
    let rr = recs_of(b1[0], fs);
    assert(rr == first.insert(k, dir_rec(eval, eblk)));
    assert(rr.len() == 2);
    let ko = if k == 0 { 1int } else { 0int };
    assert(rr[ko] == first[0]);
    assert(rr[k] == dir_rec(eval, eblk));
    assert forall|m: int| 1 <= m < b1.len() implies #[trigger] parented(tx1, name, fs, m) by {
        if m == len0 {
            assert(child_of(recs_of(tx1.blocks(name)[0], fs)[ko]) == m);
        } else if m == eblk {
            assert(b1[m] == b0[m]);
            assert(child_of(recs_of(tx1.blocks(name)[0], fs)[k]) == m);
        } else {
            assert(b1[m] == b0[m]);
            assert(parented(tx0, name, fs, m));
            let (q0, i0) = choose|q0: int, i0: int|
                0 <= q0 < b0.len() && flag_of(b0[q0]) == flag_of(b0[m]) + 1 && 0 <= i0 < recs_of(b0[q0], fs).len()
                    && child_of(#[trigger] recs_of(b0[q0], fs)[i0]) == m;
            if q0 == 0 {
                assert(child_of(recs_of(tx1.blocks(name)[len0], fs)[i0]) == m);
            } else {
                assert(b1[q0] == b0[q0]);
                assert(child_of(recs_of(tx1.blocks(name)[q0], fs)[i0]) == m);
            }
        }
    }
}

/// An entry insertion into block `p` of a well-formed directory file keeps it
/// well formed, when an entry above level 0 names a block one level below;
/// it changes block `p` only, perhaps adds a last block of the same flag, and
/// adds no level-0 child but, at level 0, the entry's.
pub proof fn lemma_entry_inserted(
    page: BTPage,
    tx0: &Transaction,
    tx1: &Transaction,
    val: ConstVal,
    blk: i32,
    r: Option<DirEntry>,
)
    requires
        entry_inserted(page, tx0, tx1, val, blk, r),
        page.blk() is Some,
        dir_file_ok(tx0, page.blk().unwrap().spec_file_name(), page.fs()),
        tx0.has_block(page.blk().unwrap()),
        page.slot_in(tx0, num_of(page.bytes(tx0)) as int),
        tx1.wf(),
        page.valid(tx1),
        page.flag(tx0) > 0 ==> {
            &&& 1 <= blk < tx0.blocks(page.blk().unwrap().spec_file_name()).len()
            &&& flag_of(tx0.blocks(page.blk().unwrap().spec_file_name())[blk as int]) == page.flag(
                tx0,
            ) - 1
        },
    ensures
        ({
            let name = page.blk().unwrap().spec_file_name();
            let fs = page.fs();
            let p = page.blk().unwrap().spec_number() as int;
            let len0 = tx0.blocks(name).len();
            let len1 = tx1.blocks(name).len();
            &&& dir_file_ok(tx1, name, fs)
            &&& tx1.spec_block_size() == tx0.spec_block_size()
            &&& len0 <= len1 <= len0 + 1
            &&& forall|nm: Seq<char>| nm != name ==> #[trigger] tx1.blocks(nm) == tx0.blocks(nm)
            &&& forall|m: int|
                0 <= m < len0 ==> #[trigger] flag_of(tx1.blocks(name)[m]) == flag_of(
                    tx0.blocks(name)[m],
                )
            &&& forall|m: int|
                0 <= m < len0 && m != p ==> #[trigger] tx1.blocks(name)[m] == tx0.blocks(name)[m]
            &&& forall|c: int|
                #[trigger] level0_child(tx1, name, fs, c) ==> level0_child(tx0, name, fs, c) || (c
                    == blk && flag_of(tx0.blocks(name)[p]) == 0)
            &&& r matches Some(d) ==> {
                &&& d.spec_block_number() == len0
                &&& len1 == len0 + 1
                &&& flag_of(tx1.blocks(name)[len0 as int]) == flag_of(tx0.blocks(name)[p])
                &&& val_fits(d.spec_data_val(), fs[1])
            }
            &&& dir_entries0(tx1, name, fs) == if flag_of(tx0.blocks(name)[p]) == 0 {
                dir_entries0(tx0, name, fs).insert(dir_rec(val, blk))
            } else {
                dir_entries0(tx0, name, fs)
            }
        }),
{
    let name = page.blk().unwrap().spec_file_name();
    let fs = page.fs();
    let p = page.blk().unwrap().spec_number() as int;
    let len0 = tx0.blocks(name).len() as int;
    let recs = page.recs(tx0);
    let erec = dir_rec(val, blk);
    let k = below_count(recs, val);
    lemma_child_slot(recs, val);
    let r1 = recs.insert(k, erec);
    let sp = (r1.len() / 2) as int;
    lemma_from_recs(recs, k, erec, sp);
    assert(recs == recs_of(tx0.blocks(name)[p], fs));
    assert(dir_block_ok(tx0.blocks(name)[p], fs, tx0.spec_block_size() as int));
    page.lemma_block_len(tx0);
    let grew = !(slot_pos(fs, r1.len() + 1int) < tx0.spec_block_size());
    if grew {
        lemma_split_room(fs, r1.len() as int, tx0.spec_block_size() as int);
    }
    let b1 = tx1.blocks(name);
    if page.flag(tx0) > 0 {
        assert forall|m: int, i: int|
            (m == p || (grew && m == len0)) && 0 <= i < recs_of(b1[m], fs).len() implies {
            let cc = child_of(#[trigger] recs_of(b1[m], fs)[i]);
            &&& 1 <= cc < len0
            &&& flag_of(tx0.blocks(name)[cc]) == flag_of(tx0.blocks(name)[p]) - 1
        } by {
            let x = recs_of(b1[m], fs)[i];
            assert(from_recs(recs_of(b1[m], fs), recs, erec));
            if x != erec {
                let j = choose|j: int| 0 <= j < recs.len() && recs[j] == x;
                assert(recs_of(tx0.blocks(name)[p], fs)[j] == x);
            }
        }
    }
    assert forall|m: int, i: int|
        (m == p || (grew && m == len0)) && 0 <= i < recs_of(b1[m], fs).len() implies #[trigger] recs_of(
        b1[m],
        fs,
    )[i] == erec || recs_of(tx0.blocks(name)[p], fs).contains(recs_of(b1[m], fs)[i]) by {
        assert(from_recs(recs_of(b1[m], fs), recs, erec));
    }
    let here = tx1.blocks(name)[p];
    assert(page_wf(here, fs));
    assert(flag_of(here) >= 0);
    assert(r1.len() == recs.len() + 1);
    assert(here == tx1.block(page.blk().unwrap()));
    if grew {
        assert(recs_of(here, fs).len() == sp);
        let newb = tx1.blocks(name)[len0];
        assert(recs_of(newb, fs) == r1.skip(sp));
        assert(recs_of(newb, fs).len() == r1.len() - sp);
        assert(flag_of(newb) >= 0);
        assert(num_of(newb) >= 1);
        assert(dir_block_ok(newb, fs, tx0.spec_block_size() as int));
    } else {
        assert(recs_of(here, fs) == r1);
        assert(recs_of(here, fs).len() == r1.len());
    }
    assert(num_of(here) >= 1);
    assert(slot_pos(fs, num_of(here) + 1) < tx0.spec_block_size());
    lemma_dir_ok_after_change(tx0, tx1, name, fs, p, grew);
    lemma_level0_after_change(tx0, tx1, name, fs, p, grew, erec);
    assert(r1.to_multiset() == recs.to_multiset().insert(erec)) by {
        vstd::seq_lib::to_multiset_insert(recs, k, erec);
    }
    if grew {
        assert(r1 =~= r1.take(sp) + r1.skip(sp));
        vstd::seq_lib::lemma_multiset_commutative(r1.take(sp), r1.skip(sp));
    }
    lemma_level0_after_insert(tx0, tx1, name, fs, p, grew, erec);
}

/// An insertion below block `p` of level `level`, through its child `c`,
/// followed by an entry insertion into `p`, is an insertion through `p`.
pub proof fn lemma_insert_compose(
    tx0: &Transaction,
    txm: &Transaction,
    tx1: &Transaction,
    name: Seq<char>,
    fs: Seq<FieldSpec>,
    p: int,
    c: int,
    level: int,
    eblk: int,
)
    requires
        level > 0,
        0 <= p < tx0.blocks(name).len(),
        flag_of(tx0.blocks(name)[p]) == level,
        0 <= c < tx0.blocks(name).len(),
        flag_of(tx0.blocks(name)[c]) == level - 1,
        dir_insert_done(tx0, txm, name, fs, c, level - 1, eblk),
        ({
            let len0 = txm.blocks(name).len();
            let len1 = tx1.blocks(name).len();
            &&& dir_file_ok(tx1, name, fs)
            &&& tx1.spec_block_size() == txm.spec_block_size()
            &&& len0 <= len1 <= len0 + 1
            &&& forall|nm: Seq<char>| nm != name ==> #[trigger] tx1.blocks(nm) == txm.blocks(nm)
            &&& forall|m: int|
                0 <= m < len0 ==> #[trigger] flag_of(tx1.blocks(name)[m]) == flag_of(
                    txm.blocks(name)[m],
                )
            &&& forall|m: int|
                0 <= m < len0 && m != p ==> #[trigger] tx1.blocks(name)[m] == txm.blocks(name)[m]
            &&& forall|cc: int|
                #[trigger] level0_child(tx1, name, fs, cc) ==> level0_child(txm, name, fs, cc) || (
                false)
        }),
    ensures
        dir_insert_done(tx0, tx1, name, fs, p, level, eblk),
{
    let len0 = tx0.blocks(name).len();
    assert forall|m: int|
        0 <= m < len0 && m != p && flag_of(tx0.blocks(name)[m]) >= level implies #[trigger] tx1.blocks(
        name,
    )[m] == tx0.blocks(name)[m] by {
        assert(txm.blocks(name)[m] == tx0.blocks(name)[m]);
    }
    assert forall|m: int| 0 <= m < len0 implies #[trigger] flag_of(tx1.blocks(name)[m]) == flag_of(
        tx0.blocks(name)[m],
    ) by {
        assert(flag_of(txm.blocks(name)[m]) == flag_of(tx0.blocks(name)[m]));
    }
    assert forall|cc: int| #[trigger] level0_child(tx1, name, fs, cc) implies level0_child(
        tx0,
        name,
        fs,
        cc,
    ) || cc == eblk by {
        assert(level0_child(txm, name, fs, cc));
    }
}

/// A new root keeps a directory file well formed: the old root's records move
/// to a new last block of the old root's level, and the root, one level up,
/// holds two records that name that block and `eblk`, a block of that level.
pub proof fn lemma_new_root(tx0: &Transaction, tx1: &Transaction, name: Seq<char>, fs: Seq<FieldSpec>, eblk: int)
    requires
        dir_file_ok(tx0, name, fs),
        tx1.wf(),
        tx1.spec_block_size() == tx0.spec_block_size(),
        tx1.blocks(name).len() == tx0.blocks(name).len() + 1,
        forall|m: int|
            1 <= m < tx0.blocks(name).len() ==> #[trigger] tx1.blocks(name)[m] == tx0.blocks(name)[m],
        page_wf(tx1.blocks(name)[tx0.blocks(name).len() as int], fs),
        recs_of(tx1.blocks(name)[tx0.blocks(name).len() as int], fs) == recs_of(tx0.blocks(name)[0], fs),
        flag_of(tx1.blocks(name)[tx0.blocks(name).len() as int]) == flag_of(tx0.blocks(name)[0]),
        page_wf(tx1.blocks(name)[0], fs),
        flag_of(tx1.blocks(name)[0]) == flag_of(tx0.blocks(name)[0]) + 1,
        recs_of(tx1.blocks(name)[0], fs).len() == 2,
        forall|i: int|
            0 <= i < 2 ==> child_of(#[trigger] recs_of(tx1.blocks(name)[0], fs)[i]) == tx0.blocks(
                name,
            ).len() || child_of(recs_of(tx1.blocks(name)[0], fs)[i]) == eblk,
        1 <= eblk < tx0.blocks(name).len(),
        flag_of(tx0.blocks(name)[eblk]) == flag_of(tx0.blocks(name)[0]),
    ensures
        dir_file_ok(tx1, name, fs),
        forall|c: int| #[trigger] level0_child(tx1, name, fs, c) ==> level0_child(tx0, name, fs, c),
{
    let len0 = tx0.blocks(name).len() as int;
    let b0 = tx0.blocks(name);
    let b1 = tx1.blocks(name);
    let bs = tx0.spec_block_size() as int;
    assert(dir_block_ok(b0[0], fs, bs));
    assert(flag_of(b0[0]) < len0);
    assert(recs_of(b1[len0], fs).len() == recs_of(b0[0], fs).len());
    assert(num_of(b1[len0]) == num_of(b0[0]));
    assert(num_of(b1[0]) == 2);
    assert forall|m: int| 0 <= m < b1.len() implies #[trigger] dir_block_ok(b1[m], fs, tx1.spec_block_size() as int) by {
        if 1 <= m < len0 {
            assert(dir_block_ok(b0[m], fs, bs));
        }
    }
    assert forall|m: int| 0 <= m < b1.len() implies #[trigger] flag_of(b1[m]) < b1.len() by {
        if 1 <= m < len0 {
            assert(flag_of(b0[m]) < len0);
        }
    }
    assert forall|m: int, i: int|
        0 <= m < b1.len() && flag_of(b1[m]) > 0 && 0 <= i < recs_of(b1[m], fs).len() implies {
        let c = child_of(#[trigger] recs_of(b1[m], fs)[i]);
        &&& 1 <= c < b1.len()
        &&& flag_of(b1[c]) == flag_of(b1[m]) - 1
    } by {
        let c = child_of(recs_of(b1[m], fs)[i]);
        if m == 0 {
            if c != len0 {
                assert(b1[eblk] == b0[eblk]);
            }
        } else if m == len0 {
            assert(recs_of(b1[m], fs)[i] == recs_of(b0[0], fs)[i]);
            assert(1 <= c < len0 && flag_of(b0[c]) == flag_of(b0[0]) - 1);
            assert(b1[c] == b0[c]);
        } else {
            assert(b1[m] == b0[m]);
            assert(recs_of(b0[m], fs)[i] == recs_of(b1[m], fs)[i]);
            assert(1 <= c < len0 && flag_of(b0[c]) == flag_of(b0[m]) - 1);
            assert(b1[c] == b0[c]);
        }
    }
    assert forall|c: int| #[trigger] level0_child(tx1, name, fs, c) implies level0_child(tx0, name, fs, c) by {
        let (m, i) = choose|m: int, i: int|
            0 <= m < b1.len() && flag_of(b1[m]) == 0 && 0 <= i < recs_of(b1[m], fs).len()
                && child_of(#[trigger] recs_of(b1[m], fs)[i]) == c;
        if m == len0 {
            assert(recs_of(b1[m], fs)[i] == recs_of(b0[0], fs)[i]);
        } else if m != 0 {
            assert(b1[m] == b0[m]);
            assert(recs_of(b0[m], fs)[i] == recs_of(b1[m], fs)[i]);
        }
    }
}

/// A B-tree directory block.
pub struct BTreeDir {
    layout: Layout,
    contents: BTPage,
    filename: String,
}

impl BTreeDir {
    /// The page the directory is on.
    pub closed spec fn page(&self) -> BTPage {
        self.contents
    }

    /// The directory file.
    pub closed spec fn file(&self) -> Seq<char> {
        self.filename@
    }

    /// The fields of the directory records.
    pub open spec fn fs(&self) -> Seq<FieldSpec> {
        self.page().fs()
    }

    /// The block the directory is on.
    pub open spec fn blk(&self) -> BlockId {
        self.page().blk().unwrap()
    }

    /// The directory's own copy of the layout is the page's.
    pub closed spec fn layout_matches(&self) -> bool {
        &&& self.layout.wf()
        &&& self.layout.fields() == self.contents.fs()
    }

    /// The directory is open on a block of a well-formed directory file.
    pub open spec fn valid(&self, tx: &Transaction) -> bool {
        &&& dir_file_ok(tx, self.file(), self.fs())
        &&& self.page().blk() is Some
        &&& self.blk().spec_file_name() == self.file()
        &&& tx.has_block(self.blk())
        &&& self.page().placed(tx)
        &&& self.layout_matches()
    }

    /// A valid directory is on a well-formed page of its file.
    pub proof fn lemma_valid(&self, tx: &Transaction)
        requires
            self.valid(tx),
        ensures
            self.page().valid(tx),
            self.page().indexed(tx),
            dir_block_ok(self.page().bytes(tx), self.fs(), tx.spec_block_size() as int),
            self.page().bytes(tx).len() == tx.spec_block_size(),
            self.page().recs(tx).len() == num_of(self.page().bytes(tx)),
            num_of(self.page().bytes(tx)) + 1 < i32::MAX,
            self.page().slot_in(tx, num_of(self.page().bytes(tx)) as int),
    {
        let n = self.blk().spec_number() as int;
        assert(dir_block_ok(tx.blocks(self.file())[n], self.fs(), tx.spec_block_size() as int));
        self.page().lemma_block_len(tx);
        crate::index::btree::page_format::lemma_slot_pos_ge(self.fs(), num_of(self.page().bytes(tx)) as int);
    }

    /// Opens the directory block `blk`.
    pub fn new(blk: BlockId, layout: Layout) -> (r: Self)
        requires
            layout.wf(),
        ensures
            r.page().blk() == Some(blk),
            r.file() == blk.spec_file_name(),
            r.fs() == layout.fields(),
            r.layout_matches(),
            r.page().layout_ok() == names_distinct(layout.fields()),
    {
        let filename = blk.file_name().to_owned();
        let contents = BTPage::new(blk, layout.clone());
        BTreeDir { layout, contents, filename }
    }

    /// Closes the directory page.
    pub fn close(&mut self)
        ensures
            final(self).page().blk() is None,
    {
        self.contents.close();
    }

    /// The block of the child that the directory page gives for `searchkey`.
    fn find_child_block(&self, tx: &Transaction, searchkey: &Constant) -> (r: BlockId)
        requires
            self.valid(tx),
            kind_fits(searchkey@, self.fs()[1]),
        ensures
            r.spec_file_name() == self.file(),
            r.spec_number() == child_for(self.page().recs(tx), searchkey@),
    {
        proof {
            self.lemma_valid(tx);
            self.page().lemma_keys_comparable(tx, searchkey@);
        }
        let ghost recs = self.page().recs(tx);
        let mut slot = self.contents.find_slot_before(tx, searchkey);
        proof {
            lemma_below_count(recs, searchkey@, slot as int);
        }
        let num = self.contents.get_num_recs(tx);
        if slot + 1 < num {
            proof {
                crate::index::btree::page_format::lemma_slot_pos_mono(self.fs(), slot + 2, num as int);
            }
            let dataval = self.contents.get_data_val(tx, slot + 1);
            if dataval.equals(searchkey) {
                slot = slot + 1;
            }
        }
        if slot < 0 {
            slot = 0;
        }
        proof {
            crate::index::btree::page_format::lemma_slot_pos_mono(self.fs(), slot + 1, num as int);
        }
        let blknum = self.contents.get_child_num(tx, slot);
        BlockId::new(self.filename.clone(), blknum)
    }

    /// The number of the leaf block that the search for `searchkey` reaches
    /// from this directory block; the directory moves down to the level-0
    /// block on the way.
    pub fn search(&mut self, tx: &Transaction, searchkey: &Constant) -> (r: i32)
        requires
            old(self).valid(tx),
            kind_fits(searchkey@, old(self).fs()[1]),
        ensures
            final(self).valid(tx),
            final(self).file() == old(self).file(),
            final(self).fs() == old(self).fs(),
            r == descend(tx, old(self).file(), old(self).fs(), old(self).blk().spec_number() as int, searchkey@),
            level0_child(tx, old(self).file(), old(self).fs(), r as int),
    {
        let ghost name = self.file();
        let ghost fs = self.fs();
        let ghost start = self.blk().spec_number() as int;
        let mut childblk = self.find_child_block(tx, searchkey);
        proof {
            self.lemma_valid(tx);
        }
        while self.contents.get_flag(tx) > 0
            invariant
                self.valid(tx),
                self.file() == name,
                self.fs() == fs,
                kind_fits(searchkey@, fs[1]),
                childblk.spec_file_name() == name,
                childblk.spec_number() == child_for(self.page().recs(tx), searchkey@),
                descend(tx, name, fs, start, searchkey@) == descend(
                    tx,
                    name,
                    fs,
                    self.blk().spec_number() as int,
                    searchkey@,
                ),
            decreases self.page().flag(tx),
        {
            proof {
                self.lemma_valid(tx);
                let n = self.blk().spec_number() as int;
                let c = childblk.spec_number() as int;
                let recs = self.page().recs(tx);
                lemma_child_slot(recs, searchkey@);
                let i = child_slot(recs, searchkey@);
                assert(recs_of(tx.blocks(name)[n], fs)[i] == recs[i]);
                assert(1 <= c < tx.blocks(name).len());
            }
            self.contents.close();
            self.contents = BTPage::new(childblk.clone(), self.layout.clone());
            proof {
                self.layout.lemma_wf();
            }
            childblk = self.find_child_block(tx, searchkey);
        }
        proof {
            self.lemma_valid(tx);
            let n = self.blk().spec_number() as int;
            let recs = self.page().recs(tx);
            lemma_child_slot(recs, searchkey@);
            let i = child_slot(recs, searchkey@);
            assert(recs_of(tx.blocks(name)[n], fs)[i] == recs[i]);
        }
        childblk.number()
    }

    /// Inserts the entry `e` into the directory page, after the records below
    /// its value; splits the page when it is then full, returning the entry
    /// for the new block.
    fn insert_entry(&self, tx: &mut Transaction, e: &DirEntry) -> (r: Option<DirEntry>)
        requires
            self.page().indexed(old(tx)),
            dir_layout(self.fs()),
            self.layout_matches(),
            self.page().slot_in(old(tx), num_of(self.page().bytes(old(tx))) as int),
            val_fits(e.spec_data_val(), self.fs()[1]),
            old(tx).blocks(self.blk().spec_file_name()).len() + 1 < i32::MAX,
        ensures
            final(tx).wf(),
            self.page().valid(final(tx)),
            entry_inserted(
                self.page(),
                old(tx),
                final(tx),
                e.spec_data_val(),
                e.spec_block_number(),
                r,
            ),
            sorted(self.page().recs(old(tx))) ==> sorted(
                recs_of(final(tx).block(self.blk()), self.fs()),
            ) && (r matches Some(d) ==> {
                let nb = final(tx).blocks(self.blk().spec_file_name())[d.spec_block_number() as int];
                &&& sorted(recs_of(nb, self.fs()))
                &&& forall|i: int|
                    0 <= i < recs_of(final(tx).block(self.blk()), self.fs()).len() ==> val_order(
                        #[trigger] dv(recs_of(final(tx).block(self.blk()), self.fs())[i]),
                        d.spec_data_val(),
                    ) <= 0
            }),
    {
        let ghost tx0 = *tx;
        let ghost recs = self.page().recs(tx);
        proof {
            self.page().lemma_block_len(tx);
            self.page().lemma_keys_comparable(tx, e.spec_data_val());
        }
        let before = self.contents.find_slot_before(tx, e.data_val());
        proof {
            lemma_below_count(recs, e.spec_data_val(), before as int);
            let r1 = recs.insert(before + 1, dir_rec(e.spec_data_val(), e.spec_block_number()));
            if sorted(recs) {
                lemma_insert_sorted(recs, before + 1, dir_rec(e.spec_data_val(), e.spec_block_number()), e.spec_data_val());
                let sp = (r1.len() / 2) as int;
                lemma_parts_sorted(r1, sp);
                assert forall|i: int| 0 <= i < r1.take(sp).len() implies val_order(
                    #[trigger] dv(r1.take(sp)[i]),
                    dv(r1[sp]),
                ) <= 0 by {
                    assert(r1.take(sp)[i] == r1[i]);
                }
            }
        }
        let newslot = 1 + before;
        self.contents.insert_dir(tx, newslot, e.data_val(), e.block_number());
        if !self.contents.is_full(tx) {
            return None;
        }
        let ghost tx1 = *tx;
        let ghost r1 = self.page().recs(tx);
        let level = self.contents.get_flag(tx);
        let num = self.contents.get_num_recs(tx);
        let splitpos = num / 2;
        proof {
            self.page().lemma_block_len(tx);
            crate::index::btree::page_format::lemma_slot_pos_mono(self.fs(), splitpos + 1, num as int);
            crate::index::btree::page_format::lemma_rec_fits(self.page().bytes(tx), self.fs(), splitpos as int);
        }
        let splitval = self.contents.get_data_val(tx, splitpos);
        let newblk = self.contents.split(tx, splitpos, level);
        Some(DirEntry::new(splitval, newblk.number()))
    }

    /// Inserts the entry `e` below this directory block: into the level-0
    /// block that the search for its value reaches, splitting full blocks on
    /// the way back up; returns the entry for a new block of this block's
    /// level when this block split.
    pub fn insert(&mut self, tx: &mut Transaction, e: DirEntry) -> (r: Option<DirEntry>)
        requires
            old(self).valid(old(tx)),
            val_fits(e.spec_data_val(), old(self).fs()[1]),
            old(tx).blocks(old(self).file()).len() + old(self).page().flag(old(tx)) + 2 < i32::MAX,
            dir_parented(old(tx), old(self).file(), old(self).fs()),
            dir_sorted(old(tx), old(self).file(), old(self).fs()),
        ensures
            *final(self) == *old(self),
            final(self).valid(final(tx)),
            dir_insert_done(
                old(tx),
                final(tx),
                old(self).file(),
                old(self).fs(),
                old(self).blk().spec_number() as int,
                old(self).page().flag(old(tx)) as int,
                e.spec_block_number() as int,
            ),
            dir_entries0(final(tx), old(self).file(), old(self).fs()) == dir_entries0(
                old(tx),
                old(self).file(),
                old(self).fs(),
            ).insert(dir_rec(e.spec_data_val(), e.spec_block_number())),
            r matches Some(d) ==> {
                &&& old(tx).blocks(old(self).file()).len() <= d.spec_block_number()
                &&& d.spec_block_number() < final(tx).blocks(old(self).file()).len()
                &&& flag_of(final(tx).blocks(old(self).file())[d.spec_block_number() as int])
                    == old(self).page().flag(old(tx))
                &&& val_fits(d.spec_data_val(), old(self).fs()[1])
                &&& recs_of(final(tx).blocks(old(self).file())[d.spec_block_number() as int], old(self).fs()).len() >= 1
                &&& d.spec_data_val() == dv(
                    recs_of(final(tx).blocks(old(self).file())[d.spec_block_number() as int], old(self).fs())[0],
                )
                &&& forall|i: int|
                    0 <= i < recs_of(final(tx).block(old(self).blk()), old(self).fs()).len() ==> val_order(
                        #[trigger] dv(recs_of(final(tx).block(old(self).blk()), old(self).fs())[i]),
                        d.spec_data_val(),
                    ) <= 0
            },
            dir_sorted(final(tx), old(self).file(), old(self).fs()),
            forall|m: int|
                1 <= m < final(tx).blocks(old(self).file()).len() ==> #[trigger] parented(
                    final(tx),
                    old(self).file(),
                    old(self).fs(),
                    m,
                ) || (r matches Some(d) && m == d.spec_block_number()),
        decreases old(self).page().flag(old(tx)),
    {
        let ghost tx0 = *tx;
        let ghost name = self.file();
        let ghost fs = self.fs();
        let ghost p = self.blk().spec_number() as int;
        let ghost len0 = tx0.blocks(name).len() as int;
        let ghost level = self.page().flag(&tx0) as int;
        proof {
            self.lemma_valid(tx);
        }
        if self.contents.get_flag(tx) == 0 {
            let r = self.insert_entry(tx, &e);
            proof {
                lemma_entry_inserted(self.page(), &tx0, tx, e.spec_data_val(), e.spec_block_number(), r);
                lemma_parented_after_entry(self.page(), &tx0, tx, e.spec_data_val(), e.spec_block_number(), r);
                lemma_split_entry_value(self.page(), &tx0, tx, e.spec_data_val(), e.spec_block_number(), r);
                assert(self.page().recs(&tx0) == recs_of(tx0.blocks(name)[p], fs));
                lemma_sorted_after_entry(self.page(), &tx0, tx, e.spec_data_val(), e.spec_block_number(), r);
            }
            r
        } else {
            let childblk = self.find_child_block(tx, e.data_val());
            let ghost c = childblk.spec_number() as int;
            proof {
                let recs = self.page().recs(tx);
                lemma_child_slot(recs, e.spec_data_val());
                let i = child_slot(recs, e.spec_data_val());
                assert(recs_of(tx0.blocks(name)[p], fs)[i] == recs[i]);
                assert(1 <= c < len0 && flag_of(tx0.blocks(name)[c]) == level - 1);
                self.layout.lemma_wf();
            }
            let mut child = BTreeDir::new(childblk, self.layout.clone());
            let myentry = child.insert(tx, e);
            child.close();
            let ghost txm = *tx;
            proof {
                assert(txm.blocks(name)[p] == tx0.blocks(name)[p]);
                self.lemma_valid(tx);
            }
            match myentry {
                Some(entry) => {
                    let r = self.insert_entry(tx, &entry);
                    proof {
                        lemma_entry_inserted(
                            self.page(),
                            &txm,
                            tx,
                            entry.spec_data_val(),
                            entry.spec_block_number(),
                            r,
                        );
                        lemma_insert_compose(&tx0, &txm, tx, name, fs, p, c, level, e.spec_block_number() as int);
                        assert(self.page().flag(&txm) == level);
                        lemma_parented_after_entry(
                            self.page(),
                            &txm,
                            tx,
                            entry.spec_data_val(),
                            entry.spec_block_number(),
                            r,
                        );
                        lemma_split_entry_value(self.page(), &txm, tx, entry.spec_data_val(), entry.spec_block_number(), r);
                        assert(self.page().recs(&txm) == recs_of(txm.blocks(name)[p], fs));
                        lemma_sorted_after_entry(self.page(), &txm, tx, entry.spec_data_val(), entry.spec_block_number(), r);
                    }
                    r
                },
                None => None,
            }
        }
    }

    /// Makes this block, the root, the parent of two blocks: a new block that
    /// takes the root's records, and the block of the entry `e`, of the same
    /// level; the root goes one level up.
    pub fn make_new_root(&mut self, tx: &mut Transaction, e: DirEntry)
        requires
            old(self).valid(old(tx)),
            old(self).blk().spec_number() == 0,
            1 <= e.spec_block_number() < old(tx).blocks(old(self).file()).len(),
            flag_of(old(tx).blocks(old(self).file())[e.spec_block_number() as int]) == old(
                self,
            ).page().flag(old(tx)),
            val_fits(e.spec_data_val(), old(self).fs()[1]),
            old(tx).blocks(old(self).file()).len() + 2 < i32::MAX,
        ensures
            *final(self) == *old(self),
            final(self).valid(final(tx)),
            dir_sorted(old(tx), old(self).file(), old(self).fs()) ==> dir_sorted(final(tx), old(self).file(), old(self).fs()),
            ({
                let tx0 = *old(tx);
                let tx1 = *final(tx);
                let name = old(self).file();
                let fs = old(self).fs();
                let len0 = tx0.blocks(name).len() as int;
                let recs0 = recs_of(tx0.blocks(name)[0], fs);
                let first = seq![dir_rec(dv(recs0[0]), len0 as i32)];
                &&& tx1.blocks(name).len() == len0 + 1
                &&& tx1.spec_block_size() == tx0.spec_block_size()
                &&& forall|nm: Seq<char>| nm != name ==> #[trigger] tx1.blocks(nm) == tx0.blocks(nm)
                &&& forall|m: int|
                    1 <= m < len0 ==> #[trigger] tx1.blocks(name)[m] == tx0.blocks(name)[m]
                &&& recs_of(tx1.blocks(name)[len0], fs) == recs0
                &&& flag_of(tx1.blocks(name)[len0]) == flag_of(tx0.blocks(name)[0])
                &&& recs_of(tx1.blocks(name)[0], fs) == first.insert(
                    below_count(first, e.spec_data_val()),
                    dir_rec(e.spec_data_val(), e.spec_block_number()),
                )
                &&& flag_of(tx1.blocks(name)[0]) == flag_of(tx0.blocks(name)[0]) + 1
                &&& dir_entries0(&tx1, name, fs) == dir_entries0(&tx0, name, fs)
                &&& forall|c: int|
                    #[trigger] level0_child(&tx1, name, fs, c) ==> level0_child(&tx0, name, fs, c)
            }),
    {
        let ghost tx0 = *tx;
        let ghost name = self.file();
        let ghost fs = self.fs();
        let ghost len0 = tx0.blocks(name).len() as int;
        let ghost recs0 = self.page().recs(tx);
        proof {
            self.lemma_valid(tx);
            crate::index::btree::page_format::lemma_slot_pos_mono(fs, 1, num_of(self.page().bytes(tx)) as int);
            crate::index::btree::page_format::lemma_rec_fits(self.page().bytes(tx), fs, 0);
            assert(flag_of(tx0.blocks(name)[0]) < len0);
        }
        let firstval = self.contents.get_data_val(tx, 0);
        let level = self.contents.get_flag(tx);
        let newblk = self.contents.split(tx, 0, level);
        let ghost txa = *tx;
        let oldroot = DirEntry::new(firstval, newblk.number());
        proof {
            assert(recs0.skip(0) =~= recs0);
            assert(txa.blocks(name)[len0] == txa.block(newblk));
            self.page().lemma_block_len(tx);
            crate::index::btree::page_format::lemma_slot_pos_mono(fs, 1, 3);
            crate::index::btree::page_format::lemma_slot_pos_mono(fs, 2, 3);
            assert(self.page().recs(tx) =~= Seq::<Seq<ConstVal>>::empty());
        }
        let r1 = self.insert_entry(tx, &oldroot);
        let ghost txb = *tx;
        proof {
            assert(below_count(Seq::<Seq<ConstVal>>::empty(), firstval@) == 0);
            assert(self.page().recs(tx).len() == 1);
            self.page().lemma_block_len(tx);
            assert(num_of(self.page().bytes(tx)) == 1);
            assert(txb.blocks(name).len() == len0 + 1);
            lemma_child_slot(self.page().recs(tx), e.spec_data_val());
        }
        let r2 = self.insert_entry(tx, &e);
        let ghost txc = *tx;
        proof {
            assert(txc.blocks(name).len() == len0 + 1);
            self.page().lemma_block_len(tx);
            crate::index::btree::page_format::lemma_flag_write(self.page().bytes(tx), fs, (level + 1) as i32);
        }
        self.contents.set_flag(tx, level + 1);
        proof {
            let first = seq![dir_rec(dv(recs0[0]), len0 as i32)];
            assert(self.page().recs(&txb) == first);
            let b1 = tx.blocks(name);
            assert forall|m: int| 1 <= m < len0 implies #[trigger] tx.blocks(name)[m] == tx0.blocks(name)[m] by {
                assert(txa.blocks(name)[m] == tx0.blocks(name)[m]);
            }
            assert(tx.blocks(name)[len0] == txa.blocks(name)[len0]);
            let r0 = recs_of(b1[0], fs);
            assert forall|i: int| 0 <= i < 2 implies child_of(#[trigger] r0[i]) == len0 || child_of(r0[i])
                == e.spec_block_number() by {
                lemma_child_slot(first, e.spec_data_val());
                lemma_from_recs(first, below_count(first, e.spec_data_val()), dir_rec(e.spec_data_val(), e.spec_block_number()), 0);
                assert(from_recs(r0, first, dir_rec(e.spec_data_val(), e.spec_block_number())));
                if r0[i] != dir_rec(e.spec_data_val(), e.spec_block_number()) {
                    assert(first.contains(r0[i]));
                    let j = choose|j: int| 0 <= j < first.len() && first[j] == r0[i];
                    assert(j == 0);
                }
            }
            assert(flag_of(tx0.blocks(name)[e.spec_block_number() as int]) == flag_of(tx0.blocks(name)[0]));
            lemma_new_root(&tx0, tx, name, fs, e.spec_block_number() as int);
            lemma_level0_after_new_root(&tx0, tx, name, fs);
            if dir_sorted(&tx0, name, fs) {
                assert(sorted(first));
                assert(sorted(recs_of(txc.block(self.blk()), fs)));
                assert(recs_of(tx.blocks(name)[0], fs) == recs_of(txc.blocks(name)[0], fs));
                assert(sorted(recs_of(tx0.blocks(name)[0], fs)));
                assert forall|n: int| 0 <= n < tx.blocks(name).len() implies #[trigger] sorted(
                    recs_of(tx.blocks(name)[n], fs),
                ) by {
                    if 1 <= n < len0 {
                        assert(tx.blocks(name)[n] == tx0.blocks(name)[n]);
                    }
                }
            }
        }
    }
}

} // verus!
