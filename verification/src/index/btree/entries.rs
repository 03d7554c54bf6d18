use vstd::prelude::*;
use vstd::multiset::Multiset;
use crate::index::btree::page_format::{flag_of, recs_of};
use crate::query::constant::ConstVal;
use crate::record::schema::FieldSpec;
use crate::tx::Transaction;

verus! {

broadcast use {vstd::seq_lib::group_to_multiset_ensures, vstd::multiset::group_multiset_axioms};

/// The records held by the first `k` blocks.
pub open spec fn entries_upto(blocks: Seq<Seq<u8>>, fs: Seq<FieldSpec>, k: int) -> Multiset<Seq<ConstVal>>
    decreases k,
{
    if k <= 0 {
        Multiset::empty()
    } else {
        entries_upto(blocks, fs, k - 1).add(recs_of(blocks[k - 1], fs).to_multiset())
    }
}

/// The index records of the leaf file `name`: those of all its blocks.
pub open spec fn leaf_entries(tx: &Transaction, name: Seq<char>, fs: Seq<FieldSpec>) -> Multiset<Seq<ConstVal>> {
    entries_upto(tx.blocks(name), fs, tx.blocks(name).len() as int)
}

/// The records of the first `k` blocks depend on those blocks only.
pub proof fn lemma_entries_prefix(b1: Seq<Seq<u8>>, b2: Seq<Seq<u8>>, fs: Seq<FieldSpec>, k: int)
    requires
        k <= b1.len(),
        k <= b2.len(),
        forall|i: int| 0 <= i < k ==> b1[i] == b2[i],
    ensures
        entries_upto(b1, fs, k) == entries_upto(b2, fs, k),
    decreases k,
{
    if k > 0 {
        lemma_entries_prefix(b1, b2, fs, k - 1);
    }
}

/// Replacing block `n` replaces its records among those of the blocks.
pub proof fn lemma_entries_update(blocks: Seq<Seq<u8>>, fs: Seq<FieldSpec>, n: int, b: Seq<u8>, k: int)
    requires
        0 <= n < blocks.len(),
        0 <= k <= blocks.len(),
    ensures
        k <= n ==> entries_upto(blocks.update(n, b), fs, k) == entries_upto(blocks, fs, k),
        k > n ==> entries_upto(blocks.update(n, b), fs, k).add(recs_of(blocks[n], fs).to_multiset())
            == entries_upto(blocks, fs, k).add(recs_of(b, fs).to_multiset()),
    decreases k,
{
    if k > 0 {
        lemma_entries_update(blocks, fs, n, b, k - 1);
        let u = blocks.update(n, b);
        let mo = recs_of(blocks[n], fs).to_multiset();
        let mn = recs_of(b, fs).to_multiset();
        let eu = entries_upto(u, fs, k - 1);
        let e = entries_upto(blocks, fs, k - 1);
        if k - 1 == n {
            assert(eu == e);
            assert(entries_upto(u, fs, k) == eu.add(mn));
            assert(entries_upto(u, fs, k).add(mo) =~= entries_upto(blocks, fs, k).add(mn));
        } else if k - 1 > n {
            assert(u[k - 1] == blocks[k - 1]);
            let m = recs_of(blocks[k - 1], fs).to_multiset();
            assert(eu.add(mo) == e.add(mn));
            assert(entries_upto(u, fs, k).add(mo) =~= entries_upto(blocks, fs, k).add(mn)) by {
                assert(entries_upto(u, fs, k) == eu.add(m));
                assert(entries_upto(blocks, fs, k) == e.add(m));
                assert forall|x| #[trigger] entries_upto(u, fs, k).add(mo).count(x) == entries_upto(
                    blocks,
                    fs,
                    k,
                ).add(mn).count(x) by {
                    assert(eu.add(mo).count(x) == e.add(mn).count(x));
                }
            }
        }
    }
}

/// Appending a block adds its records.
pub proof fn lemma_entries_push(blocks: Seq<Seq<u8>>, fs: Seq<FieldSpec>, b: Seq<u8>)
    ensures
        entries_upto(blocks.push(b), fs, blocks.len() + 1int) == entries_upto(blocks, fs, blocks.len() as int).add(
            recs_of(b, fs).to_multiset(),
        ),
{
    lemma_entries_prefix(blocks.push(b), blocks, fs, blocks.len() as int);
}

/// A change of block `n` of the file `name`, perhaps with a new last block,
/// whose records together are those of block `n` and `nrec`, adds `nrec` to
/// the file's records.
pub proof fn lemma_entries_after_insert(
    tx0: &Transaction,
    tx1: &Transaction,
    name: Seq<char>,
    fs: Seq<FieldSpec>,
    n: int,
    grew: bool,
    nrec: Seq<ConstVal>,
)
    requires
        0 <= n < tx0.blocks(name).len(),
        tx1.blocks(name).len() == tx0.blocks(name).len() + if grew {
            1int
        } else {
            0int
        },
        forall|m: int|
            0 <= m < tx0.blocks(name).len() && m != n ==> #[trigger] tx1.blocks(name)[m]
                == tx0.blocks(name)[m],
        grew ==> recs_of(tx1.blocks(name)[n], fs).to_multiset().add(
            recs_of(tx1.blocks(name)[tx0.blocks(name).len() as int], fs).to_multiset(),
        ) == recs_of(tx0.blocks(name)[n], fs).to_multiset().insert(nrec),
        !grew ==> recs_of(tx1.blocks(name)[n], fs).to_multiset() == recs_of(tx0.blocks(name)[n], fs).to_multiset().insert(
            nrec,
        ),
    ensures
        leaf_entries(tx1, name, fs) == leaf_entries(tx0, name, fs).insert(nrec),
{
    let b0 = tx0.blocks(name);
    let b1 = tx1.blocks(name);
    let len = b0.len() as int;
    let u = b0.update(n, b1[n]);
    lemma_entries_update(b0, fs, n, b1[n], len);
    let mo = recs_of(b0[n], fs).to_multiset();
    let mh = recs_of(b1[n], fs).to_multiset();
    if grew {
        assert(b1 =~= u.push(b1[len]));
        lemma_entries_push(u, fs, b1[len]);
        let mnew = recs_of(b1[len], fs).to_multiset();
        assert(leaf_entries(tx1, name, fs) == entries_upto(u, fs, len).add(mnew));
        assert(leaf_entries(tx1, name, fs) =~= leaf_entries(tx0, name, fs).insert(nrec)) by {
            assert forall|x| #[trigger] leaf_entries(tx1, name, fs).count(x) == leaf_entries(
                tx0,
                name,
                fs,
            ).insert(nrec).count(x) by {
                assert(entries_upto(u, fs, len).add(mo).count(x) == entries_upto(b0, fs, len).add(mh).count(x));
                assert(mh.add(mnew).count(x) == mo.insert(nrec).count(x));
            }
        }
    } else {
        assert(b1 =~= u);
        assert(leaf_entries(tx1, name, fs) =~= leaf_entries(tx0, name, fs).insert(nrec)) by {
            assert forall|x| #[trigger] leaf_entries(tx1, name, fs).count(x) == leaf_entries(
                tx0,
                name,
                fs,
            ).insert(nrec).count(x) by {
                assert(entries_upto(u, fs, len).add(mo).count(x) == entries_upto(b0, fs, len).add(mh).count(x));
                assert(mh.count(x) == mo.insert(nrec).count(x));
            }
        }
    }
}

/// Replacing block `n` of the file `name` by one without the record in slot
/// `s` removes that record from the file's records.
pub proof fn lemma_entries_after_remove(
    tx0: &Transaction,
    tx1: &Transaction,
    name: Seq<char>,
    fs: Seq<FieldSpec>,
    n: int,
    s: int,
)
    requires
        0 <= n < tx0.blocks(name).len(),
        0 <= s < recs_of(tx0.blocks(name)[n], fs).len(),
        tx1.blocks(name) == tx0.blocks(name).update(n, tx1.blocks(name)[n]),
        recs_of(tx1.blocks(name)[n], fs) == recs_of(tx0.blocks(name)[n], fs).remove(s),
    ensures
        leaf_entries(tx0, name, fs).count(recs_of(tx0.blocks(name)[n], fs)[s]) > 0,
        leaf_entries(tx1, name, fs) == leaf_entries(tx0, name, fs).remove(recs_of(tx0.blocks(name)[n], fs)[s]),
{
    let b0 = tx0.blocks(name);
    let b1 = tx1.blocks(name);
    let len = b0.len() as int;
    let rec = recs_of(b0[n], fs)[s];
    lemma_entries_update(b0, fs, n, b1[n], len);
    lemma_entries_contain(b0, fs, n, s, len);
    let mo = recs_of(b0[n], fs).to_multiset();
    let mh = recs_of(b1[n], fs).to_multiset();
    assert(mh == mo.remove(rec));
    assert(mo.count(rec) > 0);
    assert(leaf_entries(tx1, name, fs) =~= leaf_entries(tx0, name, fs).remove(rec)) by {
        assert forall|x| #[trigger] leaf_entries(tx1, name, fs).count(x) == leaf_entries(tx0, name, fs).remove(
            rec,
        ).count(x) by {
            assert(entries_upto(b1, fs, len).add(mo).count(x) == entries_upto(b0, fs, len).add(mh).count(x));
        }
    }
}

/// The records of the first `k` blocks include each record of block `n < k`.
pub proof fn lemma_entries_contain(blocks: Seq<Seq<u8>>, fs: Seq<FieldSpec>, n: int, s: int, k: int)
    requires
        0 <= n < k <= blocks.len(),
        0 <= s < recs_of(blocks[n], fs).len(),
    ensures
        entries_upto(blocks, fs, k).count(recs_of(blocks[n], fs)[s]) > 0,
    decreases k,
{
    let rec = recs_of(blocks[n], fs)[s];
    if k - 1 == n {
        assert(recs_of(blocks[n], fs).contains(rec));
    } else {
        lemma_entries_contain(blocks, fs, n, s, k - 1);
    }
}

/// The records of a directory block of level 0; none for a block of a
/// higher level.
pub open spec fn level0_recs(b: Seq<u8>, fs: Seq<FieldSpec>) -> Multiset<Seq<ConstVal>> {
    if flag_of(b) == 0 {
        recs_of(b, fs).to_multiset()
    } else {
        Multiset::empty()
    }
}

/// The records of the level-0 blocks among the first `k` blocks.
pub open spec fn level0_upto(blocks: Seq<Seq<u8>>, fs: Seq<FieldSpec>, k: int) -> Multiset<Seq<ConstVal>>
    decreases k,
{
    if k <= 0 {
        Multiset::empty()
    } else {
        level0_upto(blocks, fs, k - 1).add(level0_recs(blocks[k - 1], fs))
    }
}

/// The entries of the level-0 blocks of the directory file `name`: those
/// that name leaf blocks.
pub open spec fn dir_entries0(tx: &Transaction, name: Seq<char>, fs: Seq<FieldSpec>) -> Multiset<Seq<ConstVal>> {
    level0_upto(tx.blocks(name), fs, tx.blocks(name).len() as int)
}

/// The level-0 records of the first `k` blocks depend on those blocks only.
pub proof fn lemma_level0_prefix(b1: Seq<Seq<u8>>, b2: Seq<Seq<u8>>, fs: Seq<FieldSpec>, k: int)
    requires
        k <= b1.len(),
        k <= b2.len(),
        forall|i: int| 0 <= i < k ==> b1[i] == b2[i],
    ensures
        level0_upto(b1, fs, k) == level0_upto(b2, fs, k),
    decreases k,
{
    if k > 0 {
        lemma_level0_prefix(b1, b2, fs, k - 1);
    }
}

/// Replacing block `n` replaces its level-0 records.
pub proof fn lemma_level0_update(blocks: Seq<Seq<u8>>, fs: Seq<FieldSpec>, n: int, b: Seq<u8>, k: int)
    requires
        0 <= n < blocks.len(),
        0 <= k <= blocks.len(),
    ensures
        k > n ==> level0_upto(blocks.update(n, b), fs, k).add(level0_recs(blocks[n], fs))
            == level0_upto(blocks, fs, k).add(level0_recs(b, fs)),
        k <= n ==> level0_upto(blocks.update(n, b), fs, k) == level0_upto(blocks, fs, k),
    decreases k,
{
    if k > 0 {
        lemma_level0_update(blocks, fs, n, b, k - 1);
        let u = blocks.update(n, b);
        let mo = level0_recs(blocks[n], fs);
        let mn = level0_recs(b, fs);
        let eu = level0_upto(u, fs, k - 1);
        let e = level0_upto(blocks, fs, k - 1);
        if k - 1 == n {
            assert(level0_upto(u, fs, k).add(mo) =~= level0_upto(blocks, fs, k).add(mn));
        } else if k - 1 > n {
            assert(u[k - 1] == blocks[k - 1]);
            let m = level0_recs(blocks[k - 1], fs);
            assert(level0_upto(u, fs, k).add(mo) =~= level0_upto(blocks, fs, k).add(mn)) by {
                assert forall|x| #[trigger] level0_upto(u, fs, k).add(mo).count(x) == level0_upto(
                    blocks,
                    fs,
                    k,
                ).add(mn).count(x) by {
                    assert(eu.add(mo).count(x) == e.add(mn).count(x));
                }
            }
        }
    }
}

/// A change of block `n` of the directory file `name` that keeps its flag,
/// perhaps with a new last block of that flag, whose records together are
/// those of block `n` and `erec`, adds `erec` to the level-0 entries when
/// block `n` is of level 0, and leaves them otherwise.
pub proof fn lemma_level0_after_insert(
    tx0: &Transaction,
    tx1: &Transaction,
    name: Seq<char>,
    fs: Seq<FieldSpec>,
    n: int,
    grew: bool,
    erec: Seq<ConstVal>,
)
    requires
        0 <= n < tx0.blocks(name).len(),
        tx1.blocks(name).len() == tx0.blocks(name).len() + if grew {
            1int
        } else {
            0int
        },
        forall|m: int|
            0 <= m < tx0.blocks(name).len() && m != n ==> #[trigger] tx1.blocks(name)[m]
                == tx0.blocks(name)[m],
        flag_of(tx1.blocks(name)[n]) == flag_of(tx0.blocks(name)[n]),
        grew ==> flag_of(tx1.blocks(name)[tx0.blocks(name).len() as int]) == flag_of(tx0.blocks(name)[n]),
        grew ==> recs_of(tx1.blocks(name)[n], fs).to_multiset().add(
            recs_of(tx1.blocks(name)[tx0.blocks(name).len() as int], fs).to_multiset(),
        ) == recs_of(tx0.blocks(name)[n], fs).to_multiset().insert(erec),
        !grew ==> recs_of(tx1.blocks(name)[n], fs).to_multiset() == recs_of(tx0.blocks(name)[n], fs).to_multiset().insert(
            erec,
        ),
    ensures
        dir_entries0(tx1, name, fs) == if flag_of(tx0.blocks(name)[n]) == 0 {
            dir_entries0(tx0, name, fs).insert(erec)
        } else {
            dir_entries0(tx0, name, fs)
        },
{
    let b0 = tx0.blocks(name);
    let b1 = tx1.blocks(name);
    let len = b0.len() as int;
    let u = b0.update(n, b1[n]);
    lemma_level0_update(b0, fs, n, b1[n], len);
    let mo = level0_recs(b0[n], fs);
    let mh = level0_recs(b1[n], fs);
    let target = if flag_of(b0[n]) == 0 {
        dir_entries0(tx0, name, fs).insert(erec)
    } else {
        dir_entries0(tx0, name, fs)
    };
    if grew {
        assert(b1 =~= u.push(b1[len]));
        lemma_level0_prefix(u.push(b1[len]), u, fs, len);
        let mnew = level0_recs(b1[len], fs);
        assert(dir_entries0(tx1, name, fs) == level0_upto(u, fs, len).add(mnew));
        if flag_of(b0[n]) == 0 {
            assert(mh.add(mnew) == mo.insert(erec));
        } else {
            assert(mh.add(mnew) =~= mo);
        }
        assert(dir_entries0(tx1, name, fs) =~= target) by {
            assert forall|x| #[trigger] dir_entries0(tx1, name, fs).count(x) == target.count(x) by {
                assert(level0_upto(u, fs, len).add(mo).count(x) == level0_upto(b0, fs, len).add(mh).count(x));
                assert(mh.add(mnew).count(x) == mh.count(x) + mnew.count(x));
            }
        }
    } else {
        assert(b1 =~= u);
        if flag_of(b0[n]) == 0 {
            assert(mh == mo.insert(erec));
        } else {
            assert(mh == mo);
        }
        assert(dir_entries0(tx1, name, fs) =~= target) by {
            assert forall|x| #[trigger] dir_entries0(tx1, name, fs).count(x) == target.count(x) by {
                assert(level0_upto(u, fs, len).add(mo).count(x) == level0_upto(b0, fs, len).add(mh).count(x));
            }
        }
    }
}

/// Moving the records of block 0 to a new last block of its flag, while
/// block 0 goes to a higher level, keeps the level-0 entries.
pub proof fn lemma_level0_after_new_root(tx0: &Transaction, tx1: &Transaction, name: Seq<char>, fs: Seq<FieldSpec>)
    requires
        1 <= tx0.blocks(name).len(),
        tx1.blocks(name).len() == tx0.blocks(name).len() + 1,
        forall|m: int| 1 <= m < tx0.blocks(name).len() ==> #[trigger] tx1.blocks(name)[m] == tx0.blocks(name)[m],
        flag_of(tx0.blocks(name)[0]) >= 0,
        flag_of(tx1.blocks(name)[0]) > 0,
        flag_of(tx1.blocks(name)[tx0.blocks(name).len() as int]) == flag_of(tx0.blocks(name)[0]),
        recs_of(tx1.blocks(name)[tx0.blocks(name).len() as int], fs) == recs_of(tx0.blocks(name)[0], fs),
    ensures
        dir_entries0(tx1, name, fs) == dir_entries0(tx0, name, fs),
{
    let b0 = tx0.blocks(name);
    let b1 = tx1.blocks(name);
    let len = b0.len() as int;
    let u = b0.update(0, b1[0]);
    lemma_level0_update(b0, fs, 0, b1[0], len);
    assert(b1 =~= u.push(b1[len]));
    lemma_level0_prefix(u.push(b1[len]), u, fs, len);
    let mo = level0_recs(b0[0], fs);
    assert(level0_recs(b1[0], fs) == Multiset::<Seq<ConstVal>>::empty());
    assert(level0_recs(b1[len], fs) == mo);
    assert(dir_entries0(tx1, name, fs) =~= dir_entries0(tx0, name, fs)) by {
        assert forall|x| #[trigger] dir_entries0(tx1, name, fs).count(x) == dir_entries0(tx0, name, fs).count(x) by {
            assert(level0_upto(u, fs, len).add(mo).count(x) == level0_upto(b0, fs, len).add(level0_recs(b1[0], fs)).count(x));
        }
    }
}

/// A record is among the level-0 records of the first `k` blocks exactly
/// when some level-0 block among them holds it.
pub proof fn lemma_level0_upto_has(blocks: Seq<Seq<u8>>, fs: Seq<FieldSpec>, k: int, rec: Seq<ConstVal>)
    requires
        0 <= k <= blocks.len(),
    ensures
        level0_upto(blocks, fs, k).count(rec) > 0 <==> exists|m: int, i: int|
            0 <= m < k && flag_of(blocks[m]) == 0 && 0 <= i < recs_of(blocks[m], fs).len()
                && #[trigger] recs_of(blocks[m], fs)[i] == rec,
    decreases k,
{
    if k > 0 {
        lemma_level0_upto_has(blocks, fs, k - 1, rec);
        let b = blocks[k - 1];
        let recs = recs_of(b, fs);
        if flag_of(b) == 0 && recs.contains(rec) {
            let i = choose|i: int| 0 <= i < recs.len() && recs[i] == rec;
            assert(recs_of(blocks[k - 1], fs)[i] == rec);
        }
        if exists|m: int, i: int|
            0 <= m < k && flag_of(blocks[m]) == 0 && 0 <= i < recs_of(blocks[m], fs).len()
                && #[trigger] recs_of(blocks[m], fs)[i] == rec {
            let (m, i) = choose|m: int, i: int|
                0 <= m < k && flag_of(blocks[m]) == 0 && 0 <= i < recs_of(blocks[m], fs).len()
                    && #[trigger] recs_of(blocks[m], fs)[i] == rec;
            if m == k - 1 {
                assert(recs.contains(rec));
            }
        }
    }
}

/// A record is a level-0 entry of the directory file `name` exactly when a
/// level-0 block of it holds the record.
pub proof fn lemma_dir_entries0_has(tx: &Transaction, name: Seq<char>, fs: Seq<FieldSpec>, rec: Seq<ConstVal>)
    ensures
        dir_entries0(tx, name, fs).count(rec) > 0 <==> exists|m: int, i: int|
            0 <= m < tx.blocks(name).len() && flag_of(tx.blocks(name)[m]) == 0 && 0 <= i < recs_of(
                tx.blocks(name)[m],
                fs,
            ).len() && #[trigger] recs_of(tx.blocks(name)[m], fs)[i] == rec,
{
    lemma_level0_upto_has(tx.blocks(name), fs, tx.blocks(name).len() as int, rec);
}

} // verus!
