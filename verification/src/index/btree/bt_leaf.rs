use vstd::prelude::*;

use crate::file::BlockId;
use crate::index::btree::bt_page::{dv, kind_fits, leaf_layout, names_distinct, BTPage};
use crate::index::btree::dir_entry::DirEntry;
use crate::index::btree::page_format::{flag_of, num_of, page_wf, recs_of, slot_pos};
use crate::query::constant::{lemma_val_order_basics, lemma_val_order_trans, same_kind, val_order, ConstVal, Constant};
use crate::record::layout::{fields_fit, Layout};
use crate::record::schema::FieldSpec;
use crate::record::RID;
use crate::tx::Transaction;

verus! {

/// A block of a leaf file: a well-formed page with room for one more record,
/// whose flag is -1 or names a block of the file.
pub open spec fn leaf_block_ok(b: Seq<u8>, fs: Seq<FieldSpec>, len: int, bs: int) -> bool {
    &&& page_wf(b, fs)
    &&& flag_of(b) < len
    &&& slot_pos(fs, num_of(b) + 1) < bs
}

/// `rank` decreases along every overflow link of the file `name`.
pub open spec fn ranked(tx: &Transaction, name: Seq<char>, rank: spec_fn(int) -> nat) -> bool {
    forall|n: int|
        0 <= n < tx.blocks(name).len() && flag_of(#[trigger] tx.blocks(name)[n]) >= 0 ==> rank(
            flag_of(tx.blocks(name)[n]) as int,
        ) < rank(n)
}

/// Every overflow chain of the file `name` ends.
pub open spec fn chains_end(tx: &Transaction, name: Seq<char>) -> bool {
    exists|rank: spec_fn(int) -> nat| ranked(tx, name, rank)
}

/// The file `name` is a well-formed leaf file of a B-tree.
pub open spec fn leaf_file_ok(tx: &Transaction, name: Seq<char>, fs: Seq<FieldSpec>) -> bool {
    &&& tx.wf()
    &&& 8 <= tx.spec_block_size() <= i32::MAX
    &&& leaf_layout(fs)
    &&& fields_fit(fs)
    &&& names_distinct(fs)
    &&& slot_pos(fs, 2) < tx.spec_block_size()
    &&& chains_end(tx, name)
    &&& forall|n: int|
        0 <= n < tx.blocks(name).len() ==> #[trigger] leaf_block_ok(
            tx.blocks(name)[n],
            fs,
            tx.blocks(name).len() as int,
            tx.spec_block_size() as int,
        )
}

/// A change of one block of a leaf file that keeps its flag and leaves it a
/// good leaf block keeps the file well formed.
pub proof fn lemma_file_ok_after_block_change(
    tx: &Transaction,
    new_tx: &Transaction,
    blk: BlockId,
    nb: Seq<u8>,
    fs: Seq<FieldSpec>,
)
    requires
        leaf_file_ok(tx, blk.spec_file_name(), fs),
        tx.has_block(blk),
        new_tx.wf(),
        tx.same_but(*new_tx, blk, nb),
        flag_of(nb) == flag_of(tx.block(blk)),
        leaf_block_ok(nb, fs, tx.blocks(blk.spec_file_name()).len() as int, tx.spec_block_size() as int),
    ensures
        leaf_file_ok(new_tx, blk.spec_file_name(), fs),
        new_tx.blocks(blk.spec_file_name()).len() == tx.blocks(blk.spec_file_name()).len(),
{
    let name = blk.spec_file_name();
    let rank = choose|rank: spec_fn(int) -> nat| ranked(tx, name, rank);
    assert forall|n: int|
        0 <= n < new_tx.blocks(name).len() && flag_of(#[trigger] new_tx.blocks(name)[n]) >= 0 implies rank(
            flag_of(new_tx.blocks(name)[n]) as int,
        ) < rank(n) by {
        assert(flag_of(tx.blocks(name)[n]) >= 0);
    }
    assert(ranked(new_tx, name, rank));
    assert forall|n: int| 0 <= n < new_tx.blocks(name).len() implies #[trigger] leaf_block_ok(
        new_tx.blocks(name)[n],
        fs,
        new_tx.blocks(name).len() as int,
        new_tx.spec_block_size() as int,
    ) by {
        assert(leaf_block_ok(tx.blocks(name)[n], fs, tx.blocks(name).len() as int, tx.spec_block_size() as int));
    }
}

/// A split of block `n` of a leaf file into `n` and a new last block keeps the
/// file well formed, when the two blocks are good leaf blocks and their flags
/// only pass on, drop or take over the overflow link that `n` had.
pub proof fn lemma_file_ok_after_split(tx0: &Transaction, tx1: &Transaction, name: Seq<char>, n: int, fs: Seq<FieldSpec>)
    requires
        leaf_file_ok(tx0, name, fs),
        0 <= n < tx0.blocks(name).len(),
        tx1.wf(),
        tx1.spec_block_size() == tx0.spec_block_size(),
        tx1.blocks(name).len() == tx0.blocks(name).len() + 1,
        forall|nm: Seq<char>| nm != name ==> #[trigger] tx1.blocks(nm) == tx0.blocks(nm),
        forall|m: int| 0 <= m < tx0.blocks(name).len() && m != n ==> #[trigger] tx1.blocks(name)[m] == tx0.blocks(name)[m],
        leaf_block_ok(tx1.blocks(name)[n], fs, tx1.blocks(name).len() as int, tx1.spec_block_size() as int),
        leaf_block_ok(tx1.blocks(name)[tx0.blocks(name).len() as int], fs, tx1.blocks(name).len() as int, tx1.spec_block_size() as int),
        ({
            let f0 = flag_of(tx0.blocks(name)[n]);
            let fnew = flag_of(tx1.blocks(name)[n]);
            let fl = flag_of(tx1.blocks(name)[tx0.blocks(name).len() as int]);
            &&& fnew < 0 || fnew == f0 || fnew == tx0.blocks(name).len()
            &&& fl < 0 || (fl == f0 && f0 >= 0)
            &&& fnew == tx0.blocks(name).len() ==> fl < 0 || fl == f0
            &&& fnew >= 0 && fl >= 0 ==> fnew == tx0.blocks(name).len() || fnew == f0
        }),
    ensures
        leaf_file_ok(tx1, name, fs),
{
    let len = tx0.blocks(name).len() as int;
    let rank = choose|rank: spec_fn(int) -> nat| ranked(tx0, name, rank);
    let f0 = flag_of(tx0.blocks(name)[n]);
    let fl = flag_of(tx1.blocks(name)[len]);
    let rank2 = |m: int|
        {
            if m == len {
                if fl >= 0 {
                    (2 * rank(fl as int) + 2) as nat
                } else {
                    0nat
                }
            } else {
                (2 * rank(m) + 1) as nat
            }
        };
    assert(leaf_block_ok(tx0.blocks(name)[n], fs, len, tx0.spec_block_size() as int));
    assert forall|m: int|
        0 <= m < tx1.blocks(name).len() && flag_of(#[trigger] tx1.blocks(name)[m]) >= 0 implies rank2(
            flag_of(tx1.blocks(name)[m]) as int,
        ) < rank2(m) by {
        let f = flag_of(tx1.blocks(name)[m]);
        if m == len {
        } else if m == n {
            if f == len {
                if fl >= 0 {
                    assert(rank(f0 as int) < rank(n));
                }
            } else {
                assert(rank(f0 as int) < rank(n));
            }
        } else {
            assert(tx1.blocks(name)[m] == tx0.blocks(name)[m]);
            assert(leaf_block_ok(tx0.blocks(name)[m], fs, len, tx0.spec_block_size() as int));
            assert(rank(f as int) < rank(m));
        }
    }
    assert(ranked(tx1, name, rank2));
    assert forall|m: int| 0 <= m < tx1.blocks(name).len() implies #[trigger] leaf_block_ok(
        tx1.blocks(name)[m],
        fs,
        tx1.blocks(name).len() as int,
        tx1.spec_block_size() as int,
    ) by {
        if m != n && m != len {
            assert(leaf_block_ok(tx0.blocks(name)[m], fs, len, tx0.spec_block_size() as int));
        }
    }
}

/// The records of a leaf page ordered by their indexed values.
pub open spec fn sorted(recs: Seq<Seq<ConstVal>>) -> bool {
    forall|i: int, j: int| 0 <= i < j < recs.len() ==> val_order(#[trigger] dv(recs[i]), #[trigger] dv(recs[j])) <= 0
}

/// Where a full leaf page of records `recs`, whose first and last values differ,
/// is split: at the end of the run of the first value when the middle record
/// holds it, else at the start of the run of the middle record's value.
pub open spec fn split_point(recs: Seq<Seq<ConstVal>>, sp: int) -> bool {
    let n = recs.len() as int;
    let m = n / 2;
    let k0 = dv(recs[0]);
    let km = dv(recs[m]);
    if km == k0 {
        &&& m < sp < n
        &&& forall|i: int| m <= i < sp ==> #[trigger] dv(recs[i]) == k0
        &&& dv(recs[sp]) != k0
    } else {
        &&& 0 < sp <= m
        &&& forall|i: int| sp <= i <= m ==> #[trigger] dv(recs[i]) == km
        &&& dv(recs[sp - 1]) != km
    }
}

/// The leaf record for the data record `rid` and the value `key`.
pub open spec fn leaf_rec(key: ConstVal, rid: RID) -> Seq<ConstVal> {
    seq![ConstVal::Int(rid.blknum), ConstVal::Int(rid.slot), key]
}

/// What a step of the leaf `a` to the next record of its search key gives:
/// the next slot when it holds the key; else slot 0 of the overflow block,
/// when the page holds records of the key only and has one; else no record,
/// one slot on.
pub open spec fn leaf_stepped(a: BTreeLeaf, b: BTreeLeaf, tx: &Transaction, r: bool) -> bool {
    let s1 = a.slot() + 1;
    let recs = a.recs(tx);
    if s1 < recs.len() && dv(recs[s1]) == a.key() {
        r && b.page() == a.page() && b.slot() == s1
    } else if dv(a.page().slot_rec(tx, 0)) == a.key() && a.page().flag(tx) >= 0 {
        r && b.slot() == 0 && b.blk().spec_number() == a.page().flag(tx)
    } else {
        !r && b.page() == a.page() && b.slot() == s1
    }
}

/// What inserting a record for `datarid` and the leaf's search key after the
/// leaf's current slot does to the leaf file: a page whose first value is
/// above the key and that has an overflow block moves its records to a new
/// block and keeps only the new record; a page with room takes the record in
/// place; a full page of one value moves all but its first record to a new
/// overflow block; any other full page splits at a change of value, and the
/// entry for the new block is returned.
pub open spec fn leaf_inserted(
    a: BTreeLeaf,
    tx0: &Transaction,
    tx1: &Transaction,
    datarid: RID,
    r: Option<DirEntry>,
) -> bool {
    let name = a.file();
    let n = a.blk().spec_number() as int;
    let len = tx0.blocks(name).len() as int;
    let recs = a.recs(tx0);
    let flag = a.page().flag(tx0);
    let key = a.key();
    let nrec = leaf_rec(key, datarid);
    let r1 = recs.insert(a.slot() + 1, nrec);
    let newb = tx1.blocks(name)[len];
    let here = tx1.blocks(name)[n];
    if flag >= 0 && val_order(dv(a.page().slot_rec(tx0, 0)), key) > 0 {
        &&& r matches Some(e) && e.spec_data_val() == dv(a.page().slot_rec(tx0, 0))
            && e.spec_block_number() == len
        &&& tx1.blocks(name).len() == len + 1
        &&& recs_of(here, a.fs()) == seq![nrec]
        &&& flag_of(here) == -1
        &&& recs_of(newb, a.fs()) == recs
        &&& flag_of(newb) == flag
    } else if slot_pos(a.fs(), r1.len() + 1int) < tx0.spec_block_size() {
        &&& r is None
        &&& tx0.same_but(*tx1, a.blk(), here)
        &&& recs_of(here, a.fs()) == r1
        &&& flag_of(here) == flag
    } else if dv(r1[0]) == dv(r1[r1.len() - 1]) {
        &&& r is None
        &&& tx1.blocks(name).len() == len + 1
        &&& recs_of(here, a.fs()) == r1.take(1)
        &&& flag_of(here) == len
        &&& recs_of(newb, a.fs()) == r1.skip(1)
        &&& flag_of(newb) == flag
    } else {
        &&& r matches Some(e) && e.spec_block_number() == len && exists|sp: int|
            #[trigger] split_point(r1, sp) && e.spec_data_val() == dv(r1[sp]) && recs_of(
                here,
                a.fs(),
            ) == r1.take(sp) && recs_of(newb, a.fs()) == r1.skip(sp)
        &&& tx1.blocks(name).len() == len + 1
        &&& flag_of(here) == flag
        &&& flag_of(newb) == -1
    }
}

/// The leaf `l` stands on a record for the data record `rid`.
pub open spec fn holds_rid(l: BTreeLeaf, tx: &Transaction, rid: RID) -> bool {
    &&& 0 <= l.slot() < l.recs(tx).len()
    &&& l.recs(tx)[l.slot()][0] == ConstVal::Int(rid.blknum)
    &&& l.recs(tx)[l.slot()][1] == ConstVal::Int(rid.slot)
}

/// `w` is a walk from the leaf `w[0]` along the records of its search key:
/// every leaf of it is open on the same file, for the same key, and each
/// step to the next one succeeds.
pub open spec fn leaf_walk(w: Seq<BTreeLeaf>, tx: &Transaction) -> bool {
    &&& w.len() >= 1
    &&& forall|i: int|
        0 <= i < w.len() ==> {
            &&& (#[trigger] w[i]).valid(tx)
            &&& w[i].file() == w[0].file()
            &&& w[i].key() == w[0].key()
            &&& w[i].fs() == w[0].fs()
        }
    &&& forall|i: int| 0 <= i < w.len() - 1 ==> leaf_stepped(#[trigger] w[i], w[i + 1], tx, true)
}

/// What deleting the record of `rid` from the leaf `a` does: the walk from
/// `a` along the records of its search key stops at the first record for
/// `rid`, which leaves its page, and the leaf `b` stands on its slot; where
/// the walk meets no such record, the files stay as they were and `b` is one
/// failed step past the walk's end.
pub open spec fn leaf_deleted(a: BTreeLeaf, tx0: &Transaction, tx1: &Transaction, rid: RID, b: BTreeLeaf) -> bool {
    exists|w: Seq<BTreeLeaf>|
        {
            &&& #[trigger] leaf_walk(w, tx0)
            &&& w[0] == a
            &&& forall|i: int| 1 <= i < w.len() - 1 ==> !holds_rid(#[trigger] w[i], tx0, rid)
            &&& if w.len() >= 2 && holds_rid(w.last(), tx0, rid) {
                &&& b.blk() == w.last().blk()
                &&& b.slot() == w.last().slot()
                &&& tx0.same_but(*tx1, b.blk(), tx1.block(b.blk()))
                &&& flag_of(tx1.block(b.blk())) == flag_of(tx0.block(b.blk()))
                &&& recs_of(tx1.block(b.blk()), b.fs()) == w.last().recs(tx0).remove(b.slot())
            } else {
                &&& *tx1 == *tx0
                &&& leaf_stepped(w.last(), b, tx0, false)
            }
        }
}

/// The contents of a B-tree leaf block, read for one search key.
pub struct BTreeLeaf {
    layout: Layout,
    searchkey: Constant,
    contents: BTPage,
    currentslot: i32,
    filename: String,
}

impl BTreeLeaf {
    /// The page the leaf is on.
    pub closed spec fn page(&self) -> BTPage {
        self.contents
    }

    /// The current slot.
    pub closed spec fn slot(&self) -> int {
        self.currentslot as int
    }

    /// The search key.
    pub closed spec fn key(&self) -> ConstVal {
        self.searchkey@
    }

    /// The leaf file.
    pub closed spec fn file(&self) -> Seq<char> {
        self.filename@
    }

    /// The fields of the leaf records.
    pub open spec fn fs(&self) -> Seq<FieldSpec> {
        self.page().fs()
    }

    /// The block the leaf is on.
    pub open spec fn blk(&self) -> BlockId {
        self.page().blk().unwrap()
    }

    /// The records of the leaf's page.
    pub open spec fn recs(&self, tx: &Transaction) -> Seq<Seq<ConstVal>> {
        self.page().recs(tx)
    }

    /// The leaf is open on a block of a well-formed leaf file, at a slot
    /// from -1 on, with a search key of the indexed kind.
    pub open spec fn valid(&self, tx: &Transaction) -> bool {
        &&& leaf_file_ok(tx, self.file(), self.fs())
        &&& self.page().blk() is Some
        &&& self.blk().spec_file_name() == self.file()
        &&& tx.has_block(self.blk())
        &&& self.page().placed(tx)
        &&& self.layout_matches()
        &&& -1 <= self.slot() < i32::MAX
        &&& kind_fits(self.key(), self.fs()[2])
    }

    /// The leaf's own copy of the layout is the page's.
    pub closed spec fn layout_matches(&self) -> bool {
        &&& self.layout.wf()
        &&& self.layout.fields() == self.contents.fs()
    }

    /// A valid leaf is on a well-formed page of its file.
    pub proof fn lemma_valid(&self, tx: &Transaction)
        requires
            self.valid(tx),
        ensures
            self.page().valid(tx),
            self.page().indexed(tx),
            leaf_block_ok(
                self.page().bytes(tx),
                self.fs(),
                tx.blocks(self.file()).len() as int,
                tx.spec_block_size() as int,
            ),
            self.page().keys_comparable(tx, self.key()),
            self.page().slot_in(tx, 0),
            self.page().slot_in(tx, 1),
            self.page().bytes(tx).len() == tx.spec_block_size(),
            self.recs(tx).len() == num_of(self.page().bytes(tx)),
            num_of(self.page().bytes(tx)) + 1 < i32::MAX,
    {
        let n = self.blk().spec_number() as int;
        assert(leaf_block_ok(
            tx.blocks(self.file())[n],
            self.fs(),
            tx.blocks(self.file()).len() as int,
            tx.spec_block_size() as int,
        ));
        self.page().lemma_block_len(tx);
        crate::index::btree::page_format::lemma_slot_pos_mono(self.fs(), 1, 2);
        self.page().lemma_keys_comparable(tx, self.key());
        crate::index::btree::page_format::lemma_slot_pos_ge(self.fs(), num_of(self.page().bytes(tx)) as int);
    }

    /// Opens the leaf block `blk` and positions the leaf just before the
    /// first record whose value is not below `searchkey`.
    pub fn new(tx: &Transaction, blk: BlockId, layout: Layout, searchkey: Constant) -> (r: Self)
        requires
            leaf_file_ok(tx, blk.spec_file_name(), layout.fields()),
            layout.wf(),
            0 <= blk.spec_number() < tx.blocks(blk.spec_file_name()).len(),
            kind_fits(searchkey@, layout.fields()[2]),
        ensures
            r.valid(tx),
            r.blk() == blk,
            r.file() == blk.spec_file_name(),
            r.fs() == layout.fields(),
            r.key() == searchkey@,
            -1 <= r.slot() < r.recs(tx).len(),
            forall|s: int| 0 <= s <= r.slot() ==> val_order(#[trigger] dv(r.recs(tx)[s]), searchkey@) < 0,
            r.slot() + 1 < r.recs(tx).len() ==> val_order(dv(r.recs(tx)[r.slot() + 1]), searchkey@) >= 0,
    {
        let filename = blk.file_name().to_owned();
        let contents = BTPage::new(blk, layout.clone());
        let r0 = BTreeLeaf { layout, searchkey, contents, currentslot: -1, filename };
        proof {
            r0.lemma_valid(tx);
        }
        let currentslot = r0.contents.find_slot_before(tx, &r0.searchkey);
        BTreeLeaf { currentslot, ..r0 }
    }

    /// Closes the leaf page.
    pub fn close(&mut self)
        ensures
            final(self).page().blk() is None,
            final(self).file() == old(self).file(),
            final(self).fs() == old(self).fs(),
    {
        self.contents.close();
    }

    /// The data record id of the current leaf record.
    pub fn get_data_rid(&self, tx: &Transaction) -> (r: RID)
        requires
            self.valid(tx),
            self.page().slot_in(tx, self.slot()),
        ensures
            self.page().slot_rec(tx, self.slot()) == leaf_rec(
                self.page().slot_rec(tx, self.slot())[2],
                r,
            ),
    {
        proof {
            self.lemma_valid(tx);
        }
        let r = self.contents.get_data_rid(tx, self.currentslot);
        proof {
            assert(self.page().slot_rec(tx, self.slot()) =~= leaf_rec(
                self.page().slot_rec(tx, self.slot())[2],
                r,
            ));
        }
        r
    }

    /// Follows the overflow link of the page when the page holds records of the
    /// search key only: the leaf then moves to slot 0 of the next block.
    fn try_overflow(&mut self, tx: &Transaction) -> (r: bool)
        requires
            old(self).valid(tx),
        ensures
            final(self).valid(tx),
            final(self).file() == old(self).file(),
            final(self).key() == old(self).key(),
            final(self).fs() == old(self).fs(),
            r == (dv(old(self).page().slot_rec(tx, 0)) == old(self).key() && old(self).page().flag(tx)
                >= 0),
            r ==> final(self).slot() == 0 && final(self).blk().spec_number() == old(self).page().flag(
                tx,
            ),
            !r ==> *final(self) == *old(self),
    {
        proof {
            self.lemma_valid(tx);
        }
        let firstkey = self.contents.get_data_val(tx, 0);
        let flag = self.contents.get_flag(tx);
        if !firstkey.equals(&self.searchkey) || flag < 0 {
            return false;
        }
        self.contents.close();
        let nextblk = BlockId::new(self.filename.clone(), flag);
        self.contents = BTPage::new(nextblk, self.layout.clone());
        self.currentslot = 0;
        proof {
            self.layout.lemma_wf();
            let n = flag as int;
            assert(leaf_block_ok(
                tx.blocks(self.file())[n],
                self.fs(),
                tx.blocks(self.file()).len() as int,
                tx.spec_block_size() as int,
            ));
        }
        true
    }

    /// Moves to the next leaf record holding the search key, following the
    /// overflow chain; false when there is none.
    pub fn next(&mut self, tx: &Transaction) -> (r: bool)
        requires
            old(self).valid(tx),
            old(self).slot() + 1 < i32::MAX,
        ensures
            final(self).valid(tx),
            final(self).file() == old(self).file(),
            final(self).key() == old(self).key(),
            final(self).fs() == old(self).fs(),
            leaf_stepped(*old(self), *final(self), tx, r),
    {
        proof {
            self.lemma_valid(tx);
        }
        self.currentslot = self.currentslot + 1;
        if self.currentslot >= self.contents.get_num_recs(tx) {
            self.try_overflow(tx)
        } else {
            proof {
                crate::index::btree::page_format::lemma_slot_pos_mono(
                    self.fs(),
                    self.slot() + 1,
                    self.recs(tx).len() as int,
                );
                assert(self.page().slot_rec(tx, self.slot()) == self.recs(tx)[self.slot()]);
            }
            let v = self.contents.get_data_val(tx, self.currentslot);
            if v.equals(&self.searchkey) {
                true
            } else {
                self.try_overflow(tx)
            }
        }
    }

    /// Deletes the first leaf record, from the current position on along the
    /// search key's records, that holds the data record id `datarid`.
    pub fn delete(&mut self, tx: &mut Transaction, datarid: &RID)
        requires
            old(self).valid(old(tx)),
            old(self).slot() <= old(self).recs(old(tx)).len(),
        ensures
            final(self).valid(final(tx)),
            final(self).file() == old(self).file(),
            final(self).key() == old(self).key(),
            final(self).fs() == old(self).fs(),
            *final(tx) == *old(tx) || ({
                let blk = final(self).blk();
                let recs = old(tx).blocks(blk.spec_file_name())[blk.spec_number() as int];
                &&& old(tx).has_block(blk)
                &&& 0 <= final(self).slot() < recs_of(recs, final(self).fs()).len()
                &&& recs_of(recs, final(self).fs())[final(self).slot()][0] == ConstVal::Int(datarid.blknum)
                &&& recs_of(recs, final(self).fs())[final(self).slot()][1] == ConstVal::Int(datarid.slot)
                &&& old(tx).same_but(*final(tx), blk, final(tx).block(blk))
                &&& flag_of(final(tx).block(blk)) == flag_of(recs)
                &&& recs_of(final(tx).block(blk), final(self).fs()) == recs_of(recs, final(self).fs()).remove(final(self).slot())
            }),
            leaf_deleted(*old(self), old(tx), final(tx), *datarid, *final(self)),
    {
        let ghost name = self.file();
        let ghost rank = choose|rank: spec_fn(int) -> nat| ranked(tx, name, rank);
        let ghost mut w: Seq<BTreeLeaf> = seq![*self];
        proof {
            self.lemma_valid(tx);
            crate::index::btree::page_format::lemma_slot_pos_ge(self.fs(), self.recs(tx).len() as int);
        }
        loop
            invariant_except_break
                w.last() == *self,
                self.slot() <= self.recs(tx).len(),
                self.slot() + 1 < i32::MAX,
            invariant
                self.valid(tx),
                *tx == *old(tx),
                self.file() == old(self).file(),
                self.key() == old(self).key(),
                self.fs() == old(self).fs(),
                name == self.file(),
                ranked(tx, name, rank),
                leaf_walk(w, tx),
                w[0] == *old(self),
                forall|i: int| 1 <= i < w.len() ==> !holds_rid(#[trigger] w[i], tx, *datarid),
            ensures
                leaf_stepped(w.last(), *self, tx, false),
            decreases rank(self.blk().spec_number() as int), self.recs(tx).len() - self.slot(),
        {
            proof {
                self.lemma_valid(tx);
                crate::index::btree::page_format::lemma_slot_pos_ge(self.fs(), self.recs(tx).len() as int);
            }
            let ghost prev = *self;
            if !self.next(tx) {
                break;
            }
            let ghost old_w = w;
            proof {
                w = w.push(*self);
                assert forall|i: int| 0 <= i < w.len() implies {
                    &&& (#[trigger] w[i]).valid(tx)
                    &&& w[i].file() == w[0].file()
                    &&& w[i].key() == w[0].key()
                    &&& w[i].fs() == w[0].fs()
                } by {
                    if i < old_w.len() {
                        assert(w[i] == old_w[i]);
                    }
                }
                assert forall|i: int| 0 <= i < w.len() - 1 implies leaf_stepped(#[trigger] w[i], w[i + 1], tx, true) by {
                    if i < old_w.len() - 1 {
                        assert(w[i] == old_w[i] && w[i + 1] == old_w[i + 1]);
                    } else {
                        assert(w[i] == prev && w[i + 1] == *self);
                    }
                }
                assert(leaf_walk(w, tx));
                self.lemma_valid(tx);
                crate::index::btree::page_format::lemma_slot_pos_ge(self.fs(), self.recs(tx).len() as int);
            }
            if self.currentslot < self.contents.get_num_recs(tx) {
                proof {
                    crate::index::btree::page_format::lemma_slot_pos_mono(self.fs(), self.slot() + 1, self.recs(tx).len() as int);
                    assert(self.page().slot_rec(tx, self.slot()) == self.recs(tx)[self.slot()]);
                }
                let rid = self.get_data_rid(tx);
                if rid == *datarid {
                    let ghost tx0 = *tx;
                    self.contents.delete(tx, self.currentslot);
                    proof {
                        let blk = self.blk();
                        tx0.lemma_same_but_self(*tx, blk, tx.block(blk));
                        self.page().lemma_block_len(tx);
                        assert(page_wf(tx.block(blk), self.fs()));
                        assert(page_wf(tx0.block(blk), self.fs()));
                        assert(self.page().bytes(tx) == tx.block(blk));
                        assert(recs_of(tx.block(blk), self.fs()).len() == recs_of(tx0.block(blk), self.fs()).len() - 1);
                        assert(num_of(tx.block(blk)) == num_of(tx0.block(blk)) - 1);
                        assert(leaf_block_ok(
                            tx0.blocks(name)[blk.spec_number() as int],
                            self.fs(),
                            tx0.blocks(name).len() as int,
                            tx0.spec_block_size() as int,
                        ));
                        crate::index::btree::page_format::lemma_slot_pos_mono(
                            self.fs(),
                            num_of(tx.block(blk)) + 1,
                            num_of(tx0.block(blk)) + 1,
                        );
                        lemma_file_ok_after_block_change(&tx0, tx, blk, tx.block(blk), self.fs());
                        assert(holds_rid(w.last(), &tx0, *datarid));
                        assert(forall|i: int| 1 <= i < w.len() - 1 ==> w[i] == old_w[i]);
                        assert(leaf_deleted(*old(self), old(tx), tx, *datarid, *self));
                    }
                    return;
                }
            }
            proof {
                assert(!holds_rid(*self, tx, *datarid));
                assert forall|i: int| 1 <= i < w.len() implies !holds_rid(#[trigger] w[i], tx, *datarid) by {
                    if i < old_w.len() {
                        assert(w[i] == old_w[i]);
                    }
                }
            }
        }
        proof {
            assert(forall|i: int| 1 <= i < w.len() - 1 ==> !holds_rid(#[trigger] w[i], tx, *datarid));
            assert(!(w.len() >= 2 && holds_rid(w.last(), tx, *datarid)));
            assert(leaf_deleted(*old(self), old(tx), tx, *datarid, *self));
        }
    }

    /// Inserts a leaf record for `datarid` and the search key just after the
    /// current slot, which then stands on the new record. When the page then
    /// overflows it splits, and the entry for a new block that the directory
    /// must point to is returned. An overflow page whose first value is above
    /// the key moves its records to a new block instead, and the new record
    /// goes into slot 0.
    #[verifier::spinoff_prover]
    #[verifier::rlimit(100)]
    pub fn insert(&mut self, tx: &mut Transaction, datarid: &RID) -> (r: Option<DirEntry>)
        requires
            old(self).valid(old(tx)),
            -1 <= old(self).slot() < old(self).recs(old(tx)).len(),
            crate::index::btree::page_format::val_fits(old(self).key(), old(self).fs()[2]),
            old(tx).blocks(old(self).file()).len() + 1 < i32::MAX,
        ensures
            final(self).valid(final(tx)),
            final(self).file() == old(self).file(),
            final(self).key() == old(self).key(),
            final(self).blk() == old(self).blk(),
            final(self).fs() == old(self).fs(),
            forall|nm: Seq<char>| nm != old(self).file() ==> #[trigger] final(tx).blocks(nm) == old(tx).blocks(nm),
            final(tx).spec_block_size() == old(tx).spec_block_size(),
            old(tx).blocks(old(self).file()).len() <= final(tx).blocks(old(self).file()).len(),
            forall|m: int|
                0 <= m < old(tx).blocks(old(self).file()).len() && m != old(self).blk().spec_number()
                    ==> #[trigger] final(tx).blocks(old(self).file())[m] == old(tx).blocks(old(self).file())[m],
            r matches Some(e) ==> crate::index::btree::page_format::val_fits(e.spec_data_val(), old(self).fs()[2]),
            leaf_inserted(*old(self), old(tx), final(tx), *datarid, r),
            final(self).slot() == if old(self).page().flag(old(tx)) >= 0 && val_order(
                dv(old(self).page().slot_rec(old(tx), 0)),
                old(self).key(),
            ) > 0 {
                0
            } else {
                old(self).slot() + 1
            },
    {
        let ghost tx0 = *tx;
        let ghost name = self.file();
        let ghost n = self.blk().spec_number() as int;
        let ghost len = tx.blocks(name).len() as int;
        let ghost fs = self.fs();
        let ghost blk = self.blk();
        proof {
            self.lemma_valid(tx);
            assert(leaf_block_ok(tx.blocks(name)[n], fs, len, tx.spec_block_size() as int));
        }
        let flag = self.contents.get_flag(tx);
        let ghost recs = self.recs(tx);
        let ghost nrec = leaf_rec(self.key(), *datarid);
        if flag >= 0 {
            let first = self.contents.get_data_val(tx, 0);
            proof {
                let b0 = self.page().bytes(tx);
                crate::index::btree::page_format::lemma_slot_pos_mono(fs, 1, 2);
                assert(crate::index::btree::page_format::slot_ok(b0, fs, 0));
                assert(crate::index::btree::page_format::field_ok(b0, fs, 0, 2));
                crate::index::btree::page_format::lemma_stored_fits(b0, fs, 0, 2);
            }
            if first.compare_to(&self.searchkey) > 0 {
                let newblk = self.contents.split(tx, 0, flag);
                let ghost tx1 = *tx;
                self.currentslot = 0;
                proof {
                    self.page().lemma_block_len(tx);
                }
                self.contents.set_flag(tx, -1);
                let ghost tx2 = *tx;
                proof {
                    let b1 = self.page().bytes(&tx1);
                    let b2 = self.page().bytes(tx);
                    tx1.lemma_same_but_self(*tx, blk, b2);
                    crate::file::page::lemma_int_write_read(b1, 0, -1i32);
                    crate::index::btree::page_format::lemma_with_int_agree(b1, 0, -1i32);
                    crate::file::page::lemma_int_write_other(b1, 0, -1i32, 4);
                    crate::index::btree::page_format::lemma_slots_after_header_write(b1, b2, fs);
                    crate::index::btree::page_format::lemma_slot_pos_mono(fs, 1, 2);
                    assert(self.page().valid(tx));
                    tx1.lemma_same_but_other(*tx, blk, b2, newblk);
                    assert(recs_of(b1, fs).len() == 0);
                    assert(num_of(b1) == 0);
                    assert(num_of(b2) == 0);
                }
                self.contents.insert_leaf(tx, self.currentslot, &self.searchkey, datarid);
                proof {
                    let b2 = self.page().bytes(&tx2);
                    let b3 = self.page().bytes(tx);
                    tx2.lemma_same_but_self(*tx, blk, b3);
                    tx2.lemma_same_but_other(*tx, blk, b3, newblk);
                    assert(recs_of(b2, fs) =~= Seq::<Seq<ConstVal>>::empty());
                    assert(recs_of(b3, fs) =~= seq![nrec]);
                    self.page().lemma_block_len(tx);
                    crate::index::btree::page_format::lemma_slot_pos_mono(fs, 2, 2);
                    assert(tx.blocks(name)[n] == b3);
                    assert(tx.blocks(name)[len] == tx1.block(newblk));
                    assert(recs_of(tx1.block(newblk), fs) == recs.skip(0));
                    assert(recs.skip(0) =~= recs);
                    assert(num_of(tx1.block(newblk)) as int == recs.len());
                    assert(recs.len() == num_of(tx0.blocks(name)[n]));
                    assert(leaf_block_ok(tx.blocks(name)[len], fs, len + 1, tx.spec_block_size() as int));
                    crate::index::btree::page_format::lemma_slot_pos_mono(fs, recs.len() + 1int, recs.len() + 1int);
                    lemma_file_ok_after_split(&tx0, tx, name, n, fs);
                    assert(self.page().slot_rec(&tx0, 0) == self.page().slot_rec(&tx0, 0));
                }
                return Some(DirEntry::new(first, newblk.number()));
            }
        }
        self.currentslot = self.currentslot + 1;
        proof {
            crate::index::btree::page_format::lemma_slot_pos_mono(fs, recs.len() + 1int, recs.len() + 1int);
        }
        self.contents.insert_leaf(tx, self.currentslot, &self.searchkey, datarid);
        let ghost tx1 = *tx;
        let ghost b1 = self.page().bytes(tx);
        let ghost r1 = recs.insert(self.slot(), nrec);
        proof {
            tx0.lemma_same_but_self(*tx, blk, b1);
            self.page().lemma_block_len(tx);
            assert(self.recs(tx) == r1);
        }
        if !self.contents.is_full(tx) {
            proof {
                assert(leaf_block_ok(b1, fs, len, tx.spec_block_size() as int));
                lemma_file_ok_after_block_change(&tx0, tx, blk, b1, fs);
                assert(tx.blocks(name)[n] == b1);
            }
            return None;
        }
        let num = self.contents.get_num_recs(tx);
        proof {
            crate::index::btree::page_format::lemma_slot_pos_mono(fs, 1, num as int);
            crate::index::btree::page_format::lemma_slot_pos_ge(fs, num as int);
            assert(self.page().slot_rec(tx, 0) == r1[0]);
            assert(self.page().slot_rec(tx, num - 1) == r1[num - 1]);
        }
        let firstkey = self.contents.get_data_val(tx, 0);
        let lastkey = self.contents.get_data_val(tx, num - 1);
        if lastkey.equals(&firstkey) {
            let newblk = self.contents.split(tx, 1, flag);
            let ghost tx2 = *tx;
            let ghost b2 = self.page().bytes(tx);
            proof {
                self.page().lemma_block_len(tx);
            }
            self.contents.set_flag(tx, newblk.number());
            proof {
                let b3 = self.page().bytes(tx);
                let nbv = newblk.spec_number();
                tx2.lemma_same_but_self(*tx, blk, b3);
                tx2.lemma_same_but_other(*tx, blk, b3, newblk);
                crate::file::page::lemma_int_write_read(b2, 0, nbv);
                crate::index::btree::page_format::lemma_with_int_agree(b2, 0, nbv);
                crate::file::page::lemma_int_write_other(b2, 0, nbv, 4);
                crate::index::btree::page_format::lemma_slots_after_header_write(b2, b3, fs);
                assert(recs_of(b3, fs) =~= recs_of(b2, fs)) by {
                    assert forall|q: int| 0 <= q < recs_of(b3, fs).len() implies recs_of(b3, fs)[q] == recs_of(b2, fs)[q] by {
                        crate::index::btree::page_format::lemma_slot_pos_mono(fs, q + 1, num_of(b2) as int);
                    }
                }
                assert(self.page().valid(tx));
                assert(tx.blocks(name)[n] == b3);
                assert(tx.blocks(name)[len] == tx2.block(newblk));
                assert(num_of(b3) == 1);
                crate::index::btree::page_format::lemma_slot_pos_mono(fs, 2, 2);
                assert(r1.len() == num);
                assert(recs_of(tx2.block(newblk), fs) == r1.skip(1));
                assert(recs_of(tx2.block(newblk), fs).len() == num - 1);
                assert(num_of(tx2.block(newblk)) == num - 1);
                crate::index::btree::page_format::lemma_slot_pos_mono(fs, num as int, recs.len() + 1int);
                assert(leaf_block_ok(tx.blocks(name)[len], fs, len + 1, tx.spec_block_size() as int));
                assert(leaf_block_ok(tx.blocks(name)[n], fs, len + 1, tx.spec_block_size() as int));
                assert forall|m: int| 0 <= m < len && m != n implies #[trigger] tx.blocks(name)[m] == tx0.blocks(name)[m] by {
                    assert(tx1.blocks(name)[m] == tx0.blocks(name)[m]);
                    assert(tx2.blocks(name)[m] == tx1.blocks(name)[m]);
                }
                assert forall|nm: Seq<char>| nm != name implies #[trigger] tx.blocks(nm) == tx0.blocks(nm) by {
                    assert(tx1.blocks(nm) == tx0.blocks(nm));
                    assert(tx2.blocks(nm) == tx1.blocks(nm));
                }
                lemma_file_ok_after_split(&tx0, tx, name, n, fs);
            }
            None
        } else {
            let ghost k0 = firstkey@;
            proof {
                assert forall|i: int| 0 <= i < num implies #[trigger] self.page().slot_in(tx, i) by {
                    crate::index::btree::page_format::lemma_slot_pos_mono(fs, i + 1, num as int);
                }
                assert forall|i: int| 0 <= i < num implies #[trigger] self.page().slot_rec(tx, i) == r1[i] by {
                }
            }
            let mut splitpos = num / 2;
            let ghost m = splitpos as int;
            proof {
                crate::index::btree::page_format::lemma_slot_pos_mono(fs, m + 1, num as int);
                assert(self.page().slot_rec(tx, m) == r1[m]);
            }
            let mut splitkey = self.contents.get_data_val(tx, splitpos);
            let ghost km = splitkey@;
            if splitkey.equals(&firstkey) {
                while self.contents.get_data_val(tx, splitpos).equals(&splitkey)
                    invariant
                        self.page().valid(tx),
                        self.page().indexed(tx),
                        self.recs(tx) == r1,
                        r1.len() == num,
                        fs == self.fs(),
                        fields_fit(fs),
                        slot_pos(fs, num as int) <= self.page().bytes(tx).len(),
                        m <= splitpos < num,
                        m == num / 2,
                        splitkey@ == k0,
                        k0 == dv(r1[0]),
                        dv(r1[num - 1]) != k0,
                        forall|i: int| m <= i < splitpos ==> #[trigger] dv(r1[i]) == k0,
                        forall|i: int| 0 <= i < num ==> #[trigger] self.page().slot_rec(tx, i) == r1[i],
                        forall|i: int| 0 <= i < num ==> #[trigger] self.page().slot_in(tx, i),
                    decreases num - splitpos,
                {
                    proof {
                        crate::index::btree::page_format::lemma_slot_pos_mono(fs, splitpos + 1, num as int);
                    }
                    splitpos = splitpos + 1;
                }
                proof {
                    crate::index::btree::page_format::lemma_slot_pos_mono(fs, splitpos + 1, num as int);
                }
                splitkey = self.contents.get_data_val(tx, splitpos);
            } else {
                while self.contents.get_data_val(tx, splitpos - 1).equals(&splitkey)
                    invariant
                        self.page().valid(tx),
                        self.page().indexed(tx),
                        self.recs(tx) == r1,
                        r1.len() == num,
                        fs == self.fs(),
                        fields_fit(fs),
                        slot_pos(fs, num as int) <= self.page().bytes(tx).len(),
                        1 <= splitpos <= m,
                        m < num,
                        splitkey@ == km,
                        km == dv(r1[m]),
                        dv(r1[0]) != km,
                        forall|i: int| splitpos <= i <= m ==> #[trigger] dv(r1[i]) == km,
                        forall|i: int| 0 <= i < num ==> #[trigger] self.page().slot_rec(tx, i) == r1[i],
                        forall|i: int| 0 <= i < num ==> #[trigger] self.page().slot_in(tx, i),
                    decreases splitpos,
                {
                    proof {
                        crate::index::btree::page_format::lemma_slot_pos_mono(fs, splitpos as int, num as int);
                    }
                    splitpos = splitpos - 1;
                }
            }
            let ghost sp = splitpos as int;
            proof {
                assert(split_point(r1, sp));
                crate::index::btree::page_format::lemma_rec_fits(self.page().bytes(tx), fs, sp);
                assert(self.recs(tx)[sp] == r1[sp]);
            }
            let newblk = self.contents.split(tx, splitpos, -1);
            proof {
                let b2 = self.page().bytes(tx);
                self.page().lemma_block_len(tx);
                assert(tx.blocks(name)[n] == b2);
                assert(recs_of(tx.block(newblk), fs) == r1.skip(sp));
                assert(recs_of(tx.block(newblk), fs).len() == num - sp);
                assert(page_wf(tx.block(newblk), fs));
                assert(num_of(tx.block(newblk)) == num - sp);
                assert(self.recs(tx) == r1.take(sp));
                assert(recs_of(b2, fs).len() == sp);
                assert(page_wf(b2, fs));
                assert(num_of(b2) == sp);
                crate::index::btree::page_format::lemma_slot_pos_mono(fs, num - sp + 1, recs.len() + 1int);
                crate::index::btree::page_format::lemma_slot_pos_mono(fs, sp + 1, recs.len() + 1int);
                assert(leaf_block_ok(tx.blocks(name)[len], fs, len + 1, tx.spec_block_size() as int));
                assert(leaf_block_ok(tx.blocks(name)[n], fs, len + 1, tx.spec_block_size() as int));
                assert forall|mm: int| 0 <= mm < len && mm != n implies #[trigger] tx.blocks(name)[mm] == tx0.blocks(name)[mm] by {
                    assert(tx1.blocks(name)[mm] == tx0.blocks(name)[mm]);
                }
                assert forall|nm: Seq<char>| nm != name implies #[trigger] tx.blocks(nm) == tx0.blocks(nm) by {
                    assert(tx1.blocks(nm) == tx0.blocks(nm));
                }
                lemma_file_ok_after_split(&tx0, tx, name, n, fs);
            }
            Some(DirEntry::new(splitkey, newblk.number()))
        }
    }
}


/// The successive steps of a leaf along the records of its search key visit,
/// in the page they start on, the records right after the starting slot, one
/// slot at a time; and where the page is sorted and the record after the
/// starting slot is not below the key, once a step fails or leaves the page,
/// the visited slots are exactly the slots after the start that hold the key.
pub proof fn lemma_walk_in_page(w: Seq<BTreeLeaf>, next: BTreeLeaf, r: bool, tx: &Transaction)
    requires
        leaf_walk(w, tx),
        forall|i: int| 0 <= i < w.len() ==> #[trigger] w[i].page() == w[0].page(),
        leaf_stepped(w.last(), next, tx, r),
        !r || next.page() != w[0].page(),
        w[0].slot() < w[0].recs(tx).len(),
        sorted(w[0].recs(tx)),
        w[0].slot() + 1 < w[0].recs(tx).len() ==> val_order(dv(w[0].recs(tx)[w[0].slot() + 1]), w[0].key()) >= 0,
    ensures
        forall|i: int| 0 <= i < w.len() ==> #[trigger] w[i].slot() == w[0].slot() + i,
        w.last().slot() < w[0].recs(tx).len(),
        forall|s: int|
            w[0].slot() < s < w[0].recs(tx).len() ==> (#[trigger] dv(w[0].recs(tx)[s]) == w[0].key() <==> s
                <= w.last().slot()),
{
    let a = w[0];
    let recs = a.recs(tx);
    let key = a.key();
    let n = a.blk().spec_number() as int;
    let name = a.file();
    a.lemma_valid(tx);
    let rank = choose|rank: spec_fn(int) -> nat| ranked(tx, name, rank);
    assert(flag_of(tx.blocks(name)[n]) != n);
    assert forall|i: int| 0 <= i < w.len() implies #[trigger] w[i].slot() == a.slot() + i && (i >= 1 ==> w[i].slot()
        < recs.len() && dv(recs[w[i].slot()]) == key) by {
        lemma_walk_slot(w, tx, i);
    }
    let last = w.last();
    assert(last == w[w.len() - 1]);
    assert(w[w.len() - 1].slot() == a.slot() + w.len() - 1);
    assert(last.page() == a.page());
    assert(last.recs(tx) == recs);
    assert(last.key() == key);
    let s1 = last.slot() + 1;
    assert(!(s1 < recs.len() && dv(recs[s1]) == key));
    assert forall|s: int| a.slot() < s < recs.len() implies (#[trigger] dv(recs[s]) == key <==> s <= last.slot()) by {
        if s <= last.slot() {
            let i = s - a.slot();
            assert(w[i].slot() == s);
        } else {
            assert(same_kind(dv(recs[s1]), key));
            assert(same_kind(dv(recs[s]), key));
            if w.len() >= 2 {
                assert(dv(recs[last.slot()]) == key);
                lemma_val_order_basics(dv(recs[last.slot()]), key);
                assert(val_order(dv(recs[last.slot()]), dv(recs[s1])) <= 0);
            }
            assert(val_order(dv(recs[s1]), key) >= 0) by {
                lemma_val_order_basics(dv(recs[s1]), key);
            }
            lemma_val_order_basics(dv(recs[s1]), key);
            assert(val_order(key, dv(recs[s1])) < 0);
            if s > s1 {
                assert(val_order(dv(recs[s1]), dv(recs[s])) <= 0);
                lemma_val_order_trans(key, dv(recs[s1]), dv(recs[s]));
            }
            lemma_val_order_basics(key, dv(recs[s]));
        }
    }
}

/// In a walk that stays on its first page, the leaf `w[i]` stands `i` slots
/// after the start, and past the start on a record of the search key.
proof fn lemma_walk_slot(w: Seq<BTreeLeaf>, tx: &Transaction, i: int)
    requires
        leaf_walk(w, tx),
        forall|j: int| 0 <= j < w.len() ==> #[trigger] w[j].page() == w[0].page(),
        flag_of(tx.blocks(w[0].file())[w[0].blk().spec_number() as int]) != w[0].blk().spec_number(),
        0 <= i < w.len(),
    ensures
        w[i].slot() == w[0].slot() + i,
        i >= 1 ==> w[i].slot() < w[0].recs(tx).len() && dv(w[0].recs(tx)[w[i].slot()]) == w[0].key(),
    decreases i,
{
    if i >= 1 {
        lemma_walk_slot(w, tx, i - 1);
        let p = w[i - 1];
        assert(leaf_stepped(p, w[i], tx, true));
        assert(p.page() == w[0].page() && w[i].page() == w[0].page());
        assert(p.key() == w[0].key());
        assert(p.page().flag(tx) == flag_of(tx.blocks(w[0].file())[w[0].blk().spec_number() as int]));
    }
}

} // verus!
