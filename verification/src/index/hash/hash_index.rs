use vstd::prelude::*;

use crate::file::page::{int_at, with_int};
use crate::index::btree::bt_page::{leaf_layout, lemma_index_fields, names_distinct};
use crate::index::btree::page_format::{
    field_pos, field_val, lemma_field_in_slot, lemma_slots_after_field_write, lemma_with_int_agree, rec_val,
    slot_flag, slot_pos, val_fits, EMPTY,
};
use crate::index::hash::common::{const_hash, hash_code};
use crate::index::index_scan::IndexScan;
use crate::query::constant::{ConstVal, Constant};
use crate::record::layout::Layout;
use crate::record::schema::FieldSpec;
use crate::record::table_scan::{
    added_at, free_at, lemma_flags_kept_used, lemma_insert_used, lemma_open_used, lemma_records_kept_slot,
    lemma_records_kept_trans, pos_before, rec_at, records_kept, table_file, table_ok, used_at, zero_block, TableScan,
};
use crate::record::RID;
use crate::tx::Transaction;
use crate::util::{concat, div_trunc, int_text, int_to_chars, string_from_chars};

verus! {

/// The number of buckets of a static hash index.
pub const NUM_BUCKETS: i32 = 100;

/// The bucket of a value: its hash code's remainder by the number of
/// buckets, of the hash code's sign.
pub open spec fn bucket_of(key: ConstVal) -> int {
    let h = const_hash(key) as int;
    if h >= 0 {
        h % (NUM_BUCKETS as int)
    } else {
        -((-h) % (NUM_BUCKETS as int))
    }
}

/// The file of bucket `b` of the index `idxname`: the table named after the
/// index and the bucket number.
pub open spec fn bucket_file(idxname: Seq<char>, b: int) -> Seq<char> {
    table_file(idxname + int_text(b))
}

/// Whether the record in slot `s` of block `n` of a bucket file holds the
/// value `key`.
pub open spec fn holds_key(tx: &Transaction, name: Seq<char>, fs: Seq<FieldSpec>, n: int, s: int, key: ConstVal) -> bool {
    used_at(tx, name, fs, n, s) && field_val(tx.blocks(name)[n], fs, s, 2) == key
}

/// The data record id in the record in slot `s` of block `n` of a bucket file.
pub open spec fn rid_at(tx: &Transaction, name: Seq<char>, fs: Seq<FieldSpec>, n: int, s: int) -> RID {
    RID {
        blknum: int_at(tx.blocks(name)[n], field_pos(fs, s, 0)),
        slot: int_at(tx.blocks(name)[n], field_pos(fs, s, 1)),
    }
}

/// A static hash index: a fixed number of buckets, each a table of index
/// records named after the index and the bucket number.
pub struct HashIndex {
    idxname: String,
    layout: Layout,
    searchkey: Option<Constant>,
    ts: Option<TableScan>,
    current_rid: Option<RID>,
}

impl HashIndex {
    /// The name of the index.
    pub closed spec fn name(&self) -> Seq<char> {
        self.idxname@
    }

    /// The fields of the index records.
    pub closed spec fn fs(&self) -> Seq<FieldSpec> {
        self.layout.fields()
    }

    /// The search key, once one is set.
    pub closed spec fn key(&self) -> Option<ConstVal> {
        match self.searchkey {
            Some(k) => Some(k@),
            None => None,
        }
    }

    /// The scan of the search key's bucket, once one is open.
    pub closed spec fn scan(&self) -> Option<TableScan> {
        self.ts
    }

    /// The data record id of the current index record, once there is one.
    pub closed spec fn current(&self) -> Option<RID> {
        self.current_rid
    }

    /// Every bucket file of the index is a well-formed table of index records.
    closed spec fn files_ok(&self, tx: &Transaction) -> bool {
        &&& self.layout.wf()
        &&& names_distinct(self.fs())
        &&& leaf_layout(self.fs())
        &&& forall|b: int|
            -NUM_BUCKETS < b < NUM_BUCKETS ==> table_ok(tx, #[trigger] bucket_file(self.name(), b), self.fs())
    }

    /// Every bucket file of the index is a well-formed table of index records,
    /// and an open scan is on the search key's bucket.
    pub closed spec fn valid(&self, tx: &Transaction) -> bool {
        &&& self.files_ok(tx)
        &&& self.ts matches Some(ts) ==> {
            &&& self.searchkey is Some
            &&& ts.valid(tx)
            &&& ts.fs() == self.fs()
            &&& ts.file() == bucket_file(self.name(), bucket_of(self.searchkey.unwrap()@))
        }
    }

    /// Opens the hash index `idxname`, with no search key yet.
    pub fn new(idxname: &str, layout: Layout) -> (r: Self)
        ensures
            r.name() == idxname@,
            r.fs() == layout.fields(),
            r.key() is None,
            r.scan() is None,
            r.current() is None,
    {
        HashIndex { idxname: idxname.to_owned(), layout, searchkey: None, ts: None, current_rid: None }
    }

    /// The cost of a search of an index of `numblocks` blocks: the blocks of
    /// one bucket, as the buckets share the blocks evenly.
    pub fn search_cost(numblocks: i32, _rpb: i32) -> (r: i32)
        ensures
            r == div_trunc(numblocks as int, NUM_BUCKETS as int),
    {
        numblocks / NUM_BUCKETS
    }

    /// Positions the index before the first record of `searchkey`: opens a
    /// scan of its bucket, which is created when it has no block yet.
    pub fn before_first(&mut self, tx: &mut Transaction, searchkey: &Constant)
        requires
            old(self).valid(old(tx)),
        ensures
            final(self).valid(final(tx)),
            final(self).name() == old(self).name(),
            final(self).fs() == old(self).fs(),
            final(self).key() == Some(searchkey@),
            final(self).scan() matches Some(ts) && ts.bnum() == 0 && ts.slot() == -1,
            final(self).current() == old(self).current(),
            final(tx).spec_block_size() == old(tx).spec_block_size(),
            forall|nm: Seq<char>|
                nm != bucket_file(old(self).name(), bucket_of(searchkey@)) ==> #[trigger] final(tx).blocks(nm)
                    == old(tx).blocks(nm),
            old(tx).blocks(bucket_file(old(self).name(), bucket_of(searchkey@))).len() != 0 ==> *final(tx)
                == *old(tx),
            old(tx).blocks(bucket_file(old(self).name(), bucket_of(searchkey@))).len() == 0 ==> final(tx).blocks(
                bucket_file(old(self).name(), bucket_of(searchkey@)),
            ) == seq![zero_block(old(tx).spec_block_size())],
    {
        self.ts = None;
        self.searchkey = Some(searchkey.clone());
        let bucket = hash_code(searchkey) % NUM_BUCKETS;
        let digits = string_from_chars(&int_to_chars(bucket));
        let tblname = concat(self.idxname.as_str(), digits.as_str());
        proof {
            assert(old(self).files_ok(old(tx)));
            assert(self.name() == old(self).name());
            assert(self.fs() == old(self).fs());
            assert(-NUM_BUCKETS < bucket < NUM_BUCKETS);
            assert(bucket == bucket_of(searchkey@));
            assert(table_ok(tx, bucket_file(self.name(), bucket as int), self.fs()));
        }
        let ghost tx0 = *tx;
        let ts = TableScan::new(tx, tblname.as_str(), self.layout.clone());
        proof {
            ts.lemma_valid(tx);
            assert forall|b: int| -NUM_BUCKETS < b < NUM_BUCKETS implies table_ok(
                tx,
                #[trigger] bucket_file(self.name(), b),
                self.fs(),
            ) by {
                assert(table_ok(&tx0, bucket_file(self.name(), b), self.fs()));
                if bucket_file(self.name(), b) != table_file(tblname@) {
                    assert(tx.blocks(bucket_file(self.name(), b)) == tx0.blocks(bucket_file(self.name(), b)));
                }
            }
        }
        self.ts = Some(ts);
    }

    /// Moves to the next record of the search key's bucket that holds the
    /// search key, and makes its data record id current; false when there
    /// is none.
    pub fn next(&mut self, tx: &Transaction) -> (r: bool)
        requires
            old(self).valid(tx),
        ensures
            final(self).valid(tx),
            final(self).name() == old(self).name(),
            final(self).fs() == old(self).fs(),
            final(self).key() == old(self).key(),
            old(self).scan() is None ==> !r && final(self).scan() is None,
            old(self).scan() matches Some(ts0) ==> final(self).scan() matches Some(ts1) && {
                let name = ts0.file();
                let fs = ts0.fs();
                let key = old(self).key().unwrap();
                &&& ts1.file() == name
                &&& r ==> {
                    &&& holds_key(tx, name, fs, ts1.bnum(), ts1.slot(), key)
                    &&& pos_before(ts0.bnum(), ts0.slot(), ts1.bnum(), ts1.slot())
                    &&& forall|n: int, s: int|
                        pos_before(ts0.bnum(), ts0.slot(), n, s) && pos_before(n, s, ts1.bnum(), ts1.slot())
                            ==> !#[trigger] holds_key(tx, name, fs, n, s, key)
                    &&& final(self).current() == Some(
                        RID {
                            blknum: int_at(tx.blocks(name)[ts1.bnum()], field_pos(fs, ts1.slot(), 0)),
                            slot: int_at(tx.blocks(name)[ts1.bnum()], field_pos(fs, ts1.slot(), 1)),
                        },
                    )
                }
                &&& !r ==> {
                    &&& forall|n: int, s: int|
                        pos_before(ts0.bnum(), ts0.slot(), n, s) ==> !#[trigger] holds_key(tx, name, fs, n, s, key)
                    &&& final(self).current() is None
                }
            },
    {
        if self.ts.is_none() || self.searchkey.is_none() {
            self.current_rid = None;
            proof {
                assert(old(self).files_ok(tx));
                assert(self.name() == old(self).name());
                assert(self.fs() == old(self).fs());
            }
            return false;
        }
        let mut ts = self.ts.take().unwrap();
        let searchkey = self.searchkey.as_ref().unwrap();
        let ghost ts0 = ts;
        let ghost name = ts.file();
        let ghost fs = ts.fs();
        let ghost key = searchkey@;
        proof {
            lemma_index_fields(fs);
            assert(self.searchkey->0 == *searchkey);
            assert(old(self).key() == Some(key));
        }
        loop
            invariant
                self.files_ok(tx),
                self.name() == old(self).name(),
                self.fs() == old(self).fs(),
                self.searchkey == old(self).searchkey,
                self.searchkey is Some,
                old(self).valid(tx),
                old(self).scan() == Some(ts0),
                old(self).key() == Some(key),
                ts.valid(tx),
                ts.file() == name,
                ts.fs() == fs,
                name == ts0.file(),
                fs == ts0.fs(),
                leaf_layout(fs),
                names_distinct(fs),
                key == searchkey@,
                ts0.bnum() < ts.bnum() || (ts0.bnum() == ts.bnum() && ts0.slot() <= ts.slot()),
                forall|n: int, s: int|
                    pos_before(ts0.bnum(), ts0.slot(), n, s) && (n < ts.bnum() || (n == ts.bnum() && s
                        <= ts.slot())) ==> !#[trigger] holds_key(tx, name, fs, n, s, key),
            decreases tx.blocks(name).len() - ts.bnum(), tx.spec_block_size() - ts.slot(),
        {
            proof {
                ts.lemma_valid(tx);
                lemma_index_fields(fs);
            }
            let ghost head = ts;
            if !ts.next(tx) {
                proof {
                    assert forall|n: int, s: int| pos_before(ts0.bnum(), ts0.slot(), n, s) implies !#[trigger] holds_key(
                        tx,
                        name,
                        fs,
                        n,
                        s,
                        key,
                    ) by {
                        if pos_before(head.bnum(), head.slot(), n, s) {
                            assert(!used_at(tx, name, fs, n, s));
                        }
                    }
                }
                self.ts = Some(ts);
                self.current_rid = None;
                return false;
            }
            proof {
                ts.lemma_valid(tx);
                crate::index::btree::page_format::lemma_slot_pos_ge(fs, ts.slot() + 1);
            }
            let dataval = ts.get_val(tx, "dataval");
            if dataval.equals(searchkey) {
                let blknum = ts.get_int(tx, "block");
                let id = ts.get_int(tx, "id");
                proof {
                    assert forall|n: int, s: int|
                        pos_before(ts0.bnum(), ts0.slot(), n, s) && pos_before(n, s, ts.bnum(), ts.slot()) implies !#[trigger] holds_key(
                        tx,
                        name,
                        fs,
                        n,
                        s,
                        key,
                    ) by {
                        if pos_before(head.bnum(), head.slot(), n, s) {
                            assert(!used_at(tx, name, fs, n, s));
                        }
                    }
                    assert(holds_key(tx, name, fs, ts.bnum(), ts.slot(), key));
                }
                self.ts = Some(ts);
                self.current_rid = Some(RID::new(blknum, id));
                return true;
            }
        }
    }

    /// Inserts the index record of `dataval` and `datarid` into the first
    /// free slot of the bucket of `dataval`, which becomes current.
    #[verifier::spinoff_prover]
    #[verifier::rlimit(50)]
    pub fn insert(&mut self, tx: &mut Transaction, dataval: &Constant, datarid: &RID)
        requires
            old(self).valid(old(tx)),
            val_fits(dataval@, old(self).fs()[2]),
            old(tx).blocks(bucket_file(old(self).name(), bucket_of(dataval@))).len() + 1 < i32::MAX,
        ensures
            final(self).valid(final(tx)),
            final(self).name() == old(self).name(),
            final(self).fs() == old(self).fs(),
            final(self).key() == Some(dataval@),
            final(tx).spec_block_size() == old(tx).spec_block_size(),
            forall|nm: Seq<char>|
                nm != bucket_file(old(self).name(), bucket_of(dataval@)) ==> #[trigger] final(tx).blocks(nm)
                    == old(tx).blocks(nm),
            records_kept(old(tx), final(tx), bucket_file(old(self).name(), bucket_of(dataval@)), old(self).fs()),
            final(self).scan() matches Some(ts) && {
                &&& ts.file() == bucket_file(old(self).name(), bucket_of(dataval@))
                &&& added_at(old(tx), final(tx), ts.file(), ts.fs(), ts.bnum(), ts.slot())
                &&& forall|n: int, s: int|
                    pos_before(n, s, ts.bnum(), ts.slot()) ==> !#[trigger] free_at(old(tx), ts.file(), ts.fs(), n, s)
                &&& rec_val(final(tx).blocks(ts.file())[ts.bnum()], ts.fs(), ts.slot()) == seq![
                    ConstVal::Int(datarid.blknum),
                    ConstVal::Int(datarid.slot),
                    dataval@,
                ]
            },
    {
        let ghost fs = self.fs();
        let ghost txo = *tx;
        self.before_first(tx, dataval);
        let mut ts = self.ts.take().unwrap();
        let ghost txa = *tx;
        let ghost name = ts.file();
        proof {
            ts.lemma_valid(tx);
            lemma_index_fields(fs);
            lemma_open_used(&txo, tx, name, fs);
            assert(records_kept(&txo, tx, name, fs)) by {
                assert forall|n: int, s: int| #[trigger] used_at(&txo, name, fs, n, s) implies used_at(tx, name, fs, n, s)
                    && rec_at(tx, name, fs, n, s) == rec_at(&txo, name, fs, n, s) by {
                }
            }
        }
        let ghost pos0 = (ts.bnum(), ts.slot());
        ts.insert(tx);
        let ghost b0 = ts.cur_bytes(tx);
        let ghost tx0 = *tx;
        proof {
            assert forall|n: int, s: int| pos_before(n, s, ts.bnum(), ts.slot()) implies !#[trigger] free_at(
                &txo,
                name,
                fs,
                n,
                s,
            ) by {
                if free_at(&txo, name, fs, n, s) {
                    assert(free_at(&txa, name, fs, n, s));
                    assert(pos_before(pos0.0, pos0.1, n, s));
                }
            }
            ts.lemma_valid(tx);
            ts.lemma_blk(tx);
            lemma_insert_used(&txa, tx, name, fs, ts.bnum(), ts.slot());
            lemma_records_kept_trans(&txo, &txa, tx, name, fs);
        }
        ts.set_int(tx, "block", datarid.block_number());
        let ghost b1 = ts.cur_bytes(tx);
        let ghost tx1 = *tx;
        proof {
            let t = ts.slot();
            ts.lemma_valid(tx);
            ts.lemma_blk(tx);
            tx0.lemma_same_but_self(*tx, ts.blk(), with_int(b0, field_pos(fs, t, 0), datarid.blknum));
            lemma_field_in_slot(fs, t, 0);
            crate::index::btree::page_format::lemma_int_field_write(b0, fs, t, 0, datarid.blknum);
            lemma_with_int_agree(b0, field_pos(fs, t, 0), datarid.blknum);
            lemma_slots_after_field_write(b0, b1, fs, t, 0);
            lemma_records_kept_slot(&txo, &tx0, tx, ts.blk(), ts.cur_bytes(tx), fs, t);
            lemma_flags_kept_used(&tx0, tx, ts.blk(), ts.cur_bytes(tx), fs);
        }
        ts.set_int(tx, "id", datarid.slot());
        let ghost b2 = ts.cur_bytes(tx);
        proof {
            let t = ts.slot();
            ts.lemma_valid(tx);
            ts.lemma_blk(tx);
            tx1.lemma_same_but_self(*tx, ts.blk(), with_int(b1, field_pos(fs, t, 1), datarid.slot));
            lemma_field_in_slot(fs, t, 1);
            crate::index::btree::page_format::lemma_int_field_write(b1, fs, t, 1, datarid.slot);
            lemma_with_int_agree(b1, field_pos(fs, t, 1), datarid.slot);
            lemma_slots_after_field_write(b1, b2, fs, t, 1);
            lemma_records_kept_slot(&txo, &tx1, tx, ts.blk(), ts.cur_bytes(tx), fs, t);
            lemma_flags_kept_used(&tx1, tx, ts.blk(), ts.cur_bytes(tx), fs);
        }
        let ghost tx2 = *tx;
        ts.set_val(tx, "dataval", dataval);
        proof {
            ts.lemma_valid(tx);
            let t = ts.slot();
            ts.lemma_blk(tx);
            lemma_records_kept_slot(&txo, &tx2, tx, ts.blk(), ts.cur_bytes(tx), fs, t);
            lemma_flags_kept_used(&tx2, tx, ts.blk(), ts.cur_bytes(tx), fs);
            assert(rec_val(ts.cur_bytes(tx), fs, t) =~= seq![
                ConstVal::Int(datarid.blknum),
                ConstVal::Int(datarid.slot),
                dataval@,
            ]);
        }
        self.ts = Some(ts);
    }

    /// Deletes the first index record of the bucket of `dataval` that holds
    /// `dataval` and `datarid`: frees its slot.
    pub fn delete(&mut self, tx: &mut Transaction, dataval: &Constant, datarid: &RID)
        requires
            old(self).valid(old(tx)),
        ensures
            final(self).valid(final(tx)),
            final(self).name() == old(self).name(),
            final(self).fs() == old(self).fs(),
            final(self).key() == Some(dataval@),
            final(tx).spec_block_size() == old(tx).spec_block_size(),
            forall|nm: Seq<char>|
                nm != bucket_file(old(self).name(), bucket_of(dataval@)) ==> #[trigger] final(tx).blocks(nm)
                    == old(tx).blocks(nm),
            ({
                let name = bucket_file(old(self).name(), bucket_of(dataval@));
                let fs = old(self).fs();
                let key = dataval@;
                &&& old(tx).blocks(name).len() == 0 ==> final(tx).blocks(name) == seq![
                    zero_block(old(tx).spec_block_size()),
                ]
                &&& old(tx).blocks(name).len() != 0 ==> {
                    ||| {
                        &&& final(tx).blocks(name) == old(tx).blocks(name)
                        &&& forall|n: int, s: int|
                            #[trigger] holds_key(old(tx), name, fs, n, s, key) ==> rid_at(old(tx), name, fs, n, s)
                                != *datarid
                    }
                    ||| exists|n: int, s: int|
                        {
                            &&& #[trigger] holds_key(old(tx), name, fs, n, s, key)
                            &&& rid_at(old(tx), name, fs, n, s) == *datarid
                            &&& forall|m: int, t: int|
                                pos_before(m, t, n, s) && #[trigger] holds_key(old(tx), name, fs, m, t, key) ==> rid_at(
                                    old(tx),
                                    name,
                                    fs,
                                    m,
                                    t,
                                ) != *datarid
                            &&& final(tx).blocks(name) == old(tx).blocks(name).update(
                                n,
                                with_int(old(tx).blocks(name)[n], slot_pos(fs, s), EMPTY),
                            )
                        }
                }
            }),
    {
        let ghost name = bucket_file(self.name(), bucket_of(dataval@));
        let ghost fs = self.fs();
        let ghost key = dataval@;
        self.before_first(tx, dataval);
        let ghost tx1 = *tx;
        proof {
            lemma_index_fields(fs);
            if old(tx).blocks(name).len() == 0 {
                crate::record::table_scan::lemma_zero_block(fs, tx.spec_block_size());
            }
        }
        loop
            invariant
                self.valid(tx),
                *tx == tx1,
                tx1.spec_block_size() == old(tx).spec_block_size(),
                forall|nm: Seq<char>| nm != name ==> #[trigger] tx1.blocks(nm) == old(tx).blocks(nm),
                self.name() == old(self).name(),
                self.fs() == fs,
                fs == old(self).fs(),
                leaf_layout(fs),
                names_distinct(fs),
                self.key() == Some(key),
                key == dataval@,
                name == bucket_file(old(self).name(), bucket_of(dataval@)),
                self.scan() matches Some(ts) && ts.file() == name && ts.fs() == fs,
                old(tx).blocks(name).len() != 0 ==> *tx == *old(tx),
                old(tx).blocks(name).len() == 0 ==> tx.blocks(name) == seq![zero_block(tx.spec_block_size())],
                old(tx).blocks(name).len() == 0 ==> forall|s: int|
                    0 <= s && slot_pos(fs, s + 1) <= tx.spec_block_size() ==> #[trigger] slot_flag(
                        zero_block(tx.spec_block_size()),
                        fs,
                        s,
                    ) == EMPTY,
                forall|n: int, s: int|
                    #[trigger] holds_key(tx, name, fs, n, s, key) && (n < self.scan().unwrap().bnum() || (n
                        == self.scan().unwrap().bnum() && s <= self.scan().unwrap().slot())) ==> rid_at(
                        tx,
                        name,
                        fs,
                        n,
                        s,
                    ) != *datarid,
            decreases tx.blocks(name).len() - self.scan().unwrap().bnum(), tx.spec_block_size()
                - self.scan().unwrap().slot(),
        {
            let ghost head = self.scan().unwrap();
            proof {
                head.lemma_valid(tx);
            }
            if !self.next(tx) {
                proof {
                    assert forall|n: int, s: int| #[trigger] holds_key(tx, name, fs, n, s, key) implies rid_at(
                        tx,
                        name,
                        fs,
                        n,
                        s,
                    ) != *datarid by {
                        if pos_before(head.bnum(), head.slot(), n, s) {
                            assert(!holds_key(tx, name, fs, n, s, key));
                        }
                    }
                    if old(tx).blocks(name).len() == 0 {
                        assert(tx.blocks(name) == seq![zero_block(tx.spec_block_size())]);
                    }
                }
                return;
            }
            let ghost cur = self.scan().unwrap();
            proof {
                cur.lemma_valid(tx);
                crate::index::btree::page_format::lemma_slot_pos_ge(fs, cur.slot() + 1);
            }
            let current_rid = self.get_data_rid(tx);
            if current_rid == *datarid {
                let ghost me = *self;
                proof {
                    assert forall|m: int, t: int|
                        pos_before(m, t, cur.bnum(), cur.slot()) && #[trigger] holds_key(tx, name, fs, m, t, key)
                            implies rid_at(tx, name, fs, m, t) != *datarid by {
                        if pos_before(head.bnum(), head.slot(), m, t) {
                            assert(!holds_key(tx, name, fs, m, t, key));
                        }
                    }
                }
                let ts = self.ts.take().unwrap();
                proof {
                    ts.lemma_valid(tx);
                    ts.lemma_blk(tx);
                    if old(tx).blocks(name).len() == 0 {
                        assert(slot_flag(tx.blocks(name)[0], fs, ts.slot()) == EMPTY);
                    }
                }
                ts.delete(tx);
                self.ts = Some(ts);
                proof {
                    ts.lemma_valid(tx);
                    assert(me.files_ok(&tx1));
                    assert forall|b: int| -NUM_BUCKETS < b < NUM_BUCKETS implies table_ok(
                        tx,
                        #[trigger] bucket_file(self.name(), b),
                        self.fs(),
                    ) by {
                        assert(table_ok(&tx1, bucket_file(me.name(), b), me.fs()));
                        if bucket_file(self.name(), b) != name {
                            assert(tx.blocks(bucket_file(self.name(), b)) == tx1.blocks(bucket_file(self.name(), b)));
                        }
                    }
                    tx1.lemma_same_but_self(*tx, ts.blk(), with_int(ts.cur_bytes(&tx1), slot_pos(fs, ts.slot()), EMPTY));
                    assert(holds_key(&tx1, name, fs, ts.bnum(), ts.slot(), key));
                    assert(tx.blocks(name) =~= tx1.blocks(name).update(
                        ts.bnum(),
                        with_int(tx1.blocks(name)[ts.bnum()], slot_pos(fs, ts.slot()), EMPTY),
                    ));
                }
                return;
            }
        }
    }

    /// The data record id of the current index record; `(0, 0)` when no
    /// bucket is open.
    pub fn get_data_rid(&self, tx: &Transaction) -> (r: RID)
        requires
            self.valid(tx),
            self.scan() matches Some(ts) ==> ts.slot() >= 0,
        ensures
            self.scan() matches Some(ts) ==> {
                &&& r.blknum == int_at(tx.blocks(ts.file())[ts.bnum()], field_pos(self.fs(), ts.slot(), 0))
                &&& r.slot == int_at(tx.blocks(ts.file())[ts.bnum()], field_pos(self.fs(), ts.slot(), 1))
            },
            self.scan() is None ==> r == (RID { blknum: 0, slot: 0 }),
    {
        match &self.ts {
            Some(ts) => {
                proof {
                    lemma_index_fields(self.fs());
                }
                let blknum = ts.get_int(tx, "block");
                let id = ts.get_int(tx, "id");
                RID::new(blknum, id)
            },
            None => RID::new(0, 0),
        }
    }

    /// Closes the index: no bucket is open any more.
    pub fn close(&mut self)
        ensures
            final(self).name() == old(self).name(),
            final(self).fs() == old(self).fs(),
            final(self).key() == old(self).key(),
            final(self).current() == old(self).current(),
            final(self).scan() is None,
            forall|tx: &Transaction| old(self).valid(tx) ==> #[trigger] final(self).valid(tx),
    {
        self.ts = None;
    }
}

impl IndexScan for HashIndex {
    open spec fn scan_ok(&self, tx: &Transaction) -> bool {
        self.valid(tx)
    }

    open spec fn key_ok(&self, key: ConstVal) -> bool {
        val_fits(key, self.fs()[2])
    }

    open spec fn can_step(&self, tx: &Transaction) -> bool {
        true
    }

    open spec fn at_record(&self, tx: &Transaction) -> bool {
        self.scan() matches Some(ts) ==> ts.slot() >= 0
    }

    open spec fn has_room(&self, tx: &Transaction) -> bool {
        forall|b: int|
            -NUM_BUCKETS < b < NUM_BUCKETS ==> #[trigger] tx.blocks(bucket_file(self.name(), b)).len() + 1
                < i32::MAX
    }

    fn before_first(&mut self, tx: &mut Transaction, searchkey: &Constant)
        ensures
            final(self).valid(final(tx)),
            final(self).name() == old(self).name(),
            final(self).fs() == old(self).fs(),
            final(self).key() == Some(searchkey@),
            final(self).scan() matches Some(ts) && ts.bnum() == 0 && ts.slot() == -1,
            final(self).current() == old(self).current(),
            final(tx).spec_block_size() == old(tx).spec_block_size(),
            forall|nm: Seq<char>|
                nm != bucket_file(old(self).name(), bucket_of(searchkey@)) ==> #[trigger] final(tx).blocks(nm)
                    == old(tx).blocks(nm),
            old(tx).blocks(bucket_file(old(self).name(), bucket_of(searchkey@))).len() != 0 ==> *final(tx)
                == *old(tx),
            old(tx).blocks(bucket_file(old(self).name(), bucket_of(searchkey@))).len() == 0 ==> final(tx).blocks(
                bucket_file(old(self).name(), bucket_of(searchkey@)),
            ) == seq![zero_block(old(tx).spec_block_size())],
    {
        HashIndex::before_first(self, tx, searchkey)
    }

    fn next(&mut self, tx: &Transaction) -> (r: bool)
        ensures
            final(self).valid(tx),
            final(self).name() == old(self).name(),
            final(self).fs() == old(self).fs(),
            final(self).key() == old(self).key(),
            old(self).scan() is None ==> !r && final(self).scan() is None,
            old(self).scan() matches Some(ts0) ==> final(self).scan() matches Some(ts1) && {
                let name = ts0.file();
                let fs = ts0.fs();
                let key = old(self).key().unwrap();
                &&& ts1.file() == name
                &&& r ==> {
                    &&& holds_key(tx, name, fs, ts1.bnum(), ts1.slot(), key)
                    &&& pos_before(ts0.bnum(), ts0.slot(), ts1.bnum(), ts1.slot())
                    &&& forall|n: int, s: int|
                        pos_before(ts0.bnum(), ts0.slot(), n, s) && pos_before(n, s, ts1.bnum(), ts1.slot())
                            ==> !#[trigger] holds_key(tx, name, fs, n, s, key)
                    &&& final(self).current() == Some(
                        RID {
                            blknum: int_at(tx.blocks(name)[ts1.bnum()], field_pos(fs, ts1.slot(), 0)),
                            slot: int_at(tx.blocks(name)[ts1.bnum()], field_pos(fs, ts1.slot(), 1)),
                        },
                    )
                }
                &&& !r ==> {
                    &&& forall|n: int, s: int|
                        pos_before(ts0.bnum(), ts0.slot(), n, s) ==> !#[trigger] holds_key(tx, name, fs, n, s, key)
                    &&& final(self).current() is None
                }
            },
    {
        HashIndex::next(self, tx)
    }

    fn get_data_rid(&self, tx: &Transaction) -> (r: RID)
        ensures
            self.scan() matches Some(ts) ==> {
                &&& r.blknum == int_at(tx.blocks(ts.file())[ts.bnum()], field_pos(self.fs(), ts.slot(), 0))
                &&& r.slot == int_at(tx.blocks(ts.file())[ts.bnum()], field_pos(self.fs(), ts.slot(), 1))
            },
            self.scan() is None ==> r == (RID { blknum: 0, slot: 0 }),
    {
        HashIndex::get_data_rid(self, tx)
    }

    fn insert(&mut self, tx: &mut Transaction, dataval: &Constant, datarid: &RID)
        ensures
            final(self).valid(final(tx)),
            final(self).name() == old(self).name(),
            final(self).fs() == old(self).fs(),
            final(self).key() == Some(dataval@),
            final(tx).spec_block_size() == old(tx).spec_block_size(),
            forall|nm: Seq<char>|
                nm != bucket_file(old(self).name(), bucket_of(dataval@)) ==> #[trigger] final(tx).blocks(nm)
                    == old(tx).blocks(nm),
            records_kept(old(tx), final(tx), bucket_file(old(self).name(), bucket_of(dataval@)), old(self).fs()),
            final(self).scan() matches Some(ts) && {
                &&& ts.file() == bucket_file(old(self).name(), bucket_of(dataval@))
                &&& added_at(old(tx), final(tx), ts.file(), ts.fs(), ts.bnum(), ts.slot())
                &&& forall|n: int, s: int|
                    pos_before(n, s, ts.bnum(), ts.slot()) ==> !#[trigger] free_at(old(tx), ts.file(), ts.fs(), n, s)
                &&& rec_val(final(tx).blocks(ts.file())[ts.bnum()], ts.fs(), ts.slot()) == seq![
                    ConstVal::Int(datarid.blknum),
                    ConstVal::Int(datarid.slot),
                    dataval@,
                ]
            },
    {
        proof {
            assert(-NUM_BUCKETS < bucket_of(dataval@) < NUM_BUCKETS);
            assert(tx.blocks(bucket_file(self.name(), bucket_of(dataval@))).len() + 1 < i32::MAX);
        }
        HashIndex::insert(self, tx, dataval, datarid)
    }

    fn delete(&mut self, tx: &mut Transaction, dataval: &Constant, datarid: &RID)
        ensures
            final(self).valid(final(tx)),
            final(self).name() == old(self).name(),
            final(self).fs() == old(self).fs(),
            final(self).key() == Some(dataval@),
            final(tx).spec_block_size() == old(tx).spec_block_size(),
            forall|nm: Seq<char>|
                nm != bucket_file(old(self).name(), bucket_of(dataval@)) ==> #[trigger] final(tx).blocks(nm)
                    == old(tx).blocks(nm),
            ({
                let name = bucket_file(old(self).name(), bucket_of(dataval@));
                let fs = old(self).fs();
                let key = dataval@;
                &&& old(tx).blocks(name).len() == 0 ==> final(tx).blocks(name) == seq![
                    zero_block(old(tx).spec_block_size()),
                ]
                &&& old(tx).blocks(name).len() != 0 ==> {
                    ||| {
                        &&& final(tx).blocks(name) == old(tx).blocks(name)
                        &&& forall|n: int, s: int|
                            #[trigger] holds_key(old(tx), name, fs, n, s, key) ==> rid_at(old(tx), name, fs, n, s)
                                != *datarid
                    }
                    ||| exists|n: int, s: int|
                        {
                            &&& #[trigger] holds_key(old(tx), name, fs, n, s, key)
                            &&& rid_at(old(tx), name, fs, n, s) == *datarid
                            &&& forall|m: int, t: int|
                                pos_before(m, t, n, s) && #[trigger] holds_key(old(tx), name, fs, m, t, key) ==> rid_at(
                                    old(tx),
                                    name,
                                    fs,
                                    m,
                                    t,
                                ) != *datarid
                            &&& final(tx).blocks(name) == old(tx).blocks(name).update(
                                n,
                                with_int(old(tx).blocks(name)[n], slot_pos(fs, s), EMPTY),
                            )
                        }
                }
            }),
    {
        HashIndex::delete(self, tx, dataval, datarid)
    }

    fn close(&mut self)
        ensures
            final(self).name() == old(self).name(),
            final(self).fs() == old(self).fs(),
            final(self).key() == old(self).key(),
            final(self).current() == old(self).current(),
            final(self).scan() is None,
            forall|tx: &Transaction| old(self).valid(tx) ==> #[trigger] final(self).valid(tx),
    {
        HashIndex::close(self)
    }
}

/// The positions `q` are those of a scan for `key` over the bucket file
/// `name`: it starts before the first slot, each step lands on the next slot
/// that holds `key`, and the last step found no slot after it that does.
pub open spec fn scan_walk(tx: &Transaction, name: Seq<char>, fs: Seq<FieldSpec>, key: ConstVal, q: Seq<(int, int)>) -> bool {
    &&& q.len() >= 1
    &&& q[0] == (0int, -1int)
    &&& forall|j: int|
        0 <= j < q.len() - 1 ==> {
            &&& holds_key(tx, name, fs, #[trigger] q[j + 1].0, q[j + 1].1, key)
            &&& pos_before(q[j].0, q[j].1, q[j + 1].0, q[j + 1].1)
            &&& forall|n: int, s: int|
                pos_before(q[j].0, q[j].1, n, s) && pos_before(n, s, q[j + 1].0, q[j + 1].1) ==> !#[trigger] holds_key(
                    tx,
                    name,
                    fs,
                    n,
                    s,
                    key,
                )
        }
    &&& forall|n: int, s: int|
        pos_before(q.last().0, q.last().1, n, s) ==> !#[trigger] holds_key(tx, name, fs, n, s, key)
}

/// Lookup in a hash index: a scan for `key` that runs until `next` returns
/// false stops at every slot of the bucket file that holds `key`, such as the
/// one an insertion of `key` filled.
pub proof fn lemma_scan_finds(
    tx: &Transaction,
    name: Seq<char>,
    fs: Seq<FieldSpec>,
    key: ConstVal,
    q: Seq<(int, int)>,
    n1: int,
    s1: int,
)
    requires
        scan_walk(tx, name, fs, key, q),
        holds_key(tx, name, fs, n1, s1, key),
        0 <= s1,
    ensures
        exists|j: int| 1 <= j < q.len() && #[trigger] q[j] == (n1, s1),
{
    lemma_scan_finds_from(tx, name, fs, key, q, n1, s1, 0);
}

/// A scan that has not yet passed a slot holding its key stops there later.
proof fn lemma_scan_finds_from(
    tx: &Transaction,
    name: Seq<char>,
    fs: Seq<FieldSpec>,
    key: ConstVal,
    q: Seq<(int, int)>,
    n1: int,
    s1: int,
    j: int,
)
    requires
        scan_walk(tx, name, fs, key, q),
        holds_key(tx, name, fs, n1, s1, key),
        0 <= j < q.len(),
        pos_before(q[j].0, q[j].1, n1, s1),
    ensures
        exists|i: int| j < i < q.len() && #[trigger] q[i] == (n1, s1),
    decreases q.len() - j,
{
    if j == q.len() - 1 {
        assert(q.last() == q[j]);
        assert(!holds_key(tx, name, fs, n1, s1, key));
    } else {
        let nx = q[j + 1];
        assert(holds_key(tx, name, fs, q[j + 1].0, q[j + 1].1, key));
        if nx == (n1, s1) {
            assert(q[j + 1] == (n1, s1));
        } else if pos_before(nx.0, nx.1, n1, s1) {
            lemma_scan_finds_from(tx, name, fs, key, q, n1, s1, j + 1);
        } else {
            assert(pos_before(n1, s1, nx.0, nx.1));
            assert(!holds_key(tx, name, fs, n1, s1, key));
        }
    }
}

} // verus!
