use rsimpledb::file::BlockId;
use rsimpledb::index::hash::{BucketPage, ExtendableHashIndex, HashIndex};
use rsimpledb::metadata::{IndexInfo, IndexType, StatInfo};
use rsimpledb::query::Constant;
use rsimpledb::record::{Layout, Schema, TableScan, RID};
use rsimpledb::tx::Transaction;

fn int_index_layout() -> Layout {
    let mut sch = Schema::new();
    sch.add_int_field("block");
    sch.add_int_field("id");
    sch.add_int_field("dataval");
    Layout::new(sch)
}

/// A bucket of 64-byte blocks: three slots of 16 bytes after the header.
/// Slots 0 and 2 are in use and hold the key 7; slot 1 is free.
fn bucket_with_two_records() -> (Transaction, BlockId) {
    let mut tx = Transaction::new(64);
    let blk = tx.append("hbucket");
    tx.set_int(&blk, 0, 2, true);
    tx.set_int(&blk, 4, 2, true);
    for (slot, used, block, id) in [(0usize, 1, 5, 6), (1, 0, 3, 4), (2, 1, 9, 10)] {
        let pos = 8 + 16 * slot;
        tx.set_int(&blk, pos, used, true);
        tx.set_int(&blk, pos + 4, block, true);
        tx.set_int(&blk, pos + 8, id, true);
        tx.set_int(&blk, pos + 12, 7, true);
    }
    (tx, blk)
}

#[test]
fn bucket_page_reads_header() {
    let (tx, blk) = bucket_with_two_records();
    let bp = BucketPage::new(&tx, blk, Constant::from_int(7), int_index_layout());
    assert_eq!(bp.local_depth(), 2);
    assert_eq!(bp.length(), 2);
    assert!(!bp.is_full());
    assert_eq!(bp.get_data_rid(), RID::new(0, 0));
}

#[test]
fn bucket_page_next_skips_free_slots() {
    let (tx, blk) = bucket_with_two_records();
    let mut bp = BucketPage::new(&tx, blk, Constant::from_int(7), int_index_layout());
    assert!(bp.next(&tx));
    assert_eq!(bp.get_data_rid(), RID::new(5, 6));
    assert_eq!(bp.get_val(&tx, "dataval").as_int(), Some(7));
    assert_eq!(bp.get_val(&tx, "block").as_int(), Some(5));
    assert!(bp.next(&tx));
    assert_eq!(bp.get_data_rid(), RID::new(9, 10));
    assert!(!bp.next(&tx));
    assert_eq!(bp.get_data_rid(), RID::new(0, 0));
}

#[test]
fn bucket_page_next_stops_at_other_key() {
    let (tx, blk) = bucket_with_two_records();
    let mut bp = BucketPage::new(&tx, blk, Constant::from_int(8), int_index_layout());
    assert!(!bp.next(&tx));
    assert_eq!(bp.get_data_rid(), RID::new(0, 0));
}

#[test]
fn bucket_page_delete_frees_first_match() {
    let (mut tx, blk) = bucket_with_two_records();
    let mut bp = BucketPage::new(&tx, blk.clone(), Constant::from_int(7), int_index_layout());
    bp.delete(&mut tx);
    assert_eq!(bp.length(), 1);
    assert_eq!(tx.get_int(&blk, 4), 1);
    assert_eq!(tx.get_int(&blk, 8), 0);
    assert_eq!(tx.get_int(&blk, 40), 1);
    let mut again = BucketPage::new(&tx, blk, Constant::from_int(7), int_index_layout());
    assert!(again.next(&tx));
    assert_eq!(again.get_data_rid(), RID::new(9, 10));
    assert!(!again.next(&tx));
}

#[test]
fn bucket_page_delete_without_match_changes_nothing() {
    let (mut tx, blk) = bucket_with_two_records();
    let mut bp = BucketPage::new(&tx, blk.clone(), Constant::from_int(8), int_index_layout());
    bp.delete(&mut tx);
    assert_eq!(bp.length(), 2);
    assert_eq!(tx.get_int(&blk, 4), 2);
    assert_eq!(tx.get_int(&blk, 8), 1);
}

#[test]
fn bucket_page_insert_claims_first_free_slot() {
    let (mut tx, blk) = bucket_with_two_records();
    let mut bp = BucketPage::new(&tx, blk.clone(), Constant::from_int(11), int_index_layout());
    bp.insert(&mut tx, &Constant::from_int(11), &RID::new(1, 2));
    assert_eq!(bp.length(), 3);
    assert_eq!(tx.get_int(&blk, 4), 3);
    assert_eq!(tx.get_int(&blk, 24), 1);
    assert_eq!(tx.get_int(&blk, 28), 1);
    assert_eq!(tx.get_int(&blk, 32), 2);
    assert_eq!(tx.get_int(&blk, 36), 11);
    assert_eq!(tx.get_int(&blk, 12), 5);
    assert_eq!(tx.get_int(&blk, 44), 9);
    assert!(bp.is_full());
    bp.insert(&mut tx, &Constant::from_int(12), &RID::new(3, 4));
    assert_eq!(bp.length(), 3);
    assert_eq!(tx.get_int(&blk, 36), 11);
    let mut scan = BucketPage::new(&tx, blk.clone(), Constant::from_int(11), int_index_layout());
    assert!(!scan.next(&tx));
    assert!(scan.next(&tx));
    assert_eq!(scan.get_data_rid(), RID::new(1, 2));
}

#[test]
fn bucket_page_set_header() {
    let (mut tx, blk) = bucket_with_two_records();
    let mut bp = BucketPage::new(&tx, blk.clone(), Constant::from_int(7), int_index_layout());
    bp.set_local_depth(&mut tx, 3);
    assert_eq!(bp.local_depth(), 3);
    assert_eq!(tx.get_int(&blk, 0), 3);
    bp.set_length(&mut tx, 0);
    assert_eq!(bp.length(), 0);
    assert_eq!(tx.get_int(&blk, 4), 0);
    assert!(bp.next(&tx));
    bp.set_val(&mut tx, "dataval", &Constant::from_int(13));
    assert_eq!(tx.get_int(&blk, 20), 13);
    bp.set_val(&mut tx, "dataval", &Constant::from_string("x".to_string()));
    assert_eq!(tx.get_int(&blk, 20), 13);
}

#[test]
fn extendable_hash_index_creates_files_once() {
    let mut tx = Transaction::new(64);
    let _idx = ExtendableHashIndex::new(&mut tx, "eh", int_index_layout());
    assert_eq!(tx.size("ehdir"), 1);
    assert_eq!(tx.size("ehbucket"), 1);
    assert_eq!(tx.get_int(&BlockId::new("ehdir".to_string(), 0), 0), 0);
    let _again = ExtendableHashIndex::new(&mut tx, "eh", int_index_layout());
    assert_eq!(tx.size("ehdir"), 1);
    assert_eq!(tx.size("ehbucket"), 1);
}

#[test]
fn hash_index_search_cost() {
    assert_eq!(HashIndex::search_cost(250, 10), 2);
    assert_eq!(HashIndex::search_cost(99, 10), 0);
    assert_eq!(HashIndex::search_cost(-250, 10), -2);
    let _idx = HashIndex::new("h", int_index_layout());
}

#[test]
fn index_info_blocks_accessed() {
    let mut sch = Schema::new();
    sch.add_int_field("sid");
    let small = StatInfo::new(5, 300);
    let large = StatInfo::new(50, 3000);
    let btree = IndexInfo::new("i".to_string(), "sid".to_string(), sch.clone(), small, IndexType::BTree);
    assert_eq!(btree.index_size(400), (25, 12));
    assert_eq!(btree.blocks_accessed(400, 7), 7);
    let hash = IndexInfo::new("i".to_string(), "sid".to_string(), sch.clone(), large, IndexType::StaticHash);
    assert_eq!(hash.index_size(400), (25, 120));
    assert_eq!(hash.blocks_accessed(400, 0), 1);
    let ext = IndexInfo::new("i".to_string(), "sid".to_string(), sch, large, IndexType::ExtendableHash);
    assert_eq!(ext.blocks_accessed(400, 0), 2);
}

fn lookup_hash(index: &mut HashIndex, tx: &mut Transaction, key: &Constant) -> Vec<RID> {
    index.before_first(tx, key);
    let mut found = Vec::new();
    while index.next(tx) {
        found.push(index.get_data_rid(tx));
    }
    found
}

/// An index on the sid of a hundred students: student i has sid i and record
/// id (i / 10, i % 10); the search for 90 finds student 90 only.
#[test]
fn hash_index_test() {
    let mut tx = Transaction::new(1024);
    let mut index = HashIndex::new("index_student", int_index_layout());
    for i in 1..=100 {
        index.insert(&mut tx, &Constant::from_int(i), &RID::new(i / 10, i % 10));
    }
    let found = lookup_hash(&mut index, &mut tx, &Constant::from_int(90));
    assert_eq!(found, vec![RID::new(9, 0)]);
    assert_eq!(found.len(), 1);
}

#[test]
fn hash_index_buckets_and_delete() {
    let mut tx = Transaction::new(64);
    let mut index = HashIndex::new("h", int_index_layout());
    for i in 0..5 {
        index.insert(&mut tx, &Constant::from_int(7), &RID::new(i, i));
    }
    index.insert(&mut tx, &Constant::from_int(107), &RID::new(50, 50));
    index.insert(&mut tx, &Constant::from_int(-7), &RID::new(60, 60));
    assert!(tx.size("h7.tbl") >= 2);
    assert_eq!(tx.size("h-7.tbl"), 1);
    assert_eq!(lookup_hash(&mut index, &mut tx, &Constant::from_int(7)).len(), 5);
    assert_eq!(lookup_hash(&mut index, &mut tx, &Constant::from_int(107)), vec![RID::new(50, 50)]);
    assert_eq!(lookup_hash(&mut index, &mut tx, &Constant::from_int(-7)), vec![RID::new(60, 60)]);
    index.delete(&mut tx, &Constant::from_int(7), &RID::new(2, 2));
    let left = lookup_hash(&mut index, &mut tx, &Constant::from_int(7));
    assert_eq!(left, vec![RID::new(0, 0), RID::new(1, 1), RID::new(3, 3), RID::new(4, 4)]);
    index.delete(&mut tx, &Constant::from_int(7), &RID::new(9, 9));
    assert_eq!(lookup_hash(&mut index, &mut tx, &Constant::from_int(7)).len(), 4);
    assert_eq!(lookup_hash(&mut index, &mut tx, &Constant::from_int(8)), Vec::<RID>::new());
    assert_eq!(tx.size("h8.tbl"), 1);
}

#[test]
fn hash_index_string_keys() {
    let mut sch = Schema::new();
    sch.add_int_field("block");
    sch.add_int_field("id");
    sch.add_string_field("dataval", 6);
    let mut tx = Transaction::new(256);
    let mut index = HashIndex::new("s", Layout::new(sch));
    index.insert(&mut tx, &Constant::from_string("ann".to_string()), &RID::new(1, 1));
    index.insert(&mut tx, &Constant::from_string("bob".to_string()), &RID::new(2, 2));
    index.insert(&mut tx, &Constant::from_string("ann".to_string()), &RID::new(3, 3));
    let found = lookup_hash(&mut index, &mut tx, &Constant::from_string("ann".to_string()));
    assert_eq!(found, vec![RID::new(1, 1), RID::new(3, 3)]);
    index.close();
    assert_eq!(index.get_data_rid(&tx), RID::new(0, 0));
}

fn ab_layout() -> Layout {
    let mut sch = Schema::new();
    sch.add_int_field("A");
    sch.add_string_field("B", 5);
    Layout::new(sch)
}

fn scan_a(ts: &mut TableScan, tx: &Transaction) -> Vec<i32> {
    ts.before_first(tx);
    let mut out = Vec::new();
    while ts.next(tx) {
        out.push(ts.get_int(tx, "A"));
    }
    out
}

#[test]
fn table_scan_insert_scan_delete() {
    let mut tx = Transaction::new(128);
    let mut ts = TableScan::new(&mut tx, "T", ab_layout());
    assert_eq!(tx.size("T.tbl"), 1);
    for i in 0..7 {
        ts.insert(&mut tx);
        ts.set_int(&mut tx, "A", i);
        ts.set_string(&mut tx, "B", &format!("r{i}"));
    }
    assert_eq!(tx.size("T.tbl"), 3);
    assert_eq!(scan_a(&mut ts, &tx), vec![0, 1, 2, 3, 4, 5, 6]);
    ts.before_first(&tx);
    for _ in 0..5 {
        assert!(ts.next(&tx));
    }
    assert_eq!(ts.get_rid(), RID::new(1, 1));
    assert_eq!(ts.get_string(&tx, "B"), "r4");
    assert_eq!(ts.get_val(&tx, "A").as_int(), Some(4));
    ts.before_first(&tx);
    assert!(ts.next(&tx));
    assert!(ts.next(&tx));
    ts.delete(&mut tx);
    assert_eq!(scan_a(&mut ts, &tx), vec![0, 2, 3, 4, 5, 6]);
    ts.before_first(&tx);
    ts.insert(&mut tx);
    assert_eq!(ts.get_rid(), RID::new(0, 1));
    ts.set_val(&mut tx, "A", &Constant::from_int(9));
    ts.set_val(&mut tx, "B", &Constant::from_string("nine".to_string()));
    assert_eq!(scan_a(&mut ts, &tx), vec![0, 9, 2, 3, 4, 5, 6]);
    let mut again = TableScan::new(&mut tx, "T", ab_layout());
    assert_eq!(tx.size("T.tbl"), 3);
    assert_eq!(scan_a(&mut again, &tx).len(), 7);
}

#[test]
fn hash_index_insert_takes_first_free_slot() {
    let mut tx = Transaction::new(1024);
    let mut index = HashIndex::new("f", int_index_layout());
    for i in 0..4 {
        index.insert(&mut tx, &Constant::from_int(3), &RID::new(i, i));
    }
    index.delete(&mut tx, &Constant::from_int(3), &RID::new(1, 1));
    index.insert(&mut tx, &Constant::from_int(3), &RID::new(8, 8));
    let found = lookup_hash(&mut index, &mut tx, &Constant::from_int(3));
    assert_eq!(found, vec![RID::new(0, 0), RID::new(8, 8), RID::new(2, 2), RID::new(3, 3)]);
    index.insert(&mut tx, &Constant::from_int(3), &RID::new(1, 1));
    index.delete(&mut tx, &Constant::from_int(3), &RID::new(1, 1));
    let again = lookup_hash(&mut index, &mut tx, &Constant::from_int(3));
    assert_eq!(again, vec![RID::new(0, 0), RID::new(8, 8), RID::new(2, 2), RID::new(3, 3)]);
}
