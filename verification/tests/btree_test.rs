use rsimpledb::file::BlockId;
use rsimpledb::index::btree::bt_dir::BTreeDir;
use rsimpledb::index::btree::bt_index::BTreeIndex;
use rsimpledb::index::btree::{BTPage, BTreeLeaf, DirEntry};
use rsimpledb::query::Constant;
use rsimpledb::record::{Layout, Schema, RID};
use rsimpledb::tx::Transaction;

fn int_index_layout() -> Layout {
    let mut sch = Schema::new();
    sch.add_int_field("block");
    sch.add_int_field("id");
    sch.add_int_field("dataval");
    Layout::new(sch)
}

fn string_index_layout(len: i32) -> Layout {
    let mut sch = Schema::new();
    sch.add_int_field("block");
    sch.add_int_field("id");
    sch.add_string_field("dataval", len);
    Layout::new(sch)
}

fn dir_layout() -> Layout {
    let mut sch = Schema::new();
    sch.add_int_field("block");
    sch.add_int_field("dataval");
    Layout::new(sch)
}

fn lookup(index: &mut BTreeIndex, tx: &Transaction, key: i32) -> Vec<RID> {
    index.before_first(tx, &Constant::from_int(key));
    let mut found = Vec::new();
    while index.next(tx) {
        found.push(index.get_data_rid(tx));
    }
    found
}

/// An index on the sid of a hundred students: student i has sid i and record
/// id (i / 10, i % 10); the search for 90 finds student 90 only.
#[test]
fn btree_index_test() {
    let mut tx = Transaction::new(1024);
    let mut index = BTreeIndex::new(&mut tx, "index_student", int_index_layout());
    for i in 1..=100 {
        index.insert(&mut tx, &Constant::from_int(i), &RID::new(i / 10, i % 10));
    }
    let found = lookup(&mut index, &tx, 90);
    assert_eq!(found, vec![RID::new(9, 0)]);
    assert_eq!(found.len(), 1);
}

#[test]
fn btree_index_many_keys_split_and_find() {
    let mut tx = Transaction::new(128);
    let mut index = BTreeIndex::new(&mut tx, "big", int_index_layout());
    for i in 0..400 {
        let k = (i * 37) % 400;
        index.insert(&mut tx, &Constant::from_int(k), &RID::new(k, 1));
    }
    assert!(tx.size("bigleaf") > 1);
    assert!(tx.size("bigdir") > 1);
    for k in [0, 1, 57, 199, 200, 399] {
        assert_eq!(lookup(&mut index, &tx, k), vec![RID::new(k, 1)]);
    }
    assert_eq!(lookup(&mut index, &tx, 400), Vec::<RID>::new());
    assert_eq!(lookup(&mut index, &tx, -5), Vec::<RID>::new());
}

#[test]
fn btree_index_duplicates_and_delete() {
    let mut tx = Transaction::new(128);
    let mut index = BTreeIndex::new(&mut tx, "dup", int_index_layout());
    for i in 0..30 {
        index.insert(&mut tx, &Constant::from_int(7), &RID::new(i, i));
        index.insert(&mut tx, &Constant::from_int(i + 100), &RID::new(0, i));
    }
    let sevens = lookup(&mut index, &tx, 7);
    assert_eq!(sevens.len(), 30);
    index.delete(&mut tx, &Constant::from_int(7), &RID::new(3, 3));
    let sevens = lookup(&mut index, &tx, 7);
    assert_eq!(sevens.len(), 29);
    assert!(!sevens.contains(&RID::new(3, 3)));
    index.delete(&mut tx, &Constant::from_int(105), &RID::new(0, 5));
    assert_eq!(lookup(&mut index, &tx, 105), Vec::<RID>::new());
    index.delete(&mut tx, &Constant::from_int(106), &RID::new(9, 9));
    assert_eq!(lookup(&mut index, &tx, 106), vec![RID::new(0, 6)]);
}

#[test]
fn btree_index_strings() {
    let mut tx = Transaction::new(256);
    let mut index = BTreeIndex::new(&mut tx, "names", string_index_layout(8));
    let names = ["carol", "alice", "bob", "dave", "eve", "", "zed", "mallory"];
    for (i, n) in names.iter().enumerate() {
        index.insert(&mut tx, &Constant::from_string(n.to_string()), &RID::new(i as i32, 0));
    }
    index.before_first(&tx, &Constant::from_string("eve".to_string()));
    assert!(index.next(&tx));
    assert_eq!(index.get_data_rid(&tx), RID::new(4, 0));
    assert!(!index.next(&tx));
    index.before_first(&tx, &Constant::from_string(String::new()));
    assert!(index.next(&tx));
    assert_eq!(index.get_data_rid(&tx), RID::new(5, 0));
    index.close();
    assert_eq!(index.get_data_rid(&tx), RID::new(0, 0));
}

#[test]
fn btree_index_reopen_keeps_files() {
    let mut tx = Transaction::new(1024);
    let mut index = BTreeIndex::new(&mut tx, "idx", int_index_layout());
    index.insert(&mut tx, &Constant::from_int(5), &RID::new(1, 2));
    let mut again = BTreeIndex::new(&mut tx, "idx", int_index_layout());
    assert_eq!(lookup(&mut again, &tx, 5), vec![RID::new(1, 2)]);
    assert_eq!(tx.size("idxleaf"), 1);
    assert_eq!(tx.size("idxdir"), 1);
}

#[test]
fn bt_page_insert_find_and_split() {
    let mut tx = Transaction::new(200);
    let blk = tx.append("leaf");
    let page = BTPage::new(blk.clone(), int_index_layout());
    page.format(&mut tx, &blk, -1);
    assert_eq!(page.get_flag(&tx), -1);
    assert_eq!(page.get_num_recs(&tx), 0);
    for (slot, k) in [(0, 10), (1, 20), (2, 30), (3, 40)] {
        page.insert_leaf(&mut tx, slot, &Constant::from_int(k), &RID::new(k, 0));
    }
    assert_eq!(page.get_num_recs(&tx), 4);
    assert_eq!(page.find_slot_before(&tx, &Constant::from_int(25)), 1);
    assert_eq!(page.find_slot_before(&tx, &Constant::from_int(5)), -1);
    assert_eq!(page.find_slot_before(&tx, &Constant::from_int(99)), 3);
    assert!(page.get_data_val(&tx, 2).equals(&Constant::from_int(30)));
    assert_eq!(page.get_data_rid(&tx, 3), RID::new(40, 0));
    let newblk = page.split(&mut tx, 2, 7);
    assert_eq!(newblk.number(), 1);
    assert_eq!(page.get_num_recs(&tx), 2);
    let other = BTPage::new(newblk, int_index_layout());
    assert_eq!(other.get_num_recs(&tx), 2);
    assert_eq!(other.get_flag(&tx), 7);
    assert!(other.get_data_val(&tx, 0).equals(&Constant::from_int(30)));
    page.delete(&mut tx, 0);
    assert_eq!(page.get_num_recs(&tx), 1);
    assert!(page.get_data_val(&tx, 0).equals(&Constant::from_int(20)));
    page.set_flag(&mut tx, 3);
    assert_eq!(page.get_flag(&tx), 3);
}

#[test]
fn bt_page_full_when_no_room() {
    let mut tx = Transaction::new(8 + 16 * 2);
    let blk = tx.append("leaf");
    let page = BTPage::new(blk.clone(), int_index_layout());
    page.format(&mut tx, &blk, -1);
    assert!(!page.is_full(&tx));
    page.insert_leaf(&mut tx, 0, &Constant::from_int(1), &RID::new(1, 1));
    assert!(page.is_full(&tx));
}

#[test]
fn bt_leaf_next_and_overflow() {
    let mut tx = Transaction::new(256);
    let blk = tx.append("lf");
    let page = BTPage::new(blk.clone(), int_index_layout());
    page.format(&mut tx, &blk, -1);
    for (slot, k) in [(0, 5), (1, 8), (2, 8), (3, 9)] {
        page.insert_leaf(&mut tx, slot, &Constant::from_int(k), &RID::new(k, slot));
    }
    let mut leaf = BTreeLeaf::new(&tx, blk.clone(), int_index_layout(), Constant::from_int(8));
    assert!(leaf.next(&tx));
    assert_eq!(leaf.get_data_rid(&tx), RID::new(8, 1));
    assert!(leaf.next(&tx));
    assert_eq!(leaf.get_data_rid(&tx), RID::new(8, 2));
    assert!(!leaf.next(&tx));
    leaf.close();
}

#[test]
fn bt_dir_search_and_new_root() {
    let mut tx = Transaction::new(1024);
    let root = tx.append("d");
    let page = BTPage::new(root.clone(), dir_layout());
    page.format(&mut tx, &root, 0);
    page.insert_dir(&mut tx, 0, &Constant::from_int(i32::MIN), 0);
    page.insert_dir(&mut tx, 1, &Constant::from_int(50), 1);
    let mut dir = BTreeDir::new(root.clone(), dir_layout());
    assert_eq!(dir.search(&tx, &Constant::from_int(49)), 0);
    let mut dir = BTreeDir::new(root.clone(), dir_layout());
    assert_eq!(dir.search(&tx, &Constant::from_int(50)), 1);
    let mut dir = BTreeDir::new(root.clone(), dir_layout());
    assert_eq!(dir.search(&tx, &Constant::from_int(70)), 1);
    assert!(dir.insert(&mut tx, DirEntry::new(Constant::from_int(80), 2)).is_none());
    let mut dir = BTreeDir::new(root.clone(), dir_layout());
    assert_eq!(dir.search(&tx, &Constant::from_int(90)), 2);
    dir.close();
}

#[test]
fn dir_entry_parts() {
    let e = DirEntry::new(Constant::from_int(3), 9);
    assert!(e.data_val().equals(&Constant::from_int(3)));
    assert_eq!(e.block_number(), 9);
    let c = e.clone();
    assert_eq!(c.block_number(), 9);
    let _ = BlockId::new("x".to_string(), 0);
}

#[test]
fn bt_page_format_writes_defaults() {
    let mut tx = Transaction::new(128);
    let blk = tx.append("fmt");
    let mut off = 0;
    while off + 4 <= 128 {
        tx.set_int(&blk, off, 77, false);
        off += 4;
    }
    let layout = string_index_layout(3);
    let slot = layout.slot_size() as usize;
    let boff = layout.offset("block") as usize;
    let ioff = layout.offset("id") as usize;
    let doff = layout.offset("dataval") as usize;
    let page = BTPage::new(blk.clone(), layout);
    page.format(&mut tx, &blk, 4);
    assert_eq!(page.get_flag(&tx), 4);
    assert_eq!(page.get_num_recs(&tx), 0);
    let mut pos = 8;
    let mut slots = 0;
    while pos + slot <= 128 {
        assert_eq!(tx.get_int(&blk, pos + boff), 0);
        assert_eq!(tx.get_int(&blk, pos + ioff), 0);
        assert_eq!(tx.get_string(&blk, pos + doff), "");
        pos += slot;
        slots += 1;
    }
    assert!(slots >= 2);
    assert!(pos + 4 <= 128);
    assert_eq!(tx.get_int(&blk, pos), 77);
}

#[test]
fn btree_index_new_keeps_leaf_file_beside_empty_directory() {
    let mut tx = Transaction::new(1024);
    let blk = tx.append("kleaf");
    let page = BTPage::new(blk.clone(), int_index_layout());
    page.format(&mut tx, &blk, -1);
    page.insert_leaf(&mut tx, 0, &Constant::from_int(4), &RID::new(2, 3));
    let mut index = BTreeIndex::new(&mut tx, "k", int_index_layout());
    assert_eq!(tx.size("kleaf"), 1);
    assert_eq!(tx.size("kdir"), 1);
    assert_eq!(page.get_num_recs(&tx), 1);
    let root = BTPage::new(BlockId::new("kdir".to_string(), 0), dir_layout());
    assert_eq!(root.get_flag(&tx), 0);
    assert_eq!(root.get_num_recs(&tx), 1);
    assert_eq!(root.get_child_num(&tx, 0), 0);
    assert_eq!(root.get_data_val(&tx, 0).as_int(), Some(i32::MIN));
    assert_eq!(lookup(&mut index, &tx, 4), vec![RID::new(2, 3)]);
}

#[test]
fn btree_index_new_formats_leaf_file_beside_directory() {
    let mut tx = Transaction::new(1024);
    let rootblk = tx.append("jdir");
    let root = BTPage::new(rootblk.clone(), dir_layout());
    root.format(&mut tx, &rootblk, 0);
    root.insert_dir(&mut tx, 0, &Constant::from_int(i32::MIN), 0);
    let mut index = BTreeIndex::new(&mut tx, "j", int_index_layout());
    assert_eq!(tx.size("jleaf"), 1);
    assert_eq!(tx.size("jdir"), 1);
    assert_eq!(root.get_num_recs(&tx), 1);
    let leaf = BTPage::new(BlockId::new("jleaf".to_string(), 0), int_index_layout());
    assert_eq!(leaf.get_flag(&tx), -1);
    assert_eq!(leaf.get_num_recs(&tx), 0);
    index.insert(&mut tx, &Constant::from_int(3), &RID::new(1, 1));
    assert_eq!(lookup(&mut index, &tx, 3), vec![RID::new(1, 1)]);
}

#[test]
fn bt_leaf_insert_leaves_new_record_current() {
    let mut tx = Transaction::new(256);
    let blk = tx.append("cur");
    let page = BTPage::new(blk.clone(), int_index_layout());
    page.format(&mut tx, &blk, -1);
    page.insert_leaf(&mut tx, 0, &Constant::from_int(2), &RID::new(2, 0));
    page.insert_leaf(&mut tx, 1, &Constant::from_int(9), &RID::new(9, 0));
    let mut leaf = BTreeLeaf::new(&tx, blk.clone(), int_index_layout(), Constant::from_int(5));
    assert!(leaf.insert(&mut tx, &RID::new(5, 5)).is_none());
    assert_eq!(leaf.get_data_rid(&tx), RID::new(5, 5));
    assert_eq!(page.get_data_val(&tx, 1).as_int(), Some(5));
}

#[test]
fn btree_index_lookup_finds_latest_insert_first() {
    let mut tx = Transaction::new(1024);
    let mut index = BTreeIndex::new(&mut tx, "latest", int_index_layout());
    index.insert(&mut tx, &Constant::from_int(3), &RID::new(0, 3));
    index.insert(&mut tx, &Constant::from_int(5), &RID::new(1, 1));
    index.insert(&mut tx, &Constant::from_int(5), &RID::new(2, 2));
    assert_eq!(tx.size("latestleaf"), 1);
    index.before_first(&tx, &Constant::from_int(5));
    assert!(index.next(&tx));
    assert_eq!(index.get_data_rid(&tx), RID::new(2, 2));
    assert_eq!(lookup(&mut index, &tx, 5), vec![RID::new(2, 2), RID::new(1, 1)]);
}
