use rsimpledb::file::BlockId;
use rsimpledb::buffer::pool::BufferPool;
use rsimpledb::index::hash::{hash_code, DirPage};
use rsimpledb::metadata::{
    IndexInfo, IndexMgr, IndexType, MetadataMgr, OpenIndex, StatInfo, StatMgr, TableMgr, ViewMgr,
};
use rsimpledb::record::TableScan;
use rsimpledb::query::Constant;
use rsimpledb::record::{Layout, Schema};
use rsimpledb::tx::Transaction;

#[test]
fn hash_code_values() {
    assert_eq!(hash_code(&Constant::from_int(-17)), -17);
    assert_eq!(hash_code(&Constant::from_string(String::new())), 0);
    assert_eq!(hash_code(&Constant::from_string("ab".to_string())), 97 * 31 + 98);
    let long = "abcdefghijklmnopq".to_string();
    let prefix = "abcdefghijkl".to_string();
    assert_eq!(hash_code(&Constant::from_string(long)), hash_code(&Constant::from_string(prefix.clone())));
    let mut h: i32 = 0;
    for c in prefix.chars() {
        h = h.wrapping_mul(31).wrapping_add(c as i32);
    }
    assert_eq!(hash_code(&Constant::from_string(prefix)), h);
}

#[test]
fn dir_page_buckets() {
    let mut tx = Transaction::new(64);
    let blk = tx.append("hdir");
    let dir = DirPage::new(blk.clone());
    dir.set_bucket_blknum(&mut tx, 3, 42);
    assert_eq!(dir.get_bucket_blknum(&tx, 3), 42);
    assert_eq!(dir.get_bucket_blknum(&tx, 2), 0);
    dir.update_dir_page(&mut tx, 1, 2, 7);
    for b in 0..16 {
        let expect = if b & 3 == 1 { 7 } else if b == 3 { 42 } else { 0 };
        assert_eq!(dir.get_bucket_blknum(&tx, b), expect);
    }
    let _ = BlockId::new("hdir".to_string(), 0);
}

#[test]
fn stat_info_estimates() {
    let si = StatInfo::new(10, 300);
    assert_eq!(si.blocks_accessed(), 10);
    assert_eq!(si.records_output(), 300);
    assert_eq!(si.distinct_values("any"), 101);
    let neg = StatInfo::new(1, -7);
    assert_eq!(neg.distinct_values("f"), -1);
}

#[test]
fn index_info_estimates_and_layout() {
    let mut sch = Schema::new();
    sch.add_int_field("sid");
    sch.add_string_field("sname", 9);
    let si = StatInfo::new(5, 300);
    let ii = IndexInfo::new("idx".to_string(), "sname".to_string(), sch.clone(), si, IndexType::BTree);
    assert_eq!(ii.distinct_values("sname"), 1);
    assert_eq!(ii.distinct_values("sid"), 101);
    assert_eq!(ii.records_output(), 2);
    let fields = ii.index_layout().schema().fields();
    assert_eq!(fields, vec!["block".to_string(), "id".to_string(), "dataval".to_string()]);
    assert_eq!(ii.index_layout().schema().length("dataval"), 9);
    assert_eq!(ii.index_type(), IndexType::BTree);
    assert_eq!(IndexType::StaticHash.to_string(), "StaticHash");
    let ii2 = IndexInfo::new("i2".to_string(), "sid".to_string(), sch, StatInfo::new(1, 2), IndexType::ExtendableHash);
    assert_eq!(ii2.index_layout().schema().ftype("dataval"), 4);
    assert_eq!(ii2.records_output(), 2);
    let _ = Layout::new(Schema::new());
}

#[test]
fn table_mgr_test() {
    let mut tx = Transaction::new(400);
    let tm = TableMgr::new(true, &mut tx);
    let mut sch = Schema::new();
    sch.add_int_field("A");
    sch.add_string_field("B", 9);
    tm.create_table("MyTable", sch, &mut tx);

    let layout = tm.get_layout("MyTable", &mut tx);
    let size = layout.slot_size();
    assert_eq!(48, size);
    let sch2 = layout.schema();
    assert_eq!(true, sch2.has_field("A"));
    assert_eq!(4, sch2.ftype("A"));
    assert_eq!(true, sch2.has_field("B"));
    assert_eq!(12, sch2.ftype("B"));
    assert_eq!(9, sch2.length("B"));
}

#[test]
fn table_mgr_catalogs_describe_themselves() {
    let mut tx = Transaction::new(400);
    let tm = TableMgr::new(true, &mut tx);
    let tcat = tm.get_layout("tblcat", &mut tx);
    assert_eq!(tcat.slot_size(), 76);
    assert_eq!(tcat.schema().fields(), vec!["tblname".to_string(), "slotsize".to_string()]);
    let fcat = tm.get_layout("fldcat", &mut tx);
    assert_eq!(fcat.slot_size(), 152);
    assert_eq!(fcat.schema().fields().len(), 5);
    assert_eq!(fcat.offset("offset"), 148);
    let missing = tm.get_layout("nosuchtable", &mut tx);
    assert_eq!(missing.slot_size(), -1);
    assert_eq!(missing.schema().fields().len(), 0);
    let again = TableMgr::new(false, &mut tx);
    assert_eq!(again.get_layout("tblcat", &mut tx).slot_size(), 76);
}

#[test]
fn view_mgr_create_and_find() {
    let mut tx = Transaction::new(1024);
    let tm = TableMgr::new(true, &mut tx);
    let vm = ViewMgr::new(true, tm, &mut tx);
    let viewdef = "select B from MyTable where A = 1";
    vm.create_view("view_a", viewdef, &mut tx);
    vm.create_view("view_b", "select A from MyTable", &mut tx);
    vm.create_view("view_a", "select A from Other", &mut tx);
    assert_eq!(vm.get_view_def("view_a", &mut tx), Some(viewdef.to_string()));
    assert_eq!(vm.get_view_def("view_b", &mut tx), Some("select A from MyTable".to_string()));
    assert_eq!(vm.get_view_def("view_c", &mut tx), None);
}

#[test]
fn stat_mgr_counts_records_and_blocks() {
    let mut tx = Transaction::new(400);
    let tm = TableMgr::new(true, &mut tx);
    let mut sch = Schema::new();
    sch.add_int_field("A");
    sch.add_string_field("B", 9);
    tm.create_table("T", sch, &mut tx);
    let layout = tm.get_layout("T", &mut tx);
    let mut ts = TableScan::new(&mut tx, "T", layout.clone());
    for i in 0..10 {
        ts.insert(&mut tx);
        ts.set_int(&mut tx, "A", i);
    }
    let mut sm = StatMgr::new(TableMgr::new(false, &mut tx), &mut tx);
    let si = sm.get_stat_info("T", &layout, &mut tx);
    assert_eq!(si.blocks_accessed(), 2);
    assert_eq!(si.records_output(), 10);
    assert_eq!(si.distinct_values("A"), 4);
    // cached: records added later are not counted until the statistics are
    // computed anew
    ts.insert(&mut tx);
    ts.set_int(&mut tx, "A", 10);
    let cached = sm.get_stat_info("T", &layout, &mut tx);
    assert_eq!(cached.records_output(), 10);
    for _ in 0..98 {
        sm.get_stat_info("T", &layout, &mut tx);
    }
    let fresh = sm.get_stat_info("T", &layout, &mut tx);
    assert_eq!(fresh.records_output(), 11);
    assert_eq!(fresh.blocks_accessed(), 2);
    let tcat = tm.get_layout("tblcat", &mut tx);
    let cat = sm.get_stat_info("tblcat", &tcat, &mut tx);
    assert_eq!(cat.records_output(), 3);
    assert_eq!(cat.blocks_accessed(), 1);
}

#[test]
fn stat_mgr_empty_table() {
    let mut tx = Transaction::new(400);
    let tm = TableMgr::new(true, &mut tx);
    let mut sch = Schema::new();
    sch.add_int_field("A");
    tm.create_table("E", sch, &mut tx);
    let layout = tm.get_layout("E", &mut tx);
    let mut sm = StatMgr::new(tm, &mut tx);
    let si = sm.get_stat_info("E", &layout, &mut tx);
    assert_eq!(si.blocks_accessed(), 0);
    assert_eq!(si.records_output(), 0);
    assert_eq!(tx.size("E.tbl"), 1);
}

#[test]
fn index_mgr_records_and_finds_indexes() {
    let mut tx = Transaction::new(400);
    let tm = TableMgr::new(true, &mut tx);
    let mut sch = Schema::new();
    sch.add_int_field("A");
    sch.add_string_field("B", 9);
    tm.create_table("T", sch, &mut tx);
    let layout = tm.get_layout("T", &mut tx);
    let mut ts = TableScan::new(&mut tx, "T", layout);
    for i in 0..6 {
        ts.insert(&mut tx);
        ts.set_int(&mut tx, "A", i);
    }
    let sm = StatMgr::new(TableMgr::new(false, &mut tx), &mut tx);
    let mut im = IndexMgr::new(true, TableMgr::new(false, &mut tx), sm, &mut tx, IndexType::BTree);
    im.create_index("idxA", "T", "A", &mut tx);
    im.create_index("idxB", "T", "B", &mut tx);
    im.create_index("idxOther", "U", "C", &mut tx);
    let infos = im.get_index_info("T", &mut tx);
    assert_eq!(infos.len(), 2);
    assert_eq!(infos[0].0, "A");
    assert_eq!(infos[1].0, "B");
    let a = &infos[0].1;
    assert_eq!(a.distinct_values("A"), 1);
    assert_eq!(a.distinct_values("B"), 3);
    assert_eq!(a.stat_info().records_output(), 6);
    assert_eq!(a.index_type(), IndexType::BTree);
    assert_eq!(a.index_layout().schema().fields(), vec!["block".to_string(), "id".to_string(), "dataval".to_string()]);
    assert_eq!(a.index_layout().schema().ftype("dataval"), 4);
    let b = &infos[1].1;
    assert_eq!(b.index_layout().schema().ftype("dataval"), 12);
    assert_eq!(b.index_layout().schema().length("dataval"), 9);
    assert_eq!(im.get_index_info("U2", &mut tx).len(), 0);
}

#[test]
fn index_mgr_last_index_of_a_field_wins() {
    let mut tx = Transaction::new(400);
    let tm = TableMgr::new(true, &mut tx);
    let mut sch = Schema::new();
    sch.add_int_field("A");
    tm.create_table("T", sch, &mut tx);
    let sm = StatMgr::new(TableMgr::new(false, &mut tx), &mut tx);
    let mut im = IndexMgr::new(true, TableMgr::new(false, &mut tx), sm, &mut tx, IndexType::BTree);
    im.create_index("first", "T", "A", &mut tx);
    im.create_index("second", "T", "A", &mut tx);
    let infos = im.get_index_info("T", &mut tx);
    assert_eq!(infos.len(), 1);
    assert_eq!(infos[0].0, "A");
    assert_eq!(infos[0].1.index_type(), IndexType::BTree);
    assert_eq!(infos[0].1.stat_info().records_output(), 0);
    match infos[0].1.open(&mut tx) {
        OpenIndex::BTree(_) => {}
        _ => panic!("a B-tree index was expected"),
    }
    assert_eq!(tx.size("secondleaf"), 1);
    assert_eq!(tx.size("seconddir"), 1);
    assert_eq!(tx.size("firstleaf"), 0);
}

#[test]
fn index_info_opens_each_kind() {
    let mut sch = Schema::new();
    sch.add_int_field("A");
    let si = StatInfo::new(2, 10);
    let mut tx = Transaction::new(400);
    let hash = IndexInfo::new("h".to_string(), "A".to_string(), sch.clone(), si, IndexType::StaticHash);
    assert!(matches!(hash.open(&mut tx), OpenIndex::StaticHash(_)));
    assert_eq!(tx.size("h0.tbl"), 0);
    let ext = IndexInfo::new("e".to_string(), "A".to_string(), sch.clone(), si, IndexType::ExtendableHash);
    assert!(matches!(ext.open(&mut tx), OpenIndex::ExtendableHash(_)));
    assert_eq!(tx.size("edir"), 1);
    assert_eq!(tx.size("ebucket"), 1);
    let bt = IndexInfo::new("b".to_string(), "A".to_string(), sch, si, IndexType::BTree);
    assert!(matches!(bt.open(&mut tx), OpenIndex::BTree(_)));
    assert_eq!(tx.size("bleaf"), 1);
}

#[test]
fn mdm_test() {
    let mut tx = Transaction::new(1024);
    let mut mdm = MetadataMgr::new(true, &mut tx, IndexType::BTree);

    // Part 1: Table Metadata
    let mut sch = Schema::new();
    sch.add_int_field("A");
    sch.add_string_field("B", 9);
    mdm.create_table("MyTable", sch, &mut tx);
    let layout = mdm.get_layout("MyTable", &mut tx);
    let size = layout.slot_size();
    assert_eq!(48, size);
    let sch2 = layout.schema();
    assert_eq!(true, sch2.has_field("A"));
    assert_eq!(4, sch2.ftype("A"));
    assert_eq!(true, sch2.has_field("B"));
    assert_eq!(12, sch2.ftype("B"));
    assert_eq!(9, sch2.length("B"));

    // Part 2: Statistics Metadata
    let mut ts = TableScan::new(&mut tx, "MyTable", layout.clone());
    for i in 1..=50 {
        ts.insert(&mut tx);
        ts.set_int(&mut tx, "A", i);
        ts.set_string(&mut tx, "B", &format!("rec{i}"));
    }
    let si = mdm.get_stat_info("MyTable", &layout, &mut tx);
    assert_eq!(3, si.blocks_accessed());
    assert_eq!(50, si.records_output());
    assert_eq!(17, si.distinct_values("A"));
    assert_eq!(17, si.distinct_values("B"));

    // Part 3: View Metadata
    let viewdef = "select B from MyTable where A = 1";
    mdm.create_view("view_a", viewdef, &mut tx);
    assert_eq!(viewdef, mdm.get_view_def("view_a", &mut tx).unwrap());

    // Part 4: Index Metadata
    mdm.create_index("idx_a", "MyTable", "A", &mut tx);
    mdm.create_index("idx_b", "MyTable", "B", &mut tx);
    let idxmap = mdm.get_index_info("MyTable", &mut tx);

    assert!(idxmap.iter().any(|(f, _)| f == "A"));
    assert!(idxmap.iter().any(|(f, _)| f == "B"));
}

#[test]
fn mdm_reopens_existing_database() {
    let mut tx = Transaction::new(1024);
    let mut mdm = MetadataMgr::new(true, &mut tx, IndexType::StaticHash);
    let mut sch = Schema::new();
    sch.add_int_field("A");
    mdm.create_table("T", sch, &mut tx);
    mdm.create_view("v", "select A from T", &mut tx);
    mdm.create_index("ia", "T", "A", &mut tx);
    let mut again = MetadataMgr::new(false, &mut tx, IndexType::StaticHash);
    let layout = again.get_layout("T", &mut tx);
    assert_eq!(layout.slot_size(), 8);
    assert_eq!(again.get_view_def("v", &mut tx), Some("select A from T".to_string()));
    let infos = again.get_index_info("T", &mut tx);
    assert_eq!(infos.len(), 1);
    assert_eq!(infos[0].0, "A");
    assert_eq!(infos[0].1.index_type(), IndexType::StaticHash);
    let si = again.get_stat_info("T", &layout, &mut tx);
    assert_eq!(si.records_output(), 0);
    assert_eq!(again.get_layout("idxcat", &mut tx).slot_size(), 208);
    assert_eq!(again.get_layout("viewcat", &mut tx).slot_size(), 476);
}

#[test]
fn buffer_pool_pins_and_unpins() {
    let mut pool = BufferPool::new(2);
    let a = BlockId::new("f".to_string(), 1);
    let b = BlockId::new("f".to_string(), 2);
    let c = BlockId::new("g".to_string(), 1);
    assert_eq!(pool.num_available, 2);
    assert_eq!(pool.pin_step(&a), Some((0, true)));
    assert_eq!(pool.pin_step(&a), Some((0, false)));
    assert_eq!(pool.pins, vec![2, 0]);
    assert_eq!(pool.num_available, 1);
    assert_eq!(pool.pin_step(&b), Some((1, true)));
    assert_eq!(pool.num_available, 0);
    assert_eq!(pool.pin_step(&c), None);
    assert_eq!(pool.pins, vec![2, 1]);
    pool.unpin_step(1);
    assert_eq!(pool.num_available, 1);
    assert_eq!(pool.pin_step(&c), Some((1, true)));
    assert_eq!(pool.blks[1].as_ref().unwrap().number(), 1);
    assert_eq!(pool.blks[1].as_ref().unwrap().file_name(), "g");
    pool.unpin_step(0);
    assert_eq!(pool.num_available, 0);
    pool.unpin_step(0);
    assert_eq!(pool.num_available, 1);
    assert_eq!(pool.pin_step(&a), Some((0, false)));
    assert_eq!(pool.num_available, 0);
}

#[test]
fn buffer_pool_unpin_of_unpinned_buffer_changes_nothing() {
    let mut pool = BufferPool::new(2);
    let a = BlockId::new("f".to_string(), 1);
    assert_eq!(pool.pin_step(&a), Some((0, true)));
    pool.unpin_step(1);
    assert_eq!(pool.pins, vec![1, 0]);
    assert_eq!(pool.num_available, 1);
    pool.unpin_step(0);
    pool.unpin_step(0);
    assert_eq!(pool.pins, vec![0, 0]);
    assert_eq!(pool.num_available, 2);
}
