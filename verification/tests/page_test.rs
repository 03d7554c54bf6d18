use rsimpledb::file::{BlockId, Page};
use rsimpledb::log::log_page::{log_append, log_append_step, log_flush_needed, log_start, LogStep};

#[test]
fn page_test() {
    let mut page = Page::new(100);
    assert_eq!(page.get_int(0), 0);
    assert_eq!(page.get_string(4), "");
    page.set_int(0, 42);
    page.set_string(4, "hello，你好！");
    assert_eq!(page.get_int(0), 42);
    assert_eq!(page.get_string(4), "hello，你好！");
}

#[test]
fn page_int_roundtrip_negative() {
    let mut page = Page::new(16);
    page.set_int(8, -123456);
    assert_eq!(page.get_int(8), -123456);
    assert_eq!(page.get_int(0), 0);
    assert_eq!(page.contents()[8..12], (-123456i32).to_be_bytes());
}

#[test]
fn page_int_write_leaves_other_ints() {
    let mut page = Page::new(16);
    page.set_int(0, 7);
    page.set_int(4, 9);
    assert_eq!(page.get_int(0), 7);
    assert_eq!(page.get_int(4), 9);
}

#[test]
fn page_bytes_roundtrip() {
    let mut page = Page::new(32);
    let n = page.set_bytes(3, &[1, 2, 3, 250]);
    assert_eq!(n, 8);
    assert_eq!(page.get_bytes(3), vec![1, 2, 3, 250]);
    assert_eq!(page.get_int(3), 4);
}

#[test]
fn page_string_sizes() {
    assert_eq!(Page::max_length("abc"), 7);
    assert_eq!(Page::max_length_in_page(5), 24);
    let mut page = Page::new(64);
    let n = page.set_string(0, "héllo");
    assert_eq!(n, 4 + "héllo".len());
    assert_eq!(page.get_string(0), "héllo");
}

#[test]
fn page_from_bytes_and_size() {
    let page = Page::from_bytes(vec![0, 0, 0, 5, 9]);
    assert_eq!(page.size(), 5);
    assert_eq!(page.get_int(0), 5);
}

#[test]
fn page_contents_mut_writes_through() {
    let mut page = Page::new(8);
    page.contents_mut()[3] = 1;
    assert_eq!(page.get_int(0), 1);
}

#[test]
fn block_id_parts_and_text() {
    let b = BlockId::new("students.tbl".to_string(), 7);
    assert_eq!(b.file_name(), "students.tbl");
    assert_eq!(b.number(), 7);
    assert_eq!(b.to_string(), "[file students.tbl, block 7]");
    let c = BlockId::new("students.tbl".to_string(), -3);
    assert_eq!(c.to_string(), "[file students.tbl, block -3]");
    assert!(b.equals(&b.clone()));
    assert!(!b.equals(&c));
}

#[test]
fn log_append_step_decisions() {
    let mut p = Page::new(64);
    log_start(&mut p, 64);
    assert_eq!(log_append_step(&p, 100, 64, 3), (LogStep::TooLarge, 4));
    assert_eq!(log_append_step(&p, 20, 64, 3), (LogStep::Append, 4));
    log_append(&mut p, &[7u8; 40]);
    assert_eq!(log_append_step(&p, 20, 64, 4), (LogStep::NewBlock, 5));
    assert!(log_flush_needed(5, 5));
    assert!(!log_flush_needed(4, 5));
}
