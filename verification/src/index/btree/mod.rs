pub mod bt_dir;
pub mod bt_index;
pub mod bt_leaf;
pub mod bt_page;
pub mod dir_entry;
pub mod entries;
pub mod page_format;

pub use bt_leaf::BTreeLeaf;
pub use bt_page::BTPage;
pub use dir_entry::DirEntry;
