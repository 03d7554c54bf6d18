pub mod btree;
pub mod hash;
pub mod index_scan;

pub use btree::{BTPage, BTreeLeaf, DirEntry};
pub use index_scan::IndexScan;
