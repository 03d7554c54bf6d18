pub mod bucket_page;
pub mod common;
pub mod dir_page;
pub mod extendable_hash_index;
pub mod hash_index;

pub use bucket_page::BucketPage;
pub use common::hash_code;
pub use dir_page::DirPage;
pub use extendable_hash_index::ExtendableHashIndex;
pub use hash_index::{HashIndex, NUM_BUCKETS};
