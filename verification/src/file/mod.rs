pub mod block_id;
pub mod error;
pub mod page;

pub use block_id::BlockId;
pub use error::FileError;
pub use page::Page;
