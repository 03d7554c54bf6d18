pub mod buffer_mgr;
pub mod error;
pub mod pool;

pub use buffer_mgr::BufferAbortException;
pub use error::BufferError;
