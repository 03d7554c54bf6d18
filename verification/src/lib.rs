pub mod buffer;
pub mod error;
pub mod file;
pub mod index;
pub mod log;
pub mod metadata;
pub mod parse;
pub mod query;
pub mod record;
pub mod tx;
pub mod util;

pub use error::DbError;
