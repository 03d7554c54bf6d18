pub mod error;
pub mod log_page;

pub use error::LogError;
