pub mod transaction;

pub use transaction::Transaction;
