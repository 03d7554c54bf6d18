use vstd::prelude::*;

verus! {

/// Errors of the log manager.
#[derive(Debug)]
pub enum LogError {
    InvalidLSN(u64),
    LogCorrupted,
}

} // verus!
