use vstd::prelude::*;

use crate::file::{BlockId, FileError};

verus! {

/// Errors of the buffer manager.
#[derive(Debug)]
pub enum BufferError {
    PoolExhausted,
    Abort(BlockId),
    Storage(FileError),
}

} // verus!
