use vstd::prelude::*;

verus! {

/// The error of a request for a buffer that none became free for in time.
#[derive(Debug, Clone, Copy, PartialEq, Eq, Structural)]
pub struct BufferAbortException;

} // verus!
