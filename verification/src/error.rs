use vstd::prelude::*;

use crate::buffer::BufferError;
use crate::metadata::MetadataError;
use crate::parse::ParseError;

verus! {

/// The errors of the database: those of its parts, and internal errors.
/// Transaction and planner errors carry their message.
#[derive(Debug)]
pub enum DbError {
    Buffer(BufferError),
    Transaction(String),
    Metadata(MetadataError),
    Parser(ParseError),
    Planner(String),
    Internal(String),
}

} // verus!
