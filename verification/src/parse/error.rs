use vstd::prelude::*;

verus! {

/// Errors of the SQL parser: a syntax error at a line and column, or a
/// keyword that the dialect does not support.
#[derive(Debug)]
pub enum ParseError {
    InvalidSyntax { message: String, line: usize, col: usize },
    UnsupportedKeyword(String),
}

} // verus!
