use vstd::prelude::*;

verus! {

/// The error of a statement that does not follow the SQL grammar.
#[derive(Debug, Clone, Copy, PartialEq, Eq, Structural)]
pub struct BadSyntaxException;

impl Default for BadSyntaxException {
    fn default() -> (r: Self)
        ensures
            r == BadSyntaxException,
    {
        BadSyntaxException
    }
}

} // verus!
