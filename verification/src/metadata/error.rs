use vstd::prelude::*;

verus! {

/// Errors of the metadata managers.
#[derive(Debug)]
pub enum MetadataError {
    TableNotFound(String),
    FieldNotFound(String),
}

} // verus!
