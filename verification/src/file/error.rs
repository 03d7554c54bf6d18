use vstd::prelude::*;

verus! {

/// `std::io::Error`, an error of an I/O operation, carried as it is.
#[verifier::external_type_specification]
#[verifier::external_body]
pub struct ExIoError(std::io::Error);

/// Errors of the file manager.
#[derive(Debug)]
pub enum FileError {
    Io { io_err: std::io::Error, message: String },
    FileAlreadyExists { path: String },
    FileNotFound { path: String },
    BlockReadFailed { path: String, block_num: i32 },
    BlockWriteFailed { path: String, block_num: i32 },
}

} // verus!
