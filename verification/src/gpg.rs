//! Errors and file names of the GPG clearsign-and-encrypt tool.
use vstd::prelude::*;
use crate::number::{decimal, push_decimal_digits};

verus! {

/// `std::io::Error`, carried through as an opaque value.
#[verifier::external_type_specification]
#[verifier::external_body]
pub struct ExIoError(std::io::Error);

/// Errors of GPG operations.
#[derive(Debug)]
pub enum GpgError {
    /// A file system operation failed.
    FileSystemError(std::io::Error),
    /// Running GPG failed.
    GpgOperationError(String),
    /// A temporary file could not be managed.
    TempFileError(String),
    /// A path could not be used.
    PathError(String),
}

/// `gpg_temp_<timestamp>_<file_name>`
pub open spec fn temp_file_name_text(timestamp: u64, file_name: Seq<char>) -> Seq<char> {
    "gpg_temp_"@ + decimal(timestamp as int) + "_"@ + file_name
}

/// The name of the temporary file for `file_name`, made unique by
/// a timestamp.
pub fn temp_file_name(timestamp: u64, file_name: &str) -> (s: String)
    ensures
        s@ == temp_file_name_text(timestamp, file_name@),
{
    let mut s = String::from_str("gpg_temp_");
    push_decimal_digits(&mut s, timestamp);
    s.append("_");
    s.append(file_name);
    s
}

/// `clearsigned_<name>`: the name given to the clearsigned copy of a file.
pub fn clearsigned_name(file_name: &str) -> (s: String)
    ensures
        s@ == "clearsigned_"@ + file_name@,
{
    let mut s = String::from_str("clearsigned_");
    s.append(file_name);
    s
}

/// `<name>.gpg`: the name of the encrypted output file.
pub fn encrypted_file_name(file_name: &str) -> (s: String)
    ensures
        s@ == file_name@ + ".gpg"@,
{
    let mut s = String::from_str(file_name);
    s.append(".gpg");
    s
}

} // verus!
