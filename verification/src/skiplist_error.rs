//! Errors of the skip list's callers: a failed read or write of the log (a log
//! entry cut short among them), or a stored value that does not decode.
use vstd::prelude::*;

verus! {

#[verifier::external_type_specification]
#[verifier::external_body]
pub struct ExIoError(std::io::Error);

#[derive(Debug)]
pub enum SkipListError {
    /// Reading or writing the log failed.
    IoError(std::io::Error),
    /// Bytes that `bitcode` could not decode.
    BitcodeError(bitcode::Error),
}

/// Calls `std::io::Error::from(std::io::ErrorKind::UnexpectedEof)`, the error that a
/// read of more bytes than are left gives. Nothing is stated of the value.
#[verifier::external_body]
pub(crate) fn unexpected_eof() -> (e: std::io::Error) {
    std::io::Error::from(std::io::ErrorKind::UnexpectedEof)
}

impl From<std::io::Error> for SkipListError {
    fn from(value: std::io::Error) -> (r: Self) {
        SkipListError::IoError(value)
    }
}

impl vstd::std_specs::convert::FromSpecImpl<std::io::Error> for SkipListError {
    open spec fn obeys_from_spec() -> bool {
        true
    }

    open spec fn from_spec(v: std::io::Error) -> Self {
        SkipListError::IoError(v)
    }
}

impl From<bitcode::Error> for SkipListError {
    fn from(value: bitcode::Error) -> (r: Self) {
        SkipListError::BitcodeError(value)
    }
}

impl vstd::std_specs::convert::FromSpecImpl<bitcode::Error> for SkipListError {
    open spec fn obeys_from_spec() -> bool {
        true
    }

    open spec fn from_spec(v: bitcode::Error) -> Self {
        SkipListError::BitcodeError(v)
    }
}

} // verus!
