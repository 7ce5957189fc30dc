//! Errors of writing and reading tables.
use vstd::prelude::*;

verus! {

#[derive(Debug)]
pub enum SsTableWriterError {
    /// Writing the table out failed.
    IoError(std::io::Error),
    /// The encoder failed.
    BitcodeError(bitcode::Error),
}

impl From<std::io::Error> for SsTableWriterError {
    fn from(value: std::io::Error) -> (r: Self) {
        SsTableWriterError::IoError(value)
    }
}

impl vstd::std_specs::convert::FromSpecImpl<std::io::Error> for SsTableWriterError {
    open spec fn obeys_from_spec() -> bool {
        true
    }

    open spec fn from_spec(v: std::io::Error) -> Self {
        SsTableWriterError::IoError(v)
    }
}

impl From<bitcode::Error> for SsTableWriterError {
    fn from(value: bitcode::Error) -> (r: Self) {
        SsTableWriterError::BitcodeError(value)
    }
}

impl vstd::std_specs::convert::FromSpecImpl<bitcode::Error> for SsTableWriterError {
    open spec fn obeys_from_spec() -> bool {
        true
    }

    open spec fn from_spec(v: bitcode::Error) -> Self {
        SsTableWriterError::BitcodeError(v)
    }
}

#[derive(Debug)]
pub enum SsTableReaderError {
    /// Reading the table failed; a position or length past the end of its bytes
    /// gives the error of a read cut short.
    IoError(std::io::Error),
    /// The footer or the index does not decode.
    BitcodeError(bitcode::Error),
    /// The index's last keys go down, or a block's keys do not go up.
    Unsorted,
    /// The key was looked for and is not there.
    NotFoundError,
}

impl From<std::io::Error> for SsTableReaderError {
    fn from(value: std::io::Error) -> (r: Self) {
        SsTableReaderError::IoError(value)
    }
}

impl vstd::std_specs::convert::FromSpecImpl<std::io::Error> for SsTableReaderError {
    open spec fn obeys_from_spec() -> bool {
        true
    }

    open spec fn from_spec(v: std::io::Error) -> Self {
        SsTableReaderError::IoError(v)
    }
}

impl From<bitcode::Error> for SsTableReaderError {
    fn from(value: bitcode::Error) -> (r: Self) {
        SsTableReaderError::BitcodeError(value)
    }
}

impl vstd::std_specs::convert::FromSpecImpl<bitcode::Error> for SsTableReaderError {
    open spec fn obeys_from_spec() -> bool {
        true
    }

    open spec fn from_spec(v: bitcode::Error) -> Self {
        SsTableReaderError::BitcodeError(v)
    }
}

pub enum SstableError {
    SstableReaderError(SsTableReaderError),
    SsTableWriterError(SsTableWriterError),
}

impl From<SsTableReaderError> for SstableError {
    fn from(value: SsTableReaderError) -> (r: Self) {
        SstableError::SstableReaderError(value)
    }
}

impl vstd::std_specs::convert::FromSpecImpl<SsTableReaderError> for SstableError {
    open spec fn obeys_from_spec() -> bool {
        true
    }

    open spec fn from_spec(v: SsTableReaderError) -> Self {
        SstableError::SstableReaderError(v)
    }
}

impl From<SsTableWriterError> for SstableError {
    fn from(value: SsTableWriterError) -> (r: Self) {
        SstableError::SsTableWriterError(value)
    }
}

impl vstd::std_specs::convert::FromSpecImpl<SsTableWriterError> for SstableError {
    open spec fn obeys_from_spec() -> bool {
        true
    }

    open spec fn from_spec(v: SsTableWriterError) -> Self {
        SstableError::SsTableWriterError(v)
    }
}

} // verus!
