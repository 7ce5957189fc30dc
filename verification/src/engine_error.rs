//! Errors of the storage engine.
use crate::skiplist_error::SkipListError;
use crate::sstable::errors::{SsTableReaderError, SsTableWriterError};
use vstd::prelude::*;

verus! {

#[verifier::external_type_specification]
#[verifier::external_body]
pub struct ExFromUtf8Error(std::string::FromUtf8Error);

#[derive(Debug)]
pub enum EngineError {
    SkipListError(SkipListError),
    SsTableWriterError(SsTableWriterError),
    SsTableReaderError(SsTableReaderError),
    FromutfError(std::string::FromUtf8Error),
    IoError(std::io::Error),
}

impl From<std::string::FromUtf8Error> for EngineError {
    fn from(value: std::string::FromUtf8Error) -> (r: Self) {
        EngineError::FromutfError(value)
    }
}

impl vstd::std_specs::convert::FromSpecImpl<std::string::FromUtf8Error> for EngineError {
    open spec fn obeys_from_spec() -> bool {
        true
    }

    open spec fn from_spec(v: std::string::FromUtf8Error) -> Self {
        EngineError::FromutfError(v)
    }
}

impl From<std::io::Error> for EngineError {
    fn from(value: std::io::Error) -> (r: Self) {
        EngineError::IoError(value)
    }
}

impl vstd::std_specs::convert::FromSpecImpl<std::io::Error> for EngineError {
    open spec fn obeys_from_spec() -> bool {
        true
    }

    open spec fn from_spec(v: std::io::Error) -> Self {
        EngineError::IoError(v)
    }
}

impl From<SkipListError> for EngineError {
    fn from(value: SkipListError) -> (r: Self) {
        EngineError::SkipListError(value)
    }
}

impl vstd::std_specs::convert::FromSpecImpl<SkipListError> for EngineError {
    open spec fn obeys_from_spec() -> bool {
        true
    }

    open spec fn from_spec(v: SkipListError) -> Self {
        EngineError::SkipListError(v)
    }
}

impl From<SsTableWriterError> for EngineError {
    fn from(value: SsTableWriterError) -> (r: Self) {
        EngineError::SsTableWriterError(value)
    }
}

impl vstd::std_specs::convert::FromSpecImpl<SsTableWriterError> for EngineError {
    open spec fn obeys_from_spec() -> bool {
        true
    }

    open spec fn from_spec(v: SsTableWriterError) -> Self {
        EngineError::SsTableWriterError(v)
    }
}

impl From<SsTableReaderError> for EngineError {
    fn from(value: SsTableReaderError) -> (r: Self) {
        EngineError::SsTableReaderError(value)
    }
}

impl vstd::std_specs::convert::FromSpecImpl<SsTableReaderError> for EngineError {
    open spec fn obeys_from_spec() -> bool {
        true
    }

    open spec fn from_spec(v: SsTableReaderError) -> Self {
        EngineError::SsTableReaderError(v)
    }
}

} // verus!
