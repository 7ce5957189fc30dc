pub mod data_block;
pub mod errors;
pub mod footer;
pub mod format;
pub mod index;
pub mod reader;
pub mod roundtrip;
pub mod writer;
