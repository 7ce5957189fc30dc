pub mod bytes_util;
pub mod codec;
pub mod memtable;
pub mod ordered;
pub mod skiplist;
pub mod skiplist_error;
pub mod traits;
pub mod wal;
pub mod sstable;
pub mod engine_error;
pub mod engine;
pub mod drawing;
pub mod cli;
