//! The write-ahead log: its records, how a record is read back as a
//! command, and which commands a crash leaves unfinished.
pub mod record;
pub mod log_utils;
pub mod writer;
pub mod reader;
pub mod recovery;
