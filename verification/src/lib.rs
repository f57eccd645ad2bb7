//! A multi-version B-tree key/value engine: the tree and its repair passes,
//! multi-version visibility, garbage collection of dead versions, the text
//! format the tree is saved in, and the records of the write-ahead log.

pub mod btree;
pub mod mvcc;
pub mod storage;
pub mod transactions;
pub mod text;
pub mod cli;
pub mod engine;
