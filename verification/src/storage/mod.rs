pub mod deser;
pub mod ser;
pub mod wal;
