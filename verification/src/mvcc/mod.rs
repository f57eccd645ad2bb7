pub mod versions;
pub mod visibility;
pub mod gc;
pub mod snapshot;
