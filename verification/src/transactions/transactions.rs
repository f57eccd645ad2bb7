use vstd::prelude::*;

verus! {

/// The state of a transaction.
#[derive(Debug, Clone, Copy, PartialEq, Eq, Structural)]
pub enum TransactionStatus {
    Active,
    Committed,
    Aborted,
}

/// What is kept about one transaction.
#[derive(Debug)]
pub struct TransactionItems {
    pub status: TransactionStatus,
    pub last_txd: u32,
    pub modified_keys: Vec<u32>,
    pub visible_max: u32,
}

} // verus!
