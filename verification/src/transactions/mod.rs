pub mod transactions;
pub mod manager;
