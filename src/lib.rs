//! An account ledger: balances with an audit history of operations, an account
//! store with atomic two-account transfers, composable transactions and a
//! round-trippable text format.
pub mod analitics;
pub mod balance;
pub mod operation;
pub mod storage;
pub mod text;
pub mod transaction;
