//! A small in-memory ledger: named accounts with integer balances,
//! deposit/withdraw/transfer operations, a composable transaction layer,
//! and a line-oriented text encoding for persistence.

pub mod analytics;
pub mod codec;
pub mod errors;
pub mod storage;
pub mod transaction;
