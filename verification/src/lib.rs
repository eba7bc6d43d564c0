//! Watches a set of wallets on EVM-compatible chains and, for every block,
//! turns transaction receipts and call-tracer frames into per-account,
//! per-token balance-change sheets and per-wallet PnL reports.

pub mod balance_changes;
pub mod chain;
pub mod cli;
pub mod config;
pub mod int256;
pub mod processor;
pub mod types;
pub mod utils;
