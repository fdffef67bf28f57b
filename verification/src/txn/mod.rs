//! Transactions: timestamps, write sets, validation and the engine.

pub mod engine_laws;
pub mod mvcc;
pub mod mvcc_laws;
pub mod serial_laws;
pub mod timestamp;
pub mod transaction;

pub use mvcc::MvccEngine;
pub use timestamp::TimestampOracle;
pub use transaction::{IsolationLevel, Transaction, TransactionManager, TransactionState, WriteSet};
