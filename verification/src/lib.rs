//! An embedded key-value store: an LSM tree with a write-ahead log below
//! multi-version transactions, with the contracts of both proved.

pub mod common;
pub mod db;
pub mod db_laws;
pub mod lock;
pub mod storage;
pub mod txn;
