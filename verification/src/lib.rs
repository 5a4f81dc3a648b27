//! A minimal ledger: named accounts with integer balances, persisted as
//! `name,balance` lines of text.
//!
//! The in-memory account table lives in [`storage::Storage`], together with
//! the line-format reader and writer.  File handling (opening, reading and
//! writing the persisted file) is left to the caller; the library works on
//! plain text.

pub mod laws;
pub mod num;
pub mod storage;
pub mod text;

pub use storage::Storage;
