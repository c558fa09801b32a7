//! A small lending-library catalog: a line-oriented record format for books
//! and loans, catalog and ledger operations over the decoded records, and the
//! borrow / return rules that keep the two stores in step.

pub mod codec;
pub mod date;
pub mod lending;
pub mod number;
pub mod store;
pub mod text;
