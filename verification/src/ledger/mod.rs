//! The ledger: what is stored, and the decisions about storing and reading it.

pub mod laws;
pub mod open;
pub mod paging;
pub mod queries;
pub mod reading;
pub mod schema;
pub mod tables;
pub mod writer;
