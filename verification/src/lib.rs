//! FastNode: JSON Nodes with typed path indexes, ordered keys, intervals and
//! links. This crate holds the indexing rules, the query model and the
//! decisions of the store; the SQLite plumbing lives beside it.

pub mod text;
pub mod bitmap;
pub mod json;
pub mod error;
pub mod cli;
pub mod import;
pub mod index;
pub mod model;
pub mod query;
pub mod session;
pub mod store;
pub mod types;
