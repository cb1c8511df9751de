//! Node, link, predicate and query parameters.

pub mod links;
pub mod mutation;
pub mod parse;
pub mod node;
pub mod predicate;
pub mod query;
pub mod render;
