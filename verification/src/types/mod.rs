//! Derived Node types: first-level fields lifted from attrs paths and link
//! relations, while storage stays Node + links.

pub mod derived;
pub mod schema;
pub mod span;
