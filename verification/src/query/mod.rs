//! Predicate evaluation rules, ordering keys and paging.

pub mod bounds;
pub mod cursor;
pub mod estimate;
pub mod eval;
pub mod evaluation;
pub mod graph;
pub mod meaning;
pub mod order;
pub mod order_key;
pub mod page;
pub mod plan;
pub mod postings;
pub mod range;
pub mod reads;
pub mod validate;
