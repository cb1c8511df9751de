//! The decisions of the store: what its writes change in the indexes and
//! which writes its policies allow.

pub mod composite;
pub mod maintain;
pub mod policy;
pub mod read;
pub mod write;
