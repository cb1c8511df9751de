//! Nodes and links as callers write and read them.

use super::links::NodeLinks;
use crate::json::{json_wf, Json};
use vstd::prelude::*;

verus! {

/// Node ids are assigned from 1 upward and never reused.
pub type NodeId = u32;

/// What callers write: type and summary are required, attrs is any JSON
/// object.
#[derive(Debug, PartialEq, Eq)]
pub struct NewNode {
    pub kind: String,
    pub summary: String,
    pub attrs: Json,
}

impl NewNode {
    pub fn new(kind: String, summary: String, attrs: Json) -> (n: NewNode)
        ensures
            n.kind@ == kind@,
            n.summary@ == summary@,
            n.attrs@ == attrs@,
    {
        NewNode { kind, summary, attrs }
    }
}

/// A stored Node: id and version besides what was written, links on request.
#[derive(Debug, PartialEq, Eq)]
pub struct Node {
    pub id: NodeId,
    pub version: u64,
    pub kind: String,
    pub summary: String,
    pub attrs: Json,
    pub links: Option<NodeLinks>,
}

/// A directed link `from -relation-> to`.
#[derive(Debug, Clone, PartialEq, Eq)]
pub struct Link {
    pub from: NodeId,
    pub relation: String,
    pub to: NodeId,
}

/// Sizes of a store.
#[derive(Debug, Clone, PartialEq, Eq)]
pub struct Stats {
    pub nodes: u64,
    pub links: u64,
    pub intervals: u64,
    pub bitmap_blocks: u64,
    pub bitmap_bytes: u64,
    pub indexed_fields: u64,
}

} // verus!
