//! Link directions, how much of a linked Node is pulled, and the pulled refs.

use super::node::NodeId;
use crate::json::Json;
use vstd::prelude::*;

verus! {

/// Out: links from a Node; In: links to it.
#[derive(PartialEq, Eq, Structural, Clone, Copy, Debug)]
pub enum Direction {
    Out,
    In,
}

impl Direction {
    pub open spec fn reverse_spec(self) -> Direction {
        match self {
            Direction::Out => Direction::In,
            Direction::In => Direction::Out,
        }
    }

    /// The other direction.
    pub fn reverse(self) -> (d: Direction)
        ensures
            d == self.reverse_spec(),
    {
        match self {
            Direction::Out => Direction::In,
            Direction::In => Direction::Out,
        }
    }
}

impl Default for Direction {
    fn default() -> (d: Direction)
        ensures
            d == Direction::Out,
    {
        Direction::Out
    }
}

/// How much of the Node on the other end of each link is pulled.
#[derive(PartialEq, Eq, Structural, Clone, Copy, Debug)]
pub enum LinkMode {
    /// relation and id only; reads the link index alone.
    Bare,
    /// plus type and summary.
    Summary,
    /// plus attrs.
    Full,
}

impl Default for LinkMode {
    fn default() -> (m: LinkMode)
        ensures
            m == LinkMode::Summary,
    {
        LinkMode::Summary
    }
}

pub open spec fn default_link_limit_spec() -> usize {
    100
}

/// Links returned per direction unless asked otherwise.
pub fn default_link_limit() -> (n: usize)
    ensures
        n == default_link_limit_spec(),
{
    100
}

#[derive(PartialEq, Eq, Structural, Clone, Copy, Debug)]
pub struct LinkOptions {
    pub mode: LinkMode,
    /// Maximum links returned per direction (or per relation).
    pub limit: usize,
}

impl Default for LinkOptions {
    fn default() -> (o: LinkOptions)
        ensures
            o.mode == LinkMode::Summary,
            o.limit == default_link_limit_spec(),
    {
        LinkOptions { mode: LinkMode::Summary, limit: default_link_limit() }
    }
}

/// The far end of one link, with as much of that Node as the mode asks.
#[derive(Debug, PartialEq, Eq)]
pub struct LinkRef {
    pub relation: String,
    pub id: NodeId,
    pub kind: Option<String>,
    pub summary: Option<String>,
    pub attrs: Option<Json>,
}

/// A Node's links in both directions.
#[derive(Debug, PartialEq, Eq)]
pub struct NodeLinks {
    pub out: Vec<LinkRef>,
    pub incoming: Vec<LinkRef>,
    /// More links exist in this direction than the limit returned.
    pub out_more: bool,
    pub in_more: bool,
}

} // verus!
