//! A query: a predicate plus paging, ordering and what to return.

use super::links::{default_link_limit, default_link_limit_spec, LinkMode};
use super::node::{Node, NodeId};
use super::predicate::{Predicate, SortDirection};
use vstd::prelude::*;

verus! {

/// Sort by one single-valued path. Numbers precede strings when ascending;
/// Nodes without a value come last in either direction.
#[derive(Debug, Clone, PartialEq, Eq)]
pub struct OrderBy {
    pub field: String,
    pub direction: SortDirection,
}

impl OrderBy {
    /// Ascending by `field`.
    pub fn asc(field: String) -> (o: OrderBy)
        ensures
            o.field@ == field@,
            o.direction == SortDirection::Asc,
    {
        OrderBy { field, direction: SortDirection::Asc }
    }

    /// Descending by `field`.
    pub fn desc(field: String) -> (o: OrderBy)
        ensures
            o.field@ == field@,
            o.direction == SortDirection::Desc,
    {
        OrderBy { field, direction: SortDirection::Desc }
    }
}

pub open spec fn default_limit_spec() -> usize {
    100
}

/// Results per page unless asked otherwise.
pub fn default_limit() -> (n: usize)
    ensures
        n == default_limit_spec(),
{
    100
}

#[derive(Debug, PartialEq, Eq)]
pub struct Query {
    pub predicate: Predicate,
    pub limit: usize,
    /// Id cursor for results in id order.
    pub after: NodeId,
    pub include_data: bool,
    /// Applies to returned Nodes when include_data is true.
    pub links: LinkMode,
    pub link_limit: usize,
    pub order_by: Option<OrderBy>,
    /// next_cursor from the previous page of an ordered query.
    pub cursor: Option<String>,
}

impl Query {
    /// The first page of `predicate` in id order: 100 ids, no data.
    pub fn new(predicate: Predicate) -> (q: Query)
        ensures
            q.predicate@ == predicate@,
            q.limit == default_limit_spec(),
            q.after == 0,
            !q.include_data,
            q.links == LinkMode::Summary,
            q.link_limit == default_link_limit_spec(),
            q.order_by is None,
            q.cursor is None,
    {
        Query {
            predicate,
            limit: default_limit(),
            after: 0,
            include_data: false,
            links: LinkMode::Summary,
            link_limit: default_link_limit(),
            order_by: None,
            cursor: None,
        }
    }
}

/// One page of results.
#[derive(Debug, PartialEq, Eq)]
pub struct QueryResult {
    pub total: u64,
    pub ids: Vec<NodeId>,
    pub nodes: Option<Vec<Node>>,
    pub next_after: Option<NodeId>,
    pub next_cursor: Option<String>,
}

} // verus!
