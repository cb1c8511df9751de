//! Predicates select Node sets; every predicate yields a set of ids.

use super::links::Direction;
use super::node::NodeId;
use crate::json::{items_view, Json, JsonV, Number};
use vstd::prelude::*;

verus! {

#[derive(PartialEq, Eq, Structural, Clone, Copy, Debug)]
pub enum SortDirection {
    Asc,
    Desc,
}

impl Default for SortDirection {
    fn default() -> (d: SortDirection)
        ensures
            d == SortDirection::Asc,
    {
        SortDirection::Asc
    }
}

#[allow(inconsistent_fields)]
#[derive(Debug, PartialEq, Eq)]
pub enum Predicate {
    All,
    Ids { ids: Vec<NodeId> },
    Eq { field: String, value: Json },
    In { field: String, values: Vec<Json> },
    /// A scalar value at any attrs path.
    Any { value: Json },
    Exists { field: String },
    Prefix { field: String, prefix: String },
    /// Numbers or strings; every bound of one range has the same type.
    Range {
        field: String,
        gt: Option<Json>,
        gte: Option<Json>,
        lt: Option<Json>,
        lte: Option<Json>,
    },
    /// Intervals at `field` holding the instant `value`.
    At { field: String, value: Number },
    /// Intervals sharing any instant with [start, end).
    Overlap { field: String, start: Number, end: Number },
    /// Intervals covering all of [start, end).
    Contains { field: String, start: Number, end: Number },
    /// Intervals lying inside [start, end).
    ContainedBy { field: String, start: Number, end: Number },
    /// Entries of a declared composite index: one group, in ordering order,
    /// within optional bounds, nearest first, at most `limit`.
    Seek {
        index: String,
        group: Vec<Json>,
        gt: Option<Json>,
        gte: Option<Json>,
        lt: Option<Json>,
        lte: Option<Json>,
        direction: SortDirection,
        limit: Option<usize>,
    },
    HasLink { relation: String, target: NodeId, direction: Direction },
    And { args: Vec<Predicate> },
    Or { args: Vec<Predicate> },
    Not { arg: Box<Predicate> },
    Traverse { from: Box<Predicate>, steps: Vec<Step> },
}

/// One hop of a traversal, or a repeated hop when `min` or `max` is set.
#[derive(Debug, PartialEq, Eq)]
pub struct Step {
    pub relation: String,
    pub direction: Direction,
    pub filter: Option<Predicate>,
    /// Repeat this relation: keep Nodes whose shortest hop count is in
    /// min..=max. Omitting both means exactly one hop; max absent means
    /// until no new Node is reached.
    pub min: Option<u32>,
    pub max: Option<u32>,
}

pub open spec fn opt_json(o: Option<Json>) -> Option<JsonV> {
    match o {
        Some(j) => Some(j@),
        None => None,
    }
}

/// The mathematical value of a predicate.
#[allow(inconsistent_fields)]
pub enum PredicateV {
    All,
    Ids { ids: Seq<NodeId> },
    Eq { field: Seq<char>, value: JsonV },
    In { field: Seq<char>, values: Seq<JsonV> },
    Any { value: JsonV },
    Exists { field: Seq<char> },
    Prefix { field: Seq<char>, prefix: Seq<char> },
    Range {
        field: Seq<char>,
        gt: Option<JsonV>,
        gte: Option<JsonV>,
        lt: Option<JsonV>,
        lte: Option<JsonV>,
    },
    At { field: Seq<char>, value: Seq<char> },
    Overlap { field: Seq<char>, start: Seq<char>, end: Seq<char> },
    Contains { field: Seq<char>, start: Seq<char>, end: Seq<char> },
    ContainedBy { field: Seq<char>, start: Seq<char>, end: Seq<char> },
    Seek {
        index: Seq<char>,
        group: Seq<JsonV>,
        gt: Option<JsonV>,
        gte: Option<JsonV>,
        lt: Option<JsonV>,
        lte: Option<JsonV>,
        direction: SortDirection,
        limit: Option<usize>,
    },
    HasLink { relation: Seq<char>, target: NodeId, direction: Direction },
    And { args: Seq<PredicateV> },
    Or { args: Seq<PredicateV> },
    Not { arg: Box<PredicateV> },
    Traverse { from: Box<PredicateV>, steps: Seq<StepV> },
}

pub struct StepV {
    pub relation: Seq<char>,
    pub direction: Direction,
    pub filter: Option<PredicateV>,
    pub min: Option<u32>,
    pub max: Option<u32>,
}

impl View for Predicate {
    type V = PredicateV;

    open spec fn view(&self) -> PredicateV {
        predicate_view(*self)
    }
}

impl View for Step {
    type V = StepV;

    open spec fn view(&self) -> StepV {
        step_view(*self)
    }
}

pub open spec fn predicate_view(p: Predicate) -> PredicateV
    decreases p,
{
    match p {
        Predicate::All => PredicateV::All,
        Predicate::Ids { ids } => PredicateV::Ids { ids: ids@ },
        Predicate::Eq { field, value } => PredicateV::Eq { field: field@, value: value@ },
        Predicate::In { field, values } => PredicateV::In {
            field: field@,
            values: items_view(values@),
        },
        Predicate::Any { value } => PredicateV::Any { value: value@ },
        Predicate::Exists { field } => PredicateV::Exists { field: field@ },
        Predicate::Prefix { field, prefix } => PredicateV::Prefix {
            field: field@,
            prefix: prefix@,
        },
        Predicate::Range { field, gt, gte, lt, lte } => PredicateV::Range {
            field: field@,
            gt: opt_json(gt),
            gte: opt_json(gte),
            lt: opt_json(lt),
            lte: opt_json(lte),
        },
        Predicate::At { field, value } => PredicateV::At { field: field@, value: value.literal@ },
        Predicate::Overlap { field, start, end } => PredicateV::Overlap {
            field: field@,
            start: start.literal@,
            end: end.literal@,
        },
        Predicate::Contains { field, start, end } => PredicateV::Contains {
            field: field@,
            start: start.literal@,
            end: end.literal@,
        },
        Predicate::ContainedBy { field, start, end } => PredicateV::ContainedBy {
            field: field@,
            start: start.literal@,
            end: end.literal@,
        },
        Predicate::Seek { index, group, gt, gte, lt, lte, direction, limit } => PredicateV::Seek {
            index: index@,
            group: items_view(group@),
            gt: opt_json(gt),
            gte: opt_json(gte),
            lt: opt_json(lt),
            lte: opt_json(lte),
            direction,
            limit,
        },
        Predicate::HasLink { relation, target, direction } => PredicateV::HasLink {
            relation: relation@,
            target,
            direction,
        },
        Predicate::And { args } => PredicateV::And { args: predicates_view(args@) },
        Predicate::Or { args } => PredicateV::Or { args: predicates_view(args@) },
        Predicate::Not { arg } => PredicateV::Not { arg: Box::new(predicate_view(*arg)) },
        Predicate::Traverse { from, steps } => PredicateV::Traverse {
            from: Box::new(predicate_view(*from)),
            steps: steps_view(steps@),
        },
    }
}

pub open spec fn predicates_view(ps: Seq<Predicate>) -> Seq<PredicateV>
    decreases ps,
{
    if ps.len() == 0 {
        Seq::empty()
    } else {
        predicates_view(ps.drop_last()).push(predicate_view(ps.last()))
    }
}

pub open spec fn steps_view(ss: Seq<Step>) -> Seq<StepV>
    decreases ss,
{
    if ss.len() == 0 {
        Seq::empty()
    } else {
        steps_view(ss.drop_last()).push(step_view(ss.last()))
    }
}

pub open spec fn step_view(s: Step) -> StepV
    decreases s,
{
    StepV {
        relation: s.relation@,
        direction: s.direction,
        filter: match s.filter {
            Some(f) => Some(predicate_view(f)),
            None => None,
        },
        min: s.min,
        max: s.max,
    }
}

pub proof fn lemma_predicates_view(ps: Seq<Predicate>)
    ensures
        predicates_view(ps).len() == ps.len(),
        forall|i: int| 0 <= i < ps.len() ==> #[trigger] predicates_view(ps)[i] == ps[i]@,
    decreases ps.len(),
{
    if ps.len() > 0 {
        lemma_predicates_view(ps.drop_last());
    }
}

pub proof fn lemma_steps_view(ss: Seq<Step>)
    ensures
        steps_view(ss).len() == ss.len(),
        forall|i: int| 0 <= i < ss.len() ==> #[trigger] steps_view(ss)[i] == ss[i]@,
    decreases ss.len(),
{
    if ss.len() > 0 {
        lemma_steps_view(ss.drop_last());
    }
}

impl Step {
    /// One hop along `relation` in `direction`, no filter.
    pub fn new(relation: String, direction: Direction) -> (s: Step)
        ensures
            s.relation@ == relation@,
            s.direction == direction,
            s.filter is None,
            s.min is None,
            s.max is None,
    {
        Step { relation, direction, filter: None, min: None, max: None }
    }

    /// `(min, max)` when the step repeats: min defaults to 1, max absent
    /// means no bound. None when neither is set (exactly one hop).
    pub fn repeat(&self) -> (r: Option<(u32, Option<u32>)>)
        ensures
            r == (if self.min is Some || self.max is Some {
                Some(
                    (
                        match self.min {
                            Some(m) => m,
                            None => 1u32,
                        },
                        self.max,
                    ),
                )
            } else {
                None
            }),
    {
        if self.min.is_some() || self.max.is_some() {
            let m = match self.min {
                Some(m) => m,
                None => 1,
            };
            Some((m, self.max))
        } else {
            None
        }
    }
}

} // verus!
