//! The predicates, queries and documents the derived types are made of.

use super::schema::{ends, event_schema, event_schema_spec, field_index, link_of_spec, reads_link, state_schema, state_schema_spec};
use super::span::{int_number, span_json, Span};
use crate::error::Error;
use crate::json::{entries_view, lemma_entries_view, Json, JsonV};
use crate::model::links::Direction;
use crate::model::node::NodeId;
use crate::model::parse::{member, digits_u64};
use crate::model::predicate::{predicates_view, Predicate, PredicateV, SortDirection, Step, StepV};
use crate::model::query::{OrderBy, Query};
use crate::index::value::digits_value;
use crate::json::all_digits;
use vstd::prelude::*;

verus! {

/// The Nodes reached from `id` by one or more hops along `relation`.
pub open spec fn reachable_spec(id: NodeId, relation: Seq<char>, direction: Direction) -> PredicateV {
    PredicateV::Traverse {
        from: Box::new(PredicateV::Ids { ids: seq![id] }),
        steps: seq![StepV { relation, direction, filter: None, min: Some(1u32), max: None }],
    }
}

/// Every Node one or more hops from `id` along `relation`: descendants and
/// ancestors of a tree Node, what happened after an event.
pub fn reachable(id: NodeId, relation: &str, direction: Direction) -> (p: Predicate)
    ensures
        p@ == reachable_spec(id, relation@, direction),
{
    let mut step = Step::new(relation.to_owned(), direction);
    step.min = Some(1);
    let steps = vec![step];
    let ids = vec![id];
    proof {
        crate::model::predicate::lemma_steps_view(steps@);
        assert(crate::model::predicate::steps_view(steps@) =~= seq![StepV { relation: relation@, direction, filter: None, min: Some(1u32), max: None }]);
        assert(ids@ =~= seq![id]);
    }
    let from = Predicate::Ids { ids };
    assert(from@ == PredicateV::Ids { ids: seq![id] });
    let ghost sv = crate::model::predicate::steps_view(steps@);
    let p = Predicate::Traverse { from: Box::new(from), steps };
    assert(p@ == PredicateV::Traverse { from: Box::new(PredicateV::Ids { ids: seq![id] }), steps: sv });
    p
}

/// The states of `key` pointing at `subject`, optionally narrowed further.
pub open spec fn history_spec(subject: NodeId, key: Seq<char>, narrow: Option<PredicateV>) -> PredicateV {
    let base = seq![
        PredicateV::Eq { field: "@type"@, value: JsonV::Str(state_schema_spec().kind) },
        PredicateV::Eq { field: "/key"@, value: JsonV::Str(key) },
        PredicateV::Traverse {
            from: Box::new(PredicateV::Ids { ids: seq![subject] }),
            steps: seq![StepV { relation: "state_of"@, direction: Direction::In, filter: None, min: None, max: None }],
        },
    ];
    PredicateV::And {
        args: match narrow {
            Some(n) => base.push(n),
            None => base,
        },
    }
}

pub fn history(subject: NodeId, key: &str, narrow: Option<Predicate>) -> (p: Predicate)
    ensures
        p@ == history_spec(subject, key@, match narrow {
            Some(n) => Some(n@),
            None => None,
        }),
{
    let ids = vec![subject];
    let steps = vec![Step::new("state_of".to_owned(), Direction::In)];
    proof {
        assert(ids@ =~= seq![subject]);
        crate::model::predicate::lemma_steps_view(steps@);
        assert(crate::model::predicate::steps_view(steps@) =~= seq![StepV { relation: "state_of"@, direction: Direction::In, filter: None, min: None, max: None }]);
    }
    let ghost sv = crate::model::predicate::steps_view(steps@);
    let from = Predicate::Ids { ids };
    assert(from@ == PredicateV::Ids { ids: seq![subject] });
    let of_subject = Predicate::Traverse { from: Box::new(from), steps };
    assert(of_subject@ == PredicateV::Traverse { from: Box::new(PredicateV::Ids { ids: seq![subject] }), steps: sv });
    let by_key = Predicate::Eq { field: "/key".to_owned(), value: Json::Str(key.to_owned()) };
    let all = state_schema().all();
    let ghost v0 = all@;
    let ghost v1 = by_key@;
    let ghost v2 = of_subject@;
    let mut args = vec![all, by_key, of_subject];
    assert(args@.len() == 3 && args@[0]@ == v0 && args@[1]@ == v1 && args@[2]@ == v2);
    let ghost narrow_view = match narrow {
        Some(ref n) => Some(n@),
        None => None,
    };
    match narrow {
        Some(n) => args.push(n),
        None => {},
    }
    proof {
        lemma_predicates_view_all(args@);
        assert(predicates_view(args@) =~= history_spec(subject, key@, narrow_view)->And_args);
    }
    Predicate::And { args }
}

pub proof fn lemma_predicates_view_all(ps: Seq<Predicate>)
    ensures
        predicates_view(ps).len() == ps.len(),
        forall|i: int| 0 <= i < ps.len() ==> #[trigger] predicates_view(ps)[i] == ps[i]@,
{
    crate::model::predicate::lemma_predicates_view(ps);
}

/// Events whose time overlaps [start, end), ordered by start then id.
pub fn during_query(start: i64, end: i64, limit: usize) -> (q: Query)
    ensures
        q.predicate@ == (PredicateV::And {
            args: seq![
                PredicateV::Eq { field: "@type"@, value: JsonV::Str(event_schema_spec().kind) },
                PredicateV::Overlap { field: "/time"@, start: int_number(start), end: int_number(end) },
            ],
        }),
        q.limit == limit,
        q.after == 0,
        !q.include_data,
        q.order_by matches Some(o) && o.field@ == "/time/start"@ && o.direction == SortDirection::Asc,
        q.cursor is None,
{
    let all = event_schema().all();
    let overlap = Span::overlap("/time", start, end);
    let ghost v0 = all@;
    let ghost v1 = overlap@;
    let args = vec![all, overlap];
    proof {
        crate::model::predicate::lemma_predicates_view(args@);
        assert(predicates_view(args@) =~= seq![v0, v1]);
    }
    let mut q = Query::new(Predicate::And { args });
    q.limit = limit;
    q.order_by = Some(OrderBy::asc("/time/start".to_owned()));
    q
}

/// Every state of `key` for `subject`, oldest first.
pub fn history_query(subject: NodeId, key: &str) -> (q: Query)
    ensures
        q.predicate@ == history_spec(subject, key@, None),
        q.limit == 100_000,
        q.after == 0,
        !q.include_data,
        q.order_by matches Some(o) && o.field@ == "/valid/start"@ && o.direction == SortDirection::Asc,
        q.cursor is None,
{
    let mut q = Query::new(history(subject, key, None));
    q.limit = 100_000;
    q.order_by = Some(OrderBy::asc("/valid/start".to_owned()));
    q
}

/// What setting a state from `from` on does to the states of one key of a
/// subject. The states holding `from` are taken in order: each is cut at
/// `from` until one starts exactly at `from`, which is updated in place
/// instead. A new state inherits the end of the last one cut, and ends
/// where the next state begins when none was cut, so that the states of a
/// key never overlap.
#[derive(Debug, Clone, PartialEq, Eq)]
pub struct SetPlan {
    pub cut: Vec<NodeId>,
    pub in_place: Option<NodeId>,
    /// The end a new state inherits; None when one is updated in place.
    pub end: Option<i64>,
}

/// The plan for the states `held` that hold `from`, each (id, start, end).
pub open spec fn cut_plan_spec(held: Seq<(NodeId, i64, Option<i64>)>, from: i64) -> (Seq<NodeId>, Option<NodeId>, Option<i64>)
    decreases held.len(),
{
    if held.len() == 0 {
        (seq![], None, None)
    } else if held[0].1 == from {
        (seq![], Some(held[0].0), None)
    } else {
        let (cut, in_place, end) = cut_plan_spec(held.drop_first(), from);
        (seq![held[0].0] + cut, in_place, if cut.len() == 0 && in_place is None {
            held[0].2
        } else {
            end
        })
    }
}

fn cut_plan(held: &Vec<(NodeId, i64, Option<i64>)>, from: i64) -> (p: SetPlan)
    ensures
        (p.cut@, p.in_place, p.end) == cut_plan_spec(held@, from),
{
    let mut cut: Vec<NodeId> = Vec::new();
    let mut end: Option<i64> = None;
    let mut i: usize = 0;
    while i < held.len()
        invariant
            i <= held@.len(),
            cut@.len() == i,
            forall|k: int| 0 <= k < i ==> #[trigger] cut@[k] == held@[k].0,
            forall|k: int| 0 <= k < i ==> #[trigger] held@[k].1 != from,
            i > 0 ==> end == held@[i - 1].2,
            i == 0 ==> end is None,
        decreases held@.len() - i,
    {
        if held[i].1 == from {
            proof {
                lemma_cut_plan_stop(held@, from, i as int);
                assert(held@.skip(i as int)[0] == held@[i as int]);
                assert(cut@ =~= held@.take(i as int).map_values(|h: (NodeId, i64, Option<i64>)| h.0));
            }
            return SetPlan { cut, in_place: Some(held[i].0), end: None };
        }
        cut.push(held[i].0);
        end = held[i].2;
        i += 1;
    }
    proof {
        lemma_cut_plan_stop(held@, from, i as int);
        assert(held@.skip(i as int).len() == 0);
        assert(cut@ =~= held@.take(i as int).map_values(|h: (NodeId, i64, Option<i64>)| h.0));
    }
    SetPlan { cut, in_place: None, end }
}

/// The plan cuts every state before position `i` when none of them starts
/// at `from`.
pub proof fn lemma_cut_plan_stop(held: Seq<(NodeId, i64, Option<i64>)>, from: i64, i: int)
    requires
        0 <= i <= held.len(),
        forall|k: int| 0 <= k < i ==> held[k].1 != from,
    ensures
        cut_plan_spec(held, from).0 == held.take(i).map_values(|h: (NodeId, i64, Option<i64>)| h.0) + cut_plan_spec(held.skip(i), from).0,
        cut_plan_spec(held, from).1 == cut_plan_spec(held.skip(i), from).1,
        cut_plan_spec(held, from).2 == (if cut_plan_spec(held.skip(i), from).0.len() == 0 && cut_plan_spec(held.skip(i), from).1 is None && i > 0 {
            held[i - 1].2
        } else {
            cut_plan_spec(held.skip(i), from).2
        }),
    decreases i,
{
    if i > 0 {
        let rest = held.drop_first();
        assert forall|k: int| 0 <= k < i - 1 implies rest[k].1 != from by {
            assert(rest[k] == held[k + 1]);
        }
        lemma_cut_plan_stop(rest, from, i - 1);
        assert(rest.skip(i - 1) =~= held.skip(i));
        assert(held.take(i).map_values(|h: (NodeId, i64, Option<i64>)| h.0) =~= seq![held[0].0] + rest.take(i - 1).map_values(|h: (NodeId, i64, Option<i64>)| h.0));
        if i > 1 {
            assert(rest[i - 2] == held[i - 1]);
        }
    } else {
        assert(held.skip(0) =~= held);
        assert(held.take(0).map_values(|h: (NodeId, i64, Option<i64>)| h.0) =~= Seq::<NodeId>::empty());
    }
}


/// A valid span from `s` to `e` (none: open-ended) holds the instant `t`:
/// `[s, e)`, or the instant `s` alone when `e` is `s`.
pub open spec fn covers(s: i64, e: Option<i64>, t: i64) -> bool {
    s <= t && match e {
        None => true,
        Some(x) => t < x || (x == s && t == s),
    }
}

/// The states that hold `from`, in order.
pub open spec fn holding(states: Seq<(NodeId, i64, Option<i64>)>, from: i64) -> Seq<(NodeId, i64, Option<i64>)>
    decreases states.len(),
{
    if states.len() == 0 {
        seq![]
    } else {
        let h = states.last();
        holding(states.drop_last(), from) + if covers(h.1, h.2, from) {
            seq![h]
        } else {
            seq![]
        }
    }
}

/// The earliest start after `from`, if any state starts after it.
pub open spec fn later_start(states: Seq<(NodeId, i64, Option<i64>)>, from: i64) -> Option<i64>
    decreases states.len(),
{
    if states.len() == 0 {
        None
    } else {
        let h = states.last();
        let before = later_start(states.drop_last(), from);
        if h.1 > from {
            match before {
                Some(x) => Some(if x < h.1 { x } else { h.1 }),
                None => Some(h.1),
            }
        } else {
            before
        }
    }
}

/// The plan for every state `states` of one key, each (id, start, end).
pub open spec fn set_plan_spec(states: Seq<(NodeId, i64, Option<i64>)>, from: i64) -> (Seq<NodeId>, Option<NodeId>, Option<i64>) {
    let (cut, in_place, end) = cut_plan_spec(holding(states, from), from);
    (cut, in_place, if cut.len() == 0 && in_place is None {
        later_start(states, from)
    } else {
        end
    })
}

fn holds_at(s: i64, e: Option<i64>, t: i64) -> (b: bool)
    ensures
        b == covers(s, e, t),
{
    s <= t && match e {
        None => true,
        Some(x) => t < x || (x == s && t == s),
    }
}

/// The plan for the states of one key, each (id, start, end): which to cut
/// at `from`, which to update in place, and where a new state ends.
pub fn set_plan(states: &Vec<(NodeId, i64, Option<i64>)>, from: i64) -> (p: SetPlan)
    ensures
        (p.cut@, p.in_place, p.end) == set_plan_spec(states@, from),
{
    let mut held: Vec<(NodeId, i64, Option<i64>)> = Vec::new();
    let mut next: Option<i64> = None;
    let mut i: usize = 0;
    while i < states.len()
        invariant
            i <= states@.len(),
            held@ == holding(states@.take(i as int), from),
            next == later_start(states@.take(i as int), from),
        decreases states@.len() - i,
    {
        let (id, s, e) = states[i];
        proof {
            assert(states@.take(i + 1 as int).drop_last() =~= states@.take(i as int));
            assert(states@.take(i + 1 as int).last() == states@[i as int]);
        }
        if holds_at(s, e, from) {
            held.push((id, s, e));
            proof {
                assert(held@ =~= holding(states@.take(i as int), from) + seq![(id, s, e)]);
            }
        } else {
            proof {
                assert(holding(states@.take(i as int), from) + seq![] =~= holding(states@.take(i as int), from));
            }
        }
        if s > from {
            next = match next {
                Some(x) => Some(if x < s { x } else { s }),
                None => Some(s),
            };
        }
        i += 1;
    }
    proof {
        assert(states@.take(states@.len() as int) =~= states@);
    }
    let plan = cut_plan(&held, from);
    if plan.cut.len() == 0 && plan.in_place.is_none() {
        SetPlan { cut: plan.cut, in_place: None, end: next }
    } else {
        plan
    }
}

/// The instants a span holds. Two spans are apart when no instant is held
/// by both.
pub open spec fn apart(a: (i64, Option<i64>), b: (i64, Option<i64>)) -> bool {
    forall|t: i64| !(#[trigger] covers(a.0, a.1, t) && #[trigger] covers(b.0, b.1, t))
}

/// No two of the spans share an instant.
pub open spec fn all_apart(spans: Seq<(i64, Option<i64>)>) -> bool {
    forall|i: int, j: int| 0 <= i < j < spans.len() ==> apart(#[trigger] spans[i], #[trigger] spans[j])
}

/// The valid spans of the states.
pub open spec fn spans_of(states: Seq<(NodeId, i64, Option<i64>)>) -> Seq<(i64, Option<i64>)> {
    states.map_values(|h: (NodeId, i64, Option<i64>)| (h.1, h.2))
}

/// Each span ends no earlier than it starts.
pub open spec fn spans_ok(states: Seq<(NodeId, i64, Option<i64>)>) -> bool {
    forall|i: int| 0 <= i < states.len() ==> (match (#[trigger] states[i]).2 {
        Some(e) => e >= states[i].1,
        None => true,
    })
}

/// The valid spans of the states once the plan for `from` is carried out:
/// the states cut end at `from`, and a new state from `from` to the plan's
/// end joins them unless one was updated in place.
pub open spec fn spans_after(states: Seq<(NodeId, i64, Option<i64>)>, from: i64) -> Seq<(i64, Option<i64>)> {
    let (cut, in_place, end) = set_plan_spec(states, from);
    let kept = states.map_values(
        |h: (NodeId, i64, Option<i64>)| if cut.contains(h.0) { (h.1, Some(from)) } else { (h.1, h.2) },
    );
    match in_place {
        Some(_) => kept,
        None => kept.push((from, end)),
    }
}

proof fn lemma_holding_none(states: Seq<(NodeId, i64, Option<i64>)>, from: i64)
    requires
        forall|i: int| 0 <= i < states.len() ==> !covers(#[trigger] states[i].1, states[i].2, from),
    ensures
        holding(states, from) == Seq::<(NodeId, i64, Option<i64>)>::empty(),
    decreases states.len(),
{
    if states.len() > 0 {
        let d = states.drop_last();
        assert forall|i: int| 0 <= i < d.len() implies !covers(#[trigger] d[i].1, d[i].2, from) by {
            assert(d[i] == states[i]);
        }
        lemma_holding_none(d, from);
        assert(states.last() == states[states.len() - 1]);
        assert(holding(states, from) =~= Seq::<(NodeId, i64, Option<i64>)>::empty());
    }
}

proof fn lemma_holding_one(states: Seq<(NodeId, i64, Option<i64>)>, from: i64, k: int)
    requires
        0 <= k < states.len(),
        covers(states[k].1, states[k].2, from),
        forall|i: int| 0 <= i < states.len() && i != k ==> !covers(#[trigger] states[i].1, states[i].2, from),
    ensures
        holding(states, from) == seq![states[k]],
    decreases states.len(),
{
    let d = states.drop_last();
    let n = states.len() - 1;
    assert(states.last() == states[n]);
    if k == n {
        assert forall|i: int| 0 <= i < d.len() implies !covers(#[trigger] d[i].1, d[i].2, from) by {
            assert(d[i] == states[i]);
        }
        lemma_holding_none(d, from);
        assert(holding(states, from) =~= seq![states[k]]);
    } else {
        assert forall|i: int| 0 <= i < d.len() && i != k implies !covers(#[trigger] d[i].1, d[i].2, from) by {
            assert(d[i] == states[i]);
        }
        assert(d[k] == states[k]);
        lemma_holding_one(d, from, k);
        assert(holding(states, from) =~= seq![states[k]]);
    }
}

proof fn lemma_later_start(states: Seq<(NodeId, i64, Option<i64>)>, from: i64)
    ensures
        later_start(states, from) is None ==> forall|i: int| 0 <= i < states.len() ==> #[trigger] states[i].1 <= from,
        later_start(states, from) matches Some(n) ==> n > from && forall|i: int|
            0 <= i < states.len() && #[trigger] states[i].1 > from ==> n <= states[i].1,
    decreases states.len(),
{
    if states.len() > 0 {
        let d = states.drop_last();
        let n = states.len() - 1;
        lemma_later_start(d, from);
        assert(states.last() == states[n]);
        if later_start(states, from) is None {
            assert forall|i: int| 0 <= i < states.len() implies #[trigger] states[i].1 <= from by {
                if i < n {
                    assert(d[i] == states[i]);
                }
            }
        }
        if let Some(v) = later_start(states, from) {
            assert forall|i: int| 0 <= i < states.len() && #[trigger] states[i].1 > from implies v <= states[i].1 by {
                if i < n {
                    assert(d[i] == states[i]);
                }
            }
        }
    }
}

/// A span that does not hold `from` and starts no later holds only
/// instants before `from`.
proof fn lemma_before(s: i64, e: Option<i64>, from: i64, t: i64)
    requires
        s <= from,
        !covers(s, e, from),
        e matches Some(x) ==> x >= s,
        covers(s, e, t),
    ensures
        t < from,
{
}

/// Setting a state keeps the states of a key apart: when no two of the
/// valid spans of the states of one key (distinct Nodes, each span ending
/// no earlier than it starts) share an instant, no two share one once the
/// plan for any `from` is carried out.
pub proof fn law_set_keeps_states_apart(states: Seq<(NodeId, i64, Option<i64>)>, from: i64)
    requires
        all_apart(spans_of(states)),
        spans_ok(states),
        forall|i: int, j: int| 0 <= i < j < states.len() ==> #[trigger] states[i].0 != #[trigger] states[j].0,
    ensures
        all_apart(spans_after(states, from)),
{
    let sp = spans_of(states);
    let n = states.len();
    assert forall|i: int| 0 <= i < n implies #[trigger] sp[i] == (states[i].1, states[i].2) by {}
    lemma_later_start(states, from);
    if exists|k: int| 0 <= k < n && covers(states[k].1, states[k].2, from) {
        let k = choose|k: int| 0 <= k < n && covers(states[k].1, states[k].2, from);
        assert forall|i: int| 0 <= i < n && i != k implies !covers(#[trigger] states[i].1, states[i].2, from) by {
            if covers(states[i].1, states[i].2, from) {
                if i < k {
                    assert(apart(sp[i], sp[k]));
                } else {
                    assert(apart(sp[k], sp[i]));
                }
                assert(covers(sp[i].0, sp[i].1, from) && covers(sp[k].0, sp[k].1, from));
            }
        }
        lemma_holding_one(states, from, k);
        let h = states[k];
        if h.1 == from {
            assert(set_plan_spec(states, from) == (Seq::<NodeId>::empty(), Some(h.0), None::<i64>));
            let r = spans_after(states, from);
            assert(r =~= sp);
        } else {
            assert(cut_plan_spec(seq![h].drop_first(), from) == (Seq::<NodeId>::empty(), None::<NodeId>, None::<i64>));
            assert(seq![h].drop_first() =~= Seq::<(NodeId, i64, Option<i64>)>::empty());
            assert(set_plan_spec(states, from) == (seq![h.0], None::<NodeId>, h.2));
            lemma_apart_after_cut(states, from, k);
        }
    } else {
        lemma_holding_none(states, from);
        assert(set_plan_spec(states, from) == (Seq::<NodeId>::empty(), None::<NodeId>, later_start(states, from)));
        let r = spans_after(states, from);
        assert(r =~= sp.push((from, later_start(states, from))));
        assert forall|i: int, j: int| 0 <= i < j < r.len() implies apart(#[trigger] r[i], #[trigger] r[j]) by {
            if j == n {
                assert forall|t: i64| !(#[trigger] covers(r[i].0, r[i].1, t) && #[trigger] covers(r[j].0, r[j].1, t)) by {
                    if covers(r[i].0, r[i].1, t) && covers(r[j].0, r[j].1, t) {
                        assert(r[i] == (states[i].1, states[i].2));
                        assert(!covers(states[i].1, states[i].2, from));
                        if states[i].1 <= from {
                            lemma_before(states[i].1, states[i].2, from, t);
                        }
                    }
                }
            } else {
                assert(apart(sp[i], sp[j]));
            }
        }
    }
}

proof fn lemma_apart_after_cut(states: Seq<(NodeId, i64, Option<i64>)>, from: i64, k: int)
    requires
        0 <= k < states.len(),
        all_apart(spans_of(states)),
        spans_ok(states),
        forall|i: int, j: int| 0 <= i < j < states.len() ==> #[trigger] states[i].0 != #[trigger] states[j].0,
        covers(states[k].1, states[k].2, from),
        states[k].1 != from,
        forall|i: int| 0 <= i < states.len() && i != k ==> !covers(#[trigger] states[i].1, states[i].2, from),
        set_plan_spec(states, from) == (seq![states[k].0], None::<NodeId>, states[k].2),
    ensures
        all_apart(spans_after(states, from)),
{
    let sp = spans_of(states);
    let n = states.len();
    let h = states[k];
    let r = spans_after(states, from);
    assert(r.len() == n + 1);
    assert forall|x: int| 0 <= x < n implies #[trigger] r[x] == (if x == k {
        (h.1, Some(from))
    } else {
        sp[x]
    }) by {
        if x != k {
            if seq![h.0].contains(states[x].0) {
                assert(seq![h.0][0] == h.0);
                if x < k {
                    assert(states[x].0 != states[k].0);
                } else {
                    assert(states[k].0 != states[x].0);
                }
            }
        } else {
            assert(seq![h.0][0] == h.0);
        }
    }
    assert(r[n as int] == (from, h.2));
    assert forall|i: int, j: int| 0 <= i < j < r.len() implies apart(#[trigger] r[i], #[trigger] r[j]) by {
        assert forall|t: i64| !(#[trigger] covers(r[i].0, r[i].1, t) && #[trigger] covers(r[j].0, r[j].1, t)) by {
            if covers(r[i].0, r[i].1, t) && covers(r[j].0, r[j].1, t) {
                if j < n {
                    assert(apart(sp[i], sp[j]));
                    assert(covers(sp[i].0, sp[i].1, t));
                    assert(covers(sp[j].0, sp[j].1, t));
                } else if i == k {
                } else {
                    assert(!covers(states[i].1, states[i].2, from));
                    if states[i].1 <= from {
                        lemma_before(states[i].1, states[i].2, from, t);
                    } else {
                        let si = states[i].1;
                        assert(covers(si, states[i].2, si));
                        assert(sp[i] == (states[i].1, states[i].2));
                        assert(sp[k] == (h.1, h.2));
                        assert(covers(sp[i].0, sp[i].1, si));
                        if i < k {
                            assert(apart(sp[i], sp[k]));
                            assert(!(covers(sp[i].0, sp[i].1, si) && covers(sp[k].0, sp[k].1, si)));
                        } else {
                            assert(apart(sp[k], sp[i]));
                            assert(!(covers(sp[k].0, sp[k].1, si) && covers(sp[i].0, sp[i].1, si)));
                        }
                        assert(!covers(h.1, h.2, si));
                    }
                }
            }
        }
    }
}

fn object(members: Vec<(String, Json)>) -> (j: Json)
    ensures
        j@ == JsonV::Object(entries_view(members@)),
{
    Json::Object(members)
}

/// `{"name": name}`: a tree Node's attrs.
pub fn tree_attrs(name: &str) -> (j: Json)
    ensures
        j@ == JsonV::Object(seq![("name"@, JsonV::Str(name@))]),
{
    let members = vec![("name".to_owned(), Json::Str(name.to_owned()))];
    proof {
        lemma_entries_view(members@);
        assert(entries_view(members@) =~= seq![("name"@, JsonV::Str(name@))]);
    }
    object(members)
}

/// `{"what": what, "time": span}`: an event Node's attrs.
pub fn event_attrs(what: &str, time: &Span) -> (j: Json)
    ensures
        j@ == JsonV::Object(seq![("what"@, JsonV::Str(what@)), ("time"@, span_json(time.text_view(), time.start, time.end))]),
{
    let members = vec![("what".to_owned(), Json::Str(what.to_owned())), ("time".to_owned(), time.to_json())];
    proof {
        lemma_entries_view(members@);
        assert(entries_view(members@) =~= seq![("what"@, JsonV::Str(what@)), ("time"@, span_json(time.text_view(), time.start, time.end))]);
    }
    object(members)
}

/// `{"key": key, "value": value, "valid": span}`: a state Node's attrs.
pub fn state_attrs(key: &str, value: &Json, valid: &Span) -> (j: Json)
    ensures
        j@ == JsonV::Object(seq![("key"@, JsonV::Str(key@)), ("value"@, value@), ("valid"@, span_json(valid.text_view(), valid.start, valid.end))]),
{
    let members = vec![
        ("key".to_owned(), Json::Str(key.to_owned())),
        ("value".to_owned(), value.duplicate()),
        ("valid".to_owned(), valid.to_json()),
    ];
    proof {
        lemma_entries_view(members@);
        assert(entries_view(members@) =~= seq![("key"@, JsonV::Str(key@)), ("value"@, value@), ("valid"@, span_json(valid.text_view(), valid.start, valid.end))]);
    }
    object(members)
}

/// The patch that updates a state in place: a new summary and value.
pub fn in_place_patch(summary: &str, value: &Json) -> (j: Json)
    ensures
        j@ == JsonV::Object(seq![("summary"@, JsonV::Str(summary@)), ("attrs"@, JsonV::Object(seq![("value"@, value@)]))]),
{
    let inner = vec![("value".to_owned(), value.duplicate())];
    proof {
        lemma_entries_view(inner@);
        assert(entries_view(inner@) =~= seq![("value"@, value@)]);
    }
    let members = vec![("summary".to_owned(), Json::Str(summary.to_owned())), ("attrs".to_owned(), object(inner))];
    proof {
        lemma_entries_view(members@);
        assert(entries_view(members@) =~= seq![("summary"@, JsonV::Str(summary@)), ("attrs"@, JsonV::Object(seq![("value"@, value@)]))]);
    }
    object(members)
}

/// The patch that cuts a state at `from`: its valid span ends there.
pub fn cut_patch(from: i64) -> (j: Json)
    ensures
        j@ == JsonV::Object(seq![("attrs"@, JsonV::Object(seq![("valid"@, JsonV::Object(seq![("end"@, JsonV::Number(int_number(from)))]))]))]),
{
    let end = vec![("end".to_owned(), Json::Number(crate::json::Number { literal: crate::text::signed_decimal(from) }))];
    proof {
        lemma_entries_view(end@);
        assert(entries_view(end@) =~= seq![("end"@, JsonV::Number(int_number(from)))]);
    }
    let valid = vec![("valid".to_owned(), object(end))];
    proof {
        lemma_entries_view(valid@);
        assert(entries_view(valid@) =~= seq![("valid"@, JsonV::Object(seq![("end"@, JsonV::Number(int_number(from)))]))]);
    }
    let attrs = vec![("attrs".to_owned(), object(valid))];
    proof {
        lemma_entries_view(attrs@);
        assert(entries_view(attrs@) =~= seq![("attrs"@, JsonV::Object(seq![("valid"@, JsonV::Object(seq![("end"@, JsonV::Number(int_number(from)))]))]))]);
    }
    object(attrs)
}


/// The hop a history takes from its subject.
pub open spec fn history_hop(x: NodeId, key: Seq<char>, narrow: Option<PredicateV>) -> StepV {
    history_spec(x, key, narrow)->And_args[2]->Traverse_steps[0]
}

/// A state is found from its subject: setting state `st`'s `subject` to
/// `x` writes the link that the one hop of `x`'s history reads back as
/// `st`.
pub proof fn law_history_finds_state(st: NodeId, x: NodeId, key: Seq<char>, narrow: Option<PredicateV>)
    ensures
        link_of_spec(state_schema_spec(), "subject"@) matches Ok((r, d)) && history_hop(x, key, narrow).relation == r
            && (history_hop(x, key, narrow).min is None) && reads_link(history_hop(x, key, narrow).direction, x, ends(st, x, d))
            == Some(st),
{
    reveal_strlit("key");
    reveal_strlit("value");
    reveal_strlit("valid");
    reveal_strlit("subject");
    let fs = state_schema_spec().fields;
    assert("key"@.len() != "subject"@.len() && "value"@.len() != "subject"@.len() && "valid"@.len()
        != "subject"@.len());
    assert(field_index(fs, "subject"@) == 3) by {
        reveal_with_fuel(field_index, 5);
        assert(fs.drop_first().drop_first().drop_first()[0] == fs[3]);
    }
}

} // verus!
