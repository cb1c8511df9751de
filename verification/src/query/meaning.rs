//! What a predicate means: set operations on what the store holds.
//!
//! Every predicate selects a set of Nodes, and `and`, `or` and `not` are
//! intersection, union and complement within the live Nodes; a traversal
//! goes from the Nodes of its start through each step in turn. When every
//! read an evaluation asks for is answered with what the store holds, the
//! evaluation ends with exactly the Nodes the predicate means, within the
//! candidates: the order in which an AND evaluates its operands, the
//! narrowing of each to the survivors of the ones before, and the
//! candidates a traversal pushes into its last hop change nothing.

use super::eval::{all_of, law_and_narrowing, narrow, within};
use super::evaluation::{
    negate, repeat_of, run, run_and, run_or, run_step, run_steps, step_candidates, AnswerV, Outcome, RequestV,
};
use super::plan::{lemma_place_bound, operand_order, place};
use super::reads::{read_spec, ReadV};
use crate::model::links::Direction;
use crate::model::predicate::{PredicateV, StepV};
use vstd::prelude::*;

verus! {

/// What a store holds, as far as an evaluation reads it: its live Nodes,
/// the Nodes each index read finds, the Nodes one hop of a relation away
/// from others, the Nodes repeated hops reach, and the estimates it gives
/// the operands of an AND.
pub struct Truth {
    pub live: Set<u32>,
    pub found: spec_fn(ReadV) -> Set<u32>,
    pub expanded: spec_fn(Set<u32>, Seq<char>, Direction) -> Set<u32>,
    pub walked: spec_fn(Set<u32>, Seq<char>, Direction, u32, Option<u32>) -> Set<u32>,
    pub estimates: spec_fn(Seq<PredicateV>) -> Seq<u64>,
}

impl Truth {
    /// Reads and hops only find live Nodes.
    pub open spec fn wf(self) -> bool {
        &&& forall|r: ReadV| #[trigger] (self.found)(r).subset_of(self.live)
        &&& forall|s: Set<u32>, r: Seq<char>, d: Direction| #[trigger] (self.expanded)(s, r, d).subset_of(
            self.live,
        )
        &&& forall|s: Set<u32>, r: Seq<char>, d: Direction, lo: u32, hi: Option<u32>| #[trigger] (
        self.walked)(s, r, d, lo, hi).subset_of(self.live)
    }
}

/// The Nodes `p` selects in the store `t`.
pub open spec fn meaning(p: PredicateV, t: Truth) -> Set<u32>
    decreases p, 0nat,
{
    match p {
        PredicateV::All => t.live,
        PredicateV::Ids { ids } => t.live.intersect(ids.to_set()),
        PredicateV::And { args } => if args.len() == 0 {
            t.live
        } else {
            meet(args, 0, t)
        },
        PredicateV::Or { args } => join(args, 0, t),
        PredicateV::Not { arg } => t.live.difference(meaning(*arg, t)),
        PredicateV::Traverse { from, steps } => steps_meaning(steps, 0, meaning(*from, t), t),
        _ => match read_spec(p) {
            Some(r) => (t.found)(r),
            None => Set::empty(),
        },
    }
}

/// The Nodes the steps from `i` on reach from `cur`; none once a step
/// reaches none.
pub open spec fn steps_meaning(steps: Seq<StepV>, i: nat, cur: Set<u32>, t: Truth) -> Set<u32>
    decreases steps, steps.len() - i,
{
    if i >= steps.len() {
        cur
    } else {
        let next = step_meaning(steps[i as int], cur, t);
        if next == Set::<u32>::empty() {
            next
        } else {
            steps_meaning(steps, i + 1, next, t)
        }
    }
}

/// The Nodes one step reaches from `cur`: one hop, or the Nodes repeated
/// hops reach, that its filter selects.
pub open spec fn step_meaning(s: StepV, cur: Set<u32>, t: Truth) -> Set<u32>
    decreases s, 0nat,
{
    let base = match repeat_of(s) {
        None => (t.expanded)(cur, s.relation, s.direction),
        Some((lo, hi)) => (t.walked)(cur, s.relation, s.direction, lo, hi),
    };
    match s.filter {
        Some(f) => base.intersect(meaning(f, t)),
        None => base,
    }
}

/// The Nodes every predicate of `args` from `i` on selects.
pub open spec fn meet(args: Seq<PredicateV>, i: nat, t: Truth) -> Set<u32>
    decreases args, args.len() - i,
{
    if i >= args.len() {
        Set::full()
    } else {
        meaning(args[i as int], t).intersect(meet(args, i + 1, t))
    }
}

/// The Nodes some predicate of `args` from `i` on selects.
pub open spec fn join(args: Seq<PredicateV>, i: nat, t: Truth) -> Set<u32>
    decreases args, args.len() - i,
{
    if i >= args.len() {
        Set::empty()
    } else {
        meaning(args[i as int], t).union(join(args, i + 1, t))
    }
}

/// The answer the store `t` gives to a read.
pub open spec fn answer(r: RequestV, t: Truth) -> AnswerV {
    match r {
        RequestV::Live => AnswerV::Nodes(t.live),
        RequestV::LiveAmong(s) => AnswerV::Nodes(t.live.intersect(s)),
        RequestV::Read(rv, c) => AnswerV::Nodes(within((t.found)(rv), c)),
        RequestV::Estimates(args) => AnswerV::Estimates((t.estimates)(args)),
        RequestV::Expand(s, r, d, targets) => AnswerV::Nodes(within((t.expanded)(s, r, d), targets)),
        RequestV::Walk(s, r, d, lo, hi) => AnswerV::Nodes((t.walked)(s, r, d, lo, hi)),
    }
}

/// The answers the store gives, in order, to the reads an evaluation of
/// `p` inside `c` asks for.
pub open spec fn answers(p: PredicateV, c: Option<Set<u32>>, t: Truth) -> Seq<AnswerV>
    decreases p, 0nat,
{
    if c == Some(Set::<u32>::empty()) {
        seq![]
    } else {
        match p {
            PredicateV::All => match c {
                Some(_) => seq![],
                None => seq![answer(RequestV::Live, t)],
            },
            PredicateV::Ids { ids } => seq![answer(RequestV::LiveAmong(within(ids.to_set(), c)), t)],
            PredicateV::And { args } => seq![AnswerV::Estimates((t.estimates)(args))] + answers_and(
                args,
                operand_order((t.estimates)(args), args.len()),
                0,
                c,
                t,
            ),
            PredicateV::Or { args } => answers_or(args, 0, c, t),
            PredicateV::Not { arg } => match c {
                Some(b) => answers(*arg, Some(b), t),
                None => seq![answer(RequestV::Live, t)] + answers(*arg, Some(t.live), t),
            },
            PredicateV::Traverse { from, steps } => answers(*from, None, t) + answers_steps(
                steps,
                0,
                c,
                meaning(*from, t),
                t,
            ),
            _ => match read_spec(p) {
                Some(r) => seq![answer(RequestV::Read(r, c), t)],
                None => seq![],
            },
        }
    }
}

pub open spec fn answers_steps(
    steps: Seq<StepV>,
    i: nat,
    c: Option<Set<u32>>,
    cur: Set<u32>,
    t: Truth,
) -> Seq<AnswerV>
    decreases steps, steps.len() - i,
{
    if i >= steps.len() {
        seq![]
    } else {
        let tc = step_candidates(steps, i, c);
        let next = within(step_meaning(steps[i as int], cur, t), tc);
        answers_step(steps[i as int], tc, cur, t) + if next == Set::<u32>::empty() {
            seq![]
        } else {
            answers_steps(steps, i + 1, c, next, t)
        }
    }
}

pub open spec fn answers_step(s: StepV, tc: Option<Set<u32>>, cur: Set<u32>, t: Truth) -> Seq<AnswerV>
    decreases s, 0nat,
{
    match repeat_of(s) {
        None => match s.filter {
            Some(f) => answers(f, tc, t) + seq![
                answer(RequestV::Expand(cur, s.relation, s.direction, Some(within(meaning(f, t), tc))), t),
            ],
            None => seq![answer(RequestV::Expand(cur, s.relation, s.direction, tc), t)],
        },
        Some((lo, hi)) => seq![answer(RequestV::Walk(cur, s.relation, s.direction, lo, hi), t)]
            + match s.filter {
            Some(f) => answers(
                f,
                Some(within((t.walked)(cur, s.relation, s.direction, lo, hi), tc)),
                t,
            ),
            None => seq![],
        },
    }
}

pub open spec fn answers_or(args: Seq<PredicateV>, i: nat, c: Option<Set<u32>>, t: Truth) -> Seq<AnswerV>
    decreases args, args.len() - i,
{
    if i >= args.len() {
        seq![]
    } else {
        answers(args[i as int], c, t) + answers_or(args, i + 1, c, t)
    }
}

pub open spec fn answers_and(
    args: Seq<PredicateV>,
    order: Seq<usize>,
    k: nat,
    cur: Option<Set<u32>>,
    t: Truth,
) -> Seq<AnswerV>
    decreases args, order.len() - k,
{
    if k >= order.len() {
        match cur {
            Some(_) => seq![],
            None => seq![answer(RequestV::Live, t)],
        }
    } else if order[k as int] >= args.len() {
        seq![]
    } else {
        let a = args[order[k as int] as int];
        let v = within(meaning(a, t), cur);
        answers(a, cur, t) + if v == Set::<u32>::empty() {
            seq![]
        } else {
            answers_and(args, order, k + 1, Some(v), t)
        }
    }
}

/// `log` holds the answers `a` from `pos` on.
pub open spec fn holds(log: Seq<AnswerV>, pos: nat, a: Seq<AnswerV>) -> bool {
    pos + a.len() <= log.len() && log.subrange(pos as int, (pos + a.len()) as int) == a
}

proof fn lemma_holds_split(log: Seq<AnswerV>, pos: nat, a: Seq<AnswerV>, b: Seq<AnswerV>)
    requires
        holds(log, pos, a + b),
    ensures
        holds(log, pos, a),
        holds(log, pos + a.len(), b),
{
    let whole = log.subrange(pos as int, (pos + a.len() + b.len()) as int);
    assert(whole == a + b);
    assert(log.subrange(pos as int, (pos + a.len()) as int) =~= whole.subrange(0, a.len() as int));
    assert((a + b).subrange(0, a.len() as int) =~= a);
    assert(log.subrange((pos + a.len()) as int, (pos + a.len() + b.len()) as int) =~= whole.subrange(
        a.len() as int,
        (a.len() + b.len()) as int,
    ));
    assert((a + b).subrange(a.len() as int, (a.len() + b.len()) as int) =~= b);
}

proof fn lemma_holds_first(log: Seq<AnswerV>, pos: nat, a: Seq<AnswerV>)
    requires
        holds(log, pos, a),
        a.len() > 0,
    ensures
        pos < log.len(),
        log[pos as int] == a[0],
{
    assert(log[pos as int] == log.subrange(pos as int, (pos + a.len()) as int)[0]);
}

/// What `p` selects lies among the live Nodes.
pub proof fn lemma_meaning_live(p: PredicateV, t: Truth)
    requires
        t.wf(),
    ensures
        meaning(p, t).subset_of(t.live),
    decreases p, 0nat,
{
    match p {
        PredicateV::And { args } => {
            if args.len() > 0 {
                lemma_meet_live(args, 0, t);
            }
        },
        PredicateV::Or { args } => {
            lemma_join_live(args, 0, t);
        },
        PredicateV::Traverse { from, steps } => {
            lemma_meaning_live(*from, t);
            lemma_steps_meaning_live(steps, 0, meaning(*from, t), t);
        },
        PredicateV::All => {},
        PredicateV::Ids { .. } => {},
        PredicateV::Not { .. } => {},
        _ => {
            if let Some(r) = read_spec(p) {
                assert((t.found)(r).subset_of(t.live));
            }
        },
    }
}

proof fn lemma_step_meaning_live(s: StepV, cur: Set<u32>, t: Truth)
    requires
        t.wf(),
    ensures
        step_meaning(s, cur, t).subset_of(t.live),
{
    match repeat_of(s) {
        None => {
            assert((t.expanded)(cur, s.relation, s.direction).subset_of(t.live));
        },
        Some((lo, hi)) => {
            assert((t.walked)(cur, s.relation, s.direction, lo, hi).subset_of(t.live));
        },
    }
}

proof fn lemma_steps_meaning_live(steps: Seq<StepV>, i: nat, cur: Set<u32>, t: Truth)
    requires
        t.wf(),
        cur.subset_of(t.live),
    ensures
        steps_meaning(steps, i, cur, t).subset_of(t.live),
    decreases steps.len() - i,
{
    if i < steps.len() {
        let next = step_meaning(steps[i as int], cur, t);
        lemma_step_meaning_live(steps[i as int], cur, t);
        if next != Set::<u32>::empty() {
            lemma_steps_meaning_live(steps, i + 1, next, t);
        }
    }
}

proof fn lemma_meet_live(args: Seq<PredicateV>, i: nat, t: Truth)
    requires
        t.wf(),
        i < args.len(),
    ensures
        meet(args, i, t).subset_of(t.live),
    decreases args, args.len() - i,
{
    lemma_meaning_live(args[i as int], t);
}

proof fn lemma_join_live(args: Seq<PredicateV>, i: nat, t: Truth)
    requires
        t.wf(),
    ensures
        join(args, i, t).subset_of(t.live),
    decreases args, args.len() - i,
{
    if i < args.len() {
        lemma_meaning_live(args[i as int], t);
        lemma_join_live(args, i + 1, t);
    }
}

/// Every AND in `p` has at most as many operands as a `Vec` can hold.
pub open spec fn bounded(p: PredicateV) -> bool
    decreases p,
{
    match p {
        PredicateV::And { args } => args.len() <= usize::MAX && all_bounded(args),
        PredicateV::Or { args } => all_bounded(args),
        PredicateV::Not { arg } => bounded(*arg),
        PredicateV::Traverse { from, steps } => bounded(*from) && steps_bounded(steps),
        _ => true,
    }
}

pub open spec fn steps_bounded(steps: Seq<StepV>) -> bool
    decreases steps,
{
    steps.len() == 0 || (steps_bounded(steps.drop_last()) && filter_bounded(steps.last()))
}

pub open spec fn filter_bounded(s: StepV) -> bool
    decreases s,
{
    match s.filter {
        Some(f) => bounded(f),
        None => true,
    }
}

pub proof fn lemma_steps_bounded(steps: Seq<StepV>)
    ensures
        steps_bounded(steps) <==> forall|i: int| 0 <= i < steps.len() ==> #[trigger] filter_bounded(steps[i]),
    decreases steps.len(),
{
    if steps.len() > 0 {
        let d = steps.drop_last();
        lemma_steps_bounded(d);
        assert(steps_bounded(steps) == (steps_bounded(d) && filter_bounded(steps.last())));
        assert(steps.last() == steps[steps.len() - 1]);
        if forall|i: int| 0 <= i < steps.len() ==> #[trigger] filter_bounded(steps[i]) {
            assert forall|i: int| 0 <= i < d.len() implies #[trigger] filter_bounded(d[i]) by {
                assert(d[i] == steps[i]);
            }
        }
        if steps_bounded(steps) {
            assert forall|i: int| 0 <= i < steps.len() implies #[trigger] filter_bounded(steps[i]) by {
                if i < steps.len() - 1 {
                    assert(d[i] == steps[i]);
                }
            }
        }
    }
}

pub open spec fn all_bounded(args: Seq<PredicateV>) -> bool
    decreases args,
{
    args.len() == 0 || (all_bounded(args.drop_last()) && bounded(args.last()))
}

pub proof fn lemma_all_bounded(args: Seq<PredicateV>)
    ensures
        all_bounded(args) <==> forall|i: int| 0 <= i < args.len() ==> #[trigger] bounded(args[i]),
    decreases args.len(),
{
    if args.len() > 0 {
        let d = args.drop_last();
        lemma_all_bounded(d);
        assert(all_bounded(args) == (all_bounded(d) && bounded(args.last())));
        assert(args.last() == args[args.len() - 1]);
        if forall|i: int| 0 <= i < args.len() ==> #[trigger] bounded(args[i]) {
            assert forall|i: int| 0 <= i < d.len() implies #[trigger] bounded(d[i]) by {
                assert(d[i] == args[i]);
            }
        }
        if all_bounded(args) {
            assert forall|i: int| 0 <= i < args.len() implies #[trigger] bounded(args[i]) by {
                if i < args.len() - 1 {
                    assert(d[i] == args[i]);
                }
            }
        }
    }
}

/// Evaluating `p` inside `c` with the store's answers from `pos` on ends
/// with the Nodes `p` selects within `c`, after exactly those answers.
#[verifier::spinoff_prover]
proof fn lemma_truthful(p: PredicateV, c: Option<Set<u32>>, t: Truth, log: Seq<AnswerV>, pos: nat)
    requires
        t.wf(),
        bounded(p),
        c matches Some(x) ==> x.subset_of(t.live),
        holds(log, pos, answers(p, c, t)),
    ensures
        run(p, c, log, pos) == Outcome::Value(within(meaning(p, t), c), pos + answers(p, c, t).len()),
    decreases p, 1nat,
{
    let a = answers(p, c, t);
    if c == Some(Set::<u32>::empty()) {
        assert(within(meaning(p, t), c) =~= Set::<u32>::empty());
    } else {
        match p {
            PredicateV::All => {
                if let Some(x) = c {
                    assert(within(meaning(p, t), c) =~= x);
                } else {
                    lemma_holds_first(log, pos, a);
                }
            },
            PredicateV::Ids { ids } => {
                lemma_holds_first(log, pos, a);
                assert(within(meaning(p, t), c) =~= within(t.live.intersect(within(ids.to_set(), c)), None));
            },
            PredicateV::And { .. } => {
                lemma_truthful_and_start(p, c, t, log, pos);
            },
            PredicateV::Or { args } => {
                lemma_all_bounded(args);
                lemma_truthful_or(args, 0, c, Set::empty(), t, log, pos);
                assert(Set::<u32>::empty().union(join(args, 0, t)) =~= join(args, 0, t));
            },
            PredicateV::Not { .. } => {
                lemma_truthful_not(p, c, t, log, pos);
            },
            PredicateV::Traverse { .. } => {
                lemma_truthful_trav(p, c, t, log, pos);
            },
            _ => {
                if let Some(r) = read_spec(p) {
                    lemma_holds_first(log, pos, a);
                    let f = (t.found)(r);
                    assert(within(within(f, c), c) =~= within(f, c));
                } else {
                    assert(within(Set::<u32>::empty(), c) =~= Set::<u32>::empty());
                }
            },
        }
    }
}

#[verifier::spinoff_prover]
proof fn lemma_truthful_trav(p: PredicateV, c: Option<Set<u32>>, t: Truth, log: Seq<AnswerV>, pos: nat)
    requires
        p is Traverse,
        t.wf(),
        bounded(p),
        c matches Some(x) ==> x.subset_of(t.live),
        c != Some(Set::<u32>::empty()),
        holds(log, pos, answers(p, c, t)),
    ensures
        run(p, c, log, pos) == Outcome::Value(within(meaning(p, t), c), pos + answers(p, c, t).len()),
    decreases p, 0nat,
{
    let from = *p->Traverse_from;
    let steps = p->Traverse_steps;
    let m = meaning(from, t);
    let first = answers(from, None, t);
    let rest = answers_steps(steps, 0, c, m, t);
    assert(answers(p, c, t) == first + rest);
    lemma_holds_split(log, pos, first, rest);
    lemma_truthful(from, None, t, log, pos);
    lemma_meaning_live(from, t);
    lemma_steps_bounded(steps);
    lemma_truthful_steps(steps, 0, c, m, t, log, pos + first.len());
    assert(run(p, c, log, pos) == run_steps(steps, 0, c, m, log, pos + first.len()));
}

#[verifier::rlimit(100)]
#[verifier::spinoff_prover]
proof fn lemma_truthful_steps(
    steps: Seq<StepV>,
    i: nat,
    c: Option<Set<u32>>,
    cur: Set<u32>,
    t: Truth,
    log: Seq<AnswerV>,
    pos: nat,
)
    requires
        t.wf(),
        forall|j: int| 0 <= j < steps.len() ==> #[trigger] filter_bounded(steps[j]),
        c matches Some(x) ==> x.subset_of(t.live),
        cur.subset_of(t.live),
        holds(log, pos, answers_steps(steps, i, c, cur, t)),
    ensures
        run_steps(steps, i, c, cur, log, pos) == Outcome::Value(
            within(steps_meaning(steps, i, cur, t), c),
            pos + answers_steps(steps, i, c, cur, t).len(),
        ),
    decreases steps, steps.len() - i,
{
    if i < steps.len() {
        let s = steps[i as int];
        let tc = step_candidates(steps, i, c);
        let sm = step_meaning(s, cur, t);
        let next = within(sm, tc);
        let first = answers_step(s, tc, cur, t);
        let rest = if next == Set::<u32>::empty() {
            seq![]
        } else {
            answers_steps(steps, i + 1, c, next, t)
        };
        assert(answers_steps(steps, i, c, cur, t) == first + rest);
        lemma_holds_split(log, pos, first, rest);
        lemma_truthful_step(s, tc, cur, t, log, pos);
        lemma_step_meaning_live(s, cur, t);
        let q = pos + first.len();
        assert(run_steps(steps, i, c, cur, log, pos) == if next == Set::<u32>::empty() {
            Outcome::Value(next, q)
        } else {
            run_steps(steps, i + 1, c, next, log, q)
        });
        let whole = steps_meaning(steps, i, cur, t);
        assert(whole == if sm == Set::<u32>::empty() {
            sm
        } else {
            steps_meaning(steps, i + 1, sm, t)
        });
        if i + 1 == steps.len() {
            assert(tc == c);
            assert(steps_meaning(steps, i + 1, sm, t) == sm);
            assert(steps_meaning(steps, i + 1, next, t) == next);
            assert(within(sm, c) =~= within(within(sm, c), c));
            if next != Set::<u32>::empty() {
                lemma_truthful_steps(steps, i + 1, c, next, t, log, q);
            }
            if sm == Set::<u32>::empty() {
                assert(within(sm, c) =~= sm);
            }
        } else {
            assert(tc is None);
            assert(next == sm);
            if next != Set::<u32>::empty() {
                lemma_truthful_steps(steps, i + 1, c, next, t, log, q);
            } else {
                assert(within(sm, c) =~= sm);
            }
        }
    }
}

#[verifier::spinoff_prover]
proof fn lemma_truthful_step(s: StepV, tc: Option<Set<u32>>, cur: Set<u32>, t: Truth, log: Seq<AnswerV>, pos: nat)
    requires
        t.wf(),
        filter_bounded(s),
        tc matches Some(x) ==> x.subset_of(t.live),
        holds(log, pos, answers_step(s, tc, cur, t)),
    ensures
        run_step(s, tc, cur, log, pos) == Outcome::Value(
            within(step_meaning(s, cur, t), tc),
            pos + answers_step(s, tc, cur, t).len(),
        ),
    decreases s, 0nat,
{
    let a = answers_step(s, tc, cur, t);
    match repeat_of(s) {
        None => {
            let base = (t.expanded)(cur, s.relation, s.direction);
            match s.filter {
                Some(f) => {
                    let mf = within(meaning(f, t), tc);
                    let first = answers(f, tc, t);
                    let last = seq![answer(RequestV::Expand(cur, s.relation, s.direction, Some(mf)), t)];
                    assert(a == first + last);
                    lemma_holds_split(log, pos, first, last);
                    lemma_truthful(f, tc, t, log, pos);
                    lemma_holds_first(log, pos + first.len(), last);
                    assert(within(base, Some(mf)) =~= within(base.intersect(meaning(f, t)), tc));
                },
                None => {
                    lemma_holds_first(log, pos, a);
                },
            }
        },
        Some((lo, hi)) => {
            let w = (t.walked)(cur, s.relation, s.direction, lo, hi);
            let first = seq![answer(RequestV::Walk(cur, s.relation, s.direction, lo, hi), t)];
            let rest = match s.filter {
                Some(f) => answers(f, Some(within(w, tc)), t),
                None => seq![],
            };
            assert(a == first + rest);
            lemma_holds_split(log, pos, first, rest);
            lemma_holds_first(log, pos, first);
            match s.filter {
                Some(f) => {
                    assert(w.subset_of(t.live));
                    lemma_truthful(f, Some(within(w, tc)), t, log, pos + 1);
                    assert(within(meaning(f, t), Some(within(w, tc))) =~= within(w.intersect(meaning(f, t)), tc));
                },
                None => {},
            }
        },
    }
}

#[verifier::spinoff_prover]
proof fn lemma_truthful_not(p: PredicateV, c: Option<Set<u32>>, t: Truth, log: Seq<AnswerV>, pos: nat)
    requires
        p is Not,
        t.wf(),
        bounded(p),
        c matches Some(x) ==> x.subset_of(t.live),
        c != Some(Set::<u32>::empty()),
        holds(log, pos, answers(p, c, t)),
    ensures
        run(p, c, log, pos) == Outcome::Value(within(meaning(p, t), c), pos + answers(p, c, t).len()),
    decreases p, 0nat,
{
    let arg = *p->Not_arg;
    let m = meaning(arg, t);
    assert(meaning(p, t) == t.live.difference(m));
    match c {
        Some(b) => {
            assert(answers(p, c, t) == answers(arg, Some(b), t));
            assert(run(p, c, log, pos) == negate(arg, b, log, pos));
            lemma_not_inside(arg, b, t, log, pos);
            assert(b.difference(m) =~= t.live.difference(m).intersect(b));
        },
        None => {
            let first = seq![answer(RequestV::Live, t)];
            let rest = answers(arg, Some(t.live), t);
            assert(answers(p, c, t) == first + rest);
            lemma_holds_split(log, pos, first, rest);
            lemma_holds_first(log, pos, first);
            assert(run(p, c, log, pos) == negate(arg, t.live, log, pos + 1));
            lemma_not_inside(arg, t.live, t, log, pos + 1);
        },
    }
}

#[verifier::spinoff_prover]
proof fn lemma_not_inside(arg: PredicateV, b: Set<u32>, t: Truth, log: Seq<AnswerV>, pos: nat)
    requires
        t.wf(),
        bounded(arg),
        b.subset_of(t.live),
        holds(log, pos, answers(arg, Some(b), t)),
    ensures
        negate(arg, b, log, pos) == Outcome::Value(
            b.difference(meaning(arg, t)),
            pos + answers(arg, Some(b), t).len(),
        ),
    decreases arg, 2nat,
{
    lemma_truthful(arg, Some(b), t, log, pos);
    let m = meaning(arg, t);
    assert(b.difference(m.intersect(b)) =~= b.difference(m));
}

#[verifier::spinoff_prover]
proof fn lemma_truthful_and_start(p: PredicateV, c: Option<Set<u32>>, t: Truth, log: Seq<AnswerV>, pos: nat)
    requires
        p is And,
        t.wf(),
        bounded(p),
        c matches Some(x) ==> x.subset_of(t.live),
        c != Some(Set::<u32>::empty()),
        holds(log, pos, answers(p, c, t)),
    ensures
        run(p, c, log, pos) == Outcome::Value(within(meaning(p, t), c), pos + answers(p, c, t).len()),
    decreases p, 0nat,
{
    let args = p->And_args;
    let a = answers(p, c, t);
    let e = (t.estimates)(args);
    let order = operand_order(e, args.len());
    let first = seq![AnswerV::Estimates(e)];
    let rest = answers_and(args, order, 0, c, t);
    assert(a == first + rest);
    lemma_holds_split(log, pos, first, rest);
    lemma_holds_first(log, pos, first);
    lemma_all_bounded(args);
    lemma_order_covers(e, args.len());
    lemma_truthful_and(args, order, 0, c, t, log, pos + 1);
    lemma_and_value(args, e, c, t);
    assert(run(p, c, log, pos) == run_and(args, order, 0, c, log, pos + 1));
}

#[verifier::spinoff_prover]
proof fn lemma_truthful_or(
    args: Seq<PredicateV>,
    i: nat,
    c: Option<Set<u32>>,
    acc: Set<u32>,
    t: Truth,
    log: Seq<AnswerV>,
    pos: nat,
)
    requires
        t.wf(),
        forall|j: int| 0 <= j < args.len() ==> #[trigger] bounded(args[j]),
        c matches Some(x) ==> x.subset_of(t.live),
        holds(log, pos, answers_or(args, i, c, t)),
    ensures
        run_or(args, i, c, acc, log, pos) == Outcome::Value(
            within(acc.union(join(args, i, t)), c),
            pos + answers_or(args, i, c, t).len(),
        ),
    decreases args, args.len() - i,
{
    if i >= args.len() {
        assert(acc.union(join(args, i, t)) =~= acc);
    } else {
        let first = answers(args[i as int], c, t);
        let rest = answers_or(args, i + 1, c, t);
        lemma_holds_split(log, pos, first, rest);
        lemma_truthful(args[i as int], c, t, log, pos);
        let m = meaning(args[i as int], t);
        let acc2 = acc.union(within(m, c));
        lemma_truthful_or(args, i + 1, c, acc2, t, log, pos + first.len());
        assert(within(acc2.union(join(args, i + 1, t)), c) =~= within(acc.union(join(args, i, t)), c));
    }
}

/// The value of an AND at position `k` of its order, inside the survivors
/// `cur`, when every operand selects what it means.
pub open spec fn and_value(
    args: Seq<PredicateV>,
    order: Seq<usize>,
    k: nat,
    cur: Option<Set<u32>>,
    t: Truth,
) -> Set<u32>
    decreases order.len() - k,
{
    if k >= order.len() {
        match cur {
            Some(x) => x,
            None => t.live,
        }
    } else if order[k as int] >= args.len() {
        Set::empty()
    } else {
        let v = within(meaning(args[order[k as int] as int], t), cur);
        if v == Set::<u32>::empty() {
            v
        } else {
            and_value(args, order, k + 1, Some(v), t)
        }
    }
}

#[verifier::spinoff_prover]
proof fn lemma_truthful_and(
    args: Seq<PredicateV>,
    order: Seq<usize>,
    k: nat,
    cur: Option<Set<u32>>,
    t: Truth,
    log: Seq<AnswerV>,
    pos: nat,
)
    requires
        t.wf(),
        forall|j: int| 0 <= j < args.len() ==> #[trigger] bounded(args[j]),
        cur matches Some(x) ==> x.subset_of(t.live),
        holds(log, pos, answers_and(args, order, k, cur, t)),
    ensures
        run_and(args, order, k, cur, log, pos) == Outcome::Value(
            and_value(args, order, k, cur, t),
            pos + answers_and(args, order, k, cur, t).len(),
        ),
    decreases args, order.len() - k,
{
    let all = answers_and(args, order, k, cur, t);
    if k >= order.len() {
        if cur is None {
            lemma_holds_first(log, pos, all);
        }
    } else if order[k as int] < args.len() {
        let a = args[order[k as int] as int];
        let v = within(meaning(a, t), cur);
        let first = answers(a, cur, t);
        let rest = if v == Set::<u32>::empty() {
            seq![]
        } else {
            answers_and(args, order, k + 1, Some(v), t)
        };
        assert(all == first + rest);
        lemma_holds_split(log, pos, first, rest);
        lemma_truthful(a, cur, t, log, pos);
        if v != Set::<u32>::empty() {
            lemma_meaning_live(a, t);
            lemma_truthful_and(args, order, k + 1, Some(v), t, log, pos + first.len());
        } else {
            assert(rest.len() == 0);
        }
    }
}

/// The evaluation order of an AND is an order of all its operands.
pub proof fn lemma_order_covers(e: Seq<u64>, n: nat)
    ensures
        operand_order(e, n).len() == n,
        forall|k: int| 0 <= k < n ==> #[trigger] operand_order(e, n)[k] < n,
        forall|i: usize| i < n ==> #[trigger] operand_order(e, n).contains(i),
    decreases n,
{
    if n > 0 {
        let m = (n - 1) as nat;
        lemma_order_covers(e, m);
        let before = operand_order(e, m);
        let at = place(e, before, m as usize);
        lemma_place_bound(e, before, m as usize);
        before.insert_ensures(at as int, m as usize);
        let o = operand_order(e, n);
        assert(o == before.insert(at as int, m as usize));
        assert forall|k: int| 0 <= k < n implies #[trigger] o[k] < n by {
            if k < at {
                assert(o[k] == before[k]);
            } else if k > at {
                assert(o[k] == before[k - 1]);
            }
        }
        assert forall|i: usize| i < n implies #[trigger] o.contains(i) by {
            if i == m {
                assert(o[at as int] == i);
            } else {
                assert(before.contains(i));
                let j = choose|j: int| 0 <= j < before.len() && before[j] == i;
                if j < at {
                    assert(o[j] == i);
                } else {
                    assert(o[j + 1] == i);
                }
            }
        }
    }
}

/// What each operand selects, in evaluation order.
pub open spec fn in_order(args: Seq<PredicateV>, order: Seq<usize>, t: Truth) -> Seq<Set<u32>> {
    Seq::new(order.len(), |j: int| meaning(args[order[j] as int], t))
}

proof fn lemma_and_narrow(args: Seq<PredicateV>, order: Seq<usize>, k: nat, cur: Option<Set<u32>>, t: Truth)
    requires
        forall|j: int| 0 <= j < order.len() ==> #[trigger] order[j] < args.len(),
        k <= order.len(),
    ensures
        and_value(args, order, k, cur, t) == match narrow(cur, in_order(args, order, t).skip(k as int)) {
            Some(x) => x,
            None => t.live,
        },
    decreases order.len() - k,
{
    let fs = in_order(args, order, t);
    let rest = fs.skip(k as int);
    if k < order.len() {
        assert(rest[0] == fs[k as int]);
        assert(rest.drop_first() =~= fs.skip(k + 1 as int));
        let next = within(rest[0], cur);
        if next != Set::<u32>::empty() {
            lemma_and_narrow(args, order, k + 1, Some(next), t);
        }
    } else {
        assert(rest.len() == 0);
    }
}

proof fn lemma_all_of_member(start: Option<Set<u32>>, fs: Seq<Set<u32>>, x: u32)
    ensures
        all_of(start, fs).contains(x) == ((match start {
            Some(s) => s.contains(x),
            None => true,
        }) && forall|j: int| 0 <= j < fs.len() ==> #[trigger] fs[j].contains(x)),
    decreases fs.len(),
{
    if fs.len() > 0 {
        let d = fs.drop_last();
        lemma_all_of_member(start, d, x);
        assert(all_of(start, fs) == all_of(start, d).intersect(fs.last()));
        assert(fs.last() == fs[fs.len() - 1]);
        if all_of(start, fs).contains(x) {
            assert forall|j: int| 0 <= j < fs.len() implies #[trigger] fs[j].contains(x) by {
                if j < fs.len() - 1 {
                    assert(d[j] == fs[j]);
                }
            }
        }
        if forall|j: int| 0 <= j < fs.len() ==> #[trigger] fs[j].contains(x) {
            assert forall|j: int| 0 <= j < d.len() implies #[trigger] d[j].contains(x) by {
                assert(d[j] == fs[j]);
            }
        }
    }
}

proof fn lemma_meet_member(args: Seq<PredicateV>, i: nat, t: Truth, x: u32)
    ensures
        meet(args, i, t).contains(x) == forall|j: int|
            i <= j < args.len() ==> #[trigger] meaning(args[j], t).contains(x),
    decreases args.len() - i,
{
    if i < args.len() {
        lemma_meet_member(args, i + 1, t, x);
        assert(meet(args, i, t) == meaning(args[i as int], t).intersect(meet(args, i + 1, t)));
        if meet(args, i, t).contains(x) {
            assert forall|j: int| i <= j < args.len() implies #[trigger] meaning(args[j], t).contains(x) by {
                if j > i {
                    assert(meet(args, i + 1, t).contains(x));
                }
            }
        }
    }
}

proof fn lemma_in_order_member(args: Seq<PredicateV>, order: Seq<usize>, t: Truth, x: u32)
    requires
        args.len() <= usize::MAX,
        order.len() == args.len(),
        forall|k: int| 0 <= k < args.len() ==> #[trigger] order[k] < args.len(),
        forall|i: usize| i < args.len() ==> #[trigger] order.contains(i),
    ensures
        (forall|j: int| 0 <= j < order.len() ==> #[trigger] in_order(args, order, t)[j].contains(x))
            == (forall|i: int| 0 <= i < args.len() ==> #[trigger] meaning(args[i], t).contains(x)),
{
    let fs = in_order(args, order, t);
    if forall|j: int| 0 <= j < order.len() ==> #[trigger] fs[j].contains(x) {
        assert forall|i: int| 0 <= i < args.len() implies #[trigger] meaning(args[i], t).contains(x) by {
            assert(order.contains(i as usize));
            let k = choose|k: int| 0 <= k < order.len() && order[k] == i as usize;
            assert(fs[k].contains(x));
        }
    }
    if forall|i: int| 0 <= i < args.len() ==> #[trigger] meaning(args[i], t).contains(x) {
        assert forall|j: int| 0 <= j < order.len() implies #[trigger] fs[j].contains(x) by {
            assert(order[j] < args.len());
            assert(meaning(args[order[j] as int], t).contains(x));
        }
    }
}

proof fn lemma_and_value(args: Seq<PredicateV>, e: Seq<u64>, c: Option<Set<u32>>, t: Truth)
    requires
        args.len() <= usize::MAX,
        t.wf(),
        c matches Some(x) ==> x.subset_of(t.live),
    ensures
        and_value(args, operand_order(e, args.len()), 0, c, t) == within(
            meaning(PredicateV::And { args }, t),
            c,
        ),
{
    let n = args.len();
    let order = operand_order(e, n);
    lemma_order_covers(e, n);
    if n == 0 {
        assert(meaning(PredicateV::And { args }, t) == t.live);
        if let Some(x) = c {
            assert(within(t.live, c) =~= x);
        }
    } else {
        assert(meaning(PredicateV::And { args }, t) == meet(args, 0, t));
        let fs = in_order(args, order, t);
        lemma_and_narrow(args, order, 0, c, t);
        assert(fs.skip(0) =~= fs);
        law_and_narrowing(c, fs);
        assert(and_value(args, order, 0, c, t) == all_of(c, fs));
        assert forall|x: u32| #[trigger] all_of(c, fs).contains(x) == within(meet(args, 0, t), c).contains(x) by {
            lemma_all_of_member(c, fs, x);
            lemma_meet_member(args, 0, t, x);
            lemma_in_order_member(args, order, t, x);
        }
        assert(all_of(c, fs) =~= within(meet(args, 0, t), c));
    }
}

proof fn lemma_take_concat(x: Seq<AnswerV>, y: Seq<AnswerV>, k: int)
    requires
        0 <= k <= x.len() + y.len(),
    ensures
        k <= x.len() ==> (x + y).take(k) == x.take(k),
        k >= x.len() ==> (x + y).take(k) == x + y.take(k - x.len()),
{
    if k <= x.len() {
        assert((x + y).take(k) =~= x.take(k));
    }
    if k >= x.len() {
        assert((x + y).take(k) =~= x + y.take(k - x.len()));
    }
}

/// With the first `k` of the store's answers given, the evaluation asks
/// for the read whose answer comes next.
#[verifier::spinoff_prover]
proof fn lemma_asks(p: PredicateV, c: Option<Set<u32>>, t: Truth, log: Seq<AnswerV>, pos: nat, k: nat)
    requires
        t.wf(),
        bounded(p),
        c matches Some(x) ==> x.subset_of(t.live),
        k < answers(p, c, t).len(),
        holds(log, pos, answers(p, c, t).take(k as int)),
        log.len() == pos + k,
    ensures
        run(p, c, log, pos) matches Outcome::Ask(r) && answers(p, c, t)[k as int] == answer(r, t),
    decreases p, 1nat,
{
    if c != Some(Set::<u32>::empty()) {
        match p {
            PredicateV::And { .. } => {
                lemma_asks_and_start(p, c, t, log, pos, k);
            },
            PredicateV::Or { args } => {
                lemma_all_bounded(args);
                lemma_asks_or(args, 0, c, Set::empty(), t, log, pos, k);
            },
            PredicateV::Not { .. } => {
                lemma_asks_not(p, c, t, log, pos, k);
            },
            PredicateV::Traverse { .. } => {
                lemma_asks_trav(p, c, t, log, pos, k);
            },
            _ => {
                lemma_asks_single(p, c, t, log, pos, k);
            },
        }
    }
}

#[verifier::spinoff_prover]
proof fn lemma_asks_single(p: PredicateV, c: Option<Set<u32>>, t: Truth, log: Seq<AnswerV>, pos: nat, k: nat)
    requires
        !(p is And || p is Or || p is Not || p is Traverse),
        c != Some(Set::<u32>::empty()),
        k < answers(p, c, t).len(),
        log.len() == pos + k,
    ensures
        run(p, c, log, pos) matches Outcome::Ask(r) && answers(p, c, t)[k as int] == answer(r, t),
{
    assert(answers(p, c, t).len() <= 1);
    assert(k == 0);
    assert(!(pos < log.len()));
}

#[verifier::spinoff_prover]
proof fn lemma_asks_not(p: PredicateV, c: Option<Set<u32>>, t: Truth, log: Seq<AnswerV>, pos: nat, k: nat)
    requires
        p is Not,
        t.wf(),
        bounded(p),
        c matches Some(x) ==> x.subset_of(t.live),
        c != Some(Set::<u32>::empty()),
        k < answers(p, c, t).len(),
        holds(log, pos, answers(p, c, t).take(k as int)),
        log.len() == pos + k,
    ensures
        run(p, c, log, pos) matches Outcome::Ask(r) && answers(p, c, t)[k as int] == answer(r, t),
    decreases p, 0nat,
{
    let arg = *p->Not_arg;
    let a = answers(p, c, t);
    match c {
        Some(b) => {
            assert(a == answers(arg, Some(b), t));
            assert(run(p, c, log, pos) == negate(arg, b, log, pos));
            lemma_asks_negate(arg, b, t, log, pos, k);
        },
        None => {
            let first = seq![answer(RequestV::Live, t)];
            let rest = answers(arg, Some(t.live), t);
            assert(a == first + rest);
            if k > 0 {
                lemma_take_concat(first, rest, k as int);
                lemma_holds_split(log, pos, first, rest.take(k - 1));
                lemma_holds_first(log, pos, first);
                assert(run(p, c, log, pos) == negate(arg, t.live, log, pos + 1));
                lemma_asks_negate(arg, t.live, t, log, pos + 1, (k - 1) as nat);
            } else {
                assert(run(p, c, log, pos) == Outcome::Ask(RequestV::Live));
            }
        },
    }
}

#[verifier::spinoff_prover]
proof fn lemma_asks_negate(arg: PredicateV, b: Set<u32>, t: Truth, log: Seq<AnswerV>, pos: nat, k: nat)
    requires
        t.wf(),
        bounded(arg),
        b.subset_of(t.live),
        k < answers(arg, Some(b), t).len(),
        holds(log, pos, answers(arg, Some(b), t).take(k as int)),
        log.len() == pos + k,
    ensures
        negate(arg, b, log, pos) matches Outcome::Ask(r) && answers(arg, Some(b), t)[k as int] == answer(r, t),
    decreases arg, 2nat,
{
    lemma_asks(arg, Some(b), t, log, pos, k);
}

#[verifier::spinoff_prover]
proof fn lemma_asks_trav(p: PredicateV, c: Option<Set<u32>>, t: Truth, log: Seq<AnswerV>, pos: nat, k: nat)
    requires
        p is Traverse,
        t.wf(),
        bounded(p),
        c matches Some(x) ==> x.subset_of(t.live),
        c != Some(Set::<u32>::empty()),
        k < answers(p, c, t).len(),
        holds(log, pos, answers(p, c, t).take(k as int)),
        log.len() == pos + k,
    ensures
        run(p, c, log, pos) matches Outcome::Ask(r) && answers(p, c, t)[k as int] == answer(r, t),
    decreases p, 0nat,
{
    let from = *p->Traverse_from;
    let steps = p->Traverse_steps;
    let m = meaning(from, t);
    let first = answers(from, None, t);
    let rest = answers_steps(steps, 0, c, m, t);
    assert(answers(p, c, t) == first + rest);
    lemma_take_concat(first, rest, k as int);
    if k < first.len() {
        lemma_asks(from, None, t, log, pos, k);
    } else {
        lemma_holds_split(log, pos, first, rest.take(k - first.len()));
        lemma_truthful(from, None, t, log, pos);
        lemma_meaning_live(from, t);
        lemma_steps_bounded(steps);
        assert(run(p, c, log, pos) == run_steps(steps, 0, c, m, log, pos + first.len()));
        lemma_asks_steps(steps, 0, c, m, t, log, pos + first.len(), (k - first.len()) as nat);
    }
}

#[verifier::spinoff_prover]
proof fn lemma_asks_steps(
    steps: Seq<StepV>,
    i: nat,
    c: Option<Set<u32>>,
    cur: Set<u32>,
    t: Truth,
    log: Seq<AnswerV>,
    pos: nat,
    k: nat,
)
    requires
        t.wf(),
        forall|j: int| 0 <= j < steps.len() ==> #[trigger] filter_bounded(steps[j]),
        c matches Some(x) ==> x.subset_of(t.live),
        cur.subset_of(t.live),
        k < answers_steps(steps, i, c, cur, t).len(),
        holds(log, pos, answers_steps(steps, i, c, cur, t).take(k as int)),
        log.len() == pos + k,
    ensures
        run_steps(steps, i, c, cur, log, pos) matches Outcome::Ask(r) && answers_steps(steps, i, c, cur, t)[k as int]
            == answer(r, t),
    decreases steps, steps.len() - i,
{
    if i < steps.len() {
        let s = steps[i as int];
        let tc = step_candidates(steps, i, c);
        let next = within(step_meaning(s, cur, t), tc);
        let first = answers_step(s, tc, cur, t);
        let rest = if next == Set::<u32>::empty() {
            seq![]
        } else {
            answers_steps(steps, i + 1, c, next, t)
        };
        assert(answers_steps(steps, i, c, cur, t) == first + rest);
        lemma_take_concat(first, rest, k as int);
        if k < first.len() {
            lemma_asks_step(s, tc, cur, t, log, pos, k);
        } else {
            lemma_holds_split(log, pos, first, rest.take(k - first.len()));
            lemma_truthful_step(s, tc, cur, t, log, pos);
            lemma_step_meaning_live(s, cur, t);
            lemma_asks_steps(steps, i + 1, c, next, t, log, pos + first.len(), (k - first.len()) as nat);
        }
    }
}

#[verifier::spinoff_prover]
proof fn lemma_asks_step(s: StepV, tc: Option<Set<u32>>, cur: Set<u32>, t: Truth, log: Seq<AnswerV>, pos: nat, k: nat)
    requires
        t.wf(),
        filter_bounded(s),
        tc matches Some(x) ==> x.subset_of(t.live),
        k < answers_step(s, tc, cur, t).len(),
        holds(log, pos, answers_step(s, tc, cur, t).take(k as int)),
        log.len() == pos + k,
    ensures
        run_step(s, tc, cur, log, pos) matches Outcome::Ask(r) && answers_step(s, tc, cur, t)[k as int] == answer(r, t),
    decreases s, 0nat,
{
    let a = answers_step(s, tc, cur, t);
    match repeat_of(s) {
        None => match s.filter {
            Some(f) => {
                let mf = within(meaning(f, t), tc);
                let first = answers(f, tc, t);
                let last = seq![answer(RequestV::Expand(cur, s.relation, s.direction, Some(mf)), t)];
                assert(a == first + last);
                lemma_take_concat(first, last, k as int);
                if k < first.len() {
                    lemma_asks(f, tc, t, log, pos, k);
                } else {
                    assert(first.len() == k);
                    lemma_holds_split(log, pos, first, last.take(0));
                    lemma_truthful(f, tc, t, log, pos);
                }
            },
            None => {},
        },
        Some((lo, hi)) => {
            let w = (t.walked)(cur, s.relation, s.direction, lo, hi);
            let first = seq![answer(RequestV::Walk(cur, s.relation, s.direction, lo, hi), t)];
            let rest = match s.filter {
                Some(f) => answers(f, Some(within(w, tc)), t),
                None => seq![],
            };
            assert(a == first + rest);
            if k > 0 {
                lemma_take_concat(first, rest, k as int);
                lemma_holds_split(log, pos, first, rest.take(k - 1));
                lemma_holds_first(log, pos, first);
                match s.filter {
                    Some(f) => {
                        assert(w.subset_of(t.live));
                        lemma_asks(f, Some(within(w, tc)), t, log, pos + 1, (k - 1) as nat);
                    },
                    None => {},
                }
            }
        },
    }
}

#[verifier::spinoff_prover]
proof fn lemma_asks_and_start(p: PredicateV, c: Option<Set<u32>>, t: Truth, log: Seq<AnswerV>, pos: nat, k: nat)
    requires
        p is And,
        t.wf(),
        bounded(p),
        c matches Some(x) ==> x.subset_of(t.live),
        c != Some(Set::<u32>::empty()),
        k < answers(p, c, t).len(),
        holds(log, pos, answers(p, c, t).take(k as int)),
        log.len() == pos + k,
    ensures
        run(p, c, log, pos) matches Outcome::Ask(r) && answers(p, c, t)[k as int] == answer(r, t),
    decreases p, 0nat,
{
    let args = p->And_args;
    let a = answers(p, c, t);
    let e = (t.estimates)(args);
    let order = operand_order(e, args.len());
    if k > 0 {
        let first = seq![AnswerV::Estimates(e)];
        let rest = answers_and(args, order, 0, c, t);
        assert(a == first + rest);
        lemma_take_concat(first, rest, k as int);
        lemma_holds_split(log, pos, first, rest.take(k - 1));
        lemma_holds_first(log, pos, first);
        lemma_all_bounded(args);
        lemma_order_covers(e, args.len());
        lemma_asks_and(args, order, 0, c, t, log, pos + 1, (k - 1) as nat);
        assert(run(p, c, log, pos) == run_and(args, order, 0, c, log, pos + 1));
    }
}

#[verifier::spinoff_prover]
proof fn lemma_asks_or(
    args: Seq<PredicateV>,
    i: nat,
    c: Option<Set<u32>>,
    acc: Set<u32>,
    t: Truth,
    log: Seq<AnswerV>,
    pos: nat,
    k: nat,
)
    requires
        t.wf(),
        forall|j: int| 0 <= j < args.len() ==> #[trigger] bounded(args[j]),
        c matches Some(x) ==> x.subset_of(t.live),
        k < answers_or(args, i, c, t).len(),
        holds(log, pos, answers_or(args, i, c, t).take(k as int)),
        log.len() == pos + k,
    ensures
        run_or(args, i, c, acc, log, pos) matches Outcome::Ask(r) && answers_or(args, i, c, t)[k as int]
            == answer(r, t),
    decreases args, args.len() - i,
{
    let first = answers(args[i as int], c, t);
    let rest = answers_or(args, i + 1, c, t);
    assert(answers_or(args, i, c, t) == first + rest);
    lemma_take_concat(first, rest, k as int);
    if k < first.len() {
        lemma_asks(args[i as int], c, t, log, pos, k);
    } else {
        lemma_holds_split(log, pos, first, rest.take(k - first.len()));
        lemma_truthful(args[i as int], c, t, log, pos);
        let m = meaning(args[i as int], t);
        lemma_asks_or(args, i + 1, c, acc.union(within(m, c)), t, log, pos + first.len(), (k - first.len()) as nat);
    }
}

#[verifier::spinoff_prover]
proof fn lemma_asks_and(
    args: Seq<PredicateV>,
    order: Seq<usize>,
    j: nat,
    cur: Option<Set<u32>>,
    t: Truth,
    log: Seq<AnswerV>,
    pos: nat,
    k: nat,
)
    requires
        t.wf(),
        forall|i: int| 0 <= i < args.len() ==> #[trigger] bounded(args[i]),
        cur matches Some(x) ==> x.subset_of(t.live),
        k < answers_and(args, order, j, cur, t).len(),
        holds(log, pos, answers_and(args, order, j, cur, t).take(k as int)),
        log.len() == pos + k,
    ensures
        run_and(args, order, j, cur, log, pos) matches Outcome::Ask(r) && answers_and(
            args,
            order,
            j,
            cur,
            t,
        )[k as int] == answer(r, t),
    decreases args, order.len() - j,
{
    if j < order.len() && order[j as int] < args.len() {
        let a = args[order[j as int] as int];
        let v = within(meaning(a, t), cur);
        let first = answers(a, cur, t);
        let rest = if v == Set::<u32>::empty() {
            seq![]
        } else {
            answers_and(args, order, j + 1, Some(v), t)
        };
        assert(answers_and(args, order, j, cur, t) == first + rest);
        lemma_take_concat(first, rest, k as int);
        if k < first.len() {
            lemma_asks(a, cur, t, log, pos, k);
        } else {
            lemma_holds_split(log, pos, first, rest.take(k - first.len()));
            lemma_truthful(a, cur, t, log, pos);
            lemma_meaning_live(a, t);
            lemma_asks_and(args, order, j + 1, Some(v), t, log, pos + first.len(), (k - first.len()) as nat);
        }
    }
}

/// Answered with what the store holds, an evaluation of `p` inside the
/// candidates asks, one after the other, for the reads whose answers are
/// `answers(p, c, t)`, and then ends with exactly the Nodes `p` selects,
/// within the candidates: `and`, `or` and `not` are intersection, union
/// and complement within the live Nodes, a traversal reaches what its
/// steps reach, and neither the estimates that order an AND nor the
/// narrowing to candidates changes the result. (`bounded`: no AND has more
/// operands than a `Vec` can hold.)
pub proof fn law_evaluation_meaning(p: PredicateV, c: Option<Set<u32>>, t: Truth)
    requires
        t.wf(),
        bounded(p),
        c matches Some(x) ==> x.subset_of(t.live),
    ensures
        forall|k: int|
            0 <= k < answers(p, c, t).len() ==> (run(p, c, #[trigger] answers(p, c, t).take(k), 0) matches Outcome::Ask(r)
                && answers(p, c, t)[k] == answer(r, t)),
        run(p, c, answers(p, c, t), 0) == Outcome::Value(
            within(meaning(p, t), c),
            answers(p, c, t).len(),
        ),
{
    let a = answers(p, c, t);
    assert(a.subrange(0, a.len() as int) =~= a);
    lemma_truthful(p, c, t, a, 0);
    assert forall|k: int|
        0 <= k < a.len() implies (run(p, c, #[trigger] a.take(k), 0) matches Outcome::Ask(r) && a[k] == answer(r, t)) by {
        let l = a.take(k);
        assert(l.subrange(0, k) =~= a.take(k).take(k));
        assert(a.take(k).take(k) =~= a.take(k));
        lemma_asks(p, c, t, l, 0, k as nat);
    }
}

} // verus!
