//! Evaluating a predicate one index read at a time.
//!
//! `Evaluation` walks the predicate tree and stops at each read it needs;
//! the caller performs the read and hands the answer back. What the
//! evaluation has done is fixed by the answers it was given: after them it
//! stands where `run` says, and once nothing is left to read its value is
//! the value `run` gives the predicate.

use super::eval::{complement, nothing_to_find, restrict, within, AndRun};
use super::plan::operand_order;
use super::reads::{read_of, read_spec, Read, ReadV};
use super::validate::{
    args_check, args_wf, filter_wf, lemma_args, lemma_steps, pred_check, pred_wf, step_check, steps_check, steps_wf,
};
use crate::bitmap::{copy_set, empty_set, ids_of, insert_id, no_ids, union_with};
use crate::model::links::Direction;
use crate::model::predicate::{
    lemma_predicates_view, lemma_steps_view, predicates_view, steps_view, Predicate, PredicateV, Step,
    StepV,
};
use roaring::RoaringBitmap;
use vstd::prelude::*;

verus! {

/// An answer handed back to an evaluation: the Nodes a read found, or the
/// size estimates of the operands of an AND.
pub enum AnswerV {
    Nodes(Set<u32>),
    Estimates(Seq<u64>),
}

/// A read an evaluation asks for.
pub enum RequestV {
    /// Every live Node.
    Live,
    /// The live Nodes among these.
    LiveAmong(Set<u32>),
    /// One index read, inside the candidates when given.
    Read(ReadV, Option<Set<u32>>),
    /// A size estimate of each operand of an AND.
    Estimates(Seq<PredicateV>),
    /// The Nodes one hop of `relation` away from the sources in
    /// `direction`, among the targets when given.
    Expand(Set<u32>, Seq<char>, Direction, Option<Set<u32>>),
    /// The Nodes whose shortest number of hops of `relation` from the start
    /// Nodes in `direction` lies between a least and an optional most.
    Walk(Set<u32>, Seq<char>, Direction, u32, Option<u32>),
}

/// Where an evaluation stands: it asks for a read, or it has its value
/// after reading the answers before a position.
pub enum Outcome {
    Ask(RequestV),
    Value(Set<u32>, nat),
}

/// The Nodes of an answer.
pub open spec fn nodes_of(a: AnswerV) -> Set<u32> {
    match a {
        AnswerV::Nodes(s) => s,
        AnswerV::Estimates(_) => Set::empty(),
    }
}

/// The estimates of an answer.
pub open spec fn estimates_of(a: AnswerV) -> Seq<u64> {
    match a {
        AnswerV::Estimates(e) => e,
        AnswerV::Nodes(_) => Seq::empty(),
    }
}

/// The Nodes of the answer at `pos`.
pub open spec fn nodes_at(log: Seq<AnswerV>, pos: nat) -> Set<u32> {
    nodes_of(log[pos as int])
}

/// The estimates of the answer at `pos`.
pub open spec fn estimates_at(log: Seq<AnswerV>, pos: nat) -> Seq<u64> {
    estimates_of(log[pos as int])
}

/// Asks for `r` at `pos`; once answered, the Nodes of the answer within
/// `cand`.
pub open spec fn read_at(r: RequestV, cand: Option<Set<u32>>, log: Seq<AnswerV>, pos: nat) -> Outcome {
    if pos < log.len() {
        Outcome::Value(within(nodes_at(log, pos), cand), pos + 1)
    } else {
        Outcome::Ask(r)
    }
}

/// Evaluating `p` inside the candidates `cand`, reading the answers of `log`
/// from `pos` on. An empty candidate set selects nothing; a NOT takes away
/// what its operand selects inside the candidates (every live Node when
/// there are none); an OR joins its operands; an AND evaluates its operands
/// smallest estimate first, each inside the survivors of the ones before,
/// and stops once nothing survives.
pub open spec fn run(p: PredicateV, cand: Option<Set<u32>>, log: Seq<AnswerV>, pos: nat) -> Outcome
    decreases p, 0nat,
{
    if cand == Some(Set::<u32>::empty()) {
        Outcome::Value(Set::empty(), pos)
    } else {
        match p {
            PredicateV::All => match cand {
                Some(c) => Outcome::Value(c, pos),
                None => read_at(RequestV::Live, None, log, pos),
            },
            PredicateV::Ids { ids } => read_at(
                RequestV::LiveAmong(within(ids.to_set(), cand)),
                None,
                log,
                pos,
            ),
            PredicateV::And { args } => if pos < log.len() {
                run_and(args, operand_order(estimates_at(log, pos), args.len()), 0, cand, log, pos + 1)
            } else {
                Outcome::Ask(RequestV::Estimates(args))
            },
            PredicateV::Or { args } => run_or(args, 0, cand, Set::empty(), log, pos),
            PredicateV::Not { arg } => match cand {
                Some(c) => negate(*arg, c, log, pos),
                None => if pos < log.len() {
                    negate(*arg, nodes_at(log, pos), log, pos + 1)
                } else {
                    Outcome::Ask(RequestV::Live)
                },
            },
            PredicateV::Traverse { from, steps } => match run(*from, None, log, pos) {
                Outcome::Ask(r) => Outcome::Ask(r),
                Outcome::Value(v, q) => run_steps(steps, 0, cand, v, log, q),
            },
            _ => match read_spec(p) {
                Some(r) => read_at(RequestV::Read(r, cand), cand, log, pos),
                None => Outcome::Value(Set::empty(), pos),
            },
        }
    }
}

/// The Nodes of `base` that `arg` does not select inside `base`.
pub open spec fn negate(arg: PredicateV, base: Set<u32>, log: Seq<AnswerV>, pos: nat) -> Outcome
    decreases arg, 1nat,
{
    match run(arg, Some(base), log, pos) {
        Outcome::Ask(r) => Outcome::Ask(r),
        Outcome::Value(v, q) => Outcome::Value(base.difference(v), q),
    }
}

/// The OR of the operands from `i` on, joined to `acc`, within `cand`.
pub open spec fn run_or(
    args: Seq<PredicateV>,
    i: nat,
    cand: Option<Set<u32>>,
    acc: Set<u32>,
    log: Seq<AnswerV>,
    pos: nat,
) -> Outcome
    decreases args, args.len() - i,
{
    if i >= args.len() {
        Outcome::Value(within(acc, cand), pos)
    } else {
        match run(args[i as int], cand, log, pos) {
            Outcome::Ask(r) => Outcome::Ask(r),
            Outcome::Value(v, q) => run_or(args, i + 1, cand, acc.union(v), log, q),
        }
    }
}

/// The AND of the operands at positions `k` on of `order`, inside the
/// survivors `cur` (every live Node when there are none).
pub open spec fn run_and(
    args: Seq<PredicateV>,
    order: Seq<usize>,
    k: nat,
    cur: Option<Set<u32>>,
    log: Seq<AnswerV>,
    pos: nat,
) -> Outcome
    decreases args, order.len() - k,
{
    if k >= order.len() {
        match cur {
            Some(c) => Outcome::Value(c, pos),
            None => read_at(RequestV::Live, None, log, pos),
        }
    } else if order[k as int] >= args.len() {
        Outcome::Value(Set::empty(), pos)
    } else {
        match run(args[order[k as int] as int], cur, log, pos) {
            Outcome::Ask(r) => Outcome::Ask(r),
            Outcome::Value(v, q) => if v == Set::<u32>::empty() {
                Outcome::Value(v, q)
            } else {
                run_and(args, order, k + 1, Some(v), log, q)
            },
        }
    }
}

/// The hops of a step repeat: its least and most number of hops.
pub open spec fn repeat_of(s: StepV) -> Option<(u32, Option<u32>)> {
    if s.min is Some || s.max is Some {
        Some(
            (
                match s.min {
                    Some(m) => m,
                    None => 1u32,
                },
                s.max,
            ),
        )
    } else {
        None
    }
}

/// The candidates a traversal pushes into step `i`: its own, at the last
/// step only.
pub open spec fn step_candidates(steps: Seq<StepV>, i: nat, cand: Option<Set<u32>>) -> Option<Set<u32>> {
    if i + 1 == steps.len() {
        cand
    } else {
        None
    }
}

/// A traversal from the Nodes `cur` through the steps from `i` on, within
/// `cand`; it stops once no Node is reached.
pub open spec fn run_steps(
    steps: Seq<StepV>,
    i: nat,
    cand: Option<Set<u32>>,
    cur: Set<u32>,
    log: Seq<AnswerV>,
    pos: nat,
) -> Outcome
    decreases steps, steps.len() - i,
{
    if i >= steps.len() {
        Outcome::Value(within(cur, cand), pos)
    } else {
        match run_step(steps[i as int], step_candidates(steps, i, cand), cur, log, pos) {
            Outcome::Ask(r) => Outcome::Ask(r),
            Outcome::Value(next, q) => if next == Set::<u32>::empty() {
                Outcome::Value(next, q)
            } else {
                run_steps(steps, i + 1, cand, next, log, q)
            },
        }
    }
}

/// One step from the Nodes `cur`, among the targets `tc` when given: one
/// hop to the Nodes its filter selects, or repeated hops whose reached
/// Nodes its filter narrows.
pub open spec fn run_step(s: StepV, tc: Option<Set<u32>>, cur: Set<u32>, log: Seq<AnswerV>, pos: nat) -> Outcome
    decreases s, 0nat,
{
    match repeat_of(s) {
        None => match s.filter {
            Some(f) => match run(f, tc, log, pos) {
                Outcome::Ask(r) => Outcome::Ask(r),
                Outcome::Value(t, q) => read_at(
                    RequestV::Expand(cur, s.relation, s.direction, Some(t)),
                    None,
                    log,
                    q,
                ),
            },
            None => read_at(RequestV::Expand(cur, s.relation, s.direction, tc), None, log, pos),
        },
        Some((min, max)) => if pos < log.len() {
            let reached = within(nodes_at(log, pos), tc);
            match s.filter {
                Some(f) => run(f, Some(reached), log, pos + 1),
                None => Outcome::Value(reached, pos + 1),
            }
        } else {
            Outcome::Ask(RequestV::Walk(cur, s.relation, s.direction, min, max))
        },
    }
}

/// Every leaf of the predicate can be read: it passed checking.
pub open spec fn readable(p: PredicateV) -> bool
    decreases p,
{
    match p {
        PredicateV::And { args } => all_readable(args),
        PredicateV::Or { args } => all_readable(args),
        PredicateV::Not { arg } => readable(*arg),
        PredicateV::Traverse { from, steps } => readable(*from) && steps_readable(steps),
        _ => leaf_readable(p),
    }
}

/// The filter of every step can be read.
pub open spec fn steps_readable(steps: Seq<StepV>) -> bool
    decreases steps,
{
    steps.len() == 0 || (steps_readable(steps.drop_last()) && filter_readable(steps.last()))
}

/// The filter of the step, if any, can be read.
pub open spec fn filter_readable(s: StepV) -> bool
    decreases s,
{
    match s.filter {
        Some(f) => readable(f),
        None => true,
    }
}

pub proof fn lemma_steps_readable(steps: Seq<StepV>)
    ensures
        steps_readable(steps) <==> forall|i: int| 0 <= i < steps.len() ==> #[trigger] filter_readable(steps[i]),
    decreases steps.len(),
{
    if steps.len() > 0 {
        let d = steps.drop_last();
        lemma_steps_readable(d);
        assert(steps_readable(steps) == (steps_readable(d) && filter_readable(steps.last())));
        assert(steps.last() == steps[steps.len() - 1]);
        if forall|i: int| 0 <= i < steps.len() ==> #[trigger] filter_readable(steps[i]) {
            assert forall|i: int| 0 <= i < d.len() implies #[trigger] filter_readable(d[i]) by {
                assert(d[i] == steps[i]);
            }
        }
        if steps_readable(steps) {
            assert forall|i: int| 0 <= i < steps.len() implies #[trigger] filter_readable(steps[i]) by {
                if i < steps.len() - 1 {
                    assert(d[i] == steps[i]);
                }
            }
        }
    }
}

/// A leaf can be read: it passed checking on its own.
#[verifier::opaque]
pub open spec fn leaf_readable(p: PredicateV) -> bool {
    pred_wf(p) && pred_check(p, 0) is Ok
}

/// Every predicate of the list can be read.
pub open spec fn all_readable(args: Seq<PredicateV>) -> bool
    decreases args,
{
    args.len() == 0 || (all_readable(args.drop_last()) && readable(args.last()))
}

pub proof fn lemma_all_readable(args: Seq<PredicateV>)
    ensures
        all_readable(args) <==> forall|i: int| 0 <= i < args.len() ==> #[trigger] readable(args[i]),
    decreases args.len(),
{
    if args.len() > 0 {
        let d = args.drop_last();
        lemma_all_readable(d);
        assert(all_readable(args) == (all_readable(d) && readable(args.last())));
        assert(args.last() == args[args.len() - 1]);
        if forall|i: int| 0 <= i < args.len() ==> #[trigger] readable(args[i]) {
            assert forall|i: int| 0 <= i < d.len() implies #[trigger] readable(d[i]) by {
                assert(d[i] == args[i]);
            }
        }
        if all_readable(args) {
            assert forall|i: int| 0 <= i < args.len() implies #[trigger] readable(args[i]) by {
                if i < args.len() - 1 {
                    assert(d[i] == args[i]);
                }
            }
        }
    }
}

proof fn lemma_args_pass(args: Seq<PredicateV>, depth: nat)
    requires
        args_check(args, depth) is Ok,
    ensures
        forall|i: int| 0 <= i < args.len() ==> #[trigger] pred_check(args[i], depth) is Ok,
    decreases args.len(),
{
    if args.len() > 0 {
        let d = args.drop_last();
        lemma_args_pass(d, depth);
        assert forall|i: int| 0 <= i < args.len() implies #[trigger] pred_check(args[i], depth) is Ok by {
            if i < args.len() - 1 {
                assert(d[i] == args[i]);
            }
        }
    }
}

proof fn lemma_leaf_depth(p: PredicateV, depth: nat)
    requires
        pred_check(p, depth) is Ok,
        !(p is And || p is Or || p is Not || p is Traverse),
    ensures
        pred_check(p, 0) is Ok,
{
}

proof fn lemma_not_parts(p: PredicateV, depth: nat)
    requires
        p is Not,
        pred_wf(p),
        pred_check(p, depth) is Ok,
    ensures
        pred_wf(*p->Not_arg),
        pred_check(*p->Not_arg, depth + 1) is Ok,
{
}

proof fn lemma_list_parts(p: PredicateV, depth: nat)
    requires
        p is And || p is Or,
        pred_wf(p),
        pred_check(p, depth) is Ok,
    ensures
        p is And ==> args_wf(p->And_args) && args_check(p->And_args, depth + 1) is Ok,
        p is Or ==> args_wf(p->Or_args) && args_check(p->Or_args, depth + 1) is Ok,
{
}

/// A predicate that checking accepts at any nesting can be read.
pub proof fn lemma_checked_readable(p: PredicateV, depth: nat)
    requires
        pred_wf(p),
        pred_check(p, depth) is Ok,
    ensures
        readable(p),
    decreases p,
{
    match p {
        PredicateV::Not { arg } => {
            lemma_not_parts(p, depth);
            lemma_checked_readable(*arg, depth + 1);
        },
        PredicateV::Traverse { from, steps } => {
            lemma_trav_parts(p, depth);
            lemma_checked_readable(*from, depth + 1);
            lemma_steps_checked_readable(steps, depth + 1);
        },
        PredicateV::And { args } => {
            lemma_list_parts(p, depth);
            lemma_args_readable(args, depth + 1);
        },
        PredicateV::Or { args } => {
            lemma_list_parts(p, depth);
            lemma_args_readable(args, depth + 1);
        },
        _ => {
            lemma_leaf_depth(p, depth);
            reveal(leaf_readable);
        },
    }
}

proof fn lemma_trav_parts(p: PredicateV, depth: nat)
    requires
        p is Traverse,
        pred_wf(p),
        pred_check(p, depth) is Ok,
    ensures
        pred_wf(*p->Traverse_from),
        pred_check(*p->Traverse_from, depth + 1) is Ok,
        steps_wf(p->Traverse_steps),
        steps_check(p->Traverse_steps, depth + 1) is Ok,
{
}

proof fn lemma_steps_pass(steps: Seq<StepV>, depth: nat)
    requires
        steps_check(steps, depth) is Ok,
    ensures
        forall|i: int| 0 <= i < steps.len() ==> #[trigger] step_check(steps[i], depth) is Ok,
    decreases steps.len(),
{
    if steps.len() > 0 {
        let d = steps.drop_last();
        lemma_steps_pass(d, depth);
        assert forall|i: int| 0 <= i < steps.len() implies #[trigger] step_check(steps[i], depth) is Ok by {
            if i < steps.len() - 1 {
                assert(d[i] == steps[i]);
            }
        }
    }
}

proof fn lemma_step_checked_readable(s: StepV, depth: nat)
    requires
        filter_wf(s),
        step_check(s, depth) is Ok,
    ensures
        filter_readable(s),
    decreases s,
{
    match s.filter {
        Some(f) => {
            lemma_checked_readable(f, depth);
        },
        None => {},
    }
}

proof fn lemma_steps_checked_readable(steps: Seq<StepV>, depth: nat)
    requires
        steps_wf(steps),
        steps_check(steps, depth) is Ok,
    ensures
        steps_readable(steps),
    decreases steps,
{
    lemma_steps_pass(steps, depth);
    lemma_steps(steps);
    assert forall|i: int| 0 <= i < steps.len() implies #[trigger] filter_readable(steps[i]) by {
        lemma_step_checked_readable(steps[i], depth);
    }
    lemma_steps_readable(steps);
}

proof fn lemma_args_readable(args: Seq<PredicateV>, depth: nat)
    requires
        args_wf(args),
        args_check(args, depth) is Ok,
    ensures
        all_readable(args),
    decreases args,
{
    lemma_args_pass(args, depth);
    lemma_args(args);
    assert forall|i: int| 0 <= i < args.len() implies #[trigger] readable(args[i]) by {
        lemma_checked_readable(args[i], depth);
    }
    lemma_all_readable(args);
}

/// An evaluation under way inside a compound predicate.
pub enum FrameV {
    /// An OR at operand `at`, with its candidates and the union so far.
    Or { args: Seq<PredicateV>, at: nat, cand: Option<Set<u32>>, union: Set<u32> },
    /// A NOT evaluating its operand inside `base`.
    Not { base: Set<u32> },
    /// An AND at position `done` of its evaluation order.
    And { args: Seq<PredicateV>, order: Seq<usize>, done: nat },
    /// A traversal at step `at`, within `cand`.
    Trav { steps: Seq<StepV>, at: nat, cand: Option<Set<u32>>, phase: PhaseV },
}

/// Where a traversal is: evaluating its start Nodes, evaluating the filter
/// of a single hop from these Nodes, or waiting for what its step reached.
pub enum PhaseV {
    From,
    Filter(Set<u32>),
    Stepped,
}

/// Going on in a traversal once step `at` reached the outcome `o`.
pub open spec fn after_step(steps: Seq<StepV>, at: nat, cand: Option<Set<u32>>, o: Outcome, log: Seq<AnswerV>) -> Outcome {
    match o {
        Outcome::Ask(r) => Outcome::Ask(r),
        Outcome::Value(next, q) => if next == Set::<u32>::empty() {
            Outcome::Value(next, q)
        } else {
            run_steps(steps, at + 1, cand, next, log, q)
        },
    }
}

/// Going on under `frames` once the innermost evaluation reached `o`.
pub open spec fn then(frames: Seq<FrameV>, o: Outcome, log: Seq<AnswerV>) -> Outcome
    decreases frames.len(), 2nat,
{
    match o {
        Outcome::Ask(r) => Outcome::Ask(r),
        Outcome::Value(v, q) => resume(frames, v, log, q),
    }
}

/// Going on under `frames` with the value `v` of the innermost evaluation.
pub open spec fn resume(frames: Seq<FrameV>, v: Set<u32>, log: Seq<AnswerV>, pos: nat) -> Outcome
    decreases frames.len(), 1nat,
{
    if frames.len() == 0 {
        Outcome::Value(v, pos)
    } else {
        resume_frame(frames.drop_last(), frames.last(), v, log, pos)
    }
}

/// Going on under `rest` and then `f` with the value `v` of the evaluation
/// `f` waits for.
pub open spec fn resume_frame(rest: Seq<FrameV>, f: FrameV, v: Set<u32>, log: Seq<AnswerV>, pos: nat) -> Outcome
    decreases rest.len() + 1, 0nat,
{
    match f {
        FrameV::Or { args, at, cand, union } => then(
            rest,
            run_or(args, at + 1, cand, union.union(v), log, pos),
            log,
        ),
        FrameV::Not { base } => resume(rest, base.difference(v), log, pos),
        FrameV::And { args, order, done } => if v == Set::<u32>::empty() {
            resume(rest, v, log, pos)
        } else {
            then(rest, run_and(args, order, done + 1, Some(v), log, pos), log)
        },
        FrameV::Trav { steps, at, cand, phase } => match phase {
            PhaseV::From => then(rest, run_steps(steps, 0, cand, v, log, pos), log),
            PhaseV::Filter(cur) => then(
                rest,
                after_step(
                    steps,
                    at,
                    cand,
                    read_at(
                        RequestV::Expand(cur, steps[at as int].relation, steps[at as int].direction, Some(v)),
                        None,
                        log,
                        pos,
                    ),
                    log,
                ),
                log,
            ),
            PhaseV::Stepped => then(rest, after_step(steps, at, cand, Outcome::Value(v, pos), log), log),
        },
    }
}

proof fn lemma_resume_push(frames: Seq<FrameV>, f: FrameV, v: Set<u32>, log: Seq<AnswerV>, pos: nat)
    ensures
        resume(frames.push(f), v, log, pos) == resume_frame(frames, f, v, log, pos),
{
    assert(frames.push(f).drop_last() =~= frames);
}

proof fn lemma_then_push(frames: Seq<FrameV>, f: FrameV, o: Outcome, log: Seq<AnswerV>)
    ensures
        then(frames.push(f), o, log) == match o {
            Outcome::Ask(r) => Outcome::Ask(r),
            Outcome::Value(v, q) => resume_frame(frames, f, v, log, q),
        },
{
    if let Outcome::Value(v, q) = o {
        lemma_resume_push(frames, f, v, log, q);
    }
}

/// `l` begins with the answers of `log`.
pub open spec fn extends(l: Seq<AnswerV>, log: Seq<AnswerV>) -> bool {
    log.len() <= l.len() && l.subrange(0, log.len() as int) == log
}

/// How much is left to do in `p`: every predicate entered and left once.
spec fn size(p: PredicateV) -> nat
    decreases p, 0nat,
{
    match p {
        PredicateV::And { args } => 1 + work_from(args, 0),
        PredicateV::Or { args } => 1 + work_from(args, 0),
        PredicateV::Not { arg } => 2 + size(*arg),
        PredicateV::Traverse { from, steps } => 2 + size(*from) + steps_work(steps, 0),
        _ => 1,
    }
}

spec fn steps_work(steps: Seq<StepV>, i: nat) -> nat
    decreases steps, steps.len() - i,
{
    if i >= steps.len() {
        0
    } else {
        filter_work(steps[i as int]) + 1 + steps_work(steps, i + 1)
    }
}

spec fn filter_work(s: StepV) -> nat
    decreases s, 0nat,
{
    match s.filter {
        Some(f) => size(f) + 1,
        None => 0,
    }
}

spec fn work_from(args: Seq<PredicateV>, i: nat) -> nat
    decreases args, args.len() - i,
{
    if i >= args.len() {
        0
    } else {
        size(args[i as int]) + 1 + work_from(args, i + 1)
    }
}

spec fn order_work(args: Seq<PredicateV>, order: Seq<usize>, k: nat) -> nat
    decreases order.len() - k,
{
    if k >= order.len() {
        0
    } else {
        (if order[k as int] < args.len() {
            size(args[order[k as int] as int])
        } else {
            0
        }) + 1 + order_work(args, order, k + 1)
    }
}

spec fn frame_work(f: FrameV) -> nat {
    match f {
        FrameV::Or { args, at, .. } => work_from(args, at + 1) + 1,
        FrameV::Not { .. } => 1,
        FrameV::And { args, order, done } => order_work(args, order, done + 1) + 1,
        FrameV::Trav { steps, at, phase, .. } => match phase {
            PhaseV::From => steps_work(steps, 0) + 1,
            _ => steps_work(steps, at + 1) + 1,
        },
    }
}

spec fn frames_work(fs: Seq<FrameV>) -> nat
    decreases fs.len(),
{
    if fs.len() == 0 {
        0
    } else {
        frames_work(fs.drop_last()) + frame_work(fs.last())
    }
}

/// A read the evaluation asks for.
pub enum Request<'a> {
    /// Every live Node.
    Live,
    /// The live Nodes among `ids`.
    LiveAmong { ids: RoaringBitmap },
    /// One index read, inside the candidates when given.
    Read { read: Read, candidate: Option<RoaringBitmap> },
    /// A size estimate of each operand of an AND, in their order.
    Estimates { args: &'a Vec<Predicate> },
    /// The Nodes one hop of `relation` away from `sources`, read in
    /// `direction`, among `targets` when given.
    Expand {
        sources: RoaringBitmap,
        relation: &'a String,
        direction: Direction,
        targets: Option<RoaringBitmap>,
    },
    /// Repeated hops of `relation` from `start` in `direction`: the Nodes
    /// whose shortest number of hops is at least `min` and at most `max`.
    Walk { start: RoaringBitmap, relation: &'a String, direction: Direction, min: u32, max: Option<u32> },
}

pub open spec fn maybe_ids(o: Option<RoaringBitmap>) -> Option<Set<u32>> {
    match o {
        Some(b) => Some(ids_of(b)),
        None => None,
    }
}

impl<'a> View for Request<'a> {
    type V = RequestV;

    open spec fn view(&self) -> RequestV {
        match *self {
            Request::Live => RequestV::Live,
            Request::LiveAmong { ids } => RequestV::LiveAmong(ids_of(ids)),
            Request::Read { read, candidate } => RequestV::Read(read@, maybe_ids(candidate)),
            Request::Estimates { args } => RequestV::Estimates(predicates_view(args@)),
            Request::Expand { sources, relation, direction, targets } => RequestV::Expand(
                ids_of(sources),
                relation@,
                direction,
                maybe_ids(targets),
            ),
            Request::Walk { start, relation, direction, min, max } => RequestV::Walk(
                ids_of(start),
                relation@,
                direction,
                min,
                max,
            ),
        }
    }
}

enum Frame<'a> {
    Or { args: &'a Vec<Predicate>, at: usize, candidate: Option<RoaringBitmap>, union: RoaringBitmap },
    Not { base: RoaringBitmap },
    And { args: &'a Vec<Predicate>, progress: AndRun },
    Trav { steps: &'a Vec<Step>, at: usize, candidate: Option<RoaringBitmap>, phase: Phase },
}

/// Where a traversal is: evaluating its start, evaluating the filter of a
/// single hop from these Nodes, or waiting for the Nodes its step reached.
enum Phase {
    From,
    Filter(RoaringBitmap),
    Stepped,
}

/// What an answer is for.
enum Then<'a> {
    /// The value of the predicate that asked.
    Give,
    /// The base of a NOT with this operand.
    Negate(&'a Predicate),
    /// The estimates of an AND's operands; the AND's candidates.
    Order(Option<RoaringBitmap>),
    /// The Nodes a repeated step reached: the step's targets and filter.
    Reach(Option<RoaringBitmap>, Option<&'a Predicate>),
}

enum State<'a> {
    Asking(Request<'a>, Then<'a>),
    Finished(RoaringBitmap),
}

enum Task<'a> {
    Eval(&'a Predicate, Option<RoaringBitmap>),
    Back(RoaringBitmap),
}

spec fn frame_view(f: Frame) -> FrameV {
    match f {
        Frame::Or { args, at, candidate, union } => FrameV::Or {
            args: predicates_view(args@),
            at: at as nat,
            cand: maybe_ids(candidate),
            union: ids_of(union),
        },
        Frame::Not { base } => FrameV::Not { base: ids_of(base) },
        Frame::And { args, progress } => FrameV::And {
            args: predicates_view(args@),
            order: progress.order@,
            done: progress.done as nat,
        },
        Frame::Trav { steps, at, candidate, phase } => FrameV::Trav {
            steps: steps_view(steps@),
            at: at as nat,
            cand: maybe_ids(candidate),
            phase: match phase {
                Phase::From => PhaseV::From,
                Phase::Filter(cur) => PhaseV::Filter(ids_of(cur)),
                Phase::Stepped => PhaseV::Stepped,
            },
        },
    }
}

spec fn frames_view(fs: Seq<Frame>) -> Seq<FrameV> {
    fs.map_values(|f: Frame| frame_view(f))
}

spec fn frame_ok(f: Frame) -> bool {
    match f {
        Frame::Or { args, at, .. } => at < args@.len() && all_readable(predicates_view(args@)),
        Frame::Not { .. } => true,
        Frame::And { args, progress } => {
            &&& all_readable(predicates_view(args@))
            &&& !progress.stopped
            &&& progress.done < progress.order@.len()
            &&& forall|k: int| 0 <= k < progress.order@.len() ==> #[trigger] progress.order@[k] < args@.len()
        },
        Frame::Trav { steps, at, phase, .. } => {
            &&& steps_readable(steps_view(steps@))
            &&& (phase is From ==> at == 0)
            &&& (!(phase is From) ==> at < steps@.len())
        },
    }
}

spec fn request_candidate(r: Request) -> Option<Set<u32>> {
    match r {
        Request::Read { candidate, .. } => maybe_ids(candidate),
        _ => None,
    }
}

/// Going on under `frames` with the answer `a` to `r`, read at `pos - 1`.
spec fn answered(frames: Seq<FrameV>, r: Request, t: Then, a: AnswerV, log: Seq<AnswerV>, pos: nat) -> Outcome {
    match t {
        Then::Give => resume(frames, within(nodes_of(a), request_candidate(r)), log, pos),
        Then::Negate(arg) => then(
            frames.push(FrameV::Not { base: nodes_of(a) }),
            run(arg@, Some(nodes_of(a)), log, pos),
            log,
        ),
        Then::Order(cand) => match r {
            Request::Estimates { args } => then(
                frames,
                run_and(
                    predicates_view(args@),
                    operand_order(estimates_of(a), args@.len()),
                    0,
                    maybe_ids(cand),
                    log,
                    pos,
                ),
                log,
            ),
            _ => Outcome::Value(Set::empty(), pos),
        },
        Then::Reach(targets, filter) => {
            let reached = within(nodes_of(a), maybe_ids(targets));
            match filter {
                Some(f) => then(frames, run(f@, Some(reached), log, pos), log),
                None => resume(frames, reached, log, pos),
            }
        },
    }
}

spec fn state_outcome(frames: Seq<FrameV>, st: State, log: Seq<AnswerV>, n: nat) -> Outcome {
    match st {
        State::Asking(r, t) => if n < log.len() {
            answered(frames, r, t, log[n as int], log, n + 1)
        } else {
            Outcome::Ask(r@)
        },
        State::Finished(v) => Outcome::Value(ids_of(v), n),
    }
}

spec fn state_ok(st: State) -> bool {
    match st {
        State::Asking(r, t) => match t {
            Then::Give => !(r is Estimates) && !(r is Walk),
            Then::Negate(arg) => r is Live && readable(arg@),
            Then::Order(_) => r matches Request::Estimates { args } && all_readable(predicates_view(args@)),
            Then::Reach(_, filter) => r is Walk && (filter matches Some(f) ==> readable(f@)),
        },
        State::Finished(_) => true,
    }
}


proof fn lemma_or_start(
    fv: Seq<FrameV>,
    args: Seq<PredicateV>,
    c: Option<Set<u32>>,
    l: Seq<AnswerV>,
    n: nat,
)
    requires
        c != Some(Set::<u32>::empty()),
        args.len() > 0,
    ensures
        then(fv, run(PredicateV::Or { args }, c, l, n), l) == then(
            fv.push(FrameV::Or { args, at: 0, cand: c, union: Set::empty() }),
            run(args[0], c, l, n),
            l,
        ),
{
    let f = FrameV::Or { args, at: 0, cand: c, union: Set::empty() };
    lemma_then_push(fv, f, run(args[0], c, l, n), l);
    assert(run(PredicateV::Or { args }, c, l, n) == run_or(args, 0, c, Set::empty(), l, n));
}

proof fn lemma_or_next(
    fv: Seq<FrameV>,
    args: Seq<PredicateV>,
    at: nat,
    c: Option<Set<u32>>,
    u: Set<u32>,
    v: Set<u32>,
    l: Seq<AnswerV>,
    n: nat,
)
    ensures
        resume(fv.push(FrameV::Or { args, at, cand: c, union: u }), v, l, n) == if at + 1 < args.len() {
            then(
                fv.push(FrameV::Or { args, at: at + 1, cand: c, union: u.union(v) }),
                run(args[at + 1 as int], c, l, n),
                l,
            )
        } else {
            resume(fv, within(u.union(v), c), l, n)
        },
{
    lemma_resume_push(fv, FrameV::Or { args, at, cand: c, union: u }, v, l, n);
    if at + 1 < args.len() {
        let f = FrameV::Or { args, at: at + 1, cand: c, union: u.union(v) };
        lemma_then_push(fv, f, run(args[at + 1 as int], c, l, n), l);
    }
}

proof fn lemma_not_start(fv: Seq<FrameV>, arg: PredicateV, b: Set<u32>, l: Seq<AnswerV>, n: nat)
    ensures
        then(fv, negate(arg, b, l, n), l) == then(
            fv.push(FrameV::Not { base: b }),
            run(arg, Some(b), l, n),
            l,
        ),
{
    lemma_then_push(fv, FrameV::Not { base: b }, run(arg, Some(b), l, n), l);
}

proof fn lemma_and_step(
    fv: Seq<FrameV>,
    args: Seq<PredicateV>,
    order: Seq<usize>,
    k: nat,
    cur: Option<Set<u32>>,
    l: Seq<AnswerV>,
    n: nat,
)
    requires
        k < order.len(),
        order[k as int] < args.len(),
    ensures
        then(fv, run_and(args, order, k, cur, l, n), l) == then(
            fv.push(FrameV::And { args, order, done: k }),
            run(args[order[k as int] as int], cur, l, n),
            l,
        ),
{
    let f = FrameV::And { args, order, done: k };
    lemma_then_push(fv, f, run(args[order[k as int] as int], cur, l, n), l);
}

proof fn lemma_steps_unfold(sv: Seq<StepV>, i: nat, c: Option<Set<u32>>, cur: Set<u32>, l: Seq<AnswerV>, n: nat)
    requires
        i < sv.len(),
    ensures
        run_steps(sv, i, c, cur, l, n) == after_step(
            sv,
            i,
            c,
            run_step(sv[i as int], step_candidates(sv, i, c), cur, l, n),
            l,
        ),
{
}

proof fn lemma_step_filter(
    fv: Seq<FrameV>,
    sv: Seq<StepV>,
    i: nat,
    c: Option<Set<u32>>,
    cur: Set<u32>,
    f: PredicateV,
    l: Seq<AnswerV>,
    n: nat,
)
    requires
        i < sv.len(),
        repeat_of(sv[i as int]) is None,
        sv[i as int].filter == Some(f),
    ensures
        then(fv, run_steps(sv, i, c, cur, l, n), l) == then(
            fv.push(FrameV::Trav { steps: sv, at: i, cand: c, phase: PhaseV::Filter(cur) }),
            run(f, step_candidates(sv, i, c), l, n),
            l,
        ),
{
    let fr = FrameV::Trav { steps: sv, at: i, cand: c, phase: PhaseV::Filter(cur) };
    let tc = step_candidates(sv, i, c);
    let o = run(f, tc, l, n);
    lemma_then_push(fv, fr, o, l);
    lemma_steps_unfold(sv, i, c, cur, l, n);
    let s = sv[i as int];
    match o {
        Outcome::Ask(r) => {
            assert(run_step(s, tc, cur, l, n) == Outcome::Ask(r));
        },
        Outcome::Value(t, q) => {
            assert(run_step(s, tc, cur, l, n) == read_at(
                RequestV::Expand(cur, s.relation, s.direction, Some(t)),
                None,
                l,
                q,
            ));
        },
    }
}

proof fn lemma_step_hop(
    fv: Seq<FrameV>,
    sv: Seq<StepV>,
    i: nat,
    c: Option<Set<u32>>,
    cur: Set<u32>,
    l: Seq<AnswerV>,
    n: nat,
)
    requires
        i < sv.len(),
        repeat_of(sv[i as int]) is None,
        sv[i as int].filter is None,
    ensures
        then(fv, run_steps(sv, i, c, cur, l, n), l) == if n < l.len() {
            resume(
                fv.push(FrameV::Trav { steps: sv, at: i, cand: c, phase: PhaseV::Stepped }),
                nodes_at(l, n),
                l,
                n + 1,
            )
        } else {
            Outcome::Ask(
                RequestV::Expand(cur, sv[i as int].relation, sv[i as int].direction, step_candidates(sv, i, c)),
            )
        },
{
    let fr = FrameV::Trav { steps: sv, at: i, cand: c, phase: PhaseV::Stepped };
    let tc = step_candidates(sv, i, c);
    let s = sv[i as int];
    lemma_steps_unfold(sv, i, c, cur, l, n);
    assert(run_step(s, tc, cur, l, n) == read_at(RequestV::Expand(cur, s.relation, s.direction, tc), None, l, n));
    if n < l.len() {
        lemma_resume_push(fv, fr, nodes_at(l, n), l, n + 1);
        assert(within(nodes_at(l, n), None) == nodes_at(l, n));
    }
}

proof fn lemma_step_walk(
    fv: Seq<FrameV>,
    sv: Seq<StepV>,
    i: nat,
    c: Option<Set<u32>>,
    cur: Set<u32>,
    min: u32,
    max: Option<u32>,
    l: Seq<AnswerV>,
    n: nat,
)
    requires
        i < sv.len(),
        repeat_of(sv[i as int]) == Some((min, max)),
    ensures
        then(fv, run_steps(sv, i, c, cur, l, n), l) == if n < l.len() {
            let reached = within(nodes_at(l, n), step_candidates(sv, i, c));
            let fs = fv.push(FrameV::Trav { steps: sv, at: i, cand: c, phase: PhaseV::Stepped });
            match sv[i as int].filter {
                Some(g) => then(fs, run(g, Some(reached), l, n + 1), l),
                None => resume(fs, reached, l, n + 1),
            }
        } else {
            Outcome::Ask(RequestV::Walk(cur, sv[i as int].relation, sv[i as int].direction, min, max))
        },
{
    let fr = FrameV::Trav { steps: sv, at: i, cand: c, phase: PhaseV::Stepped };
    let tc = step_candidates(sv, i, c);
    let s = sv[i as int];
    lemma_steps_unfold(sv, i, c, cur, l, n);
    if n < l.len() {
        let reached = within(nodes_at(l, n), tc);
        match s.filter {
            Some(g) => {
                assert(run_step(s, tc, cur, l, n) == run(g, Some(reached), l, n + 1));
                lemma_then_push(fv, fr, run(g, Some(reached), l, n + 1), l);
            },
            None => {
                assert(run_step(s, tc, cur, l, n) == Outcome::Value(reached, n + 1));
                lemma_resume_push(fv, fr, reached, l, n + 1);
            },
        }
    } else {
        assert(run_step(s, tc, cur, l, n) == Outcome::Ask(RequestV::Walk(cur, s.relation, s.direction, min, max)));
    }
}

proof fn lemma_view_push(fs: Seq<Frame>, f: Frame)
    ensures
        frames_view(fs.push(f)) == frames_view(fs).push(frame_view(f)),
        frames_work(frames_view(fs.push(f))) == frames_work(frames_view(fs)) + frame_work(frame_view(f)),
{
    assert(frames_view(fs.push(f)) =~= frames_view(fs).push(frame_view(f)));
    assert(frames_view(fs).push(frame_view(f)).drop_last() =~= frames_view(fs));
}

proof fn lemma_extends_push(l: Seq<AnswerV>, log: Seq<AnswerV>, a: AnswerV)
    requires
        extends(l, log.push(a)),
    ensures
        extends(l, log),
        l[log.len() as int] == a,
{
    assert(l.subrange(0, log.len() as int) =~= l.subrange(0, log.len() + 1 as int).subrange(0, log.len() as int));
    assert(log.push(a).subrange(0, log.len() as int) =~= log);
    assert(l[log.len() as int] == l.subrange(0, log.len() + 1 as int)[log.len() as int]);
}

fn id_set(ids: &Vec<u32>) -> (r: RoaringBitmap)
    ensures
        ids_of(r) == ids@.to_set(),
{
    let mut r = empty_set();
    let mut i: usize = 0;
    while i < ids.len()
        invariant
            i <= ids@.len(),
            ids_of(r) == ids@.take(i as int).to_set(),
        decreases ids@.len() - i,
    {
        insert_id(&mut r, ids[i]);
        proof {
            assert(ids@.take(i as int + 1) =~= ids@.take(i as int).push(ids@[i as int]));
            ids@.take(i as int).lemma_push_to_set_commute(ids@[i as int]);
        }
        i += 1;
    }
    proof {
        assert(ids@.take(ids@.len() as int) =~= ids@);
    }
    r
}

fn copy_candidate(c: &Option<RoaringBitmap>) -> (r: Option<RoaringBitmap>)
    ensures
        maybe_ids(r) == maybe_ids(*c),
{
    match c {
        Some(b) => Some(copy_set(b)),
        None => None,
    }
}

/// A predicate's evaluation, stopped at a read it needs or finished.
pub struct Evaluation<'a> {
    goal: Ghost<PredicateV>,
    among: Ghost<Option<Set<u32>>>,
    log: Ghost<Seq<AnswerV>>,
    frames: Vec<Frame<'a>>,
    state: State<'a>,
}

impl<'a> Evaluation<'a> {
    /// The predicate evaluated.
    pub closed spec fn goal(&self) -> PredicateV {
        self.goal@
    }

    /// The candidates it is evaluated inside.
    pub closed spec fn among(&self) -> Option<Set<u32>> {
        self.among@
    }

    /// The answers given so far.
    pub closed spec fn log(&self) -> Seq<AnswerV> {
        self.log@
    }

    spec fn frames_ok(&self) -> bool {
        forall|i: int| 0 <= i < self.frames@.len() ==> #[trigger] frame_ok(self.frames@[i])
    }

    spec fn task_ok(&self, t: Task) -> bool {
        &&& self.frames_ok()
        &&& match t {
            Task::Eval(p, c) => readable(p@) && forall|l: Seq<AnswerV>|
                extends(l, self.log@) ==> #[trigger] run(self.goal@, self.among@, l, 0) == then(
                    frames_view(self.frames@),
                    run(p@, maybe_ids(c), l, self.log@.len()),
                    l,
                ),
            Task::Back(v) => forall|l: Seq<AnswerV>|
                extends(l, self.log@) ==> #[trigger] run(self.goal@, self.among@, l, 0) == resume(
                    frames_view(self.frames@),
                    ids_of(v),
                    l,
                    self.log@.len(),
                ),
        }
    }

    spec fn work(&self, t: Task) -> nat {
        frames_work(frames_view(self.frames@)) + match t {
            Task::Eval(p, _) => size(p@) + 1,
            Task::Back(_) => 1,
        }
    }


    /// One move of the walk for the task of evaluating `p` inside `cand`:
    /// its value when it needs no read, a frame and the first operand when
    /// it combines others, or the read it asks for.
    #[verifier::rlimit(80)]
    #[verifier::spinoff_prover]
    fn eval_step(&mut self, p: &'a Predicate, cand: Option<RoaringBitmap>) -> (next: Option<Task<'a>>)
        requires
            old(self).task_ok(Task::Eval(p, cand)),
        ensures
            final(self).goal@ == old(self).goal@,
            final(self).among@ == old(self).among@,
            final(self).log@ == old(self).log@,
            match next {
                Some(t) => final(self).task_ok(t) && final(self).work(t) < old(self).work(
                    Task::Eval(p, cand),
                ),
                None => final(self).wf(),
            },
    {
        let ghost n = self.log@.len();
        let ghost fv = frames_view(self.frames@);
        let ghost c = maybe_ids(cand);
        if nothing_to_find(cand.as_ref()) {
            let v = empty_set();
            proof {
                assert forall|l: Seq<AnswerV>| extends(l, self.log@) implies #[trigger] run(
                    self.goal@,
                    self.among@,
                    l,
                    0,
                ) == resume(fv, ids_of(v), l, n) by {
                    assert(c == Some(Set::<u32>::empty()));
                }
            }
            return Some(Task::Back(v));
        }
        assert(c != Some(Set::<u32>::empty()));
        match p {
            Predicate::All => match cand {
                Some(b) => {
                    proof {
                        assert forall|l: Seq<AnswerV>| extends(l, self.log@) implies #[trigger] run(
                            self.goal@,
                            self.among@,
                            l,
                            0,
                        ) == resume(fv, ids_of(b), l, n) by {}
                    }
                    Some(Task::Back(b))
                },
                None => {
                    self.state = State::Asking(Request::Live, Then::Give);
                    proof {
                        assert forall|l: Seq<AnswerV>| extends(l, self.log@) implies #[trigger] run(
                            self.goal@,
                            self.among@,
                            l,
                            0,
                        ) == state_outcome(fv, self.state, l, n) by {}
                    }
                    None
                },
            },
            Predicate::Ids { ids } => {
                let mut among = id_set(ids);
                restrict(&mut among, cand.as_ref());
                self.state = State::Asking(Request::LiveAmong { ids: among }, Then::Give);
                proof {
                    assert forall|l: Seq<AnswerV>| extends(l, self.log@) implies #[trigger] run(
                        self.goal@,
                        self.among@,
                        l,
                        0,
                    ) == state_outcome(fv, self.state, l, n) by {}
                }
                None
            },
            Predicate::And { args } => {
                self.state = State::Asking(Request::Estimates { args }, Then::Order(cand));
                proof {
                    lemma_predicates_view(args@);
                    assert forall|l: Seq<AnswerV>| extends(l, self.log@) implies #[trigger] run(
                        self.goal@,
                        self.among@,
                        l,
                        0,
                    ) == state_outcome(fv, self.state, l, n) by {}
                }
                None
            },
            Predicate::Or { args } => {
                if args.len() == 0 {
                    let mut v = empty_set();
                    restrict(&mut v, cand.as_ref());
                    proof {
                        assert forall|l: Seq<AnswerV>| extends(l, self.log@) implies #[trigger] run(
                            self.goal@,
                            self.among@,
                            l,
                            0,
                        ) == resume(fv, ids_of(v), l, n) by {
                            lemma_predicates_view(args@);
                            assert(run(p@, c, l, n) == run_or(predicates_view(args@), 0, c, Set::empty(), l, n));
                        }
                    }
                    return Some(Task::Back(v));
                }
                let first = copy_candidate(&cand);
                let ghost a = predicates_view(args@);
                let ghost before = self.frames@;
                let frame = Frame::Or { args, at: 0, candidate: cand, union: empty_set() };
                proof {
                    lemma_predicates_view(args@);
                    lemma_view_push(before, frame);
                    assert(readable(p@));
                    lemma_all_readable(a);
                    assert(a[0] == args@[0]@);
                }
                self.frames.push(frame);
                proof {
                    assert forall|i: int| 0 <= i < self.frames@.len() implies #[trigger] frame_ok(self.frames@[i]) by {
                        if i < before.len() {
                            assert(self.frames@[i] == before[i]);
                        }
                    }
                    assert forall|l: Seq<AnswerV>| extends(l, self.log@) implies #[trigger] run(
                        self.goal@,
                        self.among@,
                        l,
                        0,
                    ) == then(frames_view(self.frames@), run(args@[0]@, maybe_ids(first), l, n), l) by {
                        lemma_or_start(fv, a, c, l, n);
                    }
                    assert(work_from(a, 0) == size(a[0]) + 1 + work_from(a, 1));
                }
                Some(Task::Eval(&args[0], first))
            },
            Predicate::Not { arg } => {
                let inner: &'a Predicate = &**arg;
                match cand {
                    Some(b) => {
                        let inside = copy_set(&b);
                        let ghost before = self.frames@;
                        let frame = Frame::Not { base: b };
                        proof {
                            lemma_view_push(before, frame);
                        }
                        self.frames.push(frame);
                        proof {
                            assert forall|i: int| 0 <= i < self.frames@.len() implies #[trigger] frame_ok(self.frames@[i]) by {
                                if i < before.len() {
                                    assert(self.frames@[i] == before[i]);
                                }
                            }
                            assert forall|l: Seq<AnswerV>| extends(l, self.log@) implies #[trigger] run(
                                self.goal@,
                                self.among@,
                                l,
                                0,
                            ) == then(frames_view(self.frames@), run(inner@, Some(ids_of(inside)), l, n), l) by {
                                lemma_not_start(fv, inner@, ids_of(inside), l, n);
                            }
                        }
                        Some(Task::Eval(inner, Some(inside)))
                    },
                    None => {
                        self.state = State::Asking(Request::Live, Then::Negate(inner));
                        proof {
                            assert forall|l: Seq<AnswerV>| extends(l, self.log@) implies #[trigger] run(
                                self.goal@,
                                self.among@,
                                l,
                                0,
                            ) == state_outcome(fv, self.state, l, n) by {
                                if n < l.len() {
                                    lemma_not_start(fv, inner@, nodes_at(l, n), l, n + 1);
                                }
                            }
                        }
                        None
                    },
                }
            },
            Predicate::Traverse { from, steps } => {
                let start: &'a Predicate = &**from;
                let ghost before = self.frames@;
                let frame = Frame::Trav { steps, at: 0, candidate: cand, phase: Phase::From };
                proof {
                    lemma_view_push(before, frame);
                }
                self.frames.push(frame);
                proof {
                    assert forall|i: int| 0 <= i < self.frames@.len() implies #[trigger] frame_ok(self.frames@[i]) by {
                        if i < before.len() {
                            assert(self.frames@[i] == before[i]);
                        }
                    }
                    assert forall|l: Seq<AnswerV>| extends(l, self.log@) implies #[trigger] run(
                        self.goal@,
                        self.among@,
                        l,
                        0,
                    ) == then(frames_view(self.frames@), run(start@, None, l, n), l) by {
                        lemma_then_push(
                            fv,
                            FrameV::Trav { steps: steps_view(steps@), at: 0, cand: c, phase: PhaseV::From },
                            run(start@, None, l, n),
                            l,
                        );
                    }
                }
                Some(Task::Eval(start, None))
            },
            _ => {
                proof {
                    reveal(leaf_readable);
                }
                match read_of(p) {
                    Some(read) => {
                        self.state = State::Asking(Request::Read { read, candidate: cand }, Then::Give);
                        proof {
                            assert forall|l: Seq<AnswerV>| extends(l, self.log@) implies #[trigger] run(
                                self.goal@,
                                self.among@,
                                l,
                                0,
                            ) == state_outcome(fv, self.state, l, n) by {}
                        }
                        None
                    },
                    None => {
                        let v = empty_set();
                        proof {
                            assert forall|l: Seq<AnswerV>| extends(l, self.log@) implies #[trigger] run(
                                self.goal@,
                                self.among@,
                                l,
                                0,
                            ) == resume(fv, ids_of(v), l, n) by {}
                        }
                        Some(Task::Back(v))
                    },
                }
            },
        }
    }


    /// One move of the walk with the value `v` of the innermost evaluation:
    /// the frame waiting for it takes it, and either goes on with its next
    /// operand or gives its own value to the frame below.
    #[verifier::rlimit(80)]
    #[verifier::spinoff_prover]
    fn back_step(&mut self, v: RoaringBitmap) -> (next: Option<Task<'a>>)
        requires
            old(self).task_ok(Task::Back(v)),
        ensures
            final(self).goal@ == old(self).goal@,
            final(self).among@ == old(self).among@,
            final(self).log@ == old(self).log@,
            match next {
                Some(t) => final(self).task_ok(t) && final(self).work(t) < old(self).work(Task::Back(v)),
                None => final(self).wf(),
            },
    {
        let ghost n = self.log@.len();
        let ghost all = self.frames@;
        if self.frames.len() == 0 {
            self.state = State::Finished(v);
            proof {
                assert forall|l: Seq<AnswerV>| extends(l, self.log@) implies #[trigger] run(
                    self.goal@,
                    self.among@,
                    l,
                    0,
                ) == state_outcome(frames_view(self.frames@), self.state, l, n) by {
                    assert(frames_view(all).len() == 0);
                }
            }
            return None;
        }
        let top = self.frames.pop().unwrap();
        let ghost rest = self.frames@;
        let ghost fv = frames_view(rest);
        proof {
            assert(all =~= rest.push(top));
            lemma_view_push(rest, top);
            assert(frame_ok(all[all.len() - 1]));
            assert(top == all[all.len() - 1]);
            assert(frame_ok(top));
            assert forall|i: int| 0 <= i < rest.len() implies #[trigger] frame_ok(rest[i]) by {
                assert(rest[i] == all[i]);
            }
            assert forall|l: Seq<AnswerV>| extends(l, self.log@) implies #[trigger] run(
                self.goal@,
                self.among@,
                l,
                0,
            ) == resume_frame(fv, frame_view(top), ids_of(v), l, n) by {
                lemma_resume_push(fv, frame_view(top), ids_of(v), l, n);
            }
        }
        match top {
            Frame::Or { args, at, candidate, union } => {
                let ghost a = predicates_view(args@);
                let ghost u = ids_of(union);
                let ghost c = maybe_ids(candidate);
                let mut union = union;
                union_with(&mut union, &v);
                assert(at < args@.len());
                assert(args@.len() == args.len());
                let next = at + 1;
                proof {
                    lemma_predicates_view(args@);
                    lemma_all_readable(a);
                }
                if next >= args.len() {
                    restrict(&mut union, candidate.as_ref());
                    proof {
                        assert forall|l: Seq<AnswerV>| extends(l, self.log@) implies #[trigger] run(
                            self.goal@,
                            self.among@,
                            l,
                            0,
                        ) == resume(fv, ids_of(union), l, n) by {
                            lemma_or_next(fv, a, at as nat, c, u, ids_of(v), l, n);
                        }
                    }
                    return Some(Task::Back(union));
                }
                let inside = copy_candidate(&candidate);
                let frame = Frame::Or { args, at: next, candidate, union };
                proof {
                    lemma_view_push(rest, frame);
                    assert(a[next as int] == args@[next as int]@);
                    assert(work_from(a, next as nat) == size(a[next as int]) + 1 + work_from(a, next as nat + 1));
                }
                self.frames.push(frame);
                proof {
                    assert forall|i: int| 0 <= i < self.frames@.len() implies #[trigger] frame_ok(self.frames@[i]) by {
                        if i < rest.len() {
                            assert(self.frames@[i] == rest[i]);
                        }
                    }
                    assert forall|l: Seq<AnswerV>| extends(l, self.log@) implies #[trigger] run(
                        self.goal@,
                        self.among@,
                        l,
                        0,
                    ) == then(frames_view(self.frames@), run(args@[next as int]@, maybe_ids(inside), l, n), l) by {
                        lemma_or_next(fv, a, at as nat, c, u, ids_of(v), l, n);
                    }
                }
                Some(Task::Eval(&args[next], inside))
            },
            Frame::Not { base } => {
                let r = complement(&base, &v);
                proof {
                    assert forall|l: Seq<AnswerV>| extends(l, self.log@) implies #[trigger] run(
                        self.goal@,
                        self.among@,
                        l,
                        0,
                    ) == resume(fv, ids_of(r), l, n) by {
                        lemma_resume_push(fv, FrameV::Not { base: ids_of(base) }, ids_of(v), l, n);
                    }
                }
                Some(Task::Back(r))
            },
            Frame::And { args, progress } => {
                let ghost a = predicates_view(args@);
                let ghost order = progress.order@;
                let ghost done = progress.done as nat;
                let mut and = progress;
                and.feed(v);
                proof {
                    lemma_predicates_view(args@);
                    lemma_all_readable(a);
                }
                match and.operand() {
                    Some(i) => {
                        let inside = match &and.current {
                            Some(cur) => copy_set(cur),
                            None => empty_set(),
                        };
                        let frame = Frame::And { args, progress: and };
                        proof {
                            lemma_view_push(rest, frame);
                            assert(a[i as int] == args@[i as int]@);
                            assert(order_work(a, order, done + 1) == size(a[i as int]) + 1 + order_work(a, order, done + 2));
                        }
                        self.frames.push(frame);
                        proof {
                            assert forall|j: int| 0 <= j < self.frames@.len() implies #[trigger] frame_ok(self.frames@[j]) by {
                                if j < rest.len() {
                                    assert(self.frames@[j] == rest[j]);
                                }
                            }
                            assert forall|l: Seq<AnswerV>| extends(l, self.log@) implies #[trigger] run(
                                self.goal@,
                                self.among@,
                                l,
                                0,
                            ) == then(frames_view(self.frames@), run(args@[i as int]@, Some(ids_of(inside)), l, n), l) by {
                                lemma_resume_push(fv, FrameV::And { args: a, order, done }, ids_of(v), l, n);
                                lemma_and_step(fv, a, order, done + 1, Some(ids_of(v)), l, n);
                            }
                        }
                        Some(Task::Eval(&args[i], Some(inside)))
                    },
                    None => {
                        let r = match and.finish() {
                            Some(cur) => cur,
                            None => empty_set(),
                        };
                        proof {
                            assert forall|l: Seq<AnswerV>| extends(l, self.log@) implies #[trigger] run(
                                self.goal@,
                                self.among@,
                                l,
                                0,
                            ) == resume(fv, ids_of(r), l, n) by {
                                lemma_resume_push(fv, FrameV::And { args: a, order, done }, ids_of(v), l, n);
                            }
                        }
                        Some(Task::Back(r))
                    },
                }
            },
            Frame::Trav { steps, at, candidate, phase } => self.back_trav(steps, at, candidate, phase, v),
        }
    }

    /// `back_step` for a traversal frame.
    #[verifier::rlimit(80)]
    #[verifier::spinoff_prover]
    fn back_trav(
        &mut self,
        steps: &'a Vec<Step>,
        at: usize,
        candidate: Option<RoaringBitmap>,
        phase: Phase,
        v: RoaringBitmap,
    ) -> (next: Option<Task<'a>>)
        requires
            old(self).frames_ok(),
            frame_ok(Frame::Trav { steps, at, candidate, phase }),
            forall|l: Seq<AnswerV>|
                extends(l, old(self).log@) ==> #[trigger] run(old(self).goal@, old(self).among@, l, 0) == resume_frame(
                    frames_view(old(self).frames@),
                    frame_view(Frame::Trav { steps, at, candidate, phase }),
                    ids_of(v),
                    l,
                    old(self).log@.len(),
                ),
        ensures
            final(self).goal@ == old(self).goal@,
            final(self).among@ == old(self).among@,
            final(self).log@ == old(self).log@,
            match next {
                Some(t) => final(self).task_ok(t) && final(self).work(t) < frames_work(
                    frames_view(old(self).frames@),
                ) + frame_work(frame_view(Frame::Trav { steps, at, candidate, phase })) + 1,
                None => final(self).wf(),
            },
    {
        let ghost n = self.log@.len();
        let ghost fv = frames_view(self.frames@);
        let ghost sv = steps_view(steps@);
        let ghost c = maybe_ids(candidate);
        proof {
            lemma_steps_view(steps@);
        }
        match phase {
            Phase::From => {
                proof {
                    assert forall|l: Seq<AnswerV>| extends(l, self.log@) implies #[trigger] run(
                        self.goal@,
                        self.among@,
                        l,
                        0,
                    ) == then(fv, run_steps(sv, 0, c, ids_of(v), l, n), l) by {
                                            }
                }
                self.start_step(steps, 0, candidate, v)
            },
            Phase::Filter(cur) => {
                let step: &'a Step = &steps[at];
                let ghost before = self.frames@;
                let frame = Frame::Trav { steps, at, candidate, phase: Phase::Stepped };
                proof {
                    lemma_view_push(before, frame);
                }
                self.frames.push(frame);
                self.state = State::Asking(
                    Request::Expand {
                        sources: cur,
                        relation: &step.relation,
                        direction: step.direction,
                        targets: Some(v),
                    },
                    Then::Give,
                );
                proof {
                    assert forall|i: int| 0 <= i < self.frames@.len() implies #[trigger] frame_ok(self.frames@[i]) by {
                        if i < before.len() {
                            assert(self.frames@[i] == before[i]);
                        }
                    }
                    assert(sv[at as int] == steps@[at as int]@);
                    assert forall|l: Seq<AnswerV>| extends(l, self.log@) implies #[trigger] run(
                        self.goal@,
                        self.among@,
                        l,
                        0,
                    ) == state_outcome(frames_view(self.frames@), self.state, l, n) by {
                                                if n < l.len() {
                            lemma_resume_push(fv, frame_view(frame), nodes_at(l, n), l, n + 1);
                        }
                    }
                }
                None
            },
            Phase::Stepped => {
                assert(at < steps@.len());
                assert(steps@.len() == steps.len());
                if no_ids(&v) || at + 1 >= steps.len() {
                    let mut r = v;
                    restrict(&mut r, candidate.as_ref());
                    proof {
                        assert forall|l: Seq<AnswerV>| extends(l, self.log@) implies #[trigger] run(
                            self.goal@,
                            self.among@,
                            l,
                            0,
                        ) == resume(fv, ids_of(r), l, n) by {
                                                        if ids_of(v) == Set::<u32>::empty() {
                                assert(ids_of(r) =~= ids_of(v));
                            }
                        }
                    }
                    Some(Task::Back(r))
                } else {
                    proof {
                        assert forall|l: Seq<AnswerV>| extends(l, self.log@) implies #[trigger] run(
                            self.goal@,
                            self.among@,
                            l,
                            0,
                        ) == then(fv, run_steps(sv, (at + 1) as nat, c, ids_of(v), l, n), l) by {
                                                    }
                    }
                    self.start_step(steps, at + 1, candidate, v)
                }
            },
        }

    }

    /// Begins step `i` of a traversal from the Nodes `cur`: evaluates the
    /// filter of a single hop, or asks for the hop or for the repeated hops.
    #[verifier::rlimit(80)]
    #[verifier::spinoff_prover]
    fn start_step(
        &mut self,
        steps: &'a Vec<Step>,
        i: usize,
        candidate: Option<RoaringBitmap>,
        cur: RoaringBitmap,
    ) -> (next: Option<Task<'a>>)
        requires
            old(self).frames_ok(),
            steps_readable(steps_view(steps@)),
            forall|l: Seq<AnswerV>|
                extends(l, old(self).log@) ==> #[trigger] run(old(self).goal@, old(self).among@, l, 0) == then(
                    frames_view(old(self).frames@),
                    run_steps(steps_view(steps@), i as nat, maybe_ids(candidate), ids_of(cur), l, old(self).log@.len()),
                    l,
                ),
        ensures
            final(self).goal@ == old(self).goal@,
            final(self).among@ == old(self).among@,
            final(self).log@ == old(self).log@,
            match next {
                Some(t) => final(self).task_ok(t) && final(self).work(t) < frames_work(
                    frames_view(old(self).frames@),
                ) + steps_work(steps_view(steps@), i as nat) + 2,
                None => final(self).wf(),
            },
    {
        let ghost n = self.log@.len();
        let ghost fv = frames_view(self.frames@);
        let ghost sv = steps_view(steps@);
        let ghost c = maybe_ids(candidate);
        proof {
            lemma_steps_view(steps@);
            lemma_steps_readable(sv);
        }
        if i >= steps.len() {
            let mut r = cur;
            restrict(&mut r, candidate.as_ref());
            proof {
                assert forall|l: Seq<AnswerV>| extends(l, self.log@) implies #[trigger] run(
                    self.goal@,
                    self.among@,
                    l,
                    0,
                ) == resume(fv, ids_of(r), l, n) by {}
            }
            return Some(Task::Back(r));
        }
        let step: &'a Step = &steps[i];
        let targets = if i + 1 == steps.len() {
            copy_candidate(&candidate)
        } else {
            None
        };
        let ghost tc = maybe_ids(targets);
        let ghost s_v = sv[i as int];
        proof {
            assert(s_v == step@);
            assert(tc == step_candidates(sv, i as nat, c));
            assert(filter_readable(s_v));
            assert(steps_work(sv, i as nat) == filter_work(s_v) + 1 + steps_work(sv, i as nat + 1));
        }
        let ghost before = self.frames@;
        let ghost cur_ids = ids_of(cur);
        let rep = step.repeat();
        proof {
            assert(rep == repeat_of(s_v));
        }
        match rep {
            None => match &step.filter {
                Some(f) => {
                    let frame = Frame::Trav { steps, at: i, candidate, phase: Phase::Filter(cur) };
                    proof {
                        lemma_view_push(before, frame);
                    }
                    self.frames.push(frame);
                    proof {
                        assert forall|j: int| 0 <= j < self.frames@.len() implies #[trigger] frame_ok(self.frames@[j]) by {
                            if j < before.len() {
                                assert(self.frames@[j] == before[j]);
                            }
                        }
                        assert forall|l: Seq<AnswerV>| extends(l, self.log@) implies #[trigger] run(
                            self.goal@,
                            self.among@,
                            l,
                            0,
                        ) == then(frames_view(self.frames@), run(f@, tc, l, n), l) by {
                            lemma_step_filter(fv, sv, i as nat, c, cur_ids, f@, l, n);
                        }
                    }
                    Some(Task::Eval(f, targets))
                },
                None => {
                    let frame = Frame::Trav { steps, at: i, candidate, phase: Phase::Stepped };
                    proof {
                        lemma_view_push(before, frame);
                    }
                    self.frames.push(frame);
                    self.state = State::Asking(
                        Request::Expand {
                            sources: cur,
                            relation: &step.relation,
                            direction: step.direction,
                            targets,
                        },
                        Then::Give,
                    );
                    proof {
                        assert forall|j: int| 0 <= j < self.frames@.len() implies #[trigger] frame_ok(self.frames@[j]) by {
                            if j < before.len() {
                                assert(self.frames@[j] == before[j]);
                            }
                        }
                        assert forall|l: Seq<AnswerV>| extends(l, self.log@) implies #[trigger] run(
                            self.goal@,
                            self.among@,
                            l,
                            0,
                        ) == state_outcome(frames_view(self.frames@), self.state, l, n) by {
                            lemma_step_hop(fv, sv, i as nat, c, cur_ids, l, n);
                        }
                    }
                    None
                },
            },
            Some((min, max)) => {
                let frame = Frame::Trav { steps, at: i, candidate, phase: Phase::Stepped };
                proof {
                    lemma_view_push(before, frame);
                }
                self.frames.push(frame);
                self.state = State::Asking(
                    Request::Walk { start: cur, relation: &step.relation, direction: step.direction, min, max },
                    Then::Reach(targets, step.filter.as_ref()),
                );
                proof {
                    assert forall|j: int| 0 <= j < self.frames@.len() implies #[trigger] frame_ok(self.frames@[j]) by {
                        if j < before.len() {
                            assert(self.frames@[j] == before[j]);
                        }
                    }
                    assert forall|l: Seq<AnswerV>| extends(l, self.log@) implies #[trigger] run(
                        self.goal@,
                        self.among@,
                        l,
                        0,
                    ) == state_outcome(frames_view(self.frames@), self.state, l, n) by {
                        lemma_step_walk(fv, sv, i as nat, c, cur_ids, min, max, l, n);
                    }
                }
                None
            },
        }
    }


    /// Walks from `first` until a read is needed or the value is known.
    fn settle(&mut self, first: Task<'a>)
        requires
            old(self).task_ok(first),
        ensures
            final(self).wf(),
            final(self).goal@ == old(self).goal@,
            final(self).among@ == old(self).among@,
            final(self).log@ == old(self).log@,
    {
        let mut task = first;
        loop
            invariant_except_break
                self.task_ok(task),
                self.goal@ == old(self).goal@,
                self.among@ == old(self).among@,
                self.log@ == old(self).log@,
            ensures
                self.wf(),
                self.goal@ == old(self).goal@,
                self.among@ == old(self).among@,
                self.log@ == old(self).log@,
            decreases self.work(task),
        {
            let next = match task {
                Task::Eval(p, c) => self.eval_step(p, c),
                Task::Back(v) => self.back_step(v),
            };
            match next {
                Some(t) => {
                    task = t;
                },
                None => {
                    break ;
                },
            }
        }
    }

    /// Starts evaluating `p` inside the candidates, when given, and walks
    /// to the first read it needs.
    pub fn new(p: &'a Predicate, candidate: Option<RoaringBitmap>) -> (r: Evaluation<'a>)
        requires
            pred_wf(p@),
            pred_check(p@, 0) is Ok,
        ensures
            r.wf(),
            r.goal() == p@,
            r.among() == maybe_ids(candidate),
            r.log() == Seq::<AnswerV>::empty(),
    {
        proof {
            lemma_checked_readable(p@, 0);
        }
        let mut e = Evaluation {
            goal: Ghost(p@),
            among: Ghost(maybe_ids(candidate)),
            log: Ghost(Seq::empty()),
            frames: Vec::new(),
            state: State::Finished(empty_set()),
        };
        proof {
            assert(frames_view(e.frames@) =~= Seq::<FrameV>::empty());
            assert forall|l: Seq<AnswerV>| extends(l, e.log@) implies #[trigger] run(
                e.goal@,
                e.among@,
                l,
                0,
            ) == then(frames_view(e.frames@), run(p@, maybe_ids(candidate), l, 0), l) by {}
        }
        e.settle(Task::Eval(p, candidate));
        e
    }

    /// The read the evaluation waits for; None once it has its value.
    pub fn request(&self) -> (r: Option<&Request<'a>>)
        requires
            self.wf(),
        ensures
            match run(self.goal(), self.among(), self.log(), 0) {
                Outcome::Ask(q) => r matches Some(x) && x@ == q,
                Outcome::Value(..) => r is None,
            },
    {
        proof {
            assert(extends(self.log@, self.log@)) by {
                assert(self.log@.subrange(0, self.log@.len() as int) =~= self.log@);
            }
        }
        match &self.state {
            State::Asking(r, _) => Some(r),
            State::Finished(_) => None,
        }
    }

    /// The Nodes the predicate selects, once every read it needed was
    /// answered.
    pub fn value(&self) -> (r: Option<&RoaringBitmap>)
        requires
            self.wf(),
        ensures
            match run(self.goal(), self.among(), self.log(), 0) {
                Outcome::Ask(_) => r is None,
                Outcome::Value(v, _) => r matches Some(x) && ids_of(*x) == v,
            },
    {
        proof {
            assert(extends(self.log@, self.log@)) by {
                assert(self.log@.subrange(0, self.log@.len() as int) =~= self.log@);
            }
        }
        match &self.state {
            State::Asking(..) => None,
            State::Finished(v) => Some(v),
        }
    }


    /// Hands back the Nodes the read it waits for found, and walks to the
    /// next read it needs.
    pub fn give_nodes(&mut self, nodes: RoaringBitmap)
        requires
            old(self).wf(),
            run(old(self).goal(), old(self).among(), old(self).log(), 0) matches Outcome::Ask(q)
                && !(q is Estimates),
        ensures
            final(self).wf(),
            final(self).goal() == old(self).goal(),
            final(self).among() == old(self).among(),
            final(self).log() == old(self).log().push(AnswerV::Nodes(ids_of(nodes))),
    {
        let ghost n = self.log@.len();
        let ghost fv = frames_view(self.frames@);
        let ghost old_log = self.log@;
        let ghost a = AnswerV::Nodes(ids_of(nodes));
        proof {
            assert(extends(old_log, old_log)) by {
                assert(old_log.subrange(0, n as int) =~= old_log);
            }
        }
        let mut st = State::Finished(empty_set());
        std::mem::swap(&mut st, &mut self.state);
        let ghost old_state = st;
        self.log = Ghost(self.log@.push(a));
        match st {
            State::Asking(r, t) => {
                match t {
                    Then::Give => {
                        let mut v = nodes;
                        match &r {
                            Request::Read { candidate, .. } => restrict(&mut v, candidate.as_ref()),
                            _ => {},
                        }
                        proof {
                            assert forall|l: Seq<AnswerV>| extends(l, self.log@) implies #[trigger] run(
                                self.goal@,
                                self.among@,
                                l,
                                0,
                            ) == resume(fv, ids_of(v), l, n + 1) by {
                                lemma_extends_push(l, old_log, a);
                            }
                        }
                        self.settle(Task::Back(v));
                    },
                    Then::Negate(arg) => {
                        let inside = copy_set(&nodes);
                        let ghost before = self.frames@;
                        let frame = Frame::Not { base: nodes };
                        proof {
                            lemma_view_push(before, frame);
                        }
                        self.frames.push(frame);
                        proof {
                            assert forall|i: int| 0 <= i < self.frames@.len() implies #[trigger] frame_ok(self.frames@[i]) by {
                                if i < before.len() {
                                    assert(self.frames@[i] == before[i]);
                                }
                            }
                            assert forall|l: Seq<AnswerV>| extends(l, self.log@) implies #[trigger] run(
                                self.goal@,
                                self.among@,
                                l,
                                0,
                            ) == then(frames_view(self.frames@), run(arg@, Some(ids_of(inside)), l, n + 1), l) by {
                                lemma_extends_push(l, old_log, a);
                            }
                        }
                        self.settle(Task::Eval(arg, Some(inside)));
                    },
                    Then::Order(_) => {
                        proof {
                            assert(false);
                        }
                    },
                    Then::Reach(targets, filter) => {
                        let mut reached = nodes;
                        restrict(&mut reached, targets.as_ref());
                        match filter {
                            Some(f) => {
                                proof {
                                    assert forall|l: Seq<AnswerV>| extends(l, self.log@) implies #[trigger] run(
                                        self.goal@,
                                        self.among@,
                                        l,
                                        0,
                                    ) == then(frames_view(self.frames@), run(f@, Some(ids_of(reached)), l, n + 1), l) by {
                                        lemma_extends_push(l, old_log, a);
                                    }
                                }
                                self.settle(Task::Eval(f, Some(reached)));
                            },
                            None => {
                                proof {
                                    assert forall|l: Seq<AnswerV>| extends(l, self.log@) implies #[trigger] run(
                                        self.goal@,
                                        self.among@,
                                        l,
                                        0,
                                    ) == resume(fv, ids_of(reached), l, n + 1) by {
                                        lemma_extends_push(l, old_log, a);
                                    }
                                }
                                self.settle(Task::Back(reached));
                            },
                        }
                    },
                }
            },
            State::Finished(_) => {
                proof {
                    assert(false);
                }
            },
        }
    }

    /// Hands back the estimates of the operands of the AND it waits for,
    /// one for each in their order, and walks to the next read it needs.
    pub fn give_estimates(&mut self, estimates: Vec<u64>)
        requires
            old(self).wf(),
            run(old(self).goal(), old(self).among(), old(self).log(), 0) matches Outcome::Ask(
                RequestV::Estimates(args),
            ) && estimates@.len() == args.len(),
        ensures
            final(self).wf(),
            final(self).goal() == old(self).goal(),
            final(self).among() == old(self).among(),
            final(self).log() == old(self).log().push(AnswerV::Estimates(estimates@)),
    {
        let ghost n = self.log@.len();
        let ghost fv = frames_view(self.frames@);
        let ghost old_log = self.log@;
        let ghost a = AnswerV::Estimates(estimates@);
        proof {
            assert(extends(old_log, old_log)) by {
                assert(old_log.subrange(0, n as int) =~= old_log);
            }
        }
        let mut st = State::Finished(empty_set());
        std::mem::swap(&mut st, &mut self.state);
        self.log = Ghost(self.log@.push(a));
        match st {
            State::Asking(r, t) => match r {
                Request::Estimates { args } => match t {
                    Then::Order(cand) => {
                        let ghost args_v = predicates_view(args@);
                        let ghost c = maybe_ids(cand);
                        proof {
                            lemma_predicates_view(args@);
                            lemma_all_readable(args_v);
                        }
                        let and = AndRun::start(&estimates, cand.as_ref());
                        let ghost order = and.order@;
                        match and.operand() {
                            Some(i) => {
                                let inside = match &and.current {
                                    Some(cur) => Some(copy_set(cur)),
                                    None => None,
                                };
                                let ghost before = self.frames@;
                                let frame = Frame::And { args, progress: and };
                                proof {
                                    lemma_view_push(before, frame);
                                    assert(args_v[i as int] == args@[i as int]@);
                                }
                                self.frames.push(frame);
                                proof {
                                    assert forall|j: int| 0 <= j < self.frames@.len() implies #[trigger] frame_ok(self.frames@[j]) by {
                                        if j < before.len() {
                                            assert(self.frames@[j] == before[j]);
                                        }
                                    }
                                    assert forall|l: Seq<AnswerV>| extends(l, self.log@) implies #[trigger] run(
                                        self.goal@,
                                        self.among@,
                                        l,
                                        0,
                                    ) == then(frames_view(self.frames@), run(args@[i as int]@, maybe_ids(inside), l, n + 1), l) by {
                                        lemma_extends_push(l, old_log, a);
                                        lemma_and_step(fv, args_v, order, 0, c, l, n + 1);
                                    }
                                }
                                self.settle(Task::Eval(&args[i], inside));
                            },
                            None => match and.finish() {
                                Some(v) => {
                                    proof {
                                        assert forall|l: Seq<AnswerV>| extends(l, self.log@) implies #[trigger] run(
                                            self.goal@,
                                            self.among@,
                                            l,
                                            0,
                                        ) == resume(fv, ids_of(v), l, n + 1) by {
                                            lemma_extends_push(l, old_log, a);
                                        }
                                    }
                                    self.settle(Task::Back(v));
                                },
                                None => {
                                    self.state = State::Asking(Request::Live, Then::Give);
                                    proof {
                                        assert forall|l: Seq<AnswerV>| extends(l, self.log@) implies #[trigger] run(
                                            self.goal@,
                                            self.among@,
                                            l,
                                            0,
                                        ) == state_outcome(frames_view(self.frames@), self.state, l, n + 1) by {
                                            lemma_extends_push(l, old_log, a);
                                        }
                                    }
                                },
                            },
                        }
                    },
                    _ => {
                        proof {
                            assert(false);
                        }
                    },
                },
                _ => {
                    proof {
                        assert(false);
                    }
                },
            },
            State::Finished(_) => {
                proof {
                    assert(false);
                }
            },
        }
    }

    /// Consistent: the evaluation stands where `run` puts it after the
    /// answers given so far, whatever the later answers are.
    pub closed spec fn wf(&self) -> bool {
        &&& self.frames_ok()
        &&& state_ok(self.state)
        &&& (self.state is Finished ==> self.frames@.len() == 0)
        &&& forall|l: Seq<AnswerV>|
            extends(l, self.log@) ==> #[trigger] run(self.goal@, self.among@, l, 0) == state_outcome(
                frames_view(self.frames@),
                self.state,
                l,
                self.log@.len(),
            )
    }
}

} // verus!
