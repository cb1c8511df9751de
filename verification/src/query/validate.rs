//! What a predicate and a query must satisfy before they are evaluated.

use super::range::{bound_wf, kind, range_kind_spec};
use crate::error::{first_refusal, lemma_unit_result, Error};
use crate::index::path::{field_check, field_ok, field_valid, lemma_field_check};
use crate::index::value::{number_key, number_key_spec, token, token_spec};
use crate::json::{items_view, json_wf, lemma_items_view, valid_number, Json, JsonV};
use crate::model::predicate::{
    lemma_predicates_view, lemma_steps_view, opt_json, predicates_view, steps_view, Predicate,
    PredicateV, Step, StepV,
};
use crate::model::query::Query;
use crate::text::bytes_lt;
use vstd::prelude::*;

verus! {

/// Every JSON value in the predicate is well formed and every number is a
/// valid literal.
pub open spec fn pred_wf(p: PredicateV) -> bool
    decreases p,
{
    match p {
        PredicateV::Eq { value, .. } => json_wf(value),
        PredicateV::In { values, .. } => forall|i: int| 0 <= i < values.len() ==> #[trigger] json_wf(values[i]),
        PredicateV::Any { value } => json_wf(value),
        PredicateV::Range { gt, gte, lt, lte, .. } => bound_wf(gt) && bound_wf(gte) && bound_wf(lt)
            && bound_wf(lte),
        PredicateV::At { value, .. } => valid_number(value),
        PredicateV::Overlap { start, end, .. } => valid_number(start) && valid_number(end),
        PredicateV::Contains { start, end, .. } => valid_number(start) && valid_number(end),
        PredicateV::ContainedBy { start, end, .. } => valid_number(start) && valid_number(end),
        PredicateV::Seek { group, gt, gte, lt, lte, .. } => (forall|i: int|
            0 <= i < group.len() ==> #[trigger] json_wf(group[i])) && bound_wf(gt) && bound_wf(gte)
            && bound_wf(lt) && bound_wf(lte),
        PredicateV::And { args } => args_wf(args),
        PredicateV::Or { args } => args_wf(args),
        PredicateV::Not { arg } => pred_wf(*arg),
        PredicateV::Traverse { from, steps } => pred_wf(*from) && steps_wf(steps),
        _ => true,
    }
}

pub open spec fn args_wf(args: Seq<PredicateV>) -> bool
    decreases args,
{
    args.len() == 0 || (args_wf(args.drop_last()) && pred_wf(args.last()))
}

pub open spec fn steps_wf(steps: Seq<StepV>) -> bool
    decreases steps,
{
    steps.len() == 0 || (steps_wf(steps.drop_last()) && filter_wf(steps.last()))
}

pub open spec fn filter_wf(s: StepV) -> bool
    decreases s,
{
    match s.filter {
        Some(f) => pred_wf(f),
        None => true,
    }
}

/// A value has a posting token.
pub open spec fn token_check(v: JsonV) -> Result<(), Error> {
    match token_spec(v) {
        Ok(_) => Ok(()),
        Err(e) => Err(e),
    }
}

/// Every value has a token; the first refusal in order otherwise.
pub open spec fn tokens_check(vs: Seq<JsonV>) -> Result<(), Error>
    decreases vs.len(),
{
    if vs.len() == 0 {
        Ok(())
    } else {
        first_refusal(tokens_check(vs.drop_last()), token_check(vs.last()))
    }
}

/// A number has a key.
pub open spec fn key_check(n: Seq<char>) -> Result<(), Error> {
    match number_key_spec(n) {
        Ok(_) => Ok(()),
        Err(e) => Err(e),
    }
}

/// Range bounds: not both gt and gte, not both lt and lte, one type.
pub open spec fn bounds_check(
    gt: Option<JsonV>,
    gte: Option<JsonV>,
    lt: Option<JsonV>,
    lte: Option<JsonV>,
) -> Result<(), Error> {
    if gt is Some && gte is Some {
        Err(Error::GtWithGte)
    } else if lt is Some && lte is Some {
        Err(Error::LtWithLte)
    } else {
        match range_kind_spec(gt, gte, lt, lte) {
            Ok(_) => Ok(()),
            Err(e) => Err(e),
        }
    }
}

/// An interval query: both ends have keys and start does not exceed end.
pub open spec fn interval_check(start: Seq<char>, end: Seq<char>) -> Result<(), Error> {
    match (number_key_spec(start), number_key_spec(end)) {
        (Err(e), _) => Err(e),
        (Ok(_), Err(e)) => Err(e),
        (Ok(a), Ok(b)) => if bytes_lt(b, a) {
            Err(Error::IntervalReversed)
        } else {
            Ok(())
        },
    }
}

/// A repeated step's min (1 when absent) does not exceed its max.
pub open spec fn repeat_ok(s: StepV) -> bool {
    match s.max {
        Some(mx) => match s.min {
            Some(mn) => mn <= mx,
            None => 1 <= mx,
        },
        None => true,
    }
}

/// A seek's limit is at most 100000.
pub open spec fn limit_check(limit: Option<usize>) -> Result<(), Error> {
    if limit matches Some(l) && l > 100_000 {
        Err(Error::SeekLimitTooLarge)
    } else {
        Ok(())
    }
}

/// What checking `p` at nesting `depth` answers: each part is checked in
/// order and the first refusal is the answer.
pub open spec fn pred_check(p: PredicateV, depth: nat) -> Result<(), Error>
    decreases p,
{
    if depth >= 64 {
        Err(Error::NestingTooDeep)
    } else {
        match p {
            PredicateV::Eq { field, value } => first_refusal(field_check(field), token_check(value)),
            PredicateV::In { field, values } => first_refusal(field_check(field), tokens_check(values)),
            PredicateV::Any { value } => token_check(value),
            PredicateV::Exists { field } => field_check(field),
            PredicateV::Prefix { field, .. } => field_check(field),
            PredicateV::Range { field, gt, gte, lt, lte } => first_refusal(
                field_check(field),
                bounds_check(gt, gte, lt, lte),
            ),
            PredicateV::At { field, value } => first_refusal(field_check(field), key_check(value)),
            PredicateV::Overlap { field, start, end } => first_refusal(
                field_check(field),
                interval_check(start, end),
            ),
            PredicateV::Contains { field, start, end } => first_refusal(
                field_check(field),
                interval_check(start, end),
            ),
            PredicateV::ContainedBy { field, start, end } => first_refusal(
                field_check(field),
                interval_check(start, end),
            ),
            PredicateV::Seek { index, group, gt, gte, lt, lte, limit, .. } => if index.len() == 0 {
                Err(Error::SeekNeedsIndex)
            } else if group.len() == 0 {
                Err(Error::SeekNeedsGroup)
            } else {
                first_refusal(tokens_check(group), first_refusal(bounds_check(gt, gte, lt, lte), limit_check(limit)))
            },
            PredicateV::HasLink { relation, .. } => if relation.len() == 0 {
                Err(Error::EmptyRelation)
            } else {
                Ok(())
            },
            PredicateV::And { args } => args_check(args, depth + 1),
            PredicateV::Or { args } => args_check(args, depth + 1),
            PredicateV::Not { arg } => pred_check(*arg, depth + 1),
            PredicateV::Traverse { from, steps } => first_refusal(
                pred_check(*from, depth + 1),
                if steps.len() > 64 {
                    Err(Error::TooManySteps)
                } else {
                    steps_check(steps, depth + 1)
                },
            ),
            _ => Ok(()),
        }
    }
}

/// Each predicate in turn; the first refusal.
pub open spec fn args_check(args: Seq<PredicateV>, depth: nat) -> Result<(), Error>
    decreases args,
{
    if args.len() == 0 {
        Ok(())
    } else {
        first_refusal(args_check(args.drop_last(), depth), pred_check(args.last(), depth))
    }
}

/// One traversal step: a relation, min not above max, and its filter.
pub open spec fn step_check(s: StepV, depth: nat) -> Result<(), Error>
    decreases s,
{
    if s.relation.len() == 0 {
        Err(Error::EmptyRelation)
    } else if !repeat_ok(s) {
        Err(Error::StepMinAboveMax)
    } else {
        match s.filter {
            Some(f) => pred_check(f, depth),
            None => Ok(()),
        }
    }
}

/// Each step in turn; the first refusal.
pub open spec fn steps_check(steps: Seq<StepV>, depth: nat) -> Result<(), Error>
    decreases steps,
{
    if steps.len() == 0 {
        Ok(())
    } else {
        first_refusal(steps_check(steps.drop_last(), depth), step_check(steps.last(), depth))
    }
}

/// The predicate is accepted at nesting `depth`.
pub open spec fn pred_ok(p: PredicateV, depth: nat) -> bool {
    pred_check(p, depth) is Ok
}

pub proof fn lemma_args(args: Seq<PredicateV>)
    ensures
        args_wf(args) <==> forall|i: int| 0 <= i < args.len() ==> #[trigger] pred_wf(args[i]),
    decreases args.len(),
{
    if args.len() > 0 {
        let d = args.drop_last();
        lemma_args(d);
        assert(args_wf(args) == (args_wf(d) && pred_wf(args.last())));
        if forall|i: int| 0 <= i < args.len() ==> #[trigger] pred_wf(args[i]) {
            assert forall|i: int| 0 <= i < d.len() implies #[trigger] pred_wf(d[i]) by {
                assert(d[i] == args[i]);
            }
        }
        if args_wf(args) {
            assert forall|i: int| 0 <= i < args.len() implies #[trigger] pred_wf(args[i]) by {
                if i < args.len() - 1 {
                    assert(d[i] == args[i]);
                }
            }
        }
    }
}

pub proof fn lemma_steps(steps: Seq<StepV>)
    ensures
        steps_wf(steps) <==> forall|i: int| 0 <= i < steps.len() ==> #[trigger] filter_wf(steps[i]),
    decreases steps.len(),
{
    if steps.len() > 0 {
        let d = steps.drop_last();
        lemma_steps(d);
        assert(steps_wf(steps) == (steps_wf(d) && filter_wf(steps.last())));
        if forall|i: int| 0 <= i < steps.len() ==> #[trigger] filter_wf(steps[i]) {
            assert forall|i: int| 0 <= i < d.len() implies #[trigger] filter_wf(d[i]) by {
                assert(d[i] == steps[i]);
            }
        }
        if steps_wf(steps) {
            assert forall|i: int| 0 <= i < steps.len() implies #[trigger] filter_wf(steps[i]) by {
                if i < steps.len() - 1 {
                    assert(d[i] == steps[i]);
                }
            }
        }
    }
}

/// Once a prefix of the values is refused, every longer prefix is refused
/// the same way.
pub proof fn lemma_tokens_stuck(vs: Seq<JsonV>, k: int, n: int)
    requires
        0 <= k <= n <= vs.len(),
        tokens_check(vs.take(k)) is Err,
    ensures
        tokens_check(vs.take(n)) == tokens_check(vs.take(k)),
    decreases n - k,
{
    if n > k {
        lemma_tokens_stuck(vs, k, n - 1);
        assert(vs.take(n).drop_last() =~= vs.take(n - 1));
    }
}

pub proof fn lemma_args_stuck(args: Seq<PredicateV>, depth: nat, k: int, n: int)
    requires
        0 <= k <= n <= args.len(),
        args_check(args.take(k), depth) is Err,
    ensures
        args_check(args.take(n), depth) == args_check(args.take(k), depth),
    decreases n - k,
{
    if n > k {
        lemma_args_stuck(args, depth, k, n - 1);
        assert(args.take(n).drop_last() =~= args.take(n - 1));
    }
}

pub proof fn lemma_steps_stuck(steps: Seq<StepV>, depth: nat, k: int, n: int)
    requires
        0 <= k <= n <= steps.len(),
        steps_check(steps.take(k), depth) is Err,
    ensures
        steps_check(steps.take(n), depth) == steps_check(steps.take(k), depth),
    decreases n - k,
{
    if n > k {
        lemma_steps_stuck(steps, depth, k, n - 1);
        assert(steps.take(n).drop_last() =~= steps.take(n - 1));
    }
}

pub proof fn lemma_tokens_next(vs: Seq<JsonV>, i: int)
    requires
        0 <= i < vs.len(),
        tokens_check(vs.take(i)) == Ok::<(), Error>(()),
    ensures
        tokens_check(vs.take(i + 1)) == token_check(vs[i]),
{
    assert(vs.take(i + 1).drop_last() =~= vs.take(i));
}

pub proof fn lemma_args_next(args: Seq<PredicateV>, depth: nat, i: int)
    requires
        0 <= i < args.len(),
        args_check(args.take(i), depth) == Ok::<(), Error>(()),
    ensures
        args_check(args.take(i + 1), depth) == pred_check(args[i], depth),
{
    assert(args.take(i + 1).drop_last() =~= args.take(i));
}

pub proof fn lemma_steps_next(steps: Seq<StepV>, depth: nat, i: int)
    requires
        0 <= i < steps.len(),
        steps_check(steps.take(i), depth) == Ok::<(), Error>(()),
    ensures
        steps_check(steps.take(i + 1), depth) == step_check(steps[i], depth),
{
    assert(steps.take(i + 1).drop_last() =~= steps.take(i));
}

/// Checks the tokens of a list of values.
#[verifier::spinoff_prover]
fn check_tokens(values: &Vec<Json>) -> (r: Result<(), Error>)
    requires
        forall|i: int| 0 <= i < values@.len() ==> #[trigger] json_wf(values@[i]@),
    ensures
        r == tokens_check(items_view(values@)),
{
    let ghost vs = items_view(values@);
    proof {
        lemma_items_view(values@);
    }
    let mut i: usize = 0;
    while i < values.len()
        invariant
            i <= values@.len(),
            vs == items_view(values@),
            vs.len() == values@.len(),
            forall|k: int| 0 <= k < values@.len() ==> #[trigger] vs[k] == values@[k]@,
            forall|k: int| 0 <= k < values@.len() ==> #[trigger] json_wf(values@[k]@),
            tokens_check(vs.take(i as int)) == Ok::<(), Error>(()),
        decreases values@.len() - i,
    {
        proof {
            lemma_tokens_next(vs, i as int);
        }
        match token(&values[i]) {
            Ok(_) => {},
            Err(e) => {
                proof {
                    lemma_tokens_stuck(vs, i + 1, vs.len() as int);
                    assert(vs.take(vs.len() as int) =~= vs);
                }
                return Err(e);
            },
        }
        i += 1;
    }
    assert(vs.take(i as int) =~= vs);
    Ok(())
}

fn check_bounds(gt: &Option<Json>, gte: &Option<Json>, lt: &Option<Json>, lte: &Option<Json>) -> (r:
    Result<(), Error>)
    requires
        bound_wf(opt_json(*gt)),
        bound_wf(opt_json(*gte)),
        bound_wf(opt_json(*lt)),
        bound_wf(opt_json(*lte)),
    ensures
        r == bounds_check(opt_json(*gt), opt_json(*gte), opt_json(*lt), opt_json(*lte)),
{
    if gt.is_some() && gte.is_some() {
        return Err(Error::GtWithGte);
    }
    if lt.is_some() && lte.is_some() {
        return Err(Error::LtWithLte);
    }
    match kind([gt, gte, lt, lte]) {
        Ok(_) => Ok(()),
        Err(e) => Err(e),
    }
}

fn check_interval(start: &crate::json::Number, end: &crate::json::Number) -> (r: Result<(), Error>)
    requires
        valid_number(start.literal@),
        valid_number(end.literal@),
    ensures
        r == interval_check(start.literal@, end.literal@),
{
    let a = number_key(start)?;
    let b = number_key(end)?;
    if crate::text::less_bytes(b.as_slice(), a.as_slice()) {
        Err(Error::IntervalReversed)
    } else {
        Ok(())
    }
}

/// Checks a predicate at nesting `depth` (the top level is 0).
#[verifier::spinoff_prover]
pub fn predicate(p: &Predicate, depth: usize) -> (r: Result<(), Error>)
    requires
        pred_wf(p@),
    ensures
        r == pred_check(p@, depth as nat),
    decreases p,
{
    if depth >= 64 {
        return Err(Error::NestingTooDeep);
    }
    match p {
        Predicate::And { args } => {
            assert(p@ == PredicateV::And { args: predicates_view(args@) });
            check_args(args, depth + 1)
        },
        Predicate::Or { args } => {
            assert(p@ == PredicateV::Or { args: predicates_view(args@) });
            check_args(args, depth + 1)
        },
        Predicate::Not { arg } => {
            assert(p@ == PredicateV::Not { arg: Box::new(arg@) });
            predicate(arg, depth + 1)
        },
        Predicate::Traverse { from, steps } => {
            assert(p@ == PredicateV::Traverse { from: Box::new(from@), steps: steps_view(steps@) });
            proof {
                lemma_steps_view(steps@);
            }
            match predicate(from, depth + 1) {
                Ok(()) => {},
                Err(e) => {
                    return Err(e);
                },
            }
            if steps.len() > 64 {
                return Err(Error::TooManySteps);
            }
            check_steps(steps, depth + 1)
        },
        _ => leaf(p, depth),
    }
}

/// The field check of a predicate.
fn field_then(field: &String) -> (r: Result<(), Error>)
    ensures
        r == field_check(field@),
{
    field_valid(field.as_str())
}

/// Checks a predicate that holds no other predicate.
#[verifier::spinoff_prover]
fn leaf(p: &Predicate, depth: usize) -> (r: Result<(), Error>)
    requires
        pred_wf(p@),
        depth < 64,
        !(p is And || p is Or || p is Not || p is Traverse),
    ensures
        r == pred_check(p@, depth as nat),
{
    match p {
        Predicate::Eq { field, value } => {
            field_then(field)?;
            match token(value) {
                Ok(_) => Ok(()),
                Err(e) => Err(e),
            }
        },
        Predicate::In { field, values } => {
            proof {
                lemma_items_view(values@);
                assert(p@ == PredicateV::In { field: field@, values: items_view(values@) });
                assert(p@->In_values == items_view(values@));
            }
            field_then(field)?;
            assert forall|i: int| 0 <= i < values@.len() implies #[trigger] json_wf(values@[i]@) by {
                assert(json_wf(items_view(values@)[i]));
            }
            check_tokens(values)
        },
        Predicate::Any { value } => match token(value) {
            Ok(_) => Ok(()),
            Err(e) => Err(e),
        },
        Predicate::Exists { field } => field_then(field),
        Predicate::Prefix { field, .. } => field_then(field),
        Predicate::Range { field, gt, gte, lt, lte } => {
            field_then(field)?;
            check_bounds(gt, gte, lt, lte)
        },
        Predicate::At { field, value } => {
            field_then(field)?;
            match number_key(value) {
                Ok(_) => Ok(()),
                Err(e) => Err(e),
            }
        },
        Predicate::Overlap { field, start, end } => {
            field_then(field)?;
            check_interval(start, end)
        },
        Predicate::Contains { field, start, end } => {
            field_then(field)?;
            check_interval(start, end)
        },
        Predicate::ContainedBy { field, start, end } => {
            field_then(field)?;
            check_interval(start, end)
        },
        Predicate::Seek { index, group, gt, gte, lt, lte, limit, .. } => {
            proof {
                lemma_items_view(group@);
                assert(p@->Seek_group == items_view(group@));
            }
            check_seek(index, group, gt, gte, lt, lte, *limit)
        },
        Predicate::HasLink { relation, .. } => {
            if relation.as_str().is_empty() {
                Err(Error::EmptyRelation)
            } else {
                Ok(())
            }
        },
        _ => Ok(()),
    }
}

fn check_seek(
    index: &String,
    group: &Vec<Json>,
    gt: &Option<Json>,
    gte: &Option<Json>,
    lt: &Option<Json>,
    lte: &Option<Json>,
    limit: Option<usize>,
) -> (r: Result<(), Error>)
    requires
        forall|i: int| 0 <= i < items_view(group@).len() ==> #[trigger] json_wf(items_view(group@)[i]),
        items_view(group@).len() == group@.len(),
        forall|i: int| 0 <= i < group@.len() ==> #[trigger] items_view(group@)[i] == group@[i]@,
        bound_wf(opt_json(*gt)),
        bound_wf(opt_json(*gte)),
        bound_wf(opt_json(*lt)),
        bound_wf(opt_json(*lte)),
    ensures
        r == (if index@.len() == 0 {
            Err(Error::SeekNeedsIndex)
        } else if group@.len() == 0 {
            Err(Error::SeekNeedsGroup)
        } else {
            first_refusal(
                tokens_check(items_view(group@)),
                first_refusal(
                    bounds_check(opt_json(*gt), opt_json(*gte), opt_json(*lt), opt_json(*lte)),
                    limit_check(limit),
                ),
            )
        }),
{
    if index.as_str().is_empty() {
        return Err(Error::SeekNeedsIndex);
    }
    if group.len() == 0 {
        return Err(Error::SeekNeedsGroup);
    }
    assert forall|i: int| 0 <= i < group@.len() implies #[trigger] json_wf(group@[i]@) by {
        assert(json_wf(items_view(group@)[i]));
    }
    check_tokens(group)?;
    check_bounds(gt, gte, lt, lte)?;
    match limit {
        Some(l) => {
            if l > 100_000 {
                return Err(Error::SeekLimitTooLarge);
            }
        },
        None => {},
    }
    Ok(())
}

/// Checks each predicate of `args` in turn.
#[verifier::spinoff_prover]
fn check_args(args: &Vec<Predicate>, depth: usize) -> (r: Result<(), Error>)
    requires
        args_wf(predicates_view(args@)),
        depth <= 64,
    ensures
        r == args_check(predicates_view(args@), depth as nat),
    decreases args@,
{
    let ghost vs = predicates_view(args@);
    proof {
        lemma_predicates_view(args@);
        lemma_args(vs);
    }
    let mut i: usize = 0;
    while i < args.len()
        invariant
            i <= args@.len(),
            vs == predicates_view(args@),
            vs.len() == args@.len(),
            forall|k: int| 0 <= k < args@.len() ==> #[trigger] vs[k] == args@[k]@,
            forall|k: int| 0 <= k < vs.len() ==> #[trigger] pred_wf(vs[k]),
            args_check(vs.take(i as int), depth as nat) == Ok::<(), Error>(()),
            depth <= 64,
        decreases args@.len() - i,
    {
        assert(vs[i as int] == args@[i as int]@);
        proof {
            lemma_args_next(vs, depth as nat, i as int);
        }
        let checked = predicate(&args[i], depth);
        assert(checked == pred_check(vs[i as int], depth as nat));
        match checked {
            Ok(()) => {
                proof {
                    lemma_unit_result(checked);
                }
            },
            Err(e) => {
                proof {
                    lemma_args_stuck(vs, depth as nat, i + 1, vs.len() as int);
                    assert(vs.take(vs.len() as int) =~= vs);
                }
                return Err(e);
            },
        }
        i += 1;
    }
    assert(vs.take(i as int) =~= vs);
    Ok(())
}

/// Checks each step of a traversal in turn: a relation, min not above max,
/// and the filter.
#[verifier::spinoff_prover]
fn check_steps(steps: &Vec<Step>, depth: usize) -> (r: Result<(), Error>)
    requires
        steps_wf(steps_view(steps@)),
        depth <= 64,
    ensures
        r == steps_check(steps_view(steps@), depth as nat),
    decreases steps@,
{
    let ghost vs = steps_view(steps@);
    proof {
        lemma_steps_view(steps@);
        lemma_steps(vs);
    }
    let mut i: usize = 0;
    while i < steps.len()
        invariant
            i <= steps@.len(),
            vs == steps_view(steps@),
            vs.len() == steps@.len(),
            forall|k: int| 0 <= k < steps@.len() ==> #[trigger] vs[k] == steps@[k]@,
            forall|k: int| 0 <= k < vs.len() ==> #[trigger] filter_wf(vs[k]),
            steps_check(vs.take(i as int), depth as nat) == Ok::<(), Error>(()),
            depth <= 64,
        decreases steps@.len() - i,
    {
        let step = &steps[i];
        let ghost sv = vs[i as int];
        assert(sv == step@);
        proof {
            lemma_steps_next(vs, depth as nat, i as int);
        }
        let checked = check_step(step, depth);
        match checked {
            Ok(()) => {
                proof {
                    lemma_unit_result(checked);
                }
            },
            Err(e) => {
                proof {
                    lemma_steps_stuck(vs, depth as nat, i + 1, vs.len() as int);
                    assert(vs.take(vs.len() as int) =~= vs);
                }
                return Err(e);
            },
        }
        i += 1;
    }
    assert(vs.take(i as int) =~= vs);
    Ok(())
}

/// Checks one step: a relation, min not above max, and the filter.
#[verifier::spinoff_prover]
fn check_step(step: &Step, depth: usize) -> (r: Result<(), Error>)
    requires
        filter_wf(step@),
        depth <= 64,
    ensures
        r == step_check(step@, depth as nat),
    decreases step,
{
    if step.relation.as_str().is_empty() {
        return Err(Error::EmptyRelation);
    }
    match step.repeat() {
        Some((mn, Some(mx))) => {
            if mn > mx {
                return Err(Error::StepMinAboveMax);
            }
        },
        _ => {},
    }
    match &step.filter {
        Some(f) => {
            assert(step@.filter == Some(f@));
            predicate(f, depth)
        },
        None => Ok(()),
    }
}

/// Most links returned per direction of one Node.
pub open spec fn max_link_limit() -> usize {
    10_000
}

/// Most ids on one page.
pub open spec fn max_page() -> usize {
    100_000
}

/// What checking a whole query answers: its predicate, its page and link
/// limits, and its paging mode (`after` without order, `cursor` only with
/// order), checked in that order.
pub open spec fn query_check(q: Query) -> Result<(), Error> {
    first_refusal(
        pred_check(q.predicate@, 0),
        if q.limit > max_page() {
            Err(Error::PageTooLarge)
        } else if q.link_limit > max_link_limit() {
            Err(Error::LinkLimitTooLarge)
        } else {
            match q.order_by {
                Some(o) => first_refusal(
                    field_check(o.field@),
                    if o.field@.len() == 0 {
                        Err(Error::OrderNeedsField)
                    } else if q.after != 0 {
                        Err(Error::AfterWithOrder)
                    } else {
                        Ok(())
                    },
                ),
                None => if q.cursor is Some {
                    Err(Error::CursorWithoutOrder)
                } else {
                    Ok(())
                },
            }
        },
    )
}

/// The query is accepted.
pub open spec fn query_ok(q: Query) -> bool {
    query_check(q) is Ok
}

/// Checks a whole query before it runs.
pub fn query(q: &Query) -> (r: Result<(), Error>)
    requires
        pred_wf(q.predicate@),
    ensures
        r == query_check(*q),
{
    predicate(&q.predicate, 0)?;
    if q.limit > 100_000 {
        return Err(Error::PageTooLarge);
    }
    if q.link_limit > 10_000 {
        return Err(Error::LinkLimitTooLarge);
    }
    match &q.order_by {
        Some(order) => {
            field_then(&order.field)?;
            if order.field.as_str().is_empty() {
                return Err(Error::OrderNeedsField);
            }
            if q.after != 0 {
                return Err(Error::AfterWithOrder);
            }
        },
        None => {
            if q.cursor.is_some() {
                return Err(Error::CursorWithoutOrder);
            }
        },
    }
    Ok(())
}

} // verus!
