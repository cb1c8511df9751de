//! Why an operation of the library was refused.

use vstd::prelude::*;

verus! {

/// Every refusal the library reports, one variant per rule.
#[derive(Debug, Clone, Copy, PartialEq, Eq, Structural)]
pub enum Error {
    /// A field is neither `@type` nor a JSON Pointer.
    FieldNotPointer,
    /// A `~` in a field is not followed by `0`, `1` or `2`.
    FieldBadEscape,
    /// `~2` appears inside a longer segment.
    FieldTildeTwoNotWhole,
    /// A numeric exponent, or the magnitude derived from it, exceeds i64.
    ExponentOutOfRange,
    /// An array or object was given where a scalar value is required.
    NotScalar,
    /// Hex text of odd length.
    OddHexLength,
    /// Hex text holding something other than hex digit pairs.
    InvalidHex,
    /// A token that is neither a number nor a string token.
    NotSortable,
    /// A Node without a type (blank after trimming).
    TypeRequired,
    /// A Node without a summary (blank after trimming).
    SummaryRequired,
    /// attrs that is not a JSON object.
    AttrsNotObject,
    /// A patch that is not a JSON object.
    PatchNotObject,
    /// A patched or decoded document that is not `{type, summary, attrs}`.
    InvalidNode,
    /// A range bound that is neither a number nor a string.
    RangeBoundType,
    /// Range bounds of different types.
    RangeMixedTypes,
    /// Predicates nested 64 deep or more.
    NestingTooDeep,
    /// Both gt and gte given.
    GtWithGte,
    /// Both lt and lte given.
    LtWithLte,
    /// An interval query whose start exceeds its end.
    IntervalReversed,
    /// seek without an index name.
    SeekNeedsIndex,
    /// seek without group values.
    SeekNeedsGroup,
    /// A seek limit above 100000.
    SeekLimitTooLarge,
    /// A traversal with more than 64 steps.
    TooManySteps,
    /// An empty relation name.
    EmptyRelation,
    /// A repeated step whose min exceeds its max.
    StepMinAboveMax,
    /// A page limit above 100000.
    PageTooLarge,
    /// A link limit above 10000.
    LinkLimitTooLarge,
    /// order_by with an empty field.
    OrderNeedsField,
    /// `after` given together with order_by.
    AfterWithOrder,
    /// A cursor without order_by.
    CursorWithoutOrder,
    /// A predicate or step that is not a JSON object.
    NotAnObject,
    /// A required member is absent.
    MissingField,
    /// A member holds a value of the wrong type or out of range.
    WrongType,
    /// A predicate op that is not known.
    UnknownOp,
    /// A member that the op or step does not take.
    UnknownField,
    /// A cursor that `encode` could not have written.
    InvalidCursor,
    /// String bytes that are not UTF-8.
    NotUtf8,
    /// An index without a name or a type.
    IndexNeedsName,
    /// An index without grouping paths.
    IndexNeedsGrouping,
    /// An empty index path.
    EmptyIndexPath,
    /// An index name already declared with a different definition.
    IndexConflict,
    /// A policy without a type.
    PolicyNeedsType,
    /// A patchable key that is not an attrs pointer.
    PatchKeyNotPointer,
    /// A patch that the type's write policy does not allow.
    PatchNotAllowed,
    /// A delete or replace that the type's write policy does not allow.
    PolicyForbids,
    /// A schema without the named field.
    NoSuchField,
    /// A field that does not read links.
    NotALinkField,
    /// A `--name` flag as the last argument.
    FlagNeedsValue,
}

/// `a`, and when it passes, `b`: the answer of two checks made in turn.
pub open spec fn first_refusal(a: Result<(), Error>, b: Result<(), Error>) -> Result<(), Error> {
    match a {
        Err(e) => Err(e),
        Ok(()) => b,
    }
}

/// The answer of checks made in turn: the first refusal, or `Ok`.
pub open spec fn all_pass(rs: Seq<Result<(), Error>>) -> Result<(), Error>
    decreases rs.len(),
{
    if rs.len() == 0 {
        Ok(())
    } else {
        first_refusal(all_pass(rs.drop_last()), rs.last())
    }
}

/// After `i` passing checks, the answer of `i + 1` checks is the last one's.
pub proof fn lemma_all_pass_next(rs: Seq<Result<(), Error>>, i: int)
    requires
        0 <= i < rs.len(),
        all_pass(rs.take(i)) == Ok::<(), Error>(()),
    ensures
        all_pass(rs.take(i + 1)) == rs[i],
{
    assert(rs.take(i + 1).drop_last() =~= rs.take(i));
}

/// Once refused, more checks keep the same answer.
pub proof fn lemma_all_pass_stuck(rs: Seq<Result<(), Error>>, k: int, n: int)
    requires
        0 <= k <= n <= rs.len(),
        all_pass(rs.take(k)) is Err,
    ensures
        all_pass(rs.take(n)) == all_pass(rs.take(k)),
    decreases n - k,
{
    if n > k {
        lemma_all_pass_stuck(rs, k, n - 1);
        assert(rs.take(n).drop_last() =~= rs.take(n - 1));
    }
}

/// A passing check is `Ok(())`.
pub proof fn lemma_unit_result(r: Result<(), Error>)
    ensures
        r is Ok ==> r == Ok::<(), Error>(()),
{
    if r is Ok {
        let u: () = r->Ok_0;
        assert(u == ());
    }
}

} // verus!
