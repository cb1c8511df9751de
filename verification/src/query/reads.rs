//! The index read each leaf predicate stands for: which field, which
//! tokens or keys, and which relation. A store answers a read with a set of
//! ids; the combining predicates (`all`, `ids`, `and`, `or`, `not`,
//! `traverse`) are evaluated over those sets.

use super::bounds::{
    bound_number_key, lemma_chars_lt_total, law_number_bounds, lower_spec,
    number_bounds, number_bounds_spec, over_lower, passes_all, prefix_range, prefix_range_spec, string_bounds,
    under_upper, upper_spec, Compare, IntervalOp, TokenBound, TokenBoundV,
};
use super::postings::{can_follow, chars_lt, law_prefix_end, prefix_end_spec, starts_with};
use crate::text::bytes_lt;
use crate::types::schema::reads_link;
use super::range::{kind, range_kind_spec, RangeKind};
use super::validate::{pred_check, pred_wf, tokens_check};
use crate::error::Error;
use crate::index::path::{has_wildcard, is_wildcard};
use crate::index::value::{number_key, number_key_spec, token, token_spec};
use crate::index::visit::{exists_token, exists_token_string};
use crate::json::{items_view, lemma_items_view, Json, JsonV};
use crate::model::links::Direction;
use crate::model::node::NodeId;
use crate::model::predicate::{opt_json, Predicate, PredicateV, SortDirection};
use vstd::prelude::*;

verus! {

/// One read of the indexes.
#[derive(Debug, PartialEq, Eq)]
pub enum Read {
    /// The Nodes with `token` posted at `field`.
    Posting { field: String, token: String },
    /// The Nodes holding a scalar at `field`: its token, and its number key
    /// when it is a number (a number held by one Node has no posting).
    Exact { field: String, token: String, number: Option<Vec<u8>> },
    /// The Nodes holding any of these scalars at `field`.
    AnyOf { field: String, tokens: Vec<(String, Option<Vec<u8>>)> },
    /// The Nodes holding the scalar at any concrete attrs path.
    Anywhere { token: String, number: Option<Vec<u8>> },
    /// The Nodes with a token of `field` between the bounds.
    Tokens { field: String, lower: TokenBound, upper: TokenBound },
    /// The Nodes with a number at `field` meeting every bound.
    Numbers { field: String, bounds: Vec<(Compare, Vec<u8>)> },
    /// The Nodes with an interval at `field` in relation `op` to
    /// [start, end).
    Intervals { field: String, op: IntervalOp, start: Vec<u8>, end: Vec<u8> },
    /// Entries of a composite index: the group's value tokens, the bounds'
    /// tokens, the value kind the bounds pick, the direction and the limit.
    Seek {
        index: String,
        group: Vec<String>,
        bounds: Vec<(Compare, String)>,
        kind: Option<RangeKind>,
        direction: SortDirection,
        limit: Option<usize>,
    },
    /// The Nodes at the far end of `relation` links from `target`, read in
    /// `direction`.
    Linked { target: NodeId, relation: String, direction: Direction },
}

pub enum ReadV {
    Posting { field: Seq<char>, token: Seq<char> },
    Exact { field: Seq<char>, token: Seq<char>, number: Option<Seq<u8>> },
    AnyOf { field: Seq<char>, tokens: Seq<(Seq<char>, Option<Seq<u8>>)> },
    Anywhere { token: Seq<char>, number: Option<Seq<u8>> },
    Tokens { field: Seq<char>, lower: TokenBoundV, upper: TokenBoundV },
    Numbers { field: Seq<char>, bounds: Seq<(Compare, Seq<u8>)> },
    Intervals { field: Seq<char>, op: IntervalOp, start: Seq<u8>, end: Seq<u8> },
    Seek {
        index: Seq<char>,
        group: Seq<Seq<char>>,
        bounds: Seq<(Compare, Seq<char>)>,
        kind: Option<RangeKind>,
        direction: SortDirection,
        limit: Option<usize>,
    },
    Linked { target: NodeId, relation: Seq<char>, direction: Direction },
}

pub open spec fn key_view(k: Option<Vec<u8>>) -> Option<Seq<u8>> {
    match k {
        Some(v) => Some(v@),
        None => None,
    }
}

impl View for Read {
    type V = ReadV;

    open spec fn view(&self) -> ReadV {
        match self {
            Read::Posting { field, token } => ReadV::Posting { field: field@, token: token@ },
            Read::Exact { field, token, number } => ReadV::Exact {
                field: field@,
                token: token@,
                number: key_view(*number),
            },
            Read::AnyOf { field, tokens } => ReadV::AnyOf {
                field: field@,
                tokens: tokens@.map_values(|t: (String, Option<Vec<u8>>)| (t.0@, key_view(t.1))),
            },
            Read::Anywhere { token, number } => ReadV::Anywhere { token: token@, number: key_view(*number) },
            Read::Tokens { field, lower, upper } => ReadV::Tokens { field: field@, lower: lower@, upper: upper@ },
            Read::Numbers { field, bounds } => ReadV::Numbers {
                field: field@,
                bounds: bounds@.map_values(|b: (Compare, Vec<u8>)| (b.0, b.1@)),
            },
            Read::Intervals { field, op, start, end } => ReadV::Intervals {
                field: field@,
                op: *op,
                start: start@,
                end: end@,
            },
            Read::Seek { index, group, bounds, kind, direction, limit } => ReadV::Seek {
                index: index@,
                group: group@.map_values(|t: String| t@),
                bounds: bounds@.map_values(|b: (Compare, String)| (b.0, b.1@)),
                kind: *kind,
                direction: *direction,
                limit: *limit,
            },
            Read::Linked { target, relation, direction } => ReadV::Linked {
                target: *target,
                relation: relation@,
                direction: *direction,
            },
        }
    }
}

/// The token of a value with one.
pub open spec fn token_of(v: JsonV) -> (Seq<char>, Option<Seq<u8>>) {
    token_spec(v)->Ok_0
}

/// The key of a number with one.
pub open spec fn key_of(n: Seq<char>) -> Seq<u8> {
    number_key_spec(n)->Ok_0
}

/// A seek bound's token, when the bound is given.
pub open spec fn seek_bound(c: Compare, b: Option<JsonV>) -> Seq<(Compare, Seq<char>)> {
    match b {
        Some(v) => seq![(c, token_of(v).0)],
        None => seq![],
    }
}

/// The read a leaf predicate stands for; None for the predicates that
/// combine other sets.
pub open spec fn read_spec(p: PredicateV) -> Option<ReadV> {
    match p {
        PredicateV::Eq { field, value } => Some(
            ReadV::Exact { field, token: token_of(value).0, number: token_of(value).1 },
        ),
        PredicateV::In { field, values } => Some(
            ReadV::AnyOf { field, tokens: values.map_values(|v: JsonV| token_of(v)) },
        ),
        PredicateV::Any { value } => Some(
            ReadV::Anywhere { token: token_of(value).0, number: token_of(value).1 },
        ),
        PredicateV::Exists { field } => Some(ReadV::Posting { field, token: exists_token() }),
        PredicateV::Prefix { field, prefix } => Some(
            ReadV::Tokens {
                field,
                lower: TokenBoundV::Included(prefix_range_spec(prefix).0),
                upper: TokenBoundV::Excluded(prefix_range_spec(prefix).1),
            },
        ),
        PredicateV::Range { field, gt, gte, lt, lte } => if range_kind_spec(gt, gte, lt, lte)
            == Ok::<RangeKind, Error>(RangeKind::Text) {
            Some(ReadV::Tokens { field, lower: lower_spec(gt, gte), upper: upper_spec(lt, lte) })
        } else {
            Some(ReadV::Numbers { field, bounds: number_bounds_spec(gt, gte, lt, lte) })
        },
        PredicateV::At { field, value } => Some(
            ReadV::Intervals { field, op: IntervalOp::At, start: key_of(value), end: key_of(value) },
        ),
        PredicateV::Overlap { field, start, end } => Some(
            ReadV::Intervals { field, op: IntervalOp::Overlap, start: key_of(start), end: key_of(end) },
        ),
        PredicateV::Contains { field, start, end } => Some(
            ReadV::Intervals { field, op: IntervalOp::Contains, start: key_of(start), end: key_of(end) },
        ),
        PredicateV::ContainedBy { field, start, end } => Some(
            ReadV::Intervals {
                field,
                op: IntervalOp::ContainedBy,
                start: key_of(start),
                end: key_of(end),
            },
        ),
        PredicateV::Seek { index, group, gt, gte, lt, lte, direction, limit } => Some(
            ReadV::Seek {
                index,
                group: group.map_values(|v: JsonV| token_of(v).0),
                bounds: seek_bound(Compare::Above, gt) + seek_bound(Compare::AtLeast, gte)
                    + seek_bound(Compare::Below, lt) + seek_bound(Compare::AtMost, lte),
                kind: if gt is Some || gte is Some || lt is Some || lte is Some {
                    Some(range_kind_spec(gt, gte, lt, lte)->Ok_0)
                } else {
                    None
                },
                direction,
                limit,
            },
        ),
        PredicateV::HasLink { relation, target, direction } => Some(
            ReadV::Linked { target, relation, direction: direction.reverse_spec() },
        ),
        _ => None,
    }
}

/// Values that all have tokens, each one does.
pub proof fn lemma_tokens_ok(vs: Seq<JsonV>)
    requires
        tokens_check(vs) is Ok,
    ensures
        forall|i: int| 0 <= i < vs.len() ==> #[trigger] token_spec(vs[i]) is Ok,
    decreases vs.len(),
{
    if vs.len() > 0 {
        lemma_tokens_ok(vs.drop_last());
        assert forall|i: int| 0 <= i < vs.len() implies #[trigger] token_spec(vs[i]) is Ok by {
            if i < vs.len() - 1 {
                assert(vs.drop_last()[i] == vs[i]);
            }
        }
    }
}

/// The tokens of values that all have one.
fn tokens_of(values: &Vec<Json>) -> (r: Vec<(String, Option<Vec<u8>>)>)
    requires
        forall|i: int| 0 <= i < values@.len() ==> #[trigger] crate::json::json_wf(values@[i]@),
        forall|i: int| 0 <= i < values@.len() ==> #[trigger] token_spec(values@[i]@) is Ok,
    ensures
        r@.map_values(|t: (String, Option<Vec<u8>>)| (t.0@, key_view(t.1))) == items_view(
            values@,
        ).map_values(|v: JsonV| token_of(v)),
{
    proof {
        lemma_items_view(values@);
    }
    let mut out: Vec<(String, Option<Vec<u8>>)> = Vec::new();
    let mut i: usize = 0;
    while i < values.len()
        invariant
            i <= values@.len(),
            out@.len() == i,
            items_view(values@).len() == values@.len(),
            forall|k: int| 0 <= k < values@.len() ==> #[trigger] items_view(values@)[k] == values@[k]@,
            forall|k: int| 0 <= k < values@.len() ==> #[trigger] crate::json::json_wf(values@[k]@),
            forall|k: int| 0 <= k < values@.len() ==> #[trigger] token_spec(values@[k]@) is Ok,
            forall|k: int| 0 <= k < i ==> (#[trigger] out@[k]).0@ == token_of(values@[k]@).0 && key_view(out@[k].1) == token_of(values@[k]@).1,
        decreases values@.len() - i,
    {
        match token(&values[i]) {
            Ok(t) => {
                out.push(t);
            },
            Err(_) => {
                assert(false);
                return out;
            },
        }
        i += 1;
    }
    assert(out@.map_values(|t: (String, Option<Vec<u8>>)| (t.0@, key_view(t.1))) =~= items_view(
        values@,
    ).map_values(|v: JsonV| token_of(v)));
    out
}

/// The token string of a value with one.
fn token_text(v: &Json) -> (r: String)
    requires
        crate::json::json_wf(v@),
        token_spec(v@) is Ok,
    ensures
        r@ == token_of(v@).0,
{
    match token(v) {
        Ok((t, _)) => t,
        Err(_) => {
            assert(false);
            String::new()
        },
    }
}

fn key_bytes(n: &crate::json::Number) -> (r: Vec<u8>)
    requires
        crate::json::valid_number(n.literal@),
        number_key_spec(n.literal@) is Ok,
    ensures
        r@ == key_of(n.literal@),
{
    match number_key(n) {
        Ok(k) => k,
        Err(_) => {
            assert(false);
            Vec::new()
        },
    }
}

fn push_seek_bound(out: &mut Vec<(Compare, String)>, c: Compare, b: &Option<Json>)
    requires
        match opt_json(*b) {
            Some(v) => crate::json::json_wf(v) && token_spec(v) is Ok,
            None => true,
        },
    ensures
        final(out)@.map_values(|x: (Compare, String)| (x.0, x.1@)) == old(out)@.map_values(
            |x: (Compare, String)| (x.0, x.1@),
        ) + seek_bound(c, opt_json(*b)),
{
    match b {
        Some(v) => {
            let t = token_text(v);
            out.push((c, t));
        },
        None => {},
    }
    assert(out@.map_values(|x: (Compare, String)| (x.0, x.1@)) =~= old(out)@.map_values(
        |x: (Compare, String)| (x.0, x.1@),
    ) + seek_bound(c, opt_json(*b)));
}

/// The read a leaf predicate stands for, for a predicate that checking
/// accepts; None for the predicates that combine other sets.
#[verifier::spinoff_prover]
pub fn read_of(p: &Predicate) -> (r: Option<Read>)
    requires
        pred_wf(p@),
        pred_check(p@, 0) is Ok,
    ensures
        match (r, read_spec(p@)) {
            (Some(a), Some(b)) => a@ == b,
            (None, None) => true,
            _ => false,
        },
{
    match p {
        Predicate::Eq { field, value } => match token(value) {
            Ok((t, n)) => Some(Read::Exact { field: field.clone(), token: t, number: n }),
            Err(_) => None,
        },
        Predicate::In { field, values } => {
            proof {
                lemma_items_view(values@);
                assert(p@ == PredicateV::In { field: field@, values: items_view(values@) });
            }
            Some(read_in(field, values))
        },
        Predicate::Any { value } => match token(value) {
            Ok((t, n)) => Some(Read::Anywhere { token: t, number: n }),
            Err(_) => None,
        },
        Predicate::Exists { field } => Some(Read::Posting { field: field.clone(), token: exists_token_string() }),
        Predicate::Prefix { field, prefix } => {
            let (lo, hi) = prefix_range(prefix.as_str());
            Some(Read::Tokens { field: field.clone(), lower: TokenBound::Included(lo), upper: TokenBound::Excluded(hi) })
        },
        Predicate::Range { field, gt, gte, lt, lte } => Some(read_range(field, gt, gte, lt, lte)),
        Predicate::At { field, value } => {
            let k = key_bytes(value);
            let k2 = key_bytes(value);
            Some(Read::Intervals { field: field.clone(), op: IntervalOp::At, start: k, end: k2 })
        },
        Predicate::Overlap { field, start, end } => Some(
            Read::Intervals { field: field.clone(), op: IntervalOp::Overlap, start: key_bytes(start), end: key_bytes(end) },
        ),
        Predicate::Contains { field, start, end } => Some(
            Read::Intervals { field: field.clone(), op: IntervalOp::Contains, start: key_bytes(start), end: key_bytes(end) },
        ),
        Predicate::ContainedBy { field, start, end } => Some(
            Read::Intervals {
                field: field.clone(),
                op: IntervalOp::ContainedBy,
                start: key_bytes(start),
                end: key_bytes(end),
            },
        ),
        Predicate::Seek { index, group, gt, gte, lt, lte, direction, limit } => {
            proof {
                lemma_items_view(group@);
                assert(p@->Seek_group == items_view(group@));
            }
            Some(read_seek(index, group, gt, gte, lt, lte, *direction, *limit))
        },
        Predicate::HasLink { relation, target, direction } => Some(
            Read::Linked { target: *target, relation: relation.clone(), direction: direction.reverse() },
        ),
        _ => None,
    }
}

fn read_in(field: &String, values: &Vec<Json>) -> (r: Read)
    requires
        forall|i: int| 0 <= i < items_view(values@).len() ==> #[trigger] crate::json::json_wf(items_view(values@)[i]),
        tokens_check(items_view(values@)) is Ok,
    ensures
        r@ == (ReadV::AnyOf { field: field@, tokens: items_view(values@).map_values(|v: JsonV| token_of(v)) }),
{
    proof {
        lemma_items_view(values@);
        lemma_tokens_ok(items_view(values@));
        assert forall|i: int| 0 <= i < values@.len() implies #[trigger] token_spec(values@[i]@) is Ok by {
            assert(items_view(values@)[i] == values@[i]@);
        }
        assert forall|i: int| 0 <= i < values@.len() implies #[trigger] crate::json::json_wf(values@[i]@) by {
            assert(items_view(values@)[i] == values@[i]@);
        }
    }
    Read::AnyOf { field: field.clone(), tokens: tokens_of(values) }
}

fn read_range(field: &String, gt: &Option<Json>, gte: &Option<Json>, lt: &Option<Json>, lte: &Option<Json>) -> (r: Read)
    requires
        super::range::bound_wf(opt_json(*gt)),
        super::range::bound_wf(opt_json(*gte)),
        super::range::bound_wf(opt_json(*lt)),
        super::range::bound_wf(opt_json(*lte)),
        range_kind_spec(opt_json(*gt), opt_json(*gte), opt_json(*lt), opt_json(*lte)) is Ok,
    ensures
        r@ == (if range_kind_spec(opt_json(*gt), opt_json(*gte), opt_json(*lt), opt_json(*lte))
            == Ok::<RangeKind, Error>(RangeKind::Text) {
            ReadV::Tokens {
                field: field@,
                lower: lower_spec(opt_json(*gt), opt_json(*gte)),
                upper: upper_spec(opt_json(*lt), opt_json(*lte)),
            }
        } else {
            ReadV::Numbers {
                field: field@,
                bounds: number_bounds_spec(opt_json(*gt), opt_json(*gte), opt_json(*lt), opt_json(*lte)),
            }
        }),
{
    let text = match kind([gt, gte, lt, lte]) {
        Ok(RangeKind::Text) => true,
        _ => false,
    };
    if text {
        let (lower, upper) = string_bounds(gt, gte, lt, lte);
        Read::Tokens { field: field.clone(), lower, upper }
    } else {
        proof {
            lemma_number_bounds_ok(opt_json(*gt), opt_json(*gte), opt_json(*lt), opt_json(*lte));
        }
        Read::Numbers { field: field.clone(), bounds: number_bounds(gt, gte, lt, lte) }
    }
}

#[verifier::spinoff_prover]
fn read_seek(
    index: &String,
    group: &Vec<Json>,
    gt: &Option<Json>,
    gte: &Option<Json>,
    lt: &Option<Json>,
    lte: &Option<Json>,
    direction: SortDirection,
    limit: Option<usize>,
) -> (r: Read)
    requires
        forall|i: int| 0 <= i < items_view(group@).len() ==> #[trigger] crate::json::json_wf(items_view(group@)[i]),
        tokens_check(items_view(group@)) is Ok,
        super::range::bound_wf(opt_json(*gt)),
        super::range::bound_wf(opt_json(*gte)),
        super::range::bound_wf(opt_json(*lt)),
        super::range::bound_wf(opt_json(*lte)),
        range_kind_spec(opt_json(*gt), opt_json(*gte), opt_json(*lt), opt_json(*lte)) is Ok,
    ensures
        r@ == (ReadV::Seek {
            index: index@,
            group: items_view(group@).map_values(|v: JsonV| token_of(v).0),
            bounds: seek_bound(Compare::Above, opt_json(*gt)) + seek_bound(Compare::AtLeast, opt_json(*gte))
                + seek_bound(Compare::Below, opt_json(*lt)) + seek_bound(Compare::AtMost, opt_json(*lte)),
            kind: if gt is Some || gte is Some || lt is Some || lte is Some {
                Some(range_kind_spec(opt_json(*gt), opt_json(*gte), opt_json(*lt), opt_json(*lte))->Ok_0)
            } else {
                None
            },
            direction,
            limit,
        }),
{
    proof {
        lemma_items_view(group@);
        lemma_tokens_ok(items_view(group@));
        assert forall|i: int| 0 <= i < group@.len() implies #[trigger] token_spec(group@[i]@) is Ok by {
            assert(items_view(group@)[i] == group@[i]@);
        }
        assert forall|i: int| 0 <= i < group@.len() implies #[trigger] crate::json::json_wf(group@[i]@) by {
            assert(items_view(group@)[i] == group@[i]@);
        }
        lemma_kind_tokens(opt_json(*gt), opt_json(*gte), opt_json(*lt), opt_json(*lte));
    }
    let tokens = tokens_of(group);
    let mut g: Vec<String> = Vec::new();
    let mut i: usize = 0;
    while i < tokens.len()
        invariant
            i <= tokens@.len(),
            g@.len() == i,
            forall|k: int| 0 <= k < i ==> #[trigger] g@[k]@ == tokens@[k].0@,
        decreases tokens@.len() - i,
    {
        g.push(tokens[i].0.clone());
        i += 1;
    }
    proof {
        let tv = tokens@.map_values(|t: (String, Option<Vec<u8>>)| (t.0@, key_view(t.1)));
        let all = items_view(group@).map_values(|v: JsonV| token_of(v));
        let gv = g@.map_values(|t: String| t@);
        let want = items_view(group@).map_values(|v: JsonV| token_of(v).0);
        assert(tv.len() == all.len());
        assert forall|k: int| 0 <= k < gv.len() implies #[trigger] gv[k] == want[k] by {
            assert(tv[k] == all[k]);
        }
        assert(gv =~= want);
    }
    let mut bounds: Vec<(Compare, String)> = Vec::new();
    assert(bounds@.map_values(|x: (Compare, String)| (x.0, x.1@)) =~= Seq::<(Compare, Seq<char>)>::empty());
    push_seek_bound(&mut bounds, Compare::Above, gt);
    push_seek_bound(&mut bounds, Compare::AtLeast, gte);
    push_seek_bound(&mut bounds, Compare::Below, lt);
    push_seek_bound(&mut bounds, Compare::AtMost, lte);
    let k = if gt.is_some() || gte.is_some() || lt.is_some() || lte.is_some() {
        match kind([gt, gte, lt, lte]) {
            Ok(k) => Some(k),
            Err(_) => None,
        }
    } else {
        None
    };
    Read::Seek { index: index.clone(), group: g, bounds, kind: k, direction, limit }
}

/// The bounds of an accepted number range have keys.
proof fn lemma_number_bounds_ok(gt: Option<JsonV>, gte: Option<JsonV>, lt: Option<JsonV>, lte: Option<JsonV>)
    requires
        range_kind_spec(gt, gte, lt, lte) == Ok::<RangeKind, Error>(RangeKind::Number),
    ensures
        super::bounds::number_bound_ok(gt),
        super::bounds::number_bound_ok(gte),
        super::bounds::number_bound_ok(lt),
        super::bounds::number_bound_ok(lte),
{
}

/// The bounds of an accepted range have tokens.
proof fn lemma_kind_tokens(gt: Option<JsonV>, gte: Option<JsonV>, lt: Option<JsonV>, lte: Option<JsonV>)
    requires
        range_kind_spec(gt, gte, lt, lte) is Ok,
    ensures
        gt matches Some(v) ==> token_spec(v) is Ok,
        gte matches Some(v) ==> token_spec(v) is Ok,
        lt matches Some(v) ==> token_spec(v) is Ok,
        lte matches Some(v) ==> token_spec(v) is Ok,
{
}

/// A number held at a path by a single Node has no posting and no count;
/// its Nodes are read from the number rows instead.
pub fn from_number_rows(count: u64, number: &Option<Vec<u8>>) -> (b: bool)
    ensures
        b == (count == 0 && number is Some),
{
    count == 0 && number.is_some()
}

/// The fields an `any` read looks at: concrete attrs paths. Wildcard paths
/// repeat the Nodes of the concrete ones, and `@type` is not an attribute.
pub fn attribute_field(field: &str) -> (b: bool)
    ensures
        b == (field@.len() > 0 && field@[0] == '/' && !has_wildcard(field@)),
{
    let c = crate::text::chars_of(field);
    c.len() > 0 && c[0] == '/' && !is_wildcard(field)
}

/// Up to this many candidates, a read looks each candidate up instead of
/// scanning the whole field.
pub open spec fn lookup_limit() -> u64 {
    2048
}

/// Whether a read looks each of `candidates` Nodes up.
pub fn look_up_each(candidates: u64) -> (b: bool)
    ensures
        b == (candidates <= lookup_limit()),
{
    candidates <= 2048
}

/// Below this many candidates, a posting read fetches only the bitmap
/// blocks (of 65536 ids each) that hold candidates.
pub fn blocks_of_candidates(candidates: u64) -> (b: bool)
    ensures
        b == (candidates < 32768),
{
    candidates < 32768
}


/// What a string range admits below: strictly above a `gt` string, else at
/// or above a `gte` string, else every string token and what sorts after.
pub open spec fn above_ok(t: Seq<char>, gt: Option<JsonV>, gte: Option<JsonV>) -> bool {
    match (gt, gte) {
        (Some(JsonV::Str(v)), _) => chars_lt(seq!['s', ':'] + v, t),
        (_, Some(JsonV::Str(v))) => t == seq!['s', ':'] + v || chars_lt(seq!['s', ':'] + v, t),
        _ => !chars_lt(t, seq!['s', ':']),
    }
}

/// What a string range admits above: strictly below an `lt` string, else
/// at or below an `lte` string, else every token before those past the
/// string tokens.
pub open spec fn below_ok(t: Seq<char>, lt: Option<JsonV>, lte: Option<JsonV>) -> bool {
    match (lt, lte) {
        (Some(JsonV::Str(v)), _) => chars_lt(t, seq!['s', ':'] + v),
        (_, Some(JsonV::Str(v))) => t == seq!['s', ':'] + v || chars_lt(t, seq!['s', ':'] + v),
        _ => chars_lt(t, prefix_end_spec(seq!['s', ':'])),
    }
}

/// A string range reads the tokens of its field that its bounds admit:
/// above `gt` strictly or from `gte`, below `lt` strictly or up to `lte`.
pub proof fn law_read_string_range(
    field: Seq<char>,
    gt: Option<JsonV>,
    gte: Option<JsonV>,
    lt: Option<JsonV>,
    lte: Option<JsonV>,
    t: Seq<char>,
)
    requires
        range_kind_spec(gt, gte, lt, lte) == Ok::<RangeKind, Error>(RangeKind::Text),
    ensures
        read_spec(PredicateV::Range { field, gt, gte, lt, lte }) matches Some(ReadV::Tokens { field: f, lower, upper })
            && f == field && over_lower(t, lower) == above_ok(t, gt, gte) && under_upper(t, upper) == below_ok(
            t,
            lt,
            lte,
        ),
{
    lemma_chars_lt_total(t, seq!['s', ':']);
    assert(prefix_end_spec(seq!['s', ':']) =~= seq!['s', ';']) by {
        assert(seq!['s', ':'].drop_last() =~= seq!['s']);
    }
}

/// A number range reads the number rows of its field whose keys its
/// bounds admit: above `gt`, at or above `gte`, below `lt`, at or below
/// `lte`.
pub proof fn law_read_number_range(
    field: Seq<char>,
    gt: Option<JsonV>,
    gte: Option<JsonV>,
    lt: Option<JsonV>,
    lte: Option<JsonV>,
    k: Seq<u8>,
)
    requires
        range_kind_spec(gt, gte, lt, lte) != Ok::<RangeKind, Error>(RangeKind::Text),
    ensures
        read_spec(PredicateV::Range { field, gt, gte, lt, lte }) matches Some(ReadV::Numbers { field: f, bounds })
            && f == field && passes_all(k, bounds) == ((bound_number_key(gt) matches Some(g) ==> bytes_lt(g, k))
            && (bound_number_key(gte) matches Some(g) ==> (g == k || bytes_lt(g, k))) && (bound_number_key(lt) matches Some(
            l,
        ) ==> bytes_lt(k, l)) && (bound_number_key(lte) matches Some(l) ==> (k == l || bytes_lt(k, l)))),
{
    law_number_bounds(k, gt, gte, lt, lte);
}

/// A prefix query reads exactly the string tokens of its field that start
/// with the prefix.
pub proof fn law_read_prefix(field: Seq<char>, prefix: Seq<char>, t: Seq<char>)
    ensures
        read_spec(PredicateV::Prefix { field, prefix }) matches Some(ReadV::Tokens { field: f, lower, upper })
            && f == field && (over_lower(t, lower) && under_upper(t, upper)) == starts_with(
            t,
            seq!['s', ':'] + prefix,
        ),
{
    let p = seq!['s', ':'] + prefix;
    assert(can_follow(p)) by {
        assert(p[0] == 's');
        assert((p[0] as u32) < 0x10FFFF);
    }
    law_prefix_end(p, t);
    lemma_chars_lt_total(t, p);
}

/// `has_link` reads the Nodes linked to its target by its relation: with
/// `out`, the sources of the links that end at the target; with `in`, the
/// ends of the links that start there.
pub proof fn law_read_has_link(relation: Seq<char>, target: NodeId, direction: Direction, n: NodeId, link: (NodeId, NodeId))
    ensures
        read_spec(PredicateV::HasLink { relation, target, direction }) matches Some(
            ReadV::Linked { target: tg, relation: r, direction: d },
        ) && tg == target && r == relation && (reads_link(d, target, link) == Some(n)) == (match direction {
            Direction::Out => link == (n, target),
            Direction::In => link == (target, n),
        }),
{
}

/// A token meets one seek bound: above it, at or above it, below it, at or
/// below it.
pub open spec fn meets(t: Seq<char>, b: (Compare, Seq<char>)) -> bool {
    match b.0 {
        Compare::Above => chars_lt(b.1, t),
        Compare::AtLeast => b.1 == t || chars_lt(b.1, t),
        Compare::Below => chars_lt(t, b.1),
        Compare::AtMost => t == b.1 || chars_lt(t, b.1),
    }
}

pub open spec fn meets_all(t: Seq<char>, bs: Seq<(Compare, Seq<char>)>) -> bool {
    forall|i: int| 0 <= i < bs.len() ==> meets(t, #[trigger] bs[i])
}

proof fn lemma_meets_concat(t: Seq<char>, a: Seq<(Compare, Seq<char>)>, b: Seq<(Compare, Seq<char>)>)
    ensures
        meets_all(t, a + b) == (meets_all(t, a) && meets_all(t, b)),
{
    if meets_all(t, a + b) {
        assert forall|i: int| 0 <= i < a.len() implies meets(t, #[trigger] a[i]) by {
            assert((a + b)[i] == a[i]);
        }
        assert forall|i: int| 0 <= i < b.len() implies meets(t, #[trigger] b[i]) by {
            assert((a + b)[a.len() + i] == b[i]);
        }
    }
    if meets_all(t, a) && meets_all(t, b) {
        assert forall|i: int| 0 <= i < (a + b).len() implies meets(t, #[trigger] (a + b)[i]) by {
            if i < a.len() {
                assert((a + b)[i] == a[i]);
            } else {
                assert((a + b)[i] == b[i - a.len()]);
            }
        }
    }
}

proof fn lemma_meets_one(t: Seq<char>, c: Compare, b: Option<JsonV>)
    ensures
        meets_all(t, seek_bound(c, b)) == (b matches Some(v) ==> meets(t, (c, token_of(v).0))),
{
    let bs = seek_bound(c, b);
    if let Some(v) = b {
        assert(bs =~= seq![(c, token_of(v).0)]);
        if meets(t, (c, token_of(v).0)) {
            assert forall|i: int| 0 <= i < bs.len() implies meets(t, #[trigger] bs[i]) by {
                assert(bs[i] == (c, token_of(v).0));
            }
        } else {
            assert(bs[0] == (c, token_of(v).0));
        }
    } else {
        assert(bs.len() == 0);
    }
}

/// A seek keeps the entries its bounds admit: above the token of `gt`, at
/// or above that of `gte`, below that of `lt`, at or below that of `lte`.
pub proof fn law_read_seek_bounds(
    index: Seq<char>,
    group: Seq<JsonV>,
    gt: Option<JsonV>,
    gte: Option<JsonV>,
    lt: Option<JsonV>,
    lte: Option<JsonV>,
    direction: SortDirection,
    limit: Option<usize>,
    t: Seq<char>,
)
    ensures
        read_spec(PredicateV::Seek { index, group, gt, gte, lt, lte, direction, limit }) matches Some(
            ReadV::Seek { index: i, bounds, direction: d, limit: l, .. },
        ) && i == index && d == direction && l == limit && meets_all(t, bounds) == ((gt matches Some(v) ==> chars_lt(
            token_of(v).0,
            t,
        )) && (gte matches Some(v) ==> (token_of(v).0 == t || chars_lt(token_of(v).0, t))) && (lt matches Some(v)
            ==> chars_lt(t, token_of(v).0)) && (lte matches Some(v) ==> (t == token_of(v).0 || chars_lt(
            t,
            token_of(v).0,
        )))),
{
    let a = seek_bound(Compare::Above, gt);
    let b = seek_bound(Compare::AtLeast, gte);
    let c = seek_bound(Compare::Below, lt);
    let e = seek_bound(Compare::AtMost, lte);
    lemma_meets_one(t, Compare::Above, gt);
    lemma_meets_one(t, Compare::AtLeast, gte);
    lemma_meets_one(t, Compare::Below, lt);
    lemma_meets_one(t, Compare::AtMost, lte);
    lemma_meets_concat(t, a, b);
    lemma_meets_concat(t, a + b, c);
    lemma_meets_concat(t, a + b + c, e);
}

} // verus!
