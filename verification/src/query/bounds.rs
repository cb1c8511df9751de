//! The token and key bounds a leaf predicate reads postings, number rows
//! and interval rows by.

use super::postings::{can_follow, chars_lt, law_prefix_end, next_char, prefix_end, prefix_end_spec, starts_with};
use crate::text::bytes_lt;
use crate::error::Error;
use crate::index::value::{number_key, number_key_spec};
use crate::json::{json_wf, valid_number, Json, JsonV};
use crate::model::predicate::opt_json;
use crate::text::prefixed;
use vstd::prelude::*;

verus! {

/// One end of a token range.
#[derive(Debug, Clone, PartialEq, Eq)]
pub enum TokenBound {
    Included(String),
    Excluded(String),
}

pub enum TokenBoundV {
    Included(Seq<char>),
    Excluded(Seq<char>),
}

impl View for TokenBound {
    type V = TokenBoundV;

    open spec fn view(&self) -> TokenBoundV {
        match self {
            TokenBound::Included(s) => TokenBoundV::Included(s@),
            TokenBound::Excluded(s) => TokenBoundV::Excluded(s@),
        }
    }
}

/// The string token of a string bound.
pub open spec fn text_token(b: Option<JsonV>) -> Option<Seq<char>> {
    match b {
        Some(JsonV::Str(s)) => Some(seq!['s', ':'] + s),
        _ => None,
    }
}

/// The lower end of a string range: after gt, from gte, else from the first
/// string token.
pub open spec fn lower_spec(gt: Option<JsonV>, gte: Option<JsonV>) -> TokenBoundV {
    match (text_token(gt), text_token(gte)) {
        (Some(t), _) => TokenBoundV::Excluded(t),
        (_, Some(t)) => TokenBoundV::Included(t),
        _ => TokenBoundV::Included(seq!['s', ':']),
    }
}

/// The upper end of a string range: before lt, up to lte, else below `s;`,
/// the first token past every string.
pub open spec fn upper_spec(lt: Option<JsonV>, lte: Option<JsonV>) -> TokenBoundV {
    match (text_token(lt), text_token(lte)) {
        (Some(t), _) => TokenBoundV::Excluded(t),
        (_, Some(t)) => TokenBoundV::Included(t),
        _ => TokenBoundV::Excluded(seq!['s', ';']),
    }
}

fn text_token_of(b: &Option<Json>) -> (r: Option<String>)
    ensures
        match (r, text_token(opt_json(*b))) {
            (Some(a), Some(t)) => a@ == t,
            (None, None) => true,
            _ => false,
        },
{
    match b {
        Some(Json::Str(s)) => Some(prefixed('s', ':', s.as_str())),
        _ => None,
    }
}

/// String tokens are ordered by their UTF-8 bytes inside the `s:` prefix.
pub fn string_bounds(gt: &Option<Json>, gte: &Option<Json>, lt: &Option<Json>, lte: &Option<Json>) -> (r: (TokenBound, TokenBound))
    ensures
        r.0@ == lower_spec(opt_json(*gt), opt_json(*gte)),
        r.1@ == upper_spec(opt_json(*lt), opt_json(*lte)),
{
    let lower = match (text_token_of(gt), text_token_of(gte)) {
        (Some(t), _) => TokenBound::Excluded(t),
        (_, Some(t)) => TokenBound::Included(t),
        _ => TokenBound::Included(prefixed('s', ':', "")),
    };
    let upper = match (text_token_of(lt), text_token_of(lte)) {
        (Some(t), _) => TokenBound::Excluded(t),
        (_, Some(t)) => TokenBound::Included(t),
        _ => TokenBound::Excluded(prefixed('s', ';', "")),
    };
    proof {
        assert(seq!['s', ':'] + ""@ =~= seq!['s', ':']) by {
            reveal_strlit("");
        }
        assert(seq!['s', ';'] + ""@ =~= seq!['s', ';']) by {
            reveal_strlit("");
        }
    }
    (lower, upper)
}

/// The token range of the strings starting with `prefix`.
pub open spec fn prefix_range_spec(prefix: Seq<char>) -> (Seq<char>, Seq<char>) {
    let start = seq!['s', ':'] + prefix;
    (start, prefix_end_spec(start))
}

/// From `s:` + prefix, up to but excluding the first token past them all.
pub fn prefix_range(prefix: &str) -> (r: (String, String))
    ensures
        r.0@ == prefix_range_spec(prefix@).0,
        r.1@ == prefix_range_spec(prefix@).1,
{
    let start = prefixed('s', ':', prefix);
    assert(start@[0] == 's');
    assert(can_follow(start@)) by {
        assert((start@[0] as u32) < 0x10FFFF);
    }
    let end = prefix_end(start.as_str());
    (start, end)
}

/// How a number row's key is compared with a bound.
#[derive(PartialEq, Eq, Structural, Clone, Copy, Debug)]
pub enum Compare {
    Above,
    AtLeast,
    Below,
    AtMost,
}

/// The number-key bounds of a number range, in the order gt, gte, lt, lte.
pub open spec fn number_bounds_spec(gt: Option<JsonV>, gte: Option<JsonV>, lt: Option<JsonV>, lte: Option<JsonV>) -> Seq<(Compare, Seq<u8>)> {
    bound_key(Compare::Above, gt) + bound_key(Compare::AtLeast, gte) + bound_key(Compare::Below, lt)
        + bound_key(Compare::AtMost, lte)
}

pub open spec fn bound_key(c: Compare, b: Option<JsonV>) -> Seq<(Compare, Seq<u8>)> {
    match b {
        Some(JsonV::Number(n)) => match number_key_spec(n) {
            Ok(k) => seq![(c, k)],
            Err(_) => seq![],
        },
        _ => seq![],
    }
}

/// A bound is a number with a key, or not a number.
pub open spec fn number_bound_ok(b: Option<JsonV>) -> bool {
    b matches Some(JsonV::Number(n)) ==> number_key_spec(n) is Ok
}

fn push_bound(out: &mut Vec<(Compare, Vec<u8>)>, c: Compare, b: &Option<Json>)
    requires
        match opt_json(*b) {
            Some(v) => json_wf(v),
            None => true,
        },
        number_bound_ok(opt_json(*b)),
    ensures
        bounds_view(final(out)@) == bounds_view(old(out)@) + bound_key(c, opt_json(*b)),
{
    match b {
        Some(Json::Number(n)) => {
            match number_key(n) {
                Ok(k) => {
                    let ghost before = out@;
                    out.push((c, k));
                    assert(bounds_view(out@) =~= bounds_view(before) + bound_key(c, opt_json(*b)));
                },
                Err(_) => {},
            }
        },
        _ => {
            assert(bound_key(c, opt_json(*b)) =~= Seq::<(Compare, Seq<u8>)>::empty());
            assert(bounds_view(out@) =~= bounds_view(out@) + bound_key(c, opt_json(*b)));
        },
    }
}

pub open spec fn bounds_view(v: Seq<(Compare, Vec<u8>)>) -> Seq<(Compare, Seq<u8>)> {
    v.map_values(|b: (Compare, Vec<u8>)| (b.0, b.1@))
}

/// The key bounds a number range reads number rows by.
pub fn number_bounds(gt: &Option<Json>, gte: &Option<Json>, lt: &Option<Json>, lte: &Option<Json>) -> (r: Vec<(Compare, Vec<u8>)>)
    requires
        match opt_json(*gt) { Some(v) => json_wf(v), None => true },
        match opt_json(*gte) { Some(v) => json_wf(v), None => true },
        match opt_json(*lt) { Some(v) => json_wf(v), None => true },
        match opt_json(*lte) { Some(v) => json_wf(v), None => true },
        number_bound_ok(opt_json(*gt)),
        number_bound_ok(opt_json(*gte)),
        number_bound_ok(opt_json(*lt)),
        number_bound_ok(opt_json(*lte)),
    ensures
        bounds_view(r@) == number_bounds_spec(opt_json(*gt), opt_json(*gte), opt_json(*lt), opt_json(*lte)),
{
    let mut out: Vec<(Compare, Vec<u8>)> = Vec::new();
    assert(bounds_view(out@) =~= Seq::<(Compare, Seq<u8>)>::empty());
    push_bound(&mut out, Compare::Above, gt);
    push_bound(&mut out, Compare::AtLeast, gte);
    push_bound(&mut out, Compare::Below, lt);
    push_bound(&mut out, Compare::AtMost, lte);
    out
}

/// The four interval relations.
#[derive(PartialEq, Eq, Structural, Clone, Copy, Debug)]
pub enum IntervalOp {
    At,
    Overlap,
    Contains,
    ContainedBy,
}

impl IntervalOp {
    /// The row condition: a row is [lo, hi), ?2 and ?3 are the query start
    /// and end (At passes the instant twice).
    pub fn condition(self) -> (s: &'static str)
        ensures
            s@ == (match self {
                IntervalOp::At => "lo<=?2 AND (hi>?3 OR (hi=lo AND lo=?2))"@,
                IntervalOp::Overlap => "lo<?3 AND (hi>?2 OR (hi=lo AND lo>=?2))"@,
                IntervalOp::Contains => "lo<=?2 AND hi>=?3"@,
                IntervalOp::ContainedBy => "lo>=?2 AND lo<=?3 AND hi<=?3 AND (hi>lo OR lo<?3)"@,
            }),
    {
        match self {
            IntervalOp::At => "lo<=?2 AND (hi>?3 OR (hi=lo AND lo=?2))",
            IntervalOp::Overlap => "lo<?3 AND (hi>?2 OR (hi=lo AND lo>=?2))",
            IntervalOp::Contains => "lo<=?2 AND hi>=?3",
            IntervalOp::ContainedBy => "lo>=?2 AND lo<=?3 AND hi<=?3 AND (hi>lo OR lo<?3)",
        }
    }

    /// Which instant bounds the starts a full scan must read: the query
    /// end for Contains, the start for At and Overlap, none for ContainedBy.
    pub fn reach_is_end(self) -> (r: Option<bool>)
        ensures
            r == (match self {
                IntervalOp::ContainedBy => None,
                IntervalOp::Contains => Some(true),
                _ => Some(false),
            }),
    {
        match self {
            IntervalOp::ContainedBy => None,
            IntervalOp::Contains => Some(true),
            _ => Some(false),
        }
    }
}

/// The keys of an interval query: its start and end.
pub fn interval_keys(start: &crate::json::Number, end: &crate::json::Number) -> (r: Result<(Vec<u8>, Vec<u8>), Error>)
    requires
        valid_number(start.literal@),
        valid_number(end.literal@),
    ensures
        match r {
            Ok((a, b)) => number_key_spec(start.literal@) == Ok::<Seq<u8>, Error>(a@)
                && number_key_spec(end.literal@) == Ok::<Seq<u8>, Error>(b@),
            Err(e) => number_key_spec(start.literal@) == Err::<Seq<u8>, Error>(e) || (number_key_spec(
                start.literal@,
            ) is Ok && number_key_spec(end.literal@) == Err::<Seq<u8>, Error>(e)),
        },
{
    let a = match number_key(start) {
        Ok(k) => k,
        Err(e) => {
            return Err(e);
        },
    };
    match number_key(end) {
        Ok(b) => Ok((a, b)),
        Err(e) => Err(e),
    }
}


/// A token lies within an upper end: strictly below an excluded token, at
/// or below an included one.
pub open spec fn under_upper(t: Seq<char>, b: TokenBoundV) -> bool {
    match b {
        TokenBoundV::Included(u) => t == u || chars_lt(t, u),
        TokenBoundV::Excluded(u) => chars_lt(t, u),
    }
}

/// A token lies within a lower end: strictly above an excluded token, at or
/// above an included one.
pub open spec fn over_lower(t: Seq<char>, b: TokenBoundV) -> bool {
    match b {
        TokenBoundV::Included(l) => t == l || chars_lt(l, t),
        TokenBoundV::Excluded(l) => chars_lt(l, t),
    }
}

/// A string range keeps the tokens its bounds admit: below `lt`
/// strictly (whatever `lte` says), up to `lte` inclusively when `lt` is not
/// a string, above `gt` strictly (whatever `gte` says), and from `gte`
/// inclusively when `gt` is not a string. The token of a string `v` is
/// `s:` followed by `v`.
pub proof fn law_string_bounds(t: Seq<char>, v: Seq<char>, other: Option<JsonV>, not_string: Option<JsonV>)
    requires
        !(not_string matches Some(JsonV::Str(_))),
    ensures
        under_upper(t, upper_spec(Some(JsonV::Str(v)), other)) == chars_lt(t, seq!['s', ':'] + v),
        under_upper(t, upper_spec(not_string, Some(JsonV::Str(v)))) == (t == seq!['s', ':'] + v || chars_lt(
            t,
            seq!['s', ':'] + v,
        )),
        over_lower(t, lower_spec(Some(JsonV::Str(v)), other)) == chars_lt(seq!['s', ':'] + v, t),
        over_lower(t, lower_spec(not_string, Some(JsonV::Str(v)))) == (t == seq!['s', ':'] + v || chars_lt(
            seq!['s', ':'] + v,
            t,
        )),
{
}

/// A number-row key passes one bound: above it (gt), at or above it (gte),
/// below it (lt), at or below it (lte).
pub open spec fn passes(k: Seq<u8>, b: (Compare, Seq<u8>)) -> bool {
    match b.0 {
        Compare::Above => bytes_lt(b.1, k),
        Compare::AtLeast => b.1 == k || bytes_lt(b.1, k),
        Compare::Below => bytes_lt(k, b.1),
        Compare::AtMost => k == b.1 || bytes_lt(k, b.1),
    }
}

/// A key passes every bound.
pub open spec fn passes_all(k: Seq<u8>, bs: Seq<(Compare, Seq<u8>)>) -> bool {
    forall|i: int| 0 <= i < bs.len() ==> passes(k, #[trigger] bs[i])
}

/// The number key of a bound that is a number with a key.
pub open spec fn bound_number_key(b: Option<JsonV>) -> Option<Seq<u8>> {
    match b {
        Some(JsonV::Number(n)) => match number_key_spec(n) {
            Ok(k) => Some(k),
            Err(_) => None,
        },
        _ => None,
    }
}

proof fn lemma_passes_concat(k: Seq<u8>, a: Seq<(Compare, Seq<u8>)>, b: Seq<(Compare, Seq<u8>)>)
    ensures
        passes_all(k, a + b) == (passes_all(k, a) && passes_all(k, b)),
{
    if passes_all(k, a + b) {
        assert forall|i: int| 0 <= i < a.len() implies passes(k, #[trigger] a[i]) by {
            assert((a + b)[i] == a[i]);
        }
        assert forall|i: int| 0 <= i < b.len() implies passes(k, #[trigger] b[i]) by {
            assert((a + b)[a.len() + i] == b[i]);
        }
    }
    if passes_all(k, a) && passes_all(k, b) {
        assert forall|i: int| 0 <= i < (a + b).len() implies passes(k, #[trigger] (a + b)[i]) by {
            if i < a.len() {
                assert((a + b)[i] == a[i]);
            } else {
                assert((a + b)[i] == b[i - a.len()]);
            }
        }
    }
}

proof fn lemma_passes_one(k: Seq<u8>, c: Compare, b: Option<JsonV>)
    ensures
        passes_all(k, bound_key(c, b)) == (bound_number_key(b) matches Some(x) ==> passes(k, (c, x))),
{
    let bs = bound_key(c, b);
    if let Some(x) = bound_number_key(b) {
        assert(bs =~= seq![(c, x)]);
        if passes(k, (c, x)) {
            assert forall|i: int| 0 <= i < bs.len() implies passes(k, #[trigger] bs[i]) by {
                assert(bs[i] == (c, x));
            }
        } else {
            assert(bs[0] == (c, x));
        }
    } else {
        assert(bs.len() == 0);
    }
}

/// A number range keeps exactly the keys its bounds admit: above `gt`, at
/// or above `gte`, below `lt`, at or below `lte`, each bound that is a
/// number taken by its key and the others ignored.
pub proof fn law_number_bounds(k: Seq<u8>, gt: Option<JsonV>, gte: Option<JsonV>, lt: Option<JsonV>, lte: Option<JsonV>)
    ensures
        passes_all(k, number_bounds_spec(gt, gte, lt, lte)) == ((bound_number_key(gt) matches Some(g)
            ==> bytes_lt(g, k)) && (bound_number_key(gte) matches Some(g) ==> (g == k || bytes_lt(g, k)))
            && (bound_number_key(lt) matches Some(l) ==> bytes_lt(k, l)) && (bound_number_key(lte) matches Some(
            l,
        ) ==> (k == l || bytes_lt(k, l)))),
{
    let a = bound_key(Compare::Above, gt);
    let b = bound_key(Compare::AtLeast, gte);
    let c = bound_key(Compare::Below, lt);
    let d = bound_key(Compare::AtMost, lte);
    lemma_passes_one(k, Compare::Above, gt);
    lemma_passes_one(k, Compare::AtLeast, gte);
    lemma_passes_one(k, Compare::Below, lt);
    lemma_passes_one(k, Compare::AtMost, lte);
    lemma_passes_concat(k, a, b);
    lemma_passes_concat(k, a + b, c);
    lemma_passes_concat(k, a + b + c, d);
}


pub proof fn lemma_chars_lt_total(a: Seq<char>, b: Seq<char>)
    ensures
        chars_lt(a, b) || a == b || chars_lt(b, a),
        !(chars_lt(a, b) && chars_lt(b, a)),
        !chars_lt(a, a),
    decreases a.len(),
{
    if a.len() > 0 {
        lemma_chars_lt_total(a.drop_first(), a.drop_first());
    }
    if a.len() > 0 && b.len() > 0 && a[0] == b[0] {
        lemma_chars_lt_total(a.drop_first(), b.drop_first());
        if a.drop_first() == b.drop_first() {
            assert(a =~= seq![a[0]] + a.drop_first());
            assert(b =~= seq![b[0]] + b.drop_first());
        }
    }
    if a.len() > 0 && b.len() > 0 && a[0] != b[0] {
        vstd::utf8::char_is_scalar(a[0]);
        vstd::utf8::char_is_scalar(b[0]);
        if a[0] as u32 == b[0] as u32 {
            vstd::utf8::char_u32_cast(a[0], a[0] as u32);
            vstd::utf8::char_u32_cast(b[0], b[0] as u32);
        }
    }
    if a.len() == 0 && b.len() == 0 {
        assert(a =~= b);
    }
}

/// With no string bound, a string range keeps exactly the string tokens,
/// those starting with `s:`.
pub proof fn law_string_default(t: Seq<char>, gt: Option<JsonV>, gte: Option<JsonV>, lt: Option<JsonV>, lte: Option<JsonV>)
    requires
        !(gt matches Some(JsonV::Str(_))),
        !(gte matches Some(JsonV::Str(_))),
        !(lt matches Some(JsonV::Str(_))),
        !(lte matches Some(JsonV::Str(_))),
    ensures
        (over_lower(t, lower_spec(gt, gte)) && under_upper(t, upper_spec(lt, lte))) == starts_with(t, seq!['s', ':']),
{
    let p = seq!['s', ':'];
    assert(can_follow(p)) by {
        assert((p[0] as u32) < 0x10FFFF);
    }
    law_prefix_end(p, t);
    assert(p.last() == ':');
    assert(p.drop_last() =~= seq!['s']);
    assert(next_char(':') == ';');
    assert(prefix_end_spec(p) =~= seq!['s', ';']);
    lemma_chars_lt_total(t, p);
}

} // verus!
