//! Reading predicates from JSON: `{"op": "eq", "field": "/city", "value": "Oslo"}`.
//!
//! Every op takes the members listed by `op_keys`; a missing required member,
//! a member of the wrong type and a member the op does not take are refused.
//! Optional members that hold `null` count as absent.

use super::links::Direction;
use super::predicate::{PredicateV, SortDirection, StepV};
use crate::error::Error;
use crate::query::validate::{args_wf, filter_wf, lemma_args, lemma_steps, pred_wf, steps_wf};
use super::predicate::{lemma_predicates_view, lemma_steps_view, predicates_view, steps_view, Predicate, Step};
use crate::index::value::{digits_value, lemma_digits_value_grows};
use crate::json::{
    all_digits, entries_view, is_digit, items_view, json_wf, lemma_entries_view, lemma_items_view,
    lemma_wf_items, lemma_wf_members, Json, Number,
};
use crate::json::JsonV;
use crate::cli::strings_view;
use crate::text::chars_of;
use vstd::prelude::*;

verus! {

/// Position of the last member named `key`, or -1.
pub open spec fn key_index(es: Seq<(Seq<char>, JsonV)>, key: Seq<char>) -> int
    decreases es.len(),
{
    if es.len() == 0 {
        -1
    } else if es.last().0 == key {
        es.len() - 1
    } else {
        key_index(es.drop_last(), key)
    }
}

/// The member named `key`.
pub open spec fn member(es: Seq<(Seq<char>, JsonV)>, key: Seq<char>) -> Option<JsonV> {
    let i = key_index(es, key);
    if 0 <= i < es.len() {
        Some(es[i].1)
    } else {
        None
    }
}

pub open spec fn str_value(v: JsonV) -> Result<Seq<char>, Error> {
    match v {
        JsonV::Str(s) => Ok(s),
        _ => Err(Error::WrongType),
    }
}

pub open spec fn number_value(v: JsonV) -> Result<Seq<char>, Error> {
    match v {
        JsonV::Number(n) => Ok(n),
        _ => Err(Error::WrongType),
    }
}

/// A number literal read as an unsigned integer no larger than `max`:
/// plain digits, or `-0`.
pub open spec fn unsigned_value(v: JsonV, max: nat) -> Result<nat, Error> {
    match v {
        JsonV::Number(n) => if n == seq!['-', '0'] {
            Ok(0)
        } else if n.len() > 0 && all_digits(n) && digits_value(n) <= max {
            Ok(digits_value(n))
        } else {
            Err(Error::WrongType)
        },
        _ => Err(Error::WrongType),
    }
}

pub open spec fn u32_value(v: JsonV) -> Result<u32, Error> {
    match unsigned_value(v, u32::MAX as nat) {
        Ok(n) => Ok(n as u32),
        Err(e) => Err(e),
    }
}

pub open spec fn usize_value(v: JsonV) -> Result<usize, Error> {
    match unsigned_value(v, usize::MAX as nat) {
        Ok(n) => Ok(n as usize),
        Err(e) => Err(e),
    }
}

/// `"out"` or `"in"`.
pub open spec fn direction_value(v: JsonV) -> Result<Direction, Error> {
    match v {
        JsonV::Str(s) => if s == "out"@ {
            Ok(Direction::Out)
        } else if s == "in"@ {
            Ok(Direction::In)
        } else {
            Err(Error::WrongType)
        },
        _ => Err(Error::WrongType),
    }
}

/// `"asc"` or `"desc"`.
pub open spec fn sort_value(v: JsonV) -> Result<SortDirection, Error> {
    match v {
        JsonV::Str(s) => if s == "asc"@ {
            Ok(SortDirection::Asc)
        } else if s == "desc"@ {
            Ok(SortDirection::Desc)
        } else {
            Err(Error::WrongType)
        },
        _ => Err(Error::WrongType),
    }
}

/// An array of node ids.
pub open spec fn ids_value(items: Seq<JsonV>) -> Result<Seq<u32>, Error>
    decreases items.len(),
{
    if items.len() == 0 {
        Ok(Seq::empty())
    } else {
        match ids_value(items.drop_last()) {
            Err(e) => Err(e),
            Ok(ids) => match u32_value(items.last()) {
                Err(e) => Err(e),
                Ok(id) => Ok(ids.push(id)),
            },
        }
    }
}

pub open spec fn take_value(es: Seq<(Seq<char>, JsonV)>, key: Seq<char>) -> Result<JsonV, Error> {
    match member(es, key) {
        Some(v) => Ok(v),
        None => Err(Error::MissingField),
    }
}

pub open spec fn take_str(es: Seq<(Seq<char>, JsonV)>, key: Seq<char>) -> Result<Seq<char>, Error> {
    match member(es, key) {
        Some(v) => str_value(v),
        None => Err(Error::MissingField),
    }
}

pub open spec fn take_number(es: Seq<(Seq<char>, JsonV)>, key: Seq<char>) -> Result<Seq<char>, Error> {
    match member(es, key) {
        Some(v) => number_value(v),
        None => Err(Error::MissingField),
    }
}

pub open spec fn take_u32(es: Seq<(Seq<char>, JsonV)>, key: Seq<char>) -> Result<u32, Error> {
    match member(es, key) {
        Some(v) => u32_value(v),
        None => Err(Error::MissingField),
    }
}

pub open spec fn take_array(es: Seq<(Seq<char>, JsonV)>, key: Seq<char>) -> Result<Seq<JsonV>, Error> {
    match member(es, key) {
        Some(JsonV::Array(items)) => Ok(items),
        Some(_) => Err(Error::WrongType),
        None => Err(Error::MissingField),
    }
}

/// An optional member: absent and `null` both give None.
pub open spec fn present(es: Seq<(Seq<char>, JsonV)>, key: Seq<char>) -> Option<JsonV> {
    match member(es, key) {
        Some(JsonV::Null) => None,
        m => m,
    }
}

pub open spec fn opt_usize(es: Seq<(Seq<char>, JsonV)>, key: Seq<char>) -> Result<Option<usize>, Error> {
    match present(es, key) {
        Some(v) => match usize_value(v) {
            Ok(n) => Ok(Some(n)),
            Err(e) => Err(e),
        },
        None => Ok(None),
    }
}

pub open spec fn opt_direction(es: Seq<(Seq<char>, JsonV)>, key: Seq<char>) -> Result<Direction, Error> {
    match present(es, key) {
        Some(v) => direction_value(v),
        None => Ok(Direction::Out),
    }
}

pub open spec fn opt_sort(es: Seq<(Seq<char>, JsonV)>, key: Seq<char>) -> Result<SortDirection, Error> {
    match present(es, key) {
        Some(v) => sort_value(v),
        None => Ok(SortDirection::Asc),
    }
}

/// The members each op takes besides `op`.
pub open spec fn op_keys(op: Seq<char>) -> Seq<Seq<char>> {
    if op == "ids"@ {
        seq!["ids"@]
    } else if op == "eq"@ {
        seq!["field"@, "value"@]
    } else if op == "in"@ {
        seq!["field"@, "values"@]
    } else if op == "any"@ {
        seq!["value"@]
    } else if op == "exists"@ {
        seq!["field"@]
    } else if op == "prefix"@ {
        seq!["field"@, "prefix"@]
    } else if op == "range"@ {
        seq!["field"@, "gt"@, "gte"@, "lt"@, "lte"@]
    } else if op == "at"@ {
        seq!["field"@, "value"@]
    } else if op == "overlap"@ || op == "contains"@ || op == "contained_by"@ {
        seq!["field"@, "start"@, "end"@]
    } else if op == "seek"@ {
        seq!["index"@, "group"@, "gt"@, "gte"@, "lt"@, "lte"@, "direction"@, "limit"@]
    } else if op == "has_link"@ {
        seq!["relation"@, "target"@, "direction"@]
    } else if op == "and"@ || op == "or"@ {
        seq!["args"@]
    } else if op == "not"@ {
        seq!["arg"@]
    } else if op == "traverse"@ {
        seq!["from"@, "steps"@]
    } else {
        seq![]
    }
}

/// The members a step takes.
pub open spec fn step_keys() -> Seq<Seq<char>> {
    seq!["relation"@, "direction"@, "filter"@, "min"@, "max"@]
}

/// Every member of `es` is `op` or one of `keys`.
pub open spec fn known_members(es: Seq<(Seq<char>, JsonV)>, keys: Seq<Seq<char>>, op: bool) -> bool {
    forall|i: int| 0 <= i < es.len() ==> (op && es[i].0 == "op"@) || keys.contains(#[trigger] es[i].0)
}

pub open spec fn opt_u32(es: Seq<(Seq<char>, JsonV)>, key: Seq<char>) -> Result<Option<u32>, Error> {
    match present(es, key) {
        Some(v) => match u32_value(v) {
            Ok(n) => Ok(Some(n)),
            Err(e) => Err(e),
        },
        None => Ok(None),
    }
}

/// The predicate a JSON value denotes.
pub open spec fn parse_value(v: JsonV) -> Result<PredicateV, Error>
    decreases v, 0int,
{
    match v {
        JsonV::Object(es) => match take_str(es, "op"@) {
            Err(e) => Err(e),
            Ok(op) => match parse_op(es, op) {
                Err(e) => Err(e),
                Ok(p) => if known_members(es, op_keys(op), true) {
                    Ok(p)
                } else {
                    Err(Error::UnknownField)
                },
            },
        },
        _ => Err(Error::NotAnObject),
    }
}

/// The predicates of a JSON array, in order; the first refusal wins.
pub open spec fn parse_list(items: Seq<JsonV>) -> Result<Seq<PredicateV>, Error>
    decreases items, 0int,
{
    if items.len() == 0 {
        Ok(Seq::empty())
    } else {
        match parse_list(items.drop_last()) {
            Err(e) => Err(e),
            Ok(ps) => match parse_value(items.last()) {
                Err(e) => Err(e),
                Ok(p) => Ok(ps.push(p)),
            },
        }
    }
}

/// The predicate under `key`, required.
pub open spec fn parse_member(es: Seq<(Seq<char>, JsonV)>, key: Seq<char>) -> Result<PredicateV, Error>
    decreases es, 1int,
{
    let i = key_index(es, key);
    if 0 <= i < es.len() {
        parse_value(es[i].1)
    } else {
        Err(Error::MissingField)
    }
}

/// The predicates under `key`, a required array.
pub open spec fn parse_members_list(es: Seq<(Seq<char>, JsonV)>, key: Seq<char>) -> Result<Seq<PredicateV>, Error>
    decreases es, 1int,
{
    let i = key_index(es, key);
    if 0 <= i < es.len() {
        match es[i].1 {
            JsonV::Array(items) => parse_list(items),
            _ => Err(Error::WrongType),
        }
    } else {
        Err(Error::MissingField)
    }
}
/// The steps of a JSON array, in order; the first refusal wins.
pub open spec fn step_list(items: Seq<JsonV>) -> Result<Seq<StepV>, Error>
    decreases items, 0int,
{
    if items.len() == 0 {
        Ok(Seq::empty())
    } else {
        match step_list(items.drop_last()) {
            Err(e) => Err(e),
            Ok(ss) => match step_value(items.last()) {
                Err(e) => Err(e),
                Ok(st) => Ok(ss.push(st)),
            },
        }
    }
}

/// The step a JSON value denotes: `relation` required, `direction` "out"
/// unless given, `filter`, `min` and `max` optional.
pub open spec fn step_value(v: JsonV) -> Result<StepV, Error>
    decreases v, 0int,
{
    match v {
        JsonV::Object(es) => step_members(es),
        _ => Err(Error::NotAnObject),
    }
}

pub open spec fn step_members(es: Seq<(Seq<char>, JsonV)>) -> Result<StepV, Error>
    decreases es, 1int,
{
    match take_str(es, "relation"@) {
        Err(e) => Err(e),
        Ok(relation) => match (match member(es, "direction"@) {
            Some(d) => direction_value(d),
            None => Ok(Direction::Out),
        }) {
            Err(e) => Err(e),
            Ok(direction) => match step_filter(es) {
                Err(e) => Err(e),
                Ok(filter) => match opt_u32(es, "min"@) {
                    Err(e) => Err(e),
                    Ok(min) => match opt_u32(es, "max"@) {
                        Err(e) => Err(e),
                        Ok(max) => if known_members(es, step_keys(), false) {
                            Ok(StepV { relation, direction, filter, min, max })
                        } else {
                            Err(Error::UnknownField)
                        },
                    },
                },
            },
        },
    }
}

/// A step's optional filter; `null` counts as absent.
pub open spec fn step_filter(es: Seq<(Seq<char>, JsonV)>) -> Result<Option<PredicateV>, Error>
    decreases es, 0int,
{
    let i = key_index(es, "filter"@);
    if 0 <= i < es.len() && es[i].1 != JsonV::Null {
        match parse_value(es[i].1) {
            Ok(f) => Ok(Some(f)),
            Err(e) => Err(e),
        }
    } else {
        Ok(None)
    }
}

/// The steps under `steps`, a required array.
pub open spec fn parse_steps(es: Seq<(Seq<char>, JsonV)>) -> Result<Seq<StepV>, Error>
    decreases es, 1int,
{
    let i = key_index(es, "steps"@);
    if 0 <= i < es.len() {
        match es[i].1 {
            JsonV::Array(items) => step_list(items),
            _ => Err(Error::WrongType),
        }
    } else {
        Err(Error::MissingField)
    }
}

/// Three members in order: a field, then two numbers.
pub open spec fn span_members(es: Seq<(Seq<char>, JsonV)>) -> Result<(Seq<char>, Seq<char>, Seq<char>), Error> {
    match take_str(es, "field"@) {
        Err(e) => Err(e),
        Ok(field) => match take_number(es, "start"@) {
            Err(e) => Err(e),
            Ok(start) => match take_number(es, "end"@) {
                Err(e) => Err(e),
                Ok(end) => Ok((field, start, end)),
            },
        },
    }
}

pub open spec fn ids_op(es: Seq<(Seq<char>, JsonV)>) -> Result<PredicateV, Error> {
    match take_array(es, "ids"@) {
        Err(e) => Err(e),
        Ok(items) => match ids_value(items) {
            Err(e) => Err(e),
            Ok(ids) => Ok(PredicateV::Ids { ids }),
        },
    }
}

pub open spec fn eq_op(es: Seq<(Seq<char>, JsonV)>) -> Result<PredicateV, Error> {
    match take_str(es, "field"@) {
        Err(e) => Err(e),
        Ok(field) => match take_value(es, "value"@) {
            Err(e) => Err(e),
            Ok(value) => Ok(PredicateV::Eq { field, value }),
        },
    }
}

pub open spec fn in_op(es: Seq<(Seq<char>, JsonV)>) -> Result<PredicateV, Error> {
    match take_str(es, "field"@) {
        Err(e) => Err(e),
        Ok(field) => match take_array(es, "values"@) {
            Err(e) => Err(e),
            Ok(values) => Ok(PredicateV::In { field, values }),
        },
    }
}

pub open spec fn any_op(es: Seq<(Seq<char>, JsonV)>) -> Result<PredicateV, Error> {
    match take_value(es, "value"@) {
        Err(e) => Err(e),
        Ok(value) => Ok(PredicateV::Any { value }),
    }
}

pub open spec fn exists_op(es: Seq<(Seq<char>, JsonV)>) -> Result<PredicateV, Error> {
    match take_str(es, "field"@) {
        Err(e) => Err(e),
        Ok(field) => Ok(PredicateV::Exists { field }),
    }
}

pub open spec fn prefix_op(es: Seq<(Seq<char>, JsonV)>) -> Result<PredicateV, Error> {
    match take_str(es, "field"@) {
        Err(e) => Err(e),
        Ok(field) => match take_str(es, "prefix"@) {
            Err(e) => Err(e),
            Ok(prefix) => Ok(PredicateV::Prefix { field, prefix }),
        },
    }
}

pub open spec fn range_op(es: Seq<(Seq<char>, JsonV)>) -> Result<PredicateV, Error> {
    match take_str(es, "field"@) {
        Err(e) => Err(e),
        Ok(field) => Ok(
            PredicateV::Range {
                field,
                gt: present(es, "gt"@),
                gte: present(es, "gte"@),
                lt: present(es, "lt"@),
                lte: present(es, "lte"@),
            },
        ),
    }
}

pub open spec fn at_op(es: Seq<(Seq<char>, JsonV)>) -> Result<PredicateV, Error> {
    match take_str(es, "field"@) {
        Err(e) => Err(e),
        Ok(field) => match take_number(es, "value"@) {
            Err(e) => Err(e),
            Ok(value) => Ok(PredicateV::At { field, value }),
        },
    }
}

/// Which of the three interval ops.
pub enum SpanOp {
    Overlap,
    Contains,
    ContainedBy,
}

pub open spec fn span_op(es: Seq<(Seq<char>, JsonV)>, op: SpanOp) -> Result<PredicateV, Error> {
    match span_members(es) {
        Err(e) => Err(e),
        Ok((field, start, end)) => Ok(
            match op {
                SpanOp::Overlap => PredicateV::Overlap { field, start, end },
                SpanOp::Contains => PredicateV::Contains { field, start, end },
                SpanOp::ContainedBy => PredicateV::ContainedBy { field, start, end },
            },
        ),
    }
}

pub open spec fn seek_op(es: Seq<(Seq<char>, JsonV)>) -> Result<PredicateV, Error> {
    match take_str(es, "index"@) {
        Err(e) => Err(e),
        Ok(index) => match take_array(es, "group"@) {
            Err(e) => Err(e),
            Ok(group) => match opt_sort(es, "direction"@) {
                Err(e) => Err(e),
                Ok(direction) => match opt_usize(es, "limit"@) {
                    Err(e) => Err(e),
                    Ok(limit) => Ok(
                        PredicateV::Seek {
                            index,
                            group,
                            gt: present(es, "gt"@),
                            gte: present(es, "gte"@),
                            lt: present(es, "lt"@),
                            lte: present(es, "lte"@),
                            direction,
                            limit,
                        },
                    ),
                },
            },
        },
    }
}

pub open spec fn has_link_op(es: Seq<(Seq<char>, JsonV)>) -> Result<PredicateV, Error> {
    match take_str(es, "relation"@) {
        Err(e) => Err(e),
        Ok(relation) => match take_u32(es, "target"@) {
            Err(e) => Err(e),
            Ok(target) => match opt_direction(es, "direction"@) {
                Err(e) => Err(e),
                Ok(direction) => Ok(PredicateV::HasLink { relation, target, direction }),
            },
        },
    }
}

/// The predicate of an op whose members hold no other predicate.
pub open spec fn leaf_op(es: Seq<(Seq<char>, JsonV)>, op: Seq<char>) -> Result<PredicateV, Error> {
    if op == "all"@ {
        Ok(PredicateV::All)
    } else if op == "ids"@ {
        ids_op(es)
    } else if op == "eq"@ {
        eq_op(es)
    } else if op == "in"@ {
        in_op(es)
    } else if op == "any"@ {
        any_op(es)
    } else if op == "exists"@ {
        exists_op(es)
    } else if op == "prefix"@ {
        prefix_op(es)
    } else if op == "range"@ {
        range_op(es)
    } else if op == "at"@ {
        at_op(es)
    } else if op == "overlap"@ {
        span_op(es, SpanOp::Overlap)
    } else if op == "contains"@ {
        span_op(es, SpanOp::Contains)
    } else if op == "contained_by"@ {
        span_op(es, SpanOp::ContainedBy)
    } else if op == "seek"@ {
        seek_op(es)
    } else if op == "has_link"@ {
        has_link_op(es)
    } else {
        Err(Error::UnknownOp)
    }
}

/// The predicate op `op` builds from the members `es`, before unknown
/// members are looked for.
pub open spec fn parse_op(es: Seq<(Seq<char>, JsonV)>, op: Seq<char>) -> Result<PredicateV, Error>
    decreases es, 2int,
{
    if op == "and"@ {
        match parse_members_list(es, "args"@) {
            Err(e) => Err(e),
            Ok(args) => Ok(PredicateV::And { args }),
        }
    } else if op == "or"@ {
        match parse_members_list(es, "args"@) {
            Err(e) => Err(e),
            Ok(args) => Ok(PredicateV::Or { args }),
        }
    } else if op == "not"@ {
        match parse_member(es, "arg"@) {
            Err(e) => Err(e),
            Ok(arg) => Ok(PredicateV::Not { arg: Box::new(arg) }),
        }
    } else if op == "traverse"@ {
        match parse_member(es, "from"@) {
            Err(e) => Err(e),
            Ok(from) => match parse_steps(es) {
                Err(e) => Err(e),
                Ok(steps) => Ok(PredicateV::Traverse { from: Box::new(from), steps }),
            },
        }
    } else {
        leaf_op(es, op)
    }
}

/// `r` is what the spec `s` says, read through the view.
pub open spec fn parsed(r: Result<Predicate, Error>, s: Result<PredicateV, Error>) -> bool {
    match (r, s) {
        (Ok(p), Ok(v)) => p@ == v,
        (Err(a), Err(b)) => a == b,
        _ => false,
    }
}

pub proof fn lemma_key_index(es: Seq<(Seq<char>, JsonV)>, key: Seq<char>)
    ensures
        -1 <= key_index(es, key) < es.len(),
        0 <= key_index(es, key) ==> es[key_index(es, key)].0 == key,
        forall|k: int| key_index(es, key) < k < es.len() ==> es[k].0 != key,
    decreases es.len(),
{
    if es.len() > 0 && es.last().0 != key {
        lemma_key_index(es.drop_last(), key);
        assert forall|k: int| key_index(es, key) < k < es.len() implies es[k].0 != key by {
            if k < es.len() - 1 {
                assert(es.drop_last()[k] == es[k]);
            }
        }
    }
}

/// Where the last member named `key` stands.
pub(crate) fn key_position(es: &Vec<(String, Json)>, key: &str) -> (r: Option<usize>)
    ensures
        match r {
            Some(i) => i == key_index(entries_view(es@), key@) && i < es@.len(),
            None => key_index(entries_view(es@), key@) == -1,
        },
{
    let ghost ev = entries_view(es@);
    proof {
        lemma_entries_view(es@);
        lemma_key_index(ev, key@);
    }
    let k = key.to_owned();
    let mut i: usize = es.len();
    while i > 0
        invariant
            i <= es@.len(),
            ev == entries_view(es@),
            ev.len() == es@.len(),
            forall|j: int| 0 <= j < es@.len() ==> #[trigger] ev[j] == (es@[j].0@, es@[j].1@),
            k@ == key@,
            -1 <= key_index(ev, key@) < ev.len(),
            0 <= key_index(ev, key@) ==> ev[key_index(ev, key@)].0 == key@,
            forall|j: int| key_index(ev, key@) < j < ev.len() ==> ev[j].0 != key@,
            forall|j: int| i <= j < ev.len() ==> ev[j].0 != key@,
        decreases i,
    {
        if es[i - 1].0 == k {
            assert(ev[i - 1].0 == key@);
            return Some(i - 1);
        }
        i -= 1;
    }
    None
}

/// The value of a number literal made of digits alone, when it fits in u64.
pub fn digits_u64(lit: &Vec<char>) -> (r: Option<u64>)
    ensures
        match r {
            Some(n) => lit@.len() > 0 && all_digits(lit@) && n == digits_value(lit@),
            None => !(lit@.len() > 0 && all_digits(lit@) && digits_value(lit@) <= u64::MAX),
        },
{
    if lit.len() == 0 {
        return None;
    }
    let mut n: u64 = 0;
    let mut i: usize = 0;
    while i < lit.len()
        invariant
            i <= lit@.len(),
            all_digits(lit@.take(i as int)),
            n == digits_value(lit@.take(i as int)),
        decreases lit@.len() - i,
    {
        let c = lit[i];
        if !('0' <= c && c <= '9') {
            assert(!is_digit(lit@[i as int]));
            return None;
        }
        let d = (c as u32 - 48) as u64;
        assert(lit@.take(i + 1).drop_last() =~= lit@.take(i as int));
        assert(digits_value(lit@.take(i + 1)) == digits_value(lit@.take(i as int)) * 10 + d);
        if n > (u64::MAX - d) / 10 {
            proof {
                lemma_digits_value_grows(lit@, i + 1);
                assert(n * 10 + d > u64::MAX) by (nonlinear_arith)
                    requires
                        n > (u64::MAX - d) / 10,
                        d <= 9,
                ;
            }
            return None;
        }
        assert(n * 10 + d <= u64::MAX) by (nonlinear_arith)
            requires
                n <= (u64::MAX - d) / 10,
                d <= 9,
        ;
        n = n * 10 + d;
        assert forall|j: int| 0 <= j < i + 1 implies is_digit(#[trigger] lit@.take(i + 1)[j]) by {
            if j < i {
                assert(lit@.take(i + 1)[j] == lit@.take(i as int)[j]);
            }
        }
        i += 1;
    }
    assert(lit@.take(i as int) =~= lit@);
    Some(n)
}

/// A number literal read as an unsigned integer no larger than `max`.
fn unsigned_of(j: &Json, max: u64) -> (r: Result<u64, Error>)
    ensures
        match (r, unsigned_value(j@, max as nat)) {
            (Ok(a), Ok(b)) => a == b,
            (Err(a), Err(b)) => a == b,
            _ => false,
        },
{
    match j {
        Json::Number(n) => {
            let lit = chars_of(n.literal.as_str());
            if lit.len() == 2 && lit[0] == '-' && lit[1] == '0' {
                assert(lit@ =~= seq!['-', '0']);
                return Ok(0);
            }
            assert(lit@ != seq!['-', '0']);
            match digits_u64(&lit) {
                Some(v) => {
                    if v <= max {
                        Ok(v)
                    } else {
                        Err(Error::WrongType)
                    }
                },
                None => Err(Error::WrongType),
            }
        },
        _ => Err(Error::WrongType),
    }
}

pub(crate) fn u32_of(j: &Json) -> (r: Result<u32, Error>)
    ensures
        match (r, u32_value(j@)) {
            (Ok(a), Ok(b)) => a == b,
            (Err(a), Err(b)) => a == b,
            _ => false,
        },
{
    match unsigned_of(j, 0xffff_ffff) {
        Ok(v) => Ok(v as u32),
        Err(e) => Err(e),
    }
}

fn usize_of(j: &Json) -> (r: Result<usize, Error>)
    ensures
        match (r, usize_value(j@)) {
            (Ok(a), Ok(b)) => a == b,
            (Err(a), Err(b)) => a == b,
            _ => false,
        },
{
    match unsigned_of(j, usize::MAX as u64) {
        Ok(v) => Ok(v as usize),
        Err(e) => Err(e),
    }
}

/// `s` spells `lit`.
pub(crate) fn is(s: &String, lit: &str) -> (b: bool)
    ensures
        b == (s@ == lit@),
{
    let t = lit.to_owned();
    *s == t
}

fn direction_of(j: &Json) -> (r: Result<Direction, Error>)
    ensures
        r == direction_value(j@),
{
    match j {
        Json::Str(s) => if is(s, "out") {
            Ok(Direction::Out)
        } else if is(s, "in") {
            Ok(Direction::In)
        } else {
            Err(Error::WrongType)
        },
        _ => Err(Error::WrongType),
    }
}

fn sort_of(j: &Json) -> (r: Result<SortDirection, Error>)
    ensures
        r == sort_value(j@),
{
    match j {
        Json::Str(s) => if is(s, "asc") {
            Ok(SortDirection::Asc)
        } else if is(s, "desc") {
            Ok(SortDirection::Desc)
        } else {
            Err(Error::WrongType)
        },
        _ => Err(Error::WrongType),
    }
}

/// The member named `key`.
pub(crate) fn member_of<'a>(es: &'a Vec<(String, Json)>, key: &str) -> (r: Option<&'a Json>)
    ensures
        match (r, member(entries_view(es@), key@)) {
            (Some(j), Some(v)) => j@ == v,
            (None, None) => true,
            _ => false,
        },
{
    proof {
        lemma_entries_view(es@);
    }
    match key_position(es, key) {
        Some(i) => Some(&es[i].1),
        None => None,
    }
}

pub(crate) fn take_string(es: &Vec<(String, Json)>, key: &str) -> (r: Result<String, Error>)
    ensures
        match (r, take_str(entries_view(es@), key@)) {
            (Ok(a), Ok(b)) => a@ == b,
            (Err(a), Err(b)) => a == b,
            _ => false,
        },
{
    match member_of(es, key) {
        Some(Json::Str(s)) => Ok(s.clone()),
        Some(_) => Err(Error::WrongType),
        None => Err(Error::MissingField),
    }
}

fn take_number_of(es: &Vec<(String, Json)>, key: &str) -> (r: Result<Number, Error>)
    ensures
        match (r, take_number(entries_view(es@), key@)) {
            (Ok(a), Ok(b)) => a.literal@ == b,
            (Err(a), Err(b)) => a == b,
            _ => false,
        },
{
    match member_of(es, key) {
        Some(Json::Number(n)) => Ok(Number { literal: n.literal.clone() }),
        Some(_) => Err(Error::WrongType),
        None => Err(Error::MissingField),
    }
}

pub(crate) fn take_json(es: &Vec<(String, Json)>, key: &str) -> (r: Result<Json, Error>)
    ensures
        match (r, take_value(entries_view(es@), key@)) {
            (Ok(a), Ok(b)) => a@ == b,
            (Err(a), Err(b)) => a == b,
            _ => false,
        },
{
    match member_of(es, key) {
        Some(j) => Ok(j.duplicate()),
        None => Err(Error::MissingField),
    }
}

/// A copy of each item.
pub(crate) fn copy_items(items: &Vec<Json>) -> (r: Vec<Json>)
    ensures
        items_view(r@) == items_view(items@),
{
    let mut out: Vec<Json> = Vec::new();
    let mut i: usize = 0;
    proof {
        lemma_items_view(items@);
    }
    while i < items.len()
        invariant
            i <= items@.len(),
            out@.len() == i,
            forall|k: int| 0 <= k < i ==> #[trigger] out@[k]@ == items@[k]@,
        decreases items@.len() - i,
    {
        out.push(items[i].duplicate());
        i += 1;
    }
    proof {
        lemma_items_view(out@);
        lemma_items_view(items@);
        assert(items_view(out@) =~= items_view(items@));
    }
    out
}

fn take_items(es: &Vec<(String, Json)>, key: &str) -> (r: Result<Vec<Json>, Error>)
    ensures
        match (r, take_array(entries_view(es@), key@)) {
            (Ok(a), Ok(b)) => items_view(a@) == b,
            (Err(a), Err(b)) => a == b,
            _ => false,
        },
{
    match member_of(es, key) {
        Some(Json::Array(items)) => Ok(copy_items(items)),
        Some(_) => Err(Error::WrongType),
        None => Err(Error::MissingField),
    }
}

pub proof fn lemma_ids_prefix(items: Seq<JsonV>, k: int)
    requires
        0 <= k <= items.len(),
        ids_value(items.take(k)) is Err,
    ensures
        ids_value(items) == ids_value(items.take(k)),
    decreases items.len() - k,
{
    if k < items.len() {
        assert(items.take(k + 1).drop_last() =~= items.take(k));
        lemma_ids_prefix(items, k + 1);
    } else {
        assert(items.take(k) =~= items);
    }
}

fn ids_of(items: &Vec<Json>) -> (r: Result<Vec<u32>, Error>)
    ensures
        match (r, ids_value(items_view(items@))) {
            (Ok(a), Ok(b)) => a@ == b,
            (Err(a), Err(b)) => a == b,
            _ => false,
        },
{
    let ghost iv = items_view(items@);
    proof {
        lemma_items_view(items@);
    }
    let mut out: Vec<u32> = Vec::new();
    let mut i: usize = 0;
    while i < items.len()
        invariant
            i <= items@.len(),
            iv == items_view(items@),
            iv.len() == items@.len(),
            forall|k: int| 0 <= k < items@.len() ==> #[trigger] iv[k] == items@[k]@,
            ids_value(iv.take(i as int)) == Ok::<Seq<u32>, Error>(out@),
        decreases items@.len() - i,
    {
        assert(iv.take(i + 1).drop_last() =~= iv.take(i as int));
        assert(iv.take(i + 1).last() == items@[i as int]@);
        match u32_of(&items[i]) {
            Ok(id) => {
                out.push(id);
            },
            Err(e) => {
                proof {
                    lemma_ids_prefix(iv, i + 1);
                }
                return Err(e);
            },
        }
        i += 1;
    }
    assert(iv.take(i as int) =~= iv);
    Ok(out)
}

/// An optional member as a value; `null` counts as absent.
fn present_json(es: &Vec<(String, Json)>, key: &str) -> (r: Option<Json>)
    ensures
        match (r, present(entries_view(es@), key@)) {
            (Some(a), Some(b)) => a@ == b,
            (None, None) => true,
            _ => false,
        },
{
    match member_of(es, key) {
        Some(Json::Null) => None,
        Some(j) => Some(j.duplicate()),
        None => None,
    }
}

fn opt_usize_of(es: &Vec<(String, Json)>, key: &str) -> (r: Result<Option<usize>, Error>)
    ensures
        r == opt_usize(entries_view(es@), key@),
{
    match member_of(es, key) {
        Some(Json::Null) => Ok(None),
        Some(j) => match usize_of(j) {
            Ok(n) => Ok(Some(n)),
            Err(e) => Err(e),
        },
        None => Ok(None),
    }
}

fn opt_u32_of(es: &Vec<(String, Json)>, key: &str) -> (r: Result<Option<u32>, Error>)
    ensures
        r == opt_u32(entries_view(es@), key@),
{
    match member_of(es, key) {
        Some(Json::Null) => Ok(None),
        Some(j) => match u32_of(j) {
            Ok(n) => Ok(Some(n)),
            Err(e) => Err(e),
        },
        None => Ok(None),
    }
}

fn opt_direction_of(es: &Vec<(String, Json)>, key: &str) -> (r: Result<Direction, Error>)
    ensures
        r == opt_direction(entries_view(es@), key@),
{
    match member_of(es, key) {
        Some(Json::Null) => Ok(Direction::Out),
        Some(j) => direction_of(j),
        None => Ok(Direction::Out),
    }
}

fn opt_sort_of(es: &Vec<(String, Json)>, key: &str) -> (r: Result<SortDirection, Error>)
    ensures
        r == opt_sort(entries_view(es@), key@),
{
    match member_of(es, key) {
        Some(Json::Null) => Ok(SortDirection::Asc),
        Some(j) => sort_of(j),
        None => Ok(SortDirection::Asc),
    }
}

/// The names in a list of names.
pub open spec fn names(v: Seq<&str>) -> Seq<Seq<char>> {
    Seq::new(v.len(), |i: int| v[i]@)
}

/// The members `op` takes besides `op`.
fn op_keys_of(op: &String) -> (r: Vec<&'static str>)
    ensures
        names(r@) == op_keys(op@),
{
    let v: Vec<&'static str> = if is(op, "ids") {
        vec!["ids"]
    } else if is(op, "eq") {
        vec!["field", "value"]
    } else if is(op, "in") {
        vec!["field", "values"]
    } else if is(op, "any") {
        vec!["value"]
    } else if is(op, "exists") {
        vec!["field"]
    } else if is(op, "prefix") {
        vec!["field", "prefix"]
    } else if is(op, "range") {
        vec!["field", "gt", "gte", "lt", "lte"]
    } else if is(op, "at") {
        vec!["field", "value"]
    } else if is(op, "overlap") || is(op, "contains") || is(op, "contained_by") {
        vec!["field", "start", "end"]
    } else if is(op, "seek") {
        vec!["index", "group", "gt", "gte", "lt", "lte", "direction", "limit"]
    } else if is(op, "has_link") {
        vec!["relation", "target", "direction"]
    } else if is(op, "and") || is(op, "or") {
        vec!["args"]
    } else if is(op, "not") {
        vec!["arg"]
    } else if is(op, "traverse") {
        vec!["from", "steps"]
    } else {
        vec![]
    };
    assert(names(v@) =~= op_keys(op@));
    v
}

fn step_keys_of() -> (r: Vec<&'static str>)
    ensures
        names(r@) == step_keys(),
{
    let v: Vec<&'static str> = vec!["relation", "direction", "filter", "min", "max"];
    assert(names(v@) =~= step_keys());
    v
}

/// Every member of `es` is `op` (when `op` is set) or one of `keys`.
fn members_known(es: &Vec<(String, Json)>, keys: &Vec<&str>, op: bool) -> (b: bool)
    ensures
        b == known_members(entries_view(es@), names(keys@), op),
{
    let ghost ev = entries_view(es@);
    let ghost ks = names(keys@);
    proof {
        lemma_entries_view(es@);
    }
    let mut i: usize = 0;
    while i < es.len()
        invariant
            i <= es@.len(),
            ev == entries_view(es@),
            ev.len() == es@.len(),
            ks == names(keys@),
            forall|j: int| 0 <= j < es@.len() ==> #[trigger] ev[j] == (es@[j].0@, es@[j].1@),
            forall|j: int| 0 <= j < i ==> (op && ev[j].0 == "op"@) || ks.contains(#[trigger] ev[j].0),
        decreases es@.len() - i,
    {
        let name = &es[i].0;
        let mut found = op && is(name, "op");
        let mut k: usize = 0;
        while k < keys.len() && !found
            invariant
                k <= keys@.len(),
                ks == names(keys@),
                found ==> (op && name@ == "op"@) || ks.contains(name@),
                !found ==> !(op && name@ == "op"@) && forall|m: int| 0 <= m < k ==> ks[m] != name@,
            decreases keys@.len() - k,
        {
            if is(name, keys[k]) {
                assert(ks[k as int] == name@);
                found = true;
            }
            k += 1;
        }
        if !found {
            assert(ev[i as int].0 == name@);
            assert(!ks.contains(name@));
            return false;
        }
        i += 1;
    }
    true
}

pub proof fn lemma_member_wf(es: Seq<(Seq<char>, JsonV)>, key: Seq<char>)
    requires
        json_wf(JsonV::Object(es)),
    ensures
        member(es, key) matches Some(v) ==> json_wf(v),
        present(es, key) matches Some(v) ==> json_wf(v),
        forall|i: int| 0 <= i < es.len() ==> #[trigger] json_wf(es[i].1),
{
    lemma_wf_members(es);
    lemma_key_index(es, key);
}

fn ids_of_members(es: &Vec<(String, Json)>) -> (r: Result<Predicate, Error>)
    ensures
        parsed(r, ids_op(entries_view(es@))),
        r matches Ok(p) ==> pred_wf(p@),
{
    let items = match take_items(es, "ids") {
        Ok(v) => v,
        Err(e) => {
            return Err(e);
        },
    };
    match ids_of(&items) {
        Ok(ids) => Ok(Predicate::Ids { ids }),
        Err(e) => Err(e),
    }
}

fn eq_of(es: &Vec<(String, Json)>) -> (r: Result<Predicate, Error>)
    requires
        json_wf(JsonV::Object(entries_view(es@))),
    ensures
        parsed(r, eq_op(entries_view(es@))),
        r matches Ok(p) ==> pred_wf(p@),
{
    proof {
        lemma_member_wf(entries_view(es@), "value"@);
    }
    let field = match take_string(es, "field") {
        Ok(v) => v,
        Err(e) => {
            return Err(e);
        },
    };
    match take_json(es, "value") {
        Ok(value) => Ok(Predicate::Eq { field, value }),
        Err(e) => Err(e),
    }
}

fn in_of(es: &Vec<(String, Json)>) -> (r: Result<Predicate, Error>)
    requires
        json_wf(JsonV::Object(entries_view(es@))),
    ensures
        parsed(r, in_op(entries_view(es@))),
        r matches Ok(p) ==> pred_wf(p@),
{
    let ghost ev = entries_view(es@);
    proof {
        lemma_member_wf(ev, "values"@);
    }
    let field = match take_string(es, "field") {
        Ok(v) => v,
        Err(e) => {
            return Err(e);
        },
    };
    match take_items(es, "values") {
        Ok(values) => {
            proof {
                lemma_wf_items(take_array(ev, "values"@)->Ok_0);
            }
            Ok(Predicate::In { field, values })
        },
        Err(e) => Err(e),
    }
}

fn any_of(es: &Vec<(String, Json)>) -> (r: Result<Predicate, Error>)
    requires
        json_wf(JsonV::Object(entries_view(es@))),
    ensures
        parsed(r, any_op(entries_view(es@))),
        r matches Ok(p) ==> pred_wf(p@),
{
    proof {
        lemma_member_wf(entries_view(es@), "value"@);
    }
    match take_json(es, "value") {
        Ok(value) => Ok(Predicate::Any { value }),
        Err(e) => Err(e),
    }
}

fn exists_of(es: &Vec<(String, Json)>) -> (r: Result<Predicate, Error>)
    ensures
        parsed(r, exists_op(entries_view(es@))),
        r matches Ok(p) ==> pred_wf(p@),
{
    match take_string(es, "field") {
        Ok(field) => Ok(Predicate::Exists { field }),
        Err(e) => Err(e),
    }
}

fn prefix_of(es: &Vec<(String, Json)>) -> (r: Result<Predicate, Error>)
    ensures
        parsed(r, prefix_op(entries_view(es@))),
        r matches Ok(p) ==> pred_wf(p@),
{
    let field = match take_string(es, "field") {
        Ok(v) => v,
        Err(e) => {
            return Err(e);
        },
    };
    match take_string(es, "prefix") {
        Ok(prefix) => Ok(Predicate::Prefix { field, prefix }),
        Err(e) => Err(e),
    }
}

fn range_of(es: &Vec<(String, Json)>) -> (r: Result<Predicate, Error>)
    requires
        json_wf(JsonV::Object(entries_view(es@))),
    ensures
        parsed(r, range_op(entries_view(es@))),
        r matches Ok(p) ==> pred_wf(p@),
{
    let ghost ev = entries_view(es@);
    proof {
        lemma_member_wf(ev, "gt"@);
        lemma_member_wf(ev, "gte"@);
        lemma_member_wf(ev, "lt"@);
        lemma_member_wf(ev, "lte"@);
    }
    let field = match take_string(es, "field") {
        Ok(v) => v,
        Err(e) => {
            return Err(e);
        },
    };
    let gt = present_json(es, "gt");
    let gte = present_json(es, "gte");
    let lt = present_json(es, "lt");
    let lte = present_json(es, "lte");
    Ok(Predicate::Range { field, gt, gte, lt, lte })
}

fn at_of(es: &Vec<(String, Json)>) -> (r: Result<Predicate, Error>)
    requires
        json_wf(JsonV::Object(entries_view(es@))),
    ensures
        parsed(r, at_op(entries_view(es@))),
        r matches Ok(p) ==> pred_wf(p@),
{
    proof {
        lemma_member_wf(entries_view(es@), "value"@);
    }
    let field = match take_string(es, "field") {
        Ok(v) => v,
        Err(e) => {
            return Err(e);
        },
    };
    match take_number_of(es, "value") {
        Ok(value) => Ok(Predicate::At { field, value }),
        Err(e) => Err(e),
    }
}

/// overlap, contains and contained_by: a field and two numbers.
fn span_of(es: &Vec<(String, Json)>, op: SpanOp) -> (r: Result<Predicate, Error>)
    requires
        json_wf(JsonV::Object(entries_view(es@))),
    ensures
        parsed(r, span_op(entries_view(es@), op)),
        r matches Ok(p) ==> pred_wf(p@),
{
    let ghost ev = entries_view(es@);
    proof {
        lemma_member_wf(ev, "start"@);
        lemma_member_wf(ev, "end"@);
    }
    let field = match take_string(es, "field") {
        Ok(v) => v,
        Err(e) => {
            return Err(e);
        },
    };
    let start = match take_number_of(es, "start") {
        Ok(v) => v,
        Err(e) => {
            return Err(e);
        },
    };
    let end = match take_number_of(es, "end") {
        Ok(v) => v,
        Err(e) => {
            return Err(e);
        },
    };
    match op {
        SpanOp::Overlap => Ok(Predicate::Overlap { field, start, end }),
        SpanOp::Contains => Ok(Predicate::Contains { field, start, end }),
        SpanOp::ContainedBy => Ok(Predicate::ContainedBy { field, start, end }),
    }
}

fn seek_of(es: &Vec<(String, Json)>) -> (r: Result<Predicate, Error>)
    requires
        json_wf(JsonV::Object(entries_view(es@))),
    ensures
        parsed(r, seek_op(entries_view(es@))),
        r matches Ok(p) ==> pred_wf(p@),
{
    let ghost ev = entries_view(es@);
    proof {
        lemma_member_wf(ev, "group"@);
        lemma_member_wf(ev, "gt"@);
        lemma_member_wf(ev, "gte"@);
        lemma_member_wf(ev, "lt"@);
        lemma_member_wf(ev, "lte"@);
    }
    let index = match take_string(es, "index") {
        Ok(v) => v,
        Err(e) => {
            return Err(e);
        },
    };
    let group = match take_items(es, "group") {
        Ok(v) => v,
        Err(e) => {
            return Err(e);
        },
    };
    proof {
        lemma_wf_items(take_array(ev, "group"@)->Ok_0);
    }
    let gt = present_json(es, "gt");
    let gte = present_json(es, "gte");
    let lt = present_json(es, "lt");
    let lte = present_json(es, "lte");
    let direction = match opt_sort_of(es, "direction") {
        Ok(v) => v,
        Err(e) => {
            return Err(e);
        },
    };
    let limit = match opt_usize_of(es, "limit") {
        Ok(v) => v,
        Err(e) => {
            return Err(e);
        },
    };
    Ok(Predicate::Seek { index, group, gt, gte, lt, lte, direction, limit })
}

fn has_link_of(es: &Vec<(String, Json)>) -> (r: Result<Predicate, Error>)
    ensures
        parsed(r, has_link_op(entries_view(es@))),
        r matches Ok(p) ==> pred_wf(p@),
{
    let relation = match take_string(es, "relation") {
        Ok(v) => v,
        Err(e) => {
            return Err(e);
        },
    };
    let target = match member_of(es, "target") {
        Some(j) => match u32_of(j) {
            Ok(t) => t,
            Err(e) => {
                return Err(e);
            },
        },
        None => {
            return Err(Error::MissingField);
        },
    };
    match opt_direction_of(es, "direction") {
        Ok(direction) => Ok(Predicate::HasLink { relation, target, direction }),
        Err(e) => Err(e),
    }
}

/// The predicate of an op whose members hold no other predicate.
fn leaf_op_of(es: &Vec<(String, Json)>, op: &String) -> (r: Result<Predicate, Error>)
    requires
        json_wf(JsonV::Object(entries_view(es@))),
    ensures
        parsed(r, leaf_op(entries_view(es@), op@)),
        r matches Ok(p) ==> pred_wf(p@),
{
    if is(op, "all") {
        Ok(Predicate::All)
    } else if is(op, "ids") {
        ids_of_members(es)
    } else if is(op, "eq") {
        eq_of(es)
    } else if is(op, "in") {
        in_of(es)
    } else if is(op, "any") {
        any_of(es)
    } else if is(op, "exists") {
        exists_of(es)
    } else if is(op, "prefix") {
        prefix_of(es)
    } else if is(op, "range") {
        range_of(es)
    } else if is(op, "at") {
        at_of(es)
    } else if is(op, "overlap") {
        span_of(es, SpanOp::Overlap)
    } else if is(op, "contains") {
        span_of(es, SpanOp::Contains)
    } else if is(op, "contained_by") {
        span_of(es, SpanOp::ContainedBy)
    } else if is(op, "seek") {
        seek_of(es)
    } else if is(op, "has_link") {
        has_link_of(es)
    } else {
        Err(Error::UnknownOp)
    }
}

pub proof fn lemma_parse_list_prefix(items: Seq<JsonV>, k: int)
    requires
        0 <= k <= items.len(),
        parse_list(items.take(k)) is Err,
    ensures
        parse_list(items) == parse_list(items.take(k)),
    decreases items.len() - k,
{
    if k < items.len() {
        assert(items.take(k + 1).drop_last() =~= items.take(k));
        lemma_parse_list_prefix(items, k + 1);
    } else {
        assert(items.take(k) =~= items);
    }
}

pub proof fn lemma_step_list_prefix(items: Seq<JsonV>, k: int)
    requires
        0 <= k <= items.len(),
        step_list(items.take(k)) is Err,
    ensures
        step_list(items) == step_list(items.take(k)),
    decreases items.len() - k,
{
    if k < items.len() {
        assert(items.take(k + 1).drop_last() =~= items.take(k));
        lemma_step_list_prefix(items, k + 1);
    } else {
        assert(items.take(k) =~= items);
    }
}

/// Reads a predicate from JSON.
fn parse_json(j: &Json) -> (r: Result<Predicate, Error>)
    requires
        json_wf(j@),
    ensures
        parsed(r, parse_value(j@)),
        r matches Ok(p) ==> pred_wf(p@),
    decreases j, 0int,
{
    match j {
        Json::Object(es) => {
            assert(j@ == JsonV::Object(entries_view(es@)));
            let op = match take_string(es, "op") {
                Ok(v) => v,
                Err(e) => {
                    return Err(e);
                },
            };
            let p = match parse_op_of(es, &op) {
                Ok(v) => v,
                Err(e) => {
                    return Err(e);
                },
            };
            let keys = op_keys_of(&op);
            if members_known(es, &keys, true) {
                Ok(p)
            } else {
                Err(Error::UnknownField)
            }
        },
        _ => Err(Error::NotAnObject),
    }
}

fn parse_op_of(es: &Vec<(String, Json)>, op: &String) -> (r: Result<Predicate, Error>)
    requires
        json_wf(JsonV::Object(entries_view(es@))),
    ensures
        parsed(r, parse_op(entries_view(es@), op@)),
        r matches Ok(p) ==> pred_wf(p@),
    decreases es, 2int,
{
    if is(op, "and") {
        match parse_args_of(es) {
            Ok(args) => Ok(Predicate::And { args }),
            Err(e) => Err(e),
        }
    } else if is(op, "or") {
        match parse_args_of(es) {
            Ok(args) => Ok(Predicate::Or { args }),
            Err(e) => Err(e),
        }
    } else if is(op, "not") {
        match parse_member_of(es, "arg") {
            Ok(arg) => Ok(Predicate::Not { arg: Box::new(arg) }),
            Err(e) => Err(e),
        }
    } else if is(op, "traverse") {
        let from = match parse_member_of(es, "from") {
            Ok(v) => v,
            Err(e) => {
                return Err(e);
            },
        };
        match parse_steps_of(es) {
            Ok(steps) => Ok(Predicate::Traverse { from: Box::new(from), steps }),
            Err(e) => Err(e),
        }
    } else {
        leaf_op_of(es, op)
    }
}

/// The predicate under `key`, required.
fn parse_member_of(es: &Vec<(String, Json)>, key: &str) -> (r: Result<Predicate, Error>)
    requires
        json_wf(JsonV::Object(entries_view(es@))),
    ensures
        parsed(r, parse_member(entries_view(es@), key@)),
        r matches Ok(p) ==> pred_wf(p@),
    decreases es, 1int,
{
    let ghost ev = entries_view(es@);
    proof {
        lemma_entries_view(es@);
        lemma_member_wf(ev, key@);
    }
    match key_position(es, key) {
        Some(i) => {
            assert(ev[i as int].1 == es@[i as int].1@);
            assert(decreases_to!(*es => es@[i as int].1));
            parse_json(&es[i].1)
        },
        None => Err(Error::MissingField),
    }
}

/// The predicates under `args`, a required array.
fn parse_args_of(es: &Vec<(String, Json)>) -> (r: Result<Vec<Predicate>, Error>)
    requires
        json_wf(JsonV::Object(entries_view(es@))),
    ensures
        match (r, parse_members_list(entries_view(es@), "args"@)) {
            (Ok(a), Ok(b)) => predicates_view(a@) == b,
            (Err(a), Err(b)) => a == b,
            _ => false,
        },
        r matches Ok(a) ==> args_wf(predicates_view(a@)),
    decreases es, 1int,
{
    let ghost ev = entries_view(es@);
    proof {
        lemma_entries_view(es@);
        lemma_member_wf(ev, "args"@);
    }
    match key_position(es, "args") {
        Some(i) => {
            assert(ev[i as int].1 == es@[i as int].1@);
            match &es[i].1 {
                Json::Array(items) => {
                    assert(decreases_to!(*es => es@[i as int].1));
                    assert(es@[i as int].1@ == JsonV::Array(items_view(items@)));
                    proof {
                        lemma_wf_items(items_view(items@));
                    }
                    parse_list_of(items)
                },
                _ => Err(Error::WrongType),
            }
        },
        None => Err(Error::MissingField),
    }
}

fn parse_list_of(items: &Vec<Json>) -> (r: Result<Vec<Predicate>, Error>)
    requires
        forall|k: int| 0 <= k < items_view(items@).len() ==> #[trigger] json_wf(items_view(items@)[k]),
    ensures
        match (r, parse_list(items_view(items@))) {
            (Ok(a), Ok(b)) => predicates_view(a@) == b,
            (Err(a), Err(b)) => a == b,
            _ => false,
        },
        r matches Ok(a) ==> args_wf(predicates_view(a@)),
    decreases items, 0int,
{
    let ghost iv = items_view(items@);
    proof {
        lemma_items_view(items@);
    }
    let mut out: Vec<Predicate> = Vec::new();
    let mut i: usize = 0;
    while i < items.len()
        invariant
            i <= items@.len(),
            iv == items_view(items@),
            iv.len() == items@.len(),
            forall|k: int| 0 <= k < items@.len() ==> #[trigger] iv[k] == items@[k]@,
            forall|k: int| 0 <= k < iv.len() ==> #[trigger] json_wf(iv[k]),
            out@.len() == i,
            parse_list(iv.take(i as int)) == Ok::<Seq<PredicateV>, Error>(predicates_view(out@)),
            forall|k: int| 0 <= k < i ==> #[trigger] pred_wf(out@[k]@),
        decreases items@.len() - i,
    {
        assert(iv.take(i + 1).drop_last() =~= iv.take(i as int));
        assert(iv.take(i + 1).last() == items@[i as int]@);
        assert(json_wf(iv[i as int]));
        assert(decreases_to!(*items => items@[i as int]));
        match parse_json(&items[i]) {
            Ok(p) => {
                let ghost before = out@;
                out.push(p);
                proof {
                    assert(out@.drop_last() =~= before);
                }
            },
            Err(e) => {
                proof {
                    lemma_parse_list_prefix(iv, i + 1);
                }
                return Err(e);
            },
        }
        i += 1;
    }
    assert(iv.take(i as int) =~= iv);
    proof {
        lemma_predicates_view(out@);
        lemma_args(predicates_view(out@));
    }
    Ok(out)
}

/// The steps under `steps`, a required array.
fn parse_steps_of(es: &Vec<(String, Json)>) -> (r: Result<Vec<Step>, Error>)
    requires
        json_wf(JsonV::Object(entries_view(es@))),
    ensures
        match (r, parse_steps(entries_view(es@))) {
            (Ok(a), Ok(b)) => steps_view(a@) == b,
            (Err(a), Err(b)) => a == b,
            _ => false,
        },
        r matches Ok(a) ==> steps_wf(steps_view(a@)),
    decreases es, 1int,
{
    let ghost ev = entries_view(es@);
    proof {
        lemma_entries_view(es@);
        lemma_member_wf(ev, "steps"@);
    }
    match key_position(es, "steps") {
        Some(i) => {
            assert(ev[i as int].1 == es@[i as int].1@);
            match &es[i].1 {
                Json::Array(items) => {
                    assert(decreases_to!(*es => es@[i as int].1));
                    assert(es@[i as int].1@ == JsonV::Array(items_view(items@)));
                    proof {
                        lemma_wf_items(items_view(items@));
                    }
                    step_list_of(items)
                },
                _ => Err(Error::WrongType),
            }
        },
        None => Err(Error::MissingField),
    }
}

fn step_list_of(items: &Vec<Json>) -> (r: Result<Vec<Step>, Error>)
    requires
        forall|k: int| 0 <= k < items_view(items@).len() ==> #[trigger] json_wf(items_view(items@)[k]),
    ensures
        match (r, step_list(items_view(items@))) {
            (Ok(a), Ok(b)) => steps_view(a@) == b,
            (Err(a), Err(b)) => a == b,
            _ => false,
        },
        r matches Ok(a) ==> steps_wf(steps_view(a@)),
    decreases items, 0int,
{
    let ghost iv = items_view(items@);
    proof {
        lemma_items_view(items@);
    }
    let mut out: Vec<Step> = Vec::new();
    let mut i: usize = 0;
    while i < items.len()
        invariant
            i <= items@.len(),
            iv == items_view(items@),
            iv.len() == items@.len(),
            forall|k: int| 0 <= k < items@.len() ==> #[trigger] iv[k] == items@[k]@,
            forall|k: int| 0 <= k < iv.len() ==> #[trigger] json_wf(iv[k]),
            out@.len() == i,
            step_list(iv.take(i as int)) == Ok::<Seq<StepV>, Error>(steps_view(out@)),
            forall|k: int| 0 <= k < i ==> #[trigger] filter_wf(out@[k]@),
        decreases items@.len() - i,
    {
        assert(iv.take(i + 1).drop_last() =~= iv.take(i as int));
        assert(iv.take(i + 1).last() == items@[i as int]@);
        assert(json_wf(iv[i as int]));
        assert(decreases_to!(*items => items@[i as int]));
        match step_of(&items[i]) {
            Ok(st) => {
                let ghost before = out@;
                out.push(st);
                proof {
                    assert(out@.drop_last() =~= before);
                }
            },
            Err(e) => {
                proof {
                    lemma_step_list_prefix(iv, i + 1);
                }
                return Err(e);
            },
        }
        i += 1;
    }
    assert(iv.take(i as int) =~= iv);
    proof {
        lemma_steps_view(out@);
        lemma_steps(steps_view(out@));
    }
    Ok(out)
}

/// Reads one step of a traversal.
fn step_of(j: &Json) -> (r: Result<Step, Error>)
    requires
        json_wf(j@),
    ensures
        match (r, step_value(j@)) {
            (Ok(a), Ok(b)) => a@ == b,
            (Err(a), Err(b)) => a == b,
            _ => false,
        },
        r matches Ok(a) ==> filter_wf(a@),
    decreases j, 0int,
{
    match j {
        Json::Object(es) => {
            assert(j@ == JsonV::Object(entries_view(es@)));
            step_members_of(es)
        },
        _ => Err(Error::NotAnObject),
    }
}

fn step_members_of(es: &Vec<(String, Json)>) -> (r: Result<Step, Error>)
    requires
        json_wf(JsonV::Object(entries_view(es@))),
    ensures
        match (r, step_members(entries_view(es@))) {
            (Ok(a), Ok(b)) => a@ == b,
            (Err(a), Err(b)) => a == b,
            _ => false,
        },
        r matches Ok(a) ==> filter_wf(a@),
    decreases es, 1int,
{
    let relation = match take_string(es, "relation") {
        Ok(v) => v,
        Err(e) => {
            return Err(e);
        },
    };
    let direction = match member_of(es, "direction") {
        Some(d) => match direction_of(d) {
            Ok(v) => v,
            Err(e) => {
                return Err(e);
            },
        },
        None => Direction::Out,
    };
    let filter = match step_filter_of(es) {
        Ok(v) => v,
        Err(e) => {
            return Err(e);
        },
    };
    let min = match opt_u32_of(es, "min") {
        Ok(v) => v,
        Err(e) => {
            return Err(e);
        },
    };
    let max = match opt_u32_of(es, "max") {
        Ok(v) => v,
        Err(e) => {
            return Err(e);
        },
    };
    let keys = step_keys_of();
    if members_known(es, &keys, false) {
        Ok(Step { relation, direction, filter, min, max })
    } else {
        Err(Error::UnknownField)
    }
}

/// A step's optional filter; `null` counts as absent.
fn step_filter_of(es: &Vec<(String, Json)>) -> (r: Result<Option<Predicate>, Error>)
    requires
        json_wf(JsonV::Object(entries_view(es@))),
    ensures
        match (r, step_filter(entries_view(es@))) {
            (Ok(Some(a)), Ok(Some(b))) => a@ == b,
            (Ok(None), Ok(None)) => true,
            (Err(a), Err(b)) => a == b,
            _ => false,
        },
        r matches Ok(Some(a)) ==> pred_wf(a@),
    decreases es, 0int,
{
    let ghost ev = entries_view(es@);
    proof {
        lemma_entries_view(es@);
        lemma_member_wf(ev, "filter"@);
    }
    match key_position(es, "filter") {
        Some(i) => {
            assert(ev[i as int].1 == es@[i as int].1@);
            match &es[i].1 {
                Json::Null => Ok(None),
                f => {
                    assert(decreases_to!(*es => es@[i as int].1));
                    match parse_json(f) {
                        Ok(p) => Ok(Some(p)),
                        Err(e) => Err(e),
                    }
                },
            }
        },
        None => Ok(None),
    }
}

/// Whether a read was refused for a member or an op that is not known.
pub open spec fn refuses_unknown<T>(r: Result<T, Error>) -> bool {
    r matches Err(e) && (e == Error::UnknownField || e == Error::UnknownOp)
}

/// The names of the members of `es` that are neither `op` (when `op` is
/// set) nor among `keys`, in order.
pub open spec fn unknown_keys(es: Seq<(Seq<char>, JsonV)>, keys: Seq<Seq<char>>, op: bool) -> Seq<Seq<char>>
    decreases es.len(),
{
    if es.len() == 0 {
        seq![]
    } else {
        let rest = unknown_keys(es.drop_last(), keys, op);
        let k = es.last().0;
        if (op && k == "op"@) || keys.contains(k) {
            rest
        } else {
            rest.push(k)
        }
    }
}

/// What `parse_value` names when it refuses `v` for something unknown: the
/// unknown members of the object where reading stopped, in order, or the
/// unknown op it found there; empty when reading stopped for another
/// reason or did not stop.
pub open spec fn refused_members(v: JsonV) -> Seq<Seq<char>>
    decreases v, 0int,
{
    match v {
        JsonV::Object(es) => match take_str(es, "op"@) {
            Err(_) => seq![],
            Ok(op) => match parse_op(es, op) {
                Err(_) => refused_in_op(es, op),
                Ok(_) => unknown_keys(es, op_keys(op), true),
            },
        },
        _ => seq![],
    }
}

/// The unknown members refused inside the predicates an op holds.
pub open spec fn refused_in_op(es: Seq<(Seq<char>, JsonV)>, op: Seq<char>) -> Seq<Seq<char>>
    decreases es, 2int,
{
    if op == "and"@ || op == "or"@ {
        refused_in_list_member(es, "args"@)
    } else if op == "not"@ {
        refused_in_member(es, "arg"@)
    } else if op == "traverse"@ {
        if parse_member(es, "from"@) is Err {
            refused_in_member(es, "from"@)
        } else {
            refused_in_steps(es)
        }
    } else if leaf_op(es, op) == Err::<PredicateV, Error>(Error::UnknownOp) {
        seq![op]
    } else {
        seq![]
    }
}

pub open spec fn refused_in_member(es: Seq<(Seq<char>, JsonV)>, key: Seq<char>) -> Seq<Seq<char>>
    decreases es, 1int,
{
    let i = key_index(es, key);
    if 0 <= i < es.len() {
        refused_members(es[i].1)
    } else {
        seq![]
    }
}

pub open spec fn refused_in_list_member(es: Seq<(Seq<char>, JsonV)>, key: Seq<char>) -> Seq<Seq<char>>
    decreases es, 1int,
{
    let i = key_index(es, key);
    if 0 <= i < es.len() {
        match es[i].1 {
            JsonV::Array(items) => refused_in_list(items),
            _ => seq![],
        }
    } else {
        seq![]
    }
}

/// The unknown members refused at the first predicate of `items` that
/// reading refuses.
pub open spec fn refused_in_list(items: Seq<JsonV>) -> Seq<Seq<char>>
    decreases items, 0int,
{
    if items.len() == 0 {
        seq![]
    } else if parse_list(items.drop_last()) is Err {
        refused_in_list(items.drop_last())
    } else {
        refused_members(items.last())
    }
}

pub open spec fn refused_in_steps(es: Seq<(Seq<char>, JsonV)>) -> Seq<Seq<char>>
    decreases es, 1int,
{
    let i = key_index(es, "steps"@);
    if 0 <= i < es.len() {
        match es[i].1 {
            JsonV::Array(items) => refused_in_step_list(items),
            _ => seq![],
        }
    } else {
        seq![]
    }
}

pub open spec fn refused_in_step_list(items: Seq<JsonV>) -> Seq<Seq<char>>
    decreases items, 0int,
{
    if items.len() == 0 {
        seq![]
    } else if step_list(items.drop_last()) is Err {
        refused_in_step_list(items.drop_last())
    } else {
        refused_in_step(items.last())
    }
}

pub open spec fn refused_in_step(v: JsonV) -> Seq<Seq<char>>
    decreases v, 0int,
{
    match v {
        JsonV::Object(es) => refused_in_step_members(es),
        _ => seq![],
    }
}

/// The unknown members refused in a step: inside its filter, or its own.
pub open spec fn refused_in_step_members(es: Seq<(Seq<char>, JsonV)>) -> Seq<Seq<char>>
    decreases es, 1int,
{
    if take_str(es, "relation"@) is Err {
        seq![]
    } else if (match member(es, "direction"@) {
        Some(d) => direction_value(d),
        None => Ok(Direction::Out),
    }) is Err {
        seq![]
    } else if step_filter(es) is Err {
        refused_in_filter(es)
    } else if opt_u32(es, "min"@) is Err || opt_u32(es, "max"@) is Err {
        seq![]
    } else {
        unknown_keys(es, step_keys(), false)
    }
}

pub open spec fn refused_in_filter(es: Seq<(Seq<char>, JsonV)>) -> Seq<Seq<char>>
    decreases es, 0int,
{
    let i = key_index(es, "filter"@);
    if 0 <= i < es.len() && es[i].1 != JsonV::Null {
        refused_members(es[i].1)
    } else {
        seq![]
    }
}

pub proof fn lemma_unknown_keys(es: Seq<(Seq<char>, JsonV)>, keys: Seq<Seq<char>>, op: bool)
    ensures
        (unknown_keys(es, keys, op).len() == 0) == known_members(es, keys, op),
    decreases es.len(),
{
    if es.len() > 0 {
        let d = es.drop_last();
        lemma_unknown_keys(d, keys, op);
        let n = es.len() - 1;
        assert(es.last() == es[n]);
        if known_members(es, keys, op) {
            assert forall|i: int| 0 <= i < d.len() implies (op && d[i].0 == "op"@) || keys.contains(#[trigger] d[i].0) by {
                assert(d[i] == es[i]);
            }
            assert((op && es[n].0 == "op"@) || keys.contains(es[n].0));
        }
        if known_members(d, keys, op) && ((op && es[n].0 == "op"@) || keys.contains(es[n].0)) {
            assert forall|i: int| 0 <= i < es.len() implies (op && es[i].0 == "op"@) || keys.contains(#[trigger] es[i].0) by {
                if i < n {
                    assert(d[i] == es[i]);
                }
            }
        }
        if !known_members(d, keys, op) {
            let i = choose|i: int| 0 <= i < d.len() && !((op && d[i].0 == "op"@) || keys.contains(#[trigger] d[i].0));
            assert(d[i] == es[i]);
        }
    }
}

proof fn lemma_ids_errors(items: Seq<JsonV>)
    ensures
        ids_value(items) matches Err(e) ==> e == Error::WrongType,
    decreases items.len(),
{
    if items.len() > 0 {
        lemma_ids_errors(items.drop_last());
    }
}

proof fn lemma_leaf_errors(es: Seq<(Seq<char>, JsonV)>, op: Seq<char>)
    ensures
        !(leaf_op(es, op) matches Err(e) && e == Error::UnknownField),
{
    if op == "ids"@ {
        match take_array(es, "ids"@) {
            Ok(items) => lemma_ids_errors(items),
            Err(_) => {},
        }
    }
}

/// `refused_members` names members exactly when reading refuses for an
/// unknown member.
pub proof fn lemma_refused_value(v: JsonV)
    ensures
        (refused_members(v).len() > 0) == refuses_unknown(parse_value(v)),
    decreases v, 0int,
{
    match v {
        JsonV::Object(es) => match take_str(es, "op"@) {
            Err(_) => {},
            Ok(op) => match parse_op(es, op) {
                Err(_) => lemma_refused_op(es, op),
                Ok(_) => lemma_unknown_keys(es, op_keys(op), true),
            },
        },
        _ => {},
    }
}

proof fn lemma_refused_op(es: Seq<(Seq<char>, JsonV)>, op: Seq<char>)
    ensures
        (refused_in_op(es, op).len() > 0) == refuses_unknown(parse_op(es, op)),
    decreases es, 2int,
{
    if op == "and"@ || op == "or"@ {
        lemma_refused_list_member(es, "args"@);
    } else if op == "not"@ {
        lemma_refused_member(es, "arg"@);
    } else if op == "traverse"@ {
        lemma_refused_member(es, "from"@);
        if parse_member(es, "from"@) is Ok {
            lemma_refused_steps(es);
        }
    } else {
        lemma_leaf_errors(es, op);
    }
}

proof fn lemma_refused_member(es: Seq<(Seq<char>, JsonV)>, key: Seq<char>)
    ensures
        (refused_in_member(es, key).len() > 0) == refuses_unknown(parse_member(es, key)),
    decreases es, 1int,
{
    let i = key_index(es, key);
    if 0 <= i < es.len() {
        lemma_refused_value(es[i].1);
    }
}

proof fn lemma_refused_list_member(es: Seq<(Seq<char>, JsonV)>, key: Seq<char>)
    ensures
        (refused_in_list_member(es, key).len() > 0) == refuses_unknown(parse_members_list(es, key)),
    decreases es, 1int,
{
    let i = key_index(es, key);
    if 0 <= i < es.len() {
        match es[i].1 {
            JsonV::Array(items) => lemma_refused_list(items),
            _ => {},
        }
    }
}

proof fn lemma_refused_list(items: Seq<JsonV>)
    ensures
        (refused_in_list(items).len() > 0) == refuses_unknown(parse_list(items)),
    decreases items, 0int,
{
    if items.len() > 0 {
        if parse_list(items.drop_last()) is Err {
            lemma_refused_list(items.drop_last());
        } else {
            lemma_refused_value(items.last());
        }
    }
}

proof fn lemma_refused_steps(es: Seq<(Seq<char>, JsonV)>)
    ensures
        (refused_in_steps(es).len() > 0) == refuses_unknown(parse_steps(es)),
    decreases es, 1int,
{
    let i = key_index(es, "steps"@);
    if 0 <= i < es.len() {
        match es[i].1 {
            JsonV::Array(items) => lemma_refused_step_list(items),
            _ => {},
        }
    }
}

proof fn lemma_refused_step_list(items: Seq<JsonV>)
    ensures
        (refused_in_step_list(items).len() > 0) == refuses_unknown(step_list(items)),
    decreases items, 0int,
{
    if items.len() > 0 {
        if step_list(items.drop_last()) is Err {
            lemma_refused_step_list(items.drop_last());
        } else {
            lemma_refused_step(items.last());
        }
    }
}

proof fn lemma_refused_step(v: JsonV)
    ensures
        (refused_in_step(v).len() > 0) == refuses_unknown(step_value(v)),
    decreases v, 0int,
{
    match v {
        JsonV::Object(es) => lemma_refused_step_members(es),
        _ => {},
    }
}

proof fn lemma_refused_step_members(es: Seq<(Seq<char>, JsonV)>)
    ensures
        (refused_in_step_members(es).len() > 0) == refuses_unknown(step_members(es)),
    decreases es, 1int,
{
    lemma_refused_filter(es);
    lemma_unknown_keys(es, step_keys(), false);
}

proof fn lemma_refused_filter(es: Seq<(Seq<char>, JsonV)>)
    ensures
        (refused_in_filter(es).len() > 0) == refuses_unknown(step_filter(es)),
    decreases es, 0int,
{
    let i = key_index(es, "filter"@);
    if 0 <= i < es.len() && es[i].1 != JsonV::Null {
        lemma_refused_value(es[i].1);
    }
}

/// Why `parse` refused a value: the rule it broke, and what it did not know
/// when that is why: the unknown members, or the unknown op.
#[derive(Debug, Clone, PartialEq, Eq)]
pub struct ParseRefusal {
    pub error: Error,
    pub names: Vec<String>,
}

/// Reads a predicate from JSON. A refusal names the rule broken and, when
/// something was not known, the unknown members or op of the object where
/// reading stopped.
pub fn parse(j: &Json) -> (r: Result<Predicate, ParseRefusal>)
    requires
        json_wf(j@),
    ensures
        match (r, parse_value(j@)) {
            (Ok(p), Ok(v)) => p@ == v,
            (Err(a), Err(b)) => a.error == b && strings_view(a.names@) == refused_members(j@),
            _ => false,
        },
        r matches Ok(p) ==> pred_wf(p@),
        r matches Err(a) ==> (a.names@.len() > 0 <==> (a.error == Error::UnknownField || a.error
            == Error::UnknownOp)),
{
    match parse_json(j) {
        Ok(p) => Ok(p),
        Err(e) => {
            let names = unknown_names(j);
            Err(ParseRefusal { error: e, names })
        },
    }
}

/// The members of `es` that are neither `op` (when `op` is set) nor among
/// `keys`, in order.
pub(crate) fn unknown_keys_of(es: &Vec<(String, Json)>, keys: &Vec<&str>, op: bool) -> (r: Vec<String>)
    ensures
        strings_view(r@) == unknown_keys(entries_view(es@), names(keys@), op),
{
    let ghost ev = entries_view(es@);
    let ghost ks = names(keys@);
    proof {
        lemma_entries_view(es@);
    }
    let mut out: Vec<String> = Vec::new();
    let mut i: usize = 0;
    assert(ev.take(0) =~= Seq::<(Seq<char>, JsonV)>::empty());
    assert(strings_view(out@) =~= Seq::<Seq<char>>::empty());
    while i < es.len()
        invariant
            i <= es@.len(),
            ev == entries_view(es@),
            ev.len() == es@.len(),
            ks == names(keys@),
            forall|j: int| 0 <= j < es@.len() ==> #[trigger] ev[j] == (es@[j].0@, es@[j].1@),
            strings_view(out@) == unknown_keys(ev.take(i as int), ks, op),
        decreases es@.len() - i,
    {
        let name = &es[i].0;
        let mut found = op && is(name, "op");
        let mut k: usize = 0;
        while k < keys.len() && !found
            invariant
                k <= keys@.len(),
                ks == names(keys@),
                found ==> (op && name@ == "op"@) || ks.contains(name@),
                !found ==> !(op && name@ == "op"@) && forall|m: int| 0 <= m < k ==> ks[m] != name@,
            decreases keys@.len() - k,
        {
            if is(name, keys[k]) {
                assert(ks[k as int] == name@);
                found = true;
            }
            k += 1;
        }
        proof {
            assert(ev.take(i + 1).drop_last() =~= ev.take(i as int));
            assert(ev.take(i + 1).last() == ev[i as int]);
            assert(ev[i as int].0 == name@);
        }
        if !found {
            let ghost before = out@;
            out.push(name.as_str().to_owned());
            proof {
                assert(!ks.contains(name@));
                assert(strings_view(out@) =~= strings_view(before).push(name@));
            }
        }
        i += 1;
    }
    assert(ev.take(i as int) =~= ev);
    out
}

/// What `parse` names when it refuses `j` for something unknown: the
/// unknown members, in order, or the unknown op; empty when it refuses for
/// another reason or accepts.
pub fn unknown_names(j: &Json) -> (r: Vec<String>)
    requires
        json_wf(j@),
    ensures
        strings_view(r@) == refused_members(j@),
        (r@.len() > 0) == refuses_unknown(parse_value(j@)),
    decreases j, 0int,
{
    proof {
        lemma_refused_value(j@);
    }
    let none: Vec<String> = Vec::new();
    assert(strings_view(none@) =~= Seq::<Seq<char>>::empty());
    match j {
        Json::Object(es) => {
            assert(j@ == JsonV::Object(entries_view(es@)));
            let op = match take_string(es, "op") {
                Ok(v) => v,
                Err(_) => {
                    return none;
                },
            };
            match parse_op_of(es, &op) {
                Err(_) => refused_in_op_of(es, &op),
                Ok(_) => {
                    let keys = op_keys_of(&op);
                    unknown_keys_of(es, &keys, true)
                },
            }
        },
        _ => none,
    }
}

fn refused_in_op_of(es: &Vec<(String, Json)>, op: &String) -> (r: Vec<String>)
    requires
        json_wf(JsonV::Object(entries_view(es@))),
    ensures
        strings_view(r@) == refused_in_op(entries_view(es@), op@),
    decreases es, 2int,
{
    let none: Vec<String> = Vec::new();
    assert(strings_view(none@) =~= Seq::<Seq<char>>::empty());
    if is(op, "and") || is(op, "or") {
        refused_in_args_of(es)
    } else if is(op, "not") {
        refused_in_member_of(es, "arg")
    } else if is(op, "traverse") {
        match parse_member_of(es, "from") {
            Err(_) => refused_in_member_of(es, "from"),
            Ok(_) => refused_in_steps_of(es),
        }
    } else {
        match leaf_op_of(es, op) {
            Err(Error::UnknownOp) => {
                let v: Vec<String> = vec![op.as_str().to_owned()];
                assert(strings_view(v@) =~= seq![op@]);
                v
            },
            _ => none,
        }
    }
}

fn refused_in_member_of(es: &Vec<(String, Json)>, key: &str) -> (r: Vec<String>)
    requires
        json_wf(JsonV::Object(entries_view(es@))),
    ensures
        strings_view(r@) == refused_in_member(entries_view(es@), key@),
    decreases es, 1int,
{
    let ghost ev = entries_view(es@);
    proof {
        lemma_entries_view(es@);
        lemma_member_wf(ev, key@);
    }
    let none: Vec<String> = Vec::new();
    assert(strings_view(none@) =~= Seq::<Seq<char>>::empty());
    match key_position(es, key) {
        Some(i) => {
            assert(ev[i as int].1 == es@[i as int].1@);
            assert(decreases_to!(*es => es@[i as int].1));
            unknown_names(&es[i].1)
        },
        None => none,
    }
}

fn refused_in_args_of(es: &Vec<(String, Json)>) -> (r: Vec<String>)
    requires
        json_wf(JsonV::Object(entries_view(es@))),
    ensures
        strings_view(r@) == refused_in_list_member(entries_view(es@), "args"@),
    decreases es, 1int,
{
    let ghost ev = entries_view(es@);
    proof {
        lemma_entries_view(es@);
        lemma_member_wf(ev, "args"@);
    }
    let none: Vec<String> = Vec::new();
    assert(strings_view(none@) =~= Seq::<Seq<char>>::empty());
    match key_position(es, "args") {
        Some(i) => {
            assert(ev[i as int].1 == es@[i as int].1@);
            match &es[i].1 {
                Json::Array(items) => {
                    assert(decreases_to!(*es => es@[i as int].1));
                    assert(es@[i as int].1@ == JsonV::Array(items_view(items@)));
                    proof {
                        lemma_wf_items(items_view(items@));
                    }
                    refused_in_list_of(items)
                },
                _ => none,
            }
        },
        None => none,
    }
}

proof fn lemma_refused_list_prefix(items: Seq<JsonV>, k: int)
    requires
        0 <= k <= items.len(),
        parse_list(items.take(k)) is Err,
    ensures
        refused_in_list(items) == refused_in_list(items.take(k)),
    decreases items.len() - k,
{
    if k < items.len() {
        assert(items.take(k + 1).drop_last() =~= items.take(k));
        lemma_refused_list_prefix(items, k + 1);
    } else {
        assert(items.take(k) =~= items);
    }
}

proof fn lemma_refused_step_list_prefix(items: Seq<JsonV>, k: int)
    requires
        0 <= k <= items.len(),
        step_list(items.take(k)) is Err,
    ensures
        refused_in_step_list(items) == refused_in_step_list(items.take(k)),
    decreases items.len() - k,
{
    if k < items.len() {
        assert(items.take(k + 1).drop_last() =~= items.take(k));
        lemma_refused_step_list_prefix(items, k + 1);
    } else {
        assert(items.take(k) =~= items);
    }
}

fn refused_in_list_of(items: &Vec<Json>) -> (r: Vec<String>)
    requires
        forall|k: int| 0 <= k < items_view(items@).len() ==> #[trigger] json_wf(items_view(items@)[k]),
    ensures
        strings_view(r@) == refused_in_list(items_view(items@)),
    decreases items, 0int,
{
    let ghost iv = items_view(items@);
    proof {
        lemma_items_view(items@);
    }
    let mut i: usize = 0;
    assert(iv.take(0) =~= Seq::<JsonV>::empty());
    while i < items.len()
        invariant
            i <= items@.len(),
            iv == items_view(items@),
            iv.len() == items@.len(),
            forall|k: int| 0 <= k < items@.len() ==> #[trigger] iv[k] == items@[k]@,
            forall|k: int| 0 <= k < iv.len() ==> #[trigger] json_wf(iv[k]),
            parse_list(iv.take(i as int)) is Ok,
            refused_in_list(iv.take(i as int)).len() == 0,
        decreases items@.len() - i,
    {
        assert(iv.take(i + 1).drop_last() =~= iv.take(i as int));
        assert(iv.take(i + 1).last() == items@[i as int]@);
        assert(json_wf(iv[i as int]));
        assert(decreases_to!(*items => items@[i as int]));
        proof {
            lemma_refused_value(iv[i as int]);
        }
        match parse_json(&items[i]) {
            Ok(_) => {},
            Err(_) => {
                proof {
                    lemma_refused_list_prefix(iv, i + 1);
                }
                return unknown_names(&items[i]);
            },
        }
        i += 1;
    }
    assert(iv.take(i as int) =~= iv);
    let none: Vec<String> = Vec::new();
    assert(strings_view(none@) =~= refused_in_list(iv));
    none
}

fn refused_in_steps_of(es: &Vec<(String, Json)>) -> (r: Vec<String>)
    requires
        json_wf(JsonV::Object(entries_view(es@))),
    ensures
        strings_view(r@) == refused_in_steps(entries_view(es@)),
    decreases es, 1int,
{
    let ghost ev = entries_view(es@);
    proof {
        lemma_entries_view(es@);
        lemma_member_wf(ev, "steps"@);
    }
    let none: Vec<String> = Vec::new();
    assert(strings_view(none@) =~= Seq::<Seq<char>>::empty());
    match key_position(es, "steps") {
        Some(i) => {
            assert(ev[i as int].1 == es@[i as int].1@);
            match &es[i].1 {
                Json::Array(items) => {
                    assert(decreases_to!(*es => es@[i as int].1));
                    assert(es@[i as int].1@ == JsonV::Array(items_view(items@)));
                    proof {
                        lemma_wf_items(items_view(items@));
                    }
                    refused_in_step_list_of(items)
                },
                _ => none,
            }
        },
        None => none,
    }
}

fn refused_in_step_list_of(items: &Vec<Json>) -> (r: Vec<String>)
    requires
        forall|k: int| 0 <= k < items_view(items@).len() ==> #[trigger] json_wf(items_view(items@)[k]),
    ensures
        strings_view(r@) == refused_in_step_list(items_view(items@)),
    decreases items, 0int,
{
    let ghost iv = items_view(items@);
    proof {
        lemma_items_view(items@);
    }
    let mut i: usize = 0;
    assert(iv.take(0) =~= Seq::<JsonV>::empty());
    while i < items.len()
        invariant
            i <= items@.len(),
            iv == items_view(items@),
            iv.len() == items@.len(),
            forall|k: int| 0 <= k < items@.len() ==> #[trigger] iv[k] == items@[k]@,
            forall|k: int| 0 <= k < iv.len() ==> #[trigger] json_wf(iv[k]),
            step_list(iv.take(i as int)) is Ok,
            refused_in_step_list(iv.take(i as int)).len() == 0,
        decreases items@.len() - i,
    {
        assert(iv.take(i + 1).drop_last() =~= iv.take(i as int));
        assert(iv.take(i + 1).last() == items@[i as int]@);
        assert(json_wf(iv[i as int]));
        assert(decreases_to!(*items => items@[i as int]));
        proof {
            lemma_refused_step(iv[i as int]);
        }
        match step_of(&items[i]) {
            Ok(_) => {},
            Err(_) => {
                proof {
                    lemma_refused_step_list_prefix(iv, i + 1);
                }
                return refused_in_step_of(&items[i]);
            },
        }
        i += 1;
    }
    assert(iv.take(i as int) =~= iv);
    let none: Vec<String> = Vec::new();
    assert(strings_view(none@) =~= refused_in_step_list(iv));
    none
}

fn refused_in_step_of(j: &Json) -> (r: Vec<String>)
    requires
        json_wf(j@),
    ensures
        strings_view(r@) == refused_in_step(j@),
    decreases j, 0int,
{
    let none: Vec<String> = Vec::new();
    assert(strings_view(none@) =~= Seq::<Seq<char>>::empty());
    match j {
        Json::Object(es) => {
            assert(j@ == JsonV::Object(entries_view(es@)));
            refused_in_step_members_of(es)
        },
        _ => none,
    }
}

fn refused_in_step_members_of(es: &Vec<(String, Json)>) -> (r: Vec<String>)
    requires
        json_wf(JsonV::Object(entries_view(es@))),
    ensures
        strings_view(r@) == refused_in_step_members(entries_view(es@)),
    decreases es, 1int,
{
    let none: Vec<String> = Vec::new();
    assert(strings_view(none@) =~= Seq::<Seq<char>>::empty());
    if take_string(es, "relation").is_err() {
        return none;
    }
    match member_of(es, "direction") {
        Some(d) => if direction_of(d).is_err() {
            return none;
        },
        None => {},
    }
    if step_filter_of(es).is_err() {
        return refused_in_filter_of(es);
    }
    if opt_u32_of(es, "min").is_err() || opt_u32_of(es, "max").is_err() {
        return none;
    }
    let keys = step_keys_of();
    unknown_keys_of(es, &keys, false)
}

fn refused_in_filter_of(es: &Vec<(String, Json)>) -> (r: Vec<String>)
    requires
        json_wf(JsonV::Object(entries_view(es@))),
    ensures
        strings_view(r@) == refused_in_filter(entries_view(es@)),
    decreases es, 0int,
{
    let ghost ev = entries_view(es@);
    proof {
        lemma_entries_view(es@);
        lemma_member_wf(ev, "filter"@);
    }
    let none: Vec<String> = Vec::new();
    assert(strings_view(none@) =~= Seq::<Seq<char>>::empty());
    match key_position(es, "filter") {
        Some(i) => {
            assert(ev[i as int].1 == es@[i as int].1@);
            match &es[i].1 {
                Json::Null => none,
                f => {
                    assert(decreases_to!(*es => es@[i as int].1));
                    unknown_names(f)
                },
            }
        },
        None => none,
    }
}

} // verus!
