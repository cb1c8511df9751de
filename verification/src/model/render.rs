//! Writes a predicate as the JSON that `parse` reads: an object tagged by
//! `op`, optional bounds left out when absent.

use super::links::Direction;
use super::parse::{
    ids_value, key_index, known_members, lemma_key_index, member, op_keys, parse_list, parse_value,
    parse_member, parse_members_list, parse_op, parse_steps, present, step_filter, step_keys, step_list,
    step_members, step_value, u32_value, unsigned_value,
};
use super::predicate::{PredicateV, SortDirection, StepV};
use crate::error::Error;
use crate::json::{entries_view, items_view, Json, JsonV, Number};
use super::predicate::{opt_json, predicates_view, steps_view, Predicate, Step};
use super::parse::copy_items;
use crate::text::decimal;
use crate::index::value::digits_value;
use crate::json::{all_digits, is_digit};
use crate::text::{decimal_spec, digit_char};
use vstd::prelude::*;

verus! {

/// A whole number as a JSON number literal.
pub open spec fn nat_json(n: nat) -> JsonV {
    JsonV::Number(decimal_spec(n))
}

pub open spec fn direction_json(d: Direction) -> JsonV {
    match d {
        Direction::Out => JsonV::Str("out"@),
        Direction::In => JsonV::Str("in"@),
    }
}

pub open spec fn sort_json(d: SortDirection) -> JsonV {
    match d {
        SortDirection::Asc => JsonV::Str("asc"@),
        SortDirection::Desc => JsonV::Str("desc"@),
    }
}

/// The member `key` when `o` holds a value, nothing otherwise.
pub open spec fn opt_member(key: Seq<char>, o: Option<JsonV>) -> Seq<(Seq<char>, JsonV)> {
    match o {
        Some(v) => seq![(key, v)],
        None => seq![],
    }
}

pub open spec fn bound_members(gt: Option<JsonV>, gte: Option<JsonV>, lt: Option<JsonV>, lte: Option<JsonV>) -> Seq<(Seq<char>, JsonV)> {
    opt_member("gt"@, gt) + opt_member("gte"@, gte) + opt_member("lt"@, lt) + opt_member("lte"@, lte)
}

pub open spec fn ids_json(ids: Seq<u32>) -> Seq<JsonV> {
    Seq::new(ids.len(), |i: int| nat_json(ids[i] as nat))
}

pub open spec fn op_member(op: Seq<char>) -> (Seq<char>, JsonV) {
    ("op"@, JsonV::Str(op))
}

/// The JSON of a predicate.
pub open spec fn predicate_json(p: PredicateV) -> JsonV
    decreases p,
{
    JsonV::Object(
        match p {
            PredicateV::All => seq![op_member("all"@)],
            PredicateV::Ids { ids } => seq![op_member("ids"@), ("ids"@, JsonV::Array(ids_json(ids)))],
            PredicateV::Eq { field, value } => seq![op_member("eq"@), ("field"@, JsonV::Str(field)), ("value"@, value)],
            PredicateV::In { field, values } => seq![
                op_member("in"@),
                ("field"@, JsonV::Str(field)),
                ("values"@, JsonV::Array(values)),
            ],
            PredicateV::Any { value } => seq![op_member("any"@), ("value"@, value)],
            PredicateV::Exists { field } => seq![op_member("exists"@), ("field"@, JsonV::Str(field))],
            PredicateV::Prefix { field, prefix } => seq![
                op_member("prefix"@),
                ("field"@, JsonV::Str(field)),
                ("prefix"@, JsonV::Str(prefix)),
            ],
            PredicateV::Range { field, gt, gte, lt, lte } => seq![op_member("range"@), ("field"@, JsonV::Str(field))]
                + bound_members(gt, gte, lt, lte),
            PredicateV::At { field, value } => seq![
                op_member("at"@),
                ("field"@, JsonV::Str(field)),
                ("value"@, JsonV::Number(value)),
            ],
            PredicateV::Overlap { field, start, end } => seq![
                op_member("overlap"@),
                ("field"@, JsonV::Str(field)),
                ("start"@, JsonV::Number(start)),
                ("end"@, JsonV::Number(end)),
            ],
            PredicateV::Contains { field, start, end } => seq![
                op_member("contains"@),
                ("field"@, JsonV::Str(field)),
                ("start"@, JsonV::Number(start)),
                ("end"@, JsonV::Number(end)),
            ],
            PredicateV::ContainedBy { field, start, end } => seq![
                op_member("contained_by"@),
                ("field"@, JsonV::Str(field)),
                ("start"@, JsonV::Number(start)),
                ("end"@, JsonV::Number(end)),
            ],
            PredicateV::Seek { index, group, gt, gte, lt, lte, direction, limit } => seq![
                op_member("seek"@),
                ("index"@, JsonV::Str(index)),
                ("group"@, JsonV::Array(group)),
            ] + bound_members(gt, gte, lt, lte) + seq![("direction"@, sort_json(direction))] + opt_member(
                "limit"@,
                match limit {
                    Some(n) => Some(nat_json(n as nat)),
                    None => None,
                },
            ),
            PredicateV::HasLink { relation, target, direction } => seq![
                op_member("has_link"@),
                ("relation"@, JsonV::Str(relation)),
                ("target"@, nat_json(target as nat)),
                ("direction"@, direction_json(direction)),
            ],
            PredicateV::And { args } => seq![op_member("and"@), ("args"@, JsonV::Array(predicates_json(args)))],
            PredicateV::Or { args } => seq![op_member("or"@), ("args"@, JsonV::Array(predicates_json(args)))],
            PredicateV::Not { arg } => seq![op_member("not"@), ("arg"@, predicate_json(*arg))],
            PredicateV::Traverse { from, steps } => seq![
                op_member("traverse"@),
                ("from"@, predicate_json(*from)),
                ("steps"@, JsonV::Array(steps_json(steps))),
            ],
        },
    )
}

pub open spec fn predicates_json(ps: Seq<PredicateV>) -> Seq<JsonV>
    decreases ps,
{
    if ps.len() == 0 {
        seq![]
    } else {
        predicates_json(ps.drop_last()).push(predicate_json(ps.last()))
    }
}

pub open spec fn steps_json(ss: Seq<StepV>) -> Seq<JsonV>
    decreases ss,
{
    if ss.len() == 0 {
        seq![]
    } else {
        steps_json(ss.drop_last()).push(step_json(ss.last()))
    }
}

/// A step's JSON; an absent filter is written as `null`.
pub open spec fn step_json(s: StepV) -> JsonV
    decreases s,
{
    JsonV::Object(
        seq![
            ("relation"@, JsonV::Str(s.relation)),
            ("direction"@, direction_json(s.direction)),
            ("filter"@, match s.filter {
                Some(f) => predicate_json(f),
                None => JsonV::Null,
            }),
        ] + opt_member("min"@, match s.min {
            Some(n) => Some(nat_json(n as nat)),
            None => None,
        }) + opt_member("max"@, match s.max {
            Some(n) => Some(nat_json(n as nat)),
            None => None,
        }),
    )
}

proof fn lemma_decimal(n: nat)
    ensures
        decimal_spec(n).len() > 0,
        all_digits(decimal_spec(n)),
        digits_value(decimal_spec(n)) == n,
    decreases n,
{
    if n < 10 {
        let d = decimal_spec(n);
        assert(d =~= seq![digit_char(n)]);
        assert(d.drop_last() =~= Seq::<char>::empty());
        assert(digit_char(n) as u32 == 48 + n);
        assert(d.last() == digit_char(n));
        assert(digits_value(d.drop_last()) == 0);
        assert(digits_value(d) == digits_value(d.drop_last()) * 10 + ((d.last() as u32) - 48) as nat);
    } else {
        lemma_decimal(n / 10);
        let p = decimal_spec(n / 10);
        let d = decimal_spec(n);
        assert(d == p.push(digit_char(n % 10)));
        assert(d.drop_last() =~= p);
        assert(digit_char(n % 10) as u32 == 48 + n % 10);
        assert forall|i: int| 0 <= i < d.len() implies is_digit(#[trigger] d[i]) by {
            if i < p.len() {
                assert(d[i] == p[i]);
            }
        }
        assert(d.last() == digit_char(n % 10));
        assert(digits_value(d) == digits_value(d.drop_last()) * 10 + ((d.last() as u32) - 48) as nat);
        assert(digits_value(d) == (n / 10) * 10 + n % 10);
        assert((n / 10) * 10 + n % 10 == n);
    }
}

/// No two members share a name.
pub open spec fn keys_distinct(es: Seq<(Seq<char>, JsonV)>) -> bool {
    forall|i: int, j: int| 0 <= i < es.len() && 0 <= j < es.len() && i != j ==> es[i].0 != es[j].0
}

pub(crate) proof fn lemma_member_at(es: Seq<(Seq<char>, JsonV)>, i: int)
    requires
        keys_distinct(es),
        0 <= i < es.len(),
    ensures
        member(es, es[i].0) == Some(es[i].1),
{
    lemma_key_index(es, es[i].0);
    let k = key_index(es, es[i].0);
    if k != i {
        assert(es[k].0 == es[i].0);
    }
}

proof fn lemma_member_absent(es: Seq<(Seq<char>, JsonV)>, key: Seq<char>)
    requires
        forall|j: int| 0 <= j < es.len() ==> es[j].0 != key,
    ensures
        member(es, key) is None,
{
    lemma_key_index(es, key);
}

/// The names this format uses, spelled out.
proof fn lemma_names()
    ensures
        "op"@ =~= seq!['o', 'p'],
        "ids"@ =~= seq!['i', 'd', 's'],
        "field"@ =~= seq!['f', 'i', 'e', 'l', 'd'],
        "value"@ =~= seq!['v', 'a', 'l', 'u', 'e'],
        "values"@ =~= seq!['v', 'a', 'l', 'u', 'e', 's'],
        "prefix"@ =~= seq!['p', 'r', 'e', 'f', 'i', 'x'],
        "gt"@ =~= seq!['g', 't'],
        "gte"@ =~= seq!['g', 't', 'e'],
        "lt"@ =~= seq!['l', 't'],
        "lte"@ =~= seq!['l', 't', 'e'],
        "start"@ =~= seq!['s', 't', 'a', 'r', 't'],
        "end"@ =~= seq!['e', 'n', 'd'],
        "index"@ =~= seq!['i', 'n', 'd', 'e', 'x'],
        "group"@ =~= seq!['g', 'r', 'o', 'u', 'p'],
        "direction"@ =~= seq!['d', 'i', 'r', 'e', 'c', 't', 'i', 'o', 'n'],
        "limit"@ =~= seq!['l', 'i', 'm', 'i', 't'],
        "relation"@ =~= seq!['r', 'e', 'l', 'a', 't', 'i', 'o', 'n'],
        "target"@ =~= seq!['t', 'a', 'r', 'g', 'e', 't'],
        "args"@ =~= seq!['a', 'r', 'g', 's'],
        "arg"@ =~= seq!['a', 'r', 'g'],
        "from"@ =~= seq!['f', 'r', 'o', 'm'],
        "steps"@ =~= seq!['s', 't', 'e', 'p', 's'],
        "filter"@ =~= seq!['f', 'i', 'l', 't', 'e', 'r'],
        "min"@ =~= seq!['m', 'i', 'n'],
        "max"@ =~= seq!['m', 'a', 'x'],
        "all"@ =~= seq!['a', 'l', 'l'],
        "eq"@ =~= seq!['e', 'q'],
        "in"@ =~= seq!['i', 'n'],
        "any"@ =~= seq!['a', 'n', 'y'],
        "exists"@ =~= seq!['e', 'x', 'i', 's', 't', 's'],
        "range"@ =~= seq!['r', 'a', 'n', 'g', 'e'],
        "at"@ =~= seq!['a', 't'],
        "overlap"@ =~= seq!['o', 'v', 'e', 'r', 'l', 'a', 'p'],
        "contains"@ =~= seq!['c', 'o', 'n', 't', 'a', 'i', 'n', 's'],
        "contained_by"@ =~= seq!['c', 'o', 'n', 't', 'a', 'i', 'n', 'e', 'd', '_', 'b', 'y'],
        "seek"@ =~= seq!['s', 'e', 'e', 'k'],
        "has_link"@ =~= seq!['h', 'a', 's', '_', 'l', 'i', 'n', 'k'],
        "and"@ =~= seq!['a', 'n', 'd'],
        "or"@ =~= seq!['o', 'r'],
        "not"@ =~= seq!['n', 'o', 't'],
        "traverse"@ =~= seq!['t', 'r', 'a', 'v', 'e', 'r', 's', 'e'],
        "out"@ =~= seq!['o', 'u', 't'],
        "asc"@ =~= seq!['a', 's', 'c'],
        "desc"@ =~= seq!['d', 'e', 's', 'c'],
{
    reveal_strlit("op");
    reveal_strlit("ids");
    reveal_strlit("field");
    reveal_strlit("value");
    reveal_strlit("values");
    reveal_strlit("prefix");
    reveal_strlit("gt");
    reveal_strlit("gte");
    reveal_strlit("lt");
    reveal_strlit("lte");
    reveal_strlit("start");
    reveal_strlit("end");
    reveal_strlit("index");
    reveal_strlit("group");
    reveal_strlit("direction");
    reveal_strlit("limit");
    reveal_strlit("relation");
    reveal_strlit("target");
    reveal_strlit("args");
    reveal_strlit("arg");
    reveal_strlit("from");
    reveal_strlit("steps");
    reveal_strlit("filter");
    reveal_strlit("min");
    reveal_strlit("max");
    reveal_strlit("all");
    reveal_strlit("eq");
    reveal_strlit("in");
    reveal_strlit("any");
    reveal_strlit("exists");
    reveal_strlit("range");
    reveal_strlit("at");
    reveal_strlit("overlap");
    reveal_strlit("contains");
    reveal_strlit("contained_by");
    reveal_strlit("seek");
    reveal_strlit("has_link");
    reveal_strlit("and");
    reveal_strlit("or");
    reveal_strlit("not");
    reveal_strlit("traverse");
    reveal_strlit("out");
    reveal_strlit("asc");
    reveal_strlit("desc");
}

pub open spec fn no_null(o: Option<JsonV>) -> bool {
    o != Some(JsonV::Null)
}

/// A predicate that reads back as itself once written: no optional bound
/// holds `null`, which reads as absent.
pub open spec fn writable(p: PredicateV) -> bool
    decreases p,
{
    match p {
        PredicateV::Range { gt, gte, lt, lte, .. } => no_null(gt) && no_null(gte) && no_null(lt) && no_null(lte),
        PredicateV::Seek { gt, gte, lt, lte, .. } => no_null(gt) && no_null(gte) && no_null(lt) && no_null(lte),
        PredicateV::And { args } => all_writable(args),
        PredicateV::Or { args } => all_writable(args),
        PredicateV::Not { arg } => writable(*arg),
        PredicateV::Traverse { from, steps } => writable(*from) && steps_writable(steps),
        _ => true,
    }
}

pub open spec fn all_writable(ps: Seq<PredicateV>) -> bool
    decreases ps,
{
    ps.len() == 0 || (all_writable(ps.drop_last()) && writable(ps.last()))
}

pub open spec fn steps_writable(ss: Seq<StepV>) -> bool
    decreases ss,
{
    ss.len() == 0 || (steps_writable(ss.drop_last()) && step_writable(ss.last()))
}

pub open spec fn step_writable(s: StepV) -> bool
    decreases s,
{
    match s.filter {
        Some(f) => writable(f),
        None => true,
    }
}

proof fn back_all()
    ensures
        parse_value(predicate_json(PredicateV::All)) == Ok::<PredicateV, Error>(PredicateV::All),
{
    lemma_names();
    let es = seq![op_member("all"@)];
    assert(predicate_json(PredicateV::All) == JsonV::Object(es));
    lemma_member_at(es, 0);
    assert(known_members(es, op_keys("all"@), true));
}

proof fn back_eq(field: Seq<char>, value: JsonV)
    ensures
        parse_value(predicate_json(PredicateV::Eq { field, value })) == Ok::<PredicateV, Error>(PredicateV::Eq { field, value }),
{
    lemma_names();
    let es = seq![op_member("eq"@), ("field"@, JsonV::Str(field)), ("value"@, value)];
    assert(predicate_json(PredicateV::Eq { field, value }) == JsonV::Object(es));
    assert(keys_distinct(es));
    lemma_member_at(es, 0);
    lemma_member_at(es, 1);
    lemma_member_at(es, 2);
    assert(op_keys("eq"@) =~= seq!["field"@, "value"@]);
    assert forall|i: int| 0 <= i < es.len() implies ("op"@ == es[i].0) || op_keys("eq"@).contains(#[trigger] es[i].0) by {
        if i == 1 {
            assert(op_keys("eq"@)[0] == es[i].0);
        }
        if i == 2 {
            assert(op_keys("eq"@)[1] == es[i].0);
        }
    }
}

/// A whole number written as a literal reads back as itself.
pub(crate) proof fn lemma_nat_back(n: nat, max: nat)
    requires
        n <= max,
    ensures
        unsigned_value(nat_json(n), max) == Ok::<nat, Error>(n),
{
    lemma_decimal(n);
    let d = decimal_spec(n);
    if d == seq!['-', '0'] {
        assert(is_digit(d[0]));
    }
}

proof fn lemma_ids_back(ids: Seq<u32>)
    ensures
        ids_value(ids_json(ids)) == Ok::<Seq<u32>, Error>(ids),
    decreases ids.len(),
{
    if ids.len() > 0 {
        let d = ids.drop_last();
        lemma_ids_back(d);
        assert(ids_json(ids).drop_last() =~= ids_json(d));
        assert(ids_json(ids).last() == nat_json(ids.last() as nat));
        lemma_nat_back(ids.last() as nat, u32::MAX as nat);
        assert(u32_value(nat_json(ids.last() as nat)) == Ok::<u32, Error>(ids.last()));
        assert(d.push(ids.last()) =~= ids);
        let items = ids_json(ids);
        assert(items.len() > 0);
        assert(ids_value(items.drop_last()) == Ok::<Seq<u32>, Error>(d));
        assert(ids_value(items) == Ok::<Seq<u32>, Error>(d.push(ids.last())));
    } else {
        assert(ids_json(ids) =~= Seq::<JsonV>::empty());
        assert(ids =~= Seq::<u32>::empty());
    }
}

/// The last member named `key` of `a + b` is in `b` when `b` has one.
proof fn lemma_member_concat(a: Seq<(Seq<char>, JsonV)>, b: Seq<(Seq<char>, JsonV)>, key: Seq<char>)
    ensures
        member(a + b, key) == (if member(b, key) is Some {
            member(b, key)
        } else {
            member(a, key)
        }),
    decreases b.len(),
{
    if b.len() > 0 {
        assert((a + b).drop_last() =~= a + b.drop_last());
        assert((a + b).last() == b.last());
        lemma_member_concat(a, b.drop_last(), key);
        lemma_key_index(b, key);
        lemma_key_index(b.drop_last(), key);
        lemma_key_index(a + b, key);
        lemma_key_index(a + b.drop_last(), key);
        lemma_key_index(a, key);
    } else {
        assert(a + b =~= a);
        lemma_key_index(b, key);
    }
}

proof fn lemma_opt_member(k: Seq<char>, o: Option<JsonV>, key: Seq<char>)
    ensures
        member(opt_member(k, o), key) == (if key == k {
            o
        } else {
            None
        }),
        known_members(opt_member(k, o), seq![k], false),
{
    match o {
        Some(v) => {
            let s = seq![(k, v)];
            if key == k {
                lemma_member_at(s, 0);
            } else {
                lemma_member_absent(s, key);
            }
            assert(seq![k][0] == k);
        },
        None => {
            lemma_member_absent(opt_member(k, o), key);
        },
    }
}

proof fn lemma_known_concat(a: Seq<(Seq<char>, JsonV)>, b: Seq<(Seq<char>, JsonV)>, keys: Seq<Seq<char>>, op: bool)
    requires
        known_members(a, keys, op),
        known_members(b, keys, op),
    ensures
        known_members(a + b, keys, op),
{
    assert forall|i: int| 0 <= i < (a + b).len() implies (op && (a + b)[i].0 == "op"@) || keys.contains(#[trigger] (a + b)[i].0) by {
        if i < a.len() {
            assert((a + b)[i] == a[i]);
        } else {
            assert((a + b)[i] == b[i - a.len()]);
        }
    }
}

/// Known under fewer keys is known under more.
proof fn lemma_known_more(a: Seq<(Seq<char>, JsonV)>, keys: Seq<Seq<char>>, more: Seq<Seq<char>>, op: bool)
    requires
        known_members(a, keys, op),
        forall|k: Seq<char>| keys.contains(k) ==> more.contains(k),
    ensures
        known_members(a, more, op),
{
    assert forall|i: int| 0 <= i < a.len() implies (op && a[i].0 == "op"@) || more.contains(#[trigger] a[i].0) by {
        if !(op && a[i].0 == "op"@) {
            assert(keys.contains(a[i].0));
        }
    }
}


proof fn back_ids(ids: Seq<u32>)
    ensures
        parse_value(predicate_json(PredicateV::Ids { ids })) == Ok::<PredicateV, Error>(PredicateV::Ids { ids }),
{
    lemma_names();
    lemma_ids_back(ids);
    let es = seq![op_member("ids"@), ("ids"@, JsonV::Array(ids_json(ids)))];
    assert(predicate_json(PredicateV::Ids { ids }) == JsonV::Object(es));
    assert(keys_distinct(es));
    lemma_member_at(es, 0);
    lemma_member_at(es, 1);
    assert(op_keys("ids"@) =~= seq!["ids"@]);
    assert forall|i: int| 0 <= i < es.len() implies ("op"@ == es[i].0) || op_keys("ids"@).contains(#[trigger] es[i].0) by {
        if i == 1 {
            assert(op_keys("ids"@)[0] == es[i].0);
        }
    }
}

proof fn back_in(field: Seq<char>, values: Seq<JsonV>)
    ensures
        parse_value(predicate_json(PredicateV::In { field, values })) == Ok::<PredicateV, Error>(PredicateV::In { field, values }),
{
    lemma_names();
    
    let es = seq![op_member("in"@), ("field"@, JsonV::Str(field)), ("values"@, JsonV::Array(values))];
    assert(predicate_json(PredicateV::In { field, values }) == JsonV::Object(es));
    assert(keys_distinct(es));
    lemma_member_at(es, 0);
    lemma_member_at(es, 1);
    lemma_member_at(es, 2);
    assert(op_keys("in"@) =~= seq!["field"@, "values"@]);
    assert forall|i: int| 0 <= i < es.len() implies ("op"@ == es[i].0) || op_keys("in"@).contains(#[trigger] es[i].0) by {
        if i == 1 {
            assert(op_keys("in"@)[0] == es[i].0);
        }
        if i == 2 {
            assert(op_keys("in"@)[1] == es[i].0);
        }
    }
}

proof fn back_any(value: JsonV)
    ensures
        parse_value(predicate_json(PredicateV::Any { value })) == Ok::<PredicateV, Error>(PredicateV::Any { value }),
{
    lemma_names();
    
    let es = seq![op_member("any"@), ("value"@, value)];
    assert(predicate_json(PredicateV::Any { value }) == JsonV::Object(es));
    assert(keys_distinct(es));
    lemma_member_at(es, 0);
    lemma_member_at(es, 1);
    assert(op_keys("any"@) =~= seq!["value"@]);
    assert forall|i: int| 0 <= i < es.len() implies ("op"@ == es[i].0) || op_keys("any"@).contains(#[trigger] es[i].0) by {
        if i == 1 {
            assert(op_keys("any"@)[0] == es[i].0);
        }
    }
}

proof fn back_exists(field: Seq<char>)
    ensures
        parse_value(predicate_json(PredicateV::Exists { field })) == Ok::<PredicateV, Error>(PredicateV::Exists { field }),
{
    lemma_names();
    
    let es = seq![op_member("exists"@), ("field"@, JsonV::Str(field))];
    assert(predicate_json(PredicateV::Exists { field }) == JsonV::Object(es));
    assert(keys_distinct(es));
    lemma_member_at(es, 0);
    lemma_member_at(es, 1);
    assert(op_keys("exists"@) =~= seq!["field"@]);
    assert forall|i: int| 0 <= i < es.len() implies ("op"@ == es[i].0) || op_keys("exists"@).contains(#[trigger] es[i].0) by {
        if i == 1 {
            assert(op_keys("exists"@)[0] == es[i].0);
        }
    }
}

proof fn back_prefix(field: Seq<char>, prefix: Seq<char>)
    ensures
        parse_value(predicate_json(PredicateV::Prefix { field, prefix })) == Ok::<PredicateV, Error>(PredicateV::Prefix { field, prefix }),
{
    lemma_names();
    
    let es = seq![op_member("prefix"@), ("field"@, JsonV::Str(field)), ("prefix"@, JsonV::Str(prefix))];
    assert(predicate_json(PredicateV::Prefix { field, prefix }) == JsonV::Object(es));
    assert(keys_distinct(es));
    lemma_member_at(es, 0);
    lemma_member_at(es, 1);
    lemma_member_at(es, 2);
    assert(op_keys("prefix"@) =~= seq!["field"@, "prefix"@]);
    assert forall|i: int| 0 <= i < es.len() implies ("op"@ == es[i].0) || op_keys("prefix"@).contains(#[trigger] es[i].0) by {
        if i == 1 {
            assert(op_keys("prefix"@)[0] == es[i].0);
        }
        if i == 2 {
            assert(op_keys("prefix"@)[1] == es[i].0);
        }
    }
}

proof fn back_at(field: Seq<char>, value: Seq<char>)
    ensures
        parse_value(predicate_json(PredicateV::At { field, value })) == Ok::<PredicateV, Error>(PredicateV::At { field, value }),
{
    lemma_names();
    
    let es = seq![op_member("at"@), ("field"@, JsonV::Str(field)), ("value"@, JsonV::Number(value))];
    assert(predicate_json(PredicateV::At { field, value }) == JsonV::Object(es));
    assert(keys_distinct(es));
    lemma_member_at(es, 0);
    lemma_member_at(es, 1);
    lemma_member_at(es, 2);
    assert(op_keys("at"@) =~= seq!["field"@, "value"@]);
    assert forall|i: int| 0 <= i < es.len() implies ("op"@ == es[i].0) || op_keys("at"@).contains(#[trigger] es[i].0) by {
        if i == 1 {
            assert(op_keys("at"@)[0] == es[i].0);
        }
        if i == 2 {
            assert(op_keys("at"@)[1] == es[i].0);
        }
    }
}

proof fn back_overlap(field: Seq<char>, start: Seq<char>, end: Seq<char>)
    ensures
        parse_value(predicate_json(PredicateV::Overlap { field, start, end })) == Ok::<PredicateV, Error>(PredicateV::Overlap { field, start, end }),
{
    lemma_names();
    
    let es = seq![op_member("overlap"@), ("field"@, JsonV::Str(field)), ("start"@, JsonV::Number(start)), ("end"@, JsonV::Number(end))];
    assert(predicate_json(PredicateV::Overlap { field, start, end }) == JsonV::Object(es));
    assert(keys_distinct(es));
    lemma_member_at(es, 0);
    lemma_member_at(es, 1);
    lemma_member_at(es, 2);
    lemma_member_at(es, 3);
    assert(op_keys("overlap"@) =~= seq!["field"@, "start"@, "end"@]);
    assert forall|i: int| 0 <= i < es.len() implies ("op"@ == es[i].0) || op_keys("overlap"@).contains(#[trigger] es[i].0) by {
        if i == 1 {
            assert(op_keys("overlap"@)[0] == es[i].0);
        }
        if i == 2 {
            assert(op_keys("overlap"@)[1] == es[i].0);
        }
        if i == 3 {
            assert(op_keys("overlap"@)[2] == es[i].0);
        }
    }
}

proof fn back_contains(field: Seq<char>, start: Seq<char>, end: Seq<char>)
    ensures
        parse_value(predicate_json(PredicateV::Contains { field, start, end })) == Ok::<PredicateV, Error>(PredicateV::Contains { field, start, end }),
{
    lemma_names();
    
    let es = seq![op_member("contains"@), ("field"@, JsonV::Str(field)), ("start"@, JsonV::Number(start)), ("end"@, JsonV::Number(end))];
    assert(predicate_json(PredicateV::Contains { field, start, end }) == JsonV::Object(es));
    assert(keys_distinct(es));
    lemma_member_at(es, 0);
    lemma_member_at(es, 1);
    lemma_member_at(es, 2);
    lemma_member_at(es, 3);
    assert(op_keys("contains"@) =~= seq!["field"@, "start"@, "end"@]);
    assert forall|i: int| 0 <= i < es.len() implies ("op"@ == es[i].0) || op_keys("contains"@).contains(#[trigger] es[i].0) by {
        if i == 1 {
            assert(op_keys("contains"@)[0] == es[i].0);
        }
        if i == 2 {
            assert(op_keys("contains"@)[1] == es[i].0);
        }
        if i == 3 {
            assert(op_keys("contains"@)[2] == es[i].0);
        }
    }
}

proof fn back_contained_by(field: Seq<char>, start: Seq<char>, end: Seq<char>)
    ensures
        parse_value(predicate_json(PredicateV::ContainedBy { field, start, end })) == Ok::<PredicateV, Error>(PredicateV::ContainedBy { field, start, end }),
{
    lemma_names();
    
    let es = seq![op_member("contained_by"@), ("field"@, JsonV::Str(field)), ("start"@, JsonV::Number(start)), ("end"@, JsonV::Number(end))];
    assert(predicate_json(PredicateV::ContainedBy { field, start, end }) == JsonV::Object(es));
    assert(keys_distinct(es));
    lemma_member_at(es, 0);
    lemma_member_at(es, 1);
    lemma_member_at(es, 2);
    lemma_member_at(es, 3);
    assert(op_keys("contained_by"@) =~= seq!["field"@, "start"@, "end"@]);
    assert forall|i: int| 0 <= i < es.len() implies ("op"@ == es[i].0) || op_keys("contained_by"@).contains(#[trigger] es[i].0) by {
        if i == 1 {
            assert(op_keys("contained_by"@)[0] == es[i].0);
        }
        if i == 2 {
            assert(op_keys("contained_by"@)[1] == es[i].0);
        }
        if i == 3 {
            assert(op_keys("contained_by"@)[2] == es[i].0);
        }
    }
}

proof fn back_has_link(relation: Seq<char>, target: u32, direction: Direction)
    ensures
        parse_value(predicate_json(PredicateV::HasLink { relation, target, direction })) == Ok::<PredicateV, Error>(PredicateV::HasLink { relation, target, direction }),
{
    lemma_names();
    lemma_nat_back(target as nat, u32::MAX as nat);
    let es = seq![op_member("has_link"@), ("relation"@, JsonV::Str(relation)), ("target"@, nat_json(target as nat)), ("direction"@, direction_json(direction))];
    assert(predicate_json(PredicateV::HasLink { relation, target, direction }) == JsonV::Object(es));
    assert(keys_distinct(es));
    lemma_member_at(es, 0);
    lemma_member_at(es, 1);
    lemma_member_at(es, 2);
    lemma_member_at(es, 3);
    assert(op_keys("has_link"@) =~= seq!["relation"@, "target"@, "direction"@]);
    assert forall|i: int| 0 <= i < es.len() implies ("op"@ == es[i].0) || op_keys("has_link"@).contains(#[trigger] es[i].0) by {
        if i == 1 {
            assert(op_keys("has_link"@)[0] == es[i].0);
        }
        if i == 2 {
            assert(op_keys("has_link"@)[1] == es[i].0);
        }
        if i == 3 {
            assert(op_keys("has_link"@)[2] == es[i].0);
        }
    }
}


proof fn lemma_bound_names()
    ensures
        "gt"@ != "gte"@ && "gt"@ != "lt"@ && "gt"@ != "lte"@ && "gte"@ != "lt"@ && "gte"@ != "lte"@
            && "lt"@ != "lte"@,
{
    lemma_names();
    assert("gt"@[0] != "lt"@[0] && "gt"@[0] != "lte"@[0] && "gte"@[0] != "lt"@[0] && "gte"@[0] != "lte"@[0]);
    assert("gt"@.len() != "gte"@.len() && "lt"@.len() != "lte"@.len());
}

pub open spec fn bound_keys() -> Seq<Seq<char>> {
    seq!["gt"@, "gte"@, "lt"@, "lte"@]
}

proof fn lemma_bounds(gt: Option<JsonV>, gte: Option<JsonV>, lt: Option<JsonV>, lte: Option<JsonV>, key: Seq<char>)
    ensures
        member(bound_members(gt, gte, lt, lte), key) == (if key == "gt"@ {
            gt
        } else if key == "gte"@ {
            gte
        } else if key == "lt"@ {
            lt
        } else if key == "lte"@ {
            lte
        } else {
            None
        }),
        known_members(bound_members(gt, gte, lt, lte), bound_keys(), false),
{
    lemma_bound_names();
    let a = opt_member("gt"@, gt);
    let b = opt_member("gte"@, gte);
    let c = opt_member("lt"@, lt);
    let d = opt_member("lte"@, lte);
    lemma_opt_member("gt"@, gt, key);
    lemma_opt_member("gte"@, gte, key);
    lemma_opt_member("lt"@, lt, key);
    lemma_opt_member("lte"@, lte, key);
    lemma_member_concat(a, b, key);
    lemma_member_concat(a + b, c, key);
    lemma_member_concat(a + b + c, d, key);
    assert(bound_keys()[0] == "gt"@ && bound_keys()[1] == "gte"@ && bound_keys()[2] == "lt"@ && bound_keys()[3] == "lte"@);
    lemma_known_more(a, seq!["gt"@], bound_keys(), false);
    lemma_known_more(b, seq!["gte"@], bound_keys(), false);
    lemma_known_more(c, seq!["lt"@], bound_keys(), false);
    lemma_known_more(d, seq!["lte"@], bound_keys(), false);
    lemma_known_concat(a, b, bound_keys(), false);
    lemma_known_concat(a + b, c, bound_keys(), false);
    lemma_known_concat(a + b + c, d, bound_keys(), false);
}

/// Known without `op` is known with it.
proof fn lemma_known_op(a: Seq<(Seq<char>, JsonV)>, keys: Seq<Seq<char>>)
    requires
        known_members(a, keys, false),
    ensures
        known_members(a, keys, true),
{
    assert forall|i: int| 0 <= i < a.len() implies ("op"@ == a[i].0) || keys.contains(#[trigger] a[i].0) by {
        assert(keys.contains(a[i].0));
    }
}

proof fn back_range(field: Seq<char>, gt: Option<JsonV>, gte: Option<JsonV>, lt: Option<JsonV>, lte: Option<JsonV>)
    requires
        no_null(gt) && no_null(gte) && no_null(lt) && no_null(lte),
    ensures
        parse_value(predicate_json(PredicateV::Range { field, gt, gte, lt, lte })) == Ok::<PredicateV, Error>(
            PredicateV::Range { field, gt, gte, lt, lte },
        ),
{
    lemma_names();
    lemma_bound_names();
    let p = PredicateV::Range { field, gt, gte, lt, lte };
    let base = seq![op_member("range"@), ("field"@, JsonV::Str(field))];
    let bm = bound_members(gt, gte, lt, lte);
    let es = base + bm;
    assert(predicate_json(p) == JsonV::Object(es));
    assert(keys_distinct(base));
    lemma_member_at(base, 0);
    lemma_member_at(base, 1);
    lemma_member_absent(base, "gt"@);
    lemma_member_absent(base, "gte"@);
    lemma_member_absent(base, "lt"@);
    lemma_member_absent(base, "lte"@);
    lemma_bounds(gt, gte, lt, lte, "op"@);
    lemma_bounds(gt, gte, lt, lte, "field"@);
    lemma_bounds(gt, gte, lt, lte, "gt"@);
    lemma_bounds(gt, gte, lt, lte, "gte"@);
    lemma_bounds(gt, gte, lt, lte, "lt"@);
    lemma_bounds(gt, gte, lt, lte, "lte"@);
    lemma_member_concat(base, bm, "op"@);
    lemma_member_concat(base, bm, "field"@);
    lemma_member_concat(base, bm, "gt"@);
    lemma_member_concat(base, bm, "gte"@);
    lemma_member_concat(base, bm, "lt"@);
    lemma_member_concat(base, bm, "lte"@);
    let keys = op_keys("range"@);
    assert(keys =~= seq!["field"@, "gt"@, "gte"@, "lt"@, "lte"@]);
    assert forall|i: int| 0 <= i < base.len() implies ("op"@ == base[i].0) || keys.contains(#[trigger] base[i].0) by {
        if i == 1 {
            assert(keys[0] == base[i].0);
        }
    }
    assert(keys[1] == "gt"@ && keys[2] == "gte"@ && keys[3] == "lt"@ && keys[4] == "lte"@);
    lemma_known_more(bm, bound_keys(), keys, false);
    lemma_known_op(bm, keys);
    lemma_known_concat(base, bm, keys, true);
    assert(present(es, "gt"@) == gt);
    assert(present(es, "gte"@) == gte);
    assert(present(es, "lt"@) == lt);
    assert(present(es, "lte"@) == lte);
}

proof fn lemma_seek_names()
    ensures
        "index"@ != "limit"@ && "group"@ != "limit"@ && "index"@ != "group"@,
{
    lemma_names();
    assert("index"@[0] != "limit"@[0] && "group"@[0] != "limit"@[0] && "index"@[0] != "group"@[0]);
}

proof fn back_seek(
    index: Seq<char>,
    group: Seq<JsonV>,
    gt: Option<JsonV>,
    gte: Option<JsonV>,
    lt: Option<JsonV>,
    lte: Option<JsonV>,
    direction: SortDirection,
    limit: Option<usize>,
)
    requires
        no_null(gt) && no_null(gte) && no_null(lt) && no_null(lte),
    ensures
        parse_value(predicate_json(PredicateV::Seek { index, group, gt, gte, lt, lte, direction, limit })) == Ok::<
            PredicateV,
            Error,
        >(PredicateV::Seek { index, group, gt, gte, lt, lte, direction, limit }),
{
    lemma_names();
    lemma_bound_names();
    lemma_seek_names();
    let p = PredicateV::Seek { index, group, gt, gte, lt, lte, direction, limit };
    let base = seq![op_member("seek"@), ("index"@, JsonV::Str(index)), ("group"@, JsonV::Array(group))];
    let bm = bound_members(gt, gte, lt, lte);
    let dm = seq![("direction"@, sort_json(direction))];
    let lj = match limit {
        Some(n) => Some(nat_json(n as nat)),
        None => None,
    };
    let lm = opt_member("limit"@, lj);
    let es = base + bm + dm + lm;
    assert(predicate_json(p) == JsonV::Object(es));
    assert(keys_distinct(base));
    lemma_member_at(base, 0);
    lemma_member_at(base, 1);
    lemma_member_at(base, 2);
    lemma_member_at(dm, 0);
    lemma_bounds(gt, gte, lt, lte, "op"@);
    lemma_opt_member("limit"@, lj, "op"@);
    lemma_member_concat(base, bm, "op"@);
    lemma_member_concat(base + bm, dm, "op"@);
    lemma_member_concat(base + bm + dm, lm, "op"@);
    lemma_member_absent(dm, "op"@);
    lemma_bounds(gt, gte, lt, lte, "index"@);
    lemma_opt_member("limit"@, lj, "index"@);
    lemma_member_concat(base, bm, "index"@);
    lemma_member_concat(base + bm, dm, "index"@);
    lemma_member_concat(base + bm + dm, lm, "index"@);
    lemma_member_absent(dm, "index"@);
    lemma_bounds(gt, gte, lt, lte, "group"@);
    lemma_opt_member("limit"@, lj, "group"@);
    lemma_member_concat(base, bm, "group"@);
    lemma_member_concat(base + bm, dm, "group"@);
    lemma_member_concat(base + bm + dm, lm, "group"@);
    lemma_member_absent(dm, "group"@);
    lemma_bounds(gt, gte, lt, lte, "gt"@);
    lemma_opt_member("limit"@, lj, "gt"@);
    lemma_member_concat(base, bm, "gt"@);
    lemma_member_concat(base + bm, dm, "gt"@);
    lemma_member_concat(base + bm + dm, lm, "gt"@);
    lemma_member_absent(base, "gt"@);
    lemma_member_absent(dm, "gt"@);
    lemma_bounds(gt, gte, lt, lte, "gte"@);
    lemma_opt_member("limit"@, lj, "gte"@);
    lemma_member_concat(base, bm, "gte"@);
    lemma_member_concat(base + bm, dm, "gte"@);
    lemma_member_concat(base + bm + dm, lm, "gte"@);
    lemma_member_absent(base, "gte"@);
    lemma_member_absent(dm, "gte"@);
    lemma_bounds(gt, gte, lt, lte, "lt"@);
    lemma_opt_member("limit"@, lj, "lt"@);
    lemma_member_concat(base, bm, "lt"@);
    lemma_member_concat(base + bm, dm, "lt"@);
    lemma_member_concat(base + bm + dm, lm, "lt"@);
    lemma_member_absent(base, "lt"@);
    lemma_member_absent(dm, "lt"@);
    lemma_bounds(gt, gte, lt, lte, "lte"@);
    lemma_opt_member("limit"@, lj, "lte"@);
    lemma_member_concat(base, bm, "lte"@);
    lemma_member_concat(base + bm, dm, "lte"@);
    lemma_member_concat(base + bm + dm, lm, "lte"@);
    lemma_member_absent(base, "lte"@);
    lemma_member_absent(dm, "lte"@);
    lemma_bounds(gt, gte, lt, lte, "direction"@);
    lemma_opt_member("limit"@, lj, "direction"@);
    lemma_member_concat(base, bm, "direction"@);
    lemma_member_concat(base + bm, dm, "direction"@);
    lemma_member_concat(base + bm + dm, lm, "direction"@);
    lemma_member_absent(base, "direction"@);
    lemma_bounds(gt, gte, lt, lte, "limit"@);
    lemma_opt_member("limit"@, lj, "limit"@);
    lemma_member_concat(base, bm, "limit"@);
    lemma_member_concat(base + bm, dm, "limit"@);
    lemma_member_concat(base + bm + dm, lm, "limit"@);
    lemma_member_absent(base, "limit"@);
    lemma_member_absent(dm, "limit"@);
    if let Some(n) = limit {
        lemma_nat_back(n as nat, usize::MAX as nat);
    }
    let keys = op_keys("seek"@);
    assert(keys =~= seq!["index"@, "group"@, "gt"@, "gte"@, "lt"@, "lte"@, "direction"@, "limit"@]);
    assert forall|i: int| 0 <= i < base.len() implies ("op"@ == base[i].0) || keys.contains(#[trigger] base[i].0) by {
        if i == 1 {
            assert(keys[0] == base[i].0);
        }
        if i == 2 {
            assert(keys[1] == base[i].0);
        }
    }
    assert(keys[2] == "gt"@ && keys[3] == "gte"@ && keys[4] == "lt"@ && keys[5] == "lte"@);
    assert(keys[6] == "direction"@ && keys[7] == "limit"@);
    lemma_known_more(bm, bound_keys(), keys, false);
    lemma_known_op(bm, keys);
    assert(known_members(dm, seq!["direction"@], false)) by {
        assert(seq!["direction"@][0] == "direction"@);
    }
    lemma_known_more(dm, seq!["direction"@], keys, false);
    lemma_known_op(dm, keys);
    lemma_known_more(lm, seq!["limit"@], keys, false);
    lemma_known_op(lm, keys);
    lemma_known_concat(base, bm, keys, true);
    lemma_known_concat(base + bm, dm, keys, true);
    lemma_known_concat(base + bm + dm, lm, keys, true);
    assert(present(es, "gt"@) == gt);
    assert(present(es, "gte"@) == gte);
    assert(present(es, "lt"@) == lt);
    assert(present(es, "lte"@) == lte);
}

proof fn lemma_step_names()
    ensures
        "min"@ != "max"@,
{
    lemma_names();
    assert("min"@[1] != "max"@[1]);
}

/// The members of a step's JSON.
pub open spec fn step_entries(st: StepV) -> Seq<(Seq<char>, JsonV)> {
    let fj = match st.filter {
        Some(f) => predicate_json(f),
        None => JsonV::Null,
    };
    let minj = match st.min {
        Some(n) => Some(nat_json(n as nat)),
        None => None,
    };
    let maxj = match st.max {
        Some(n) => Some(nat_json(n as nat)),
        None => None,
    };
    seq![("relation"@, JsonV::Str(st.relation)), ("direction"@, direction_json(st.direction)), ("filter"@, fj)]
        + opt_member("min"@, minj) + opt_member("max"@, maxj)
}

proof fn lemma_step_json(st: StepV)
    ensures
        step_json(st) == JsonV::Object(step_entries(st)),
{
    let m = step_json(st)->Object_0;
    assert(m =~= step_entries(st));
}

/// Reading back a written step gives the step again.
#[verifier::rlimit(80)]
proof fn lemma_step_back(st: StepV)
    requires
        step_writable(st),
    ensures
        step_value(step_json(st)) == Ok::<StepV, Error>(st),
    decreases st,
{
    lemma_names();
    lemma_step_names();
    let fj = match st.filter {
        Some(f) => predicate_json(f),
        None => JsonV::Null,
    };
    let minj = match st.min {
        Some(n) => Some(nat_json(n as nat)),
        None => None,
    };
    let maxj = match st.max {
        Some(n) => Some(nat_json(n as nat)),
        None => None,
    };
    let base = seq![("relation"@, JsonV::Str(st.relation)), ("direction"@, direction_json(st.direction)), ("filter"@, fj)];
    let om = opt_member("min"@, minj);
    let ox = opt_member("max"@, maxj);
    let es = base + om + ox;
    lemma_step_json(st);
    assert(es == step_entries(st));
    assert(keys_distinct(base));
    lemma_member_at(base, 0);
    lemma_member_at(base, 1);
    lemma_member_at(base, 2);
    lemma_opt_member("min"@, minj, "relation"@);
    lemma_opt_member("max"@, maxj, "relation"@);
    lemma_member_concat(base, om, "relation"@);
    lemma_member_concat(base + om, ox, "relation"@);
    lemma_opt_member("min"@, minj, "direction"@);
    lemma_opt_member("max"@, maxj, "direction"@);
    lemma_member_concat(base, om, "direction"@);
    lemma_member_concat(base + om, ox, "direction"@);
    lemma_opt_member("min"@, minj, "filter"@);
    lemma_opt_member("max"@, maxj, "filter"@);
    lemma_member_concat(base, om, "filter"@);
    lemma_member_concat(base + om, ox, "filter"@);
    lemma_opt_member("min"@, minj, "min"@);
    lemma_opt_member("max"@, maxj, "min"@);
    lemma_member_concat(base, om, "min"@);
    lemma_member_concat(base + om, ox, "min"@);
    lemma_member_absent(base, "min"@);
    lemma_opt_member("min"@, minj, "max"@);
    lemma_opt_member("max"@, maxj, "max"@);
    lemma_member_concat(base, om, "max"@);
    lemma_member_concat(base + om, ox, "max"@);
    lemma_member_absent(base, "max"@);
    if let Some(f) = st.filter {
        law_parse_reads_back(f);
    }
    if let Some(n) = st.min {
        lemma_nat_back(n as nat, u32::MAX as nat);
    }
    if let Some(n) = st.max {
        lemma_nat_back(n as nat, u32::MAX as nat);
    }
    let keys = step_keys();
    assert(keys =~= seq!["relation"@, "direction"@, "filter"@, "min"@, "max"@]);
    assert forall|i: int| 0 <= i < base.len() implies (false && base[i].0 == "op"@) || keys.contains(#[trigger] base[i].0) by {
        assert(keys[i] == base[i].0);
    }
    assert(keys[3] == "min"@ && keys[4] == "max"@);
    lemma_known_more(om, seq!["min"@], keys, false);
    lemma_known_more(ox, seq!["max"@], keys, false);
    lemma_known_concat(base, om, keys, false);
    lemma_known_concat(base + om, ox, keys, false);
    let ki = key_index(es, "filter"@);
    assert(es[ki].1 == fj);
    assert(step_filter(es) == Ok::<Option<PredicateV>, Error>(st.filter));
}

proof fn lemma_steps_back(ss: Seq<StepV>)
    requires
        steps_writable(ss),
    ensures
        step_list(steps_json(ss)) == Ok::<Seq<StepV>, Error>(ss),
    decreases ss,
{
    if ss.len() > 0 {
        lemma_steps_back(ss.drop_last());
        lemma_step_back(ss.last());
        let items = steps_json(ss);
        assert(items.drop_last() =~= steps_json(ss.drop_last()));
        assert(items.last() == step_json(ss.last()));
        assert(ss.drop_last().push(ss.last()) =~= ss);
    } else {
        assert(steps_json(ss) =~= Seq::<JsonV>::empty());
        assert(ss =~= Seq::<StepV>::empty());
    }
}

proof fn lemma_list_back(ps: Seq<PredicateV>)
    requires
        all_writable(ps),
    ensures
        parse_list(predicates_json(ps)) == Ok::<Seq<PredicateV>, Error>(ps),
    decreases ps,
{
    if ps.len() > 0 {
        lemma_list_back(ps.drop_last());
        law_parse_reads_back(ps.last());
        let items = predicates_json(ps);
        assert(items.drop_last() =~= predicates_json(ps.drop_last()));
        assert(items.last() == predicate_json(ps.last()));
        assert(ps.drop_last().push(ps.last()) =~= ps);
    } else {
        assert(predicates_json(ps) =~= Seq::<JsonV>::empty());
        assert(ps =~= Seq::<PredicateV>::empty());
    }
}

/// A predicate written as JSON reads back as itself: `parse` undoes the
/// writer, for every predicate whose optional bounds hold no `null` (a
/// `null` bound reads as an absent one).
pub proof fn law_parse_reads_back(p: PredicateV)
    requires
        writable(p),
    ensures
        parse_value(predicate_json(p)) == Ok::<PredicateV, Error>(p),
    decreases p,
{
    lemma_names();
    match p {
        PredicateV::All => back_all(),
        PredicateV::Ids { ids } => back_ids(ids),
        PredicateV::Eq { field, value } => back_eq(field, value),
        PredicateV::In { field, values } => back_in(field, values),
        PredicateV::Any { value } => back_any(value),
        PredicateV::Exists { field } => back_exists(field),
        PredicateV::Prefix { field, prefix } => back_prefix(field, prefix),
        PredicateV::Range { field, gt, gte, lt, lte } => back_range(field, gt, gte, lt, lte),
        PredicateV::At { field, value } => back_at(field, value),
        PredicateV::Overlap { field, start, end } => back_overlap(field, start, end),
        PredicateV::Contains { field, start, end } => back_contains(field, start, end),
        PredicateV::ContainedBy { field, start, end } => back_contained_by(field, start, end),
        PredicateV::Seek { index, group, gt, gte, lt, lte, direction, limit } => back_seek(
            index,
            group,
            gt,
            gte,
            lt,
            lte,
            direction,
            limit,
        ),
        PredicateV::HasLink { relation, target, direction } => back_has_link(relation, target, direction),
        PredicateV::And { args } => {
            lemma_list_back(args);
            let es = seq![op_member("and"@), ("args"@, JsonV::Array(predicates_json(args)))];
            assert(predicate_json(p) == JsonV::Object(es));
            lemma_member_at(es, 0);
            lemma_member_at(es, 1);
            assert(op_keys("and"@) =~= seq!["args"@]);
            assert forall|i: int| 0 <= i < es.len() implies ("op"@ == es[i].0) || op_keys("and"@).contains(#[trigger] es[i].0) by {
                if i == 1 {
                    assert(op_keys("and"@)[0] == es[i].0);
                }
            }
        },
        PredicateV::Or { args } => {
            lemma_list_back(args);
            let es = seq![op_member("or"@), ("args"@, JsonV::Array(predicates_json(args)))];
            assert(predicate_json(p) == JsonV::Object(es));
            lemma_member_at(es, 0);
            lemma_member_at(es, 1);
            assert(op_keys("or"@) =~= seq!["args"@]);
            assert forall|i: int| 0 <= i < es.len() implies ("op"@ == es[i].0) || op_keys("or"@).contains(#[trigger] es[i].0) by {
                if i == 1 {
                    assert(op_keys("or"@)[0] == es[i].0);
                }
            }
        },
        PredicateV::Not { arg } => {
            law_parse_reads_back(*arg);
            let es = seq![op_member("not"@), ("arg"@, predicate_json(*arg))];
            assert(predicate_json(p) == JsonV::Object(es));
            lemma_member_at(es, 0);
            lemma_member_at(es, 1);
            assert(op_keys("not"@) =~= seq!["arg"@]);
            assert forall|i: int| 0 <= i < es.len() implies ("op"@ == es[i].0) || op_keys("not"@).contains(#[trigger] es[i].0) by {
                if i == 1 {
                    assert(op_keys("not"@)[0] == es[i].0);
                }
            }
        },
        PredicateV::Traverse { from, steps } => {
            law_parse_reads_back(*from);
            lemma_steps_back(steps);
            let es = seq![
                op_member("traverse"@),
                ("from"@, predicate_json(*from)),
                ("steps"@, JsonV::Array(steps_json(steps))),
            ];
            assert(predicate_json(p) == JsonV::Object(es));
            assert(keys_distinct(es));
            lemma_member_at(es, 0);
            lemma_member_at(es, 1);
            lemma_member_at(es, 2);
            assert(op_keys("traverse"@) =~= seq!["from"@, "steps"@]);
            assert forall|i: int| 0 <= i < es.len() implies ("op"@ == es[i].0) || op_keys("traverse"@).contains(#[trigger] es[i].0) by {
                if i == 1 {
                    assert(op_keys("traverse"@)[0] == es[i].0);
                }
                if i == 2 {
                    assert(op_keys("traverse"@)[1] == es[i].0);
                }
            }
        },
    }
}


fn put(out: &mut Vec<(String, Json)>, key: &str, v: Json)
    ensures
        entries_view(final(out)@) == entries_view(old(out)@).push((key@, v@)),
{
    let ghost before = out@;
    out.push((key.to_owned(), v));
    assert(out@.drop_last() =~= before);
}

fn put_opt(out: &mut Vec<(String, Json)>, key: &str, o: &Option<Json>)
    ensures
        entries_view(final(out)@) == entries_view(old(out)@) + opt_member(key@, opt_json(*o)),
{
    match o {
        Some(v) => {
            let ghost before = entries_view(out@);
            put(out, key, v.duplicate());
            assert(entries_view(out@) =~= before + seq![(key@, v@)]);
        },
        None => {
            assert(entries_view(out@) =~= entries_view(out@) + Seq::<(Seq<char>, JsonV)>::empty());
        },
    }
}

fn text(s: &str) -> (j: Json)
    ensures
        j@ == JsonV::Str(s@),
{
    Json::Str(s.to_owned())
}

/// A whole number as a JSON number.
fn whole(n: u64) -> (j: Json)
    ensures
        j@ == nat_json(n as nat),
{
    Json::Number(Number { literal: decimal(n) })
}

fn direction_to_json(d: Direction) -> (j: Json)
    ensures
        j@ == direction_json(d),
{
    match d {
        Direction::Out => text("out"),
        Direction::In => text("in"),
    }
}

fn sort_to_json(d: SortDirection) -> (j: Json)
    ensures
        j@ == sort_json(d),
{
    match d {
        SortDirection::Asc => text("asc"),
        SortDirection::Desc => text("desc"),
    }
}

fn push_item(out: &mut Vec<Json>, v: Json)
    ensures
        items_view(final(out)@) == items_view(old(out)@).push(v@),
{
    let ghost before = out@;
    out.push(v);
    assert(out@.drop_last() =~= before);
}

fn ids_to_json(ids: &Vec<u32>) -> (r: Vec<Json>)
    ensures
        items_view(r@) == ids_json(ids@),
{
    let mut out: Vec<Json> = Vec::new();
    let mut i: usize = 0;
    assert(items_view(out@) =~= ids_json(ids@.take(0)));
    while i < ids.len()
        invariant
            i <= ids@.len(),
            items_view(out@) == ids_json(ids@.take(i as int)),
        decreases ids@.len() - i,
    {
        push_item(&mut out, whole(ids[i] as u64));
        assert(ids_json(ids@.take(i + 1)) =~= ids_json(ids@.take(i as int)).push(nat_json(ids@[i as int] as nat)));
        i += 1;
    }
    assert(ids@.take(i as int) =~= ids@);
    out
}

fn args_to_json(args: &Vec<Predicate>) -> (r: Vec<Json>)
    ensures
        items_view(r@) == predicates_json(predicates_view(args@)),
    decreases args, 0int,
{
    let mut out: Vec<Json> = Vec::new();
    let mut i: usize = 0;
    assert(args@.take(0) =~= Seq::<Predicate>::empty());
    while i < args.len()
        invariant
            i <= args@.len(),
            items_view(out@) == predicates_json(predicates_view(args@.take(i as int))),
        decreases args@.len() - i,
    {
        assert(decreases_to!(*args => args@[i as int]));
        let j = predicate_to_json(&args[i]);
        push_item(&mut out, j);
        proof {
            let t = args@.take(i + 1);
            assert(t.drop_last() =~= args@.take(i as int));
            assert(t.last() == args@[i as int]);
            assert(predicates_view(t).drop_last() =~= predicates_view(args@.take(i as int)));
        }
        i += 1;
    }
    assert(args@.take(i as int) =~= args@);
    out
}

fn steps_to_json(steps: &Vec<Step>) -> (r: Vec<Json>)
    ensures
        items_view(r@) == steps_json(steps_view(steps@)),
    decreases steps, 0int,
{
    let mut out: Vec<Json> = Vec::new();
    let mut i: usize = 0;
    assert(steps@.take(0) =~= Seq::<Step>::empty());
    while i < steps.len()
        invariant
            i <= steps@.len(),
            items_view(out@) == steps_json(steps_view(steps@.take(i as int))),
        decreases steps@.len() - i,
    {
        assert(decreases_to!(*steps => steps@[i as int]));
        let j = step_to_json(&steps[i]);
        push_item(&mut out, j);
        proof {
            let t = steps@.take(i + 1);
            assert(t.drop_last() =~= steps@.take(i as int));
            assert(t.last() == steps@[i as int]);
            assert(steps_view(t).drop_last() =~= steps_view(steps@.take(i as int)));
        }
        i += 1;
    }
    assert(steps@.take(i as int) =~= steps@);
    out
}

fn step_to_json(st: &Step) -> (j: Json)
    ensures
        j@ == step_json(st@),
    decreases st, 0int,
{
    let mut out: Vec<(String, Json)> = Vec::new();
    put(&mut out, "relation", text(st.relation.as_str()));
    put(&mut out, "direction", direction_to_json(st.direction));
    let f = match &st.filter {
        Some(p) => {
            assert(decreases_to!(*st => st.filter));
            predicate_to_json(p)
        },
        None => Json::Null,
    };
    put(&mut out, "filter", f);
    let min = match st.min {
        Some(n) => Some(whole(n as u64)),
        None => None,
    };
    put_opt(&mut out, "min", &min);
    let max = match st.max {
        Some(n) => Some(whole(n as u64)),
        None => None,
    };
    put_opt(&mut out, "max", &max);
    proof {
        lemma_step_json(st@);
        assert(entries_view(out@) =~= step_entries(st@));
    }
    Json::Object(out)
}

fn bounds_to(out: &mut Vec<(String, Json)>, gt: &Option<Json>, gte: &Option<Json>, lt: &Option<Json>, lte: &Option<Json>)
    ensures
        entries_view(final(out)@) == entries_view(old(out)@) + bound_members(
            opt_json(*gt),
            opt_json(*gte),
            opt_json(*lt),
            opt_json(*lte),
        ),
{
    let ghost before = entries_view(out@);
    put_opt(out, "gt", gt);
    put_opt(out, "gte", gte);
    put_opt(out, "lt", lt);
    put_opt(out, "lte", lte);
    assert(entries_view(out@) =~= before + bound_members(opt_json(*gt), opt_json(*gte), opt_json(*lt), opt_json(*lte)));
}

/// Writes a predicate as JSON: an object tagged by `op`, with the members
/// that op takes; absent optional members are left out.
pub fn predicate_to_json(p: &Predicate) -> (j: Json)
    ensures
        j@ == predicate_json(p@),
    decreases p, 1int,
{
    let mut out: Vec<(String, Json)> = Vec::new();
    match p {
        Predicate::All => {
            put(&mut out, "op", text("all"));
        },
        Predicate::Ids { ids } => {
            put(&mut out, "op", text("ids"));
            put(&mut out, "ids", Json::Array(ids_to_json(ids)));
        },
        Predicate::Eq { field, value } => {
            put(&mut out, "op", text("eq"));
            put(&mut out, "field", text(field.as_str()));
            put(&mut out, "value", value.duplicate());
        },
        Predicate::In { field, values } => {
            put(&mut out, "op", text("in"));
            put(&mut out, "field", text(field.as_str()));
            put(&mut out, "values", Json::Array(copy_items(values)));
        },
        Predicate::Any { value } => {
            put(&mut out, "op", text("any"));
            put(&mut out, "value", value.duplicate());
        },
        Predicate::Exists { field } => {
            put(&mut out, "op", text("exists"));
            put(&mut out, "field", text(field.as_str()));
        },
        Predicate::Prefix { field, prefix } => {
            put(&mut out, "op", text("prefix"));
            put(&mut out, "field", text(field.as_str()));
            put(&mut out, "prefix", text(prefix.as_str()));
        },
        Predicate::Range { field, gt, gte, lt, lte } => {
            put(&mut out, "op", text("range"));
            put(&mut out, "field", text(field.as_str()));
            bounds_to(&mut out, gt, gte, lt, lte);
        },
        Predicate::At { field, value } => {
            put(&mut out, "op", text("at"));
            put(&mut out, "field", text(field.as_str()));
            put(&mut out, "value", Json::Number(Number { literal: value.literal.as_str().to_owned() }));
        },
        Predicate::Overlap { field, start, end } => {
            put(&mut out, "op", text("overlap"));
            put(&mut out, "field", text(field.as_str()));
            put(&mut out, "start", Json::Number(Number { literal: start.literal.as_str().to_owned() }));
            put(&mut out, "end", Json::Number(Number { literal: end.literal.as_str().to_owned() }));
        },
        Predicate::Contains { field, start, end } => {
            put(&mut out, "op", text("contains"));
            put(&mut out, "field", text(field.as_str()));
            put(&mut out, "start", Json::Number(Number { literal: start.literal.as_str().to_owned() }));
            put(&mut out, "end", Json::Number(Number { literal: end.literal.as_str().to_owned() }));
        },
        Predicate::ContainedBy { field, start, end } => {
            put(&mut out, "op", text("contained_by"));
            put(&mut out, "field", text(field.as_str()));
            put(&mut out, "start", Json::Number(Number { literal: start.literal.as_str().to_owned() }));
            put(&mut out, "end", Json::Number(Number { literal: end.literal.as_str().to_owned() }));
        },
        Predicate::Seek { index, group, gt, gte, lt, lte, direction, limit } => {
            put(&mut out, "op", text("seek"));
            put(&mut out, "index", text(index.as_str()));
            put(&mut out, "group", Json::Array(copy_items(group)));
            bounds_to(&mut out, gt, gte, lt, lte);
            put(&mut out, "direction", sort_to_json(*direction));
            let l = match limit {
                Some(n) => Some(whole(*n as u64)),
                None => None,
            };
            put_opt(&mut out, "limit", &l);
        },
        Predicate::HasLink { relation, target, direction } => {
            put(&mut out, "op", text("has_link"));
            put(&mut out, "relation", text(relation.as_str()));
            put(&mut out, "target", whole(*target as u64));
            put(&mut out, "direction", direction_to_json(*direction));
        },
        Predicate::And { args } => {
            put(&mut out, "op", text("and"));
            put(&mut out, "args", Json::Array(args_to_json(args)));
        },
        Predicate::Or { args } => {
            put(&mut out, "op", text("or"));
            put(&mut out, "args", Json::Array(args_to_json(args)));
        },
        Predicate::Not { arg } => {
            put(&mut out, "op", text("not"));
            put(&mut out, "arg", predicate_to_json(arg));
        },
        Predicate::Traverse { from, steps } => {
            put(&mut out, "op", text("traverse"));
            put(&mut out, "from", predicate_to_json(from));
            put(&mut out, "steps", Json::Array(steps_to_json(steps)));
        },
    }
    assert(entries_view(out@) =~= predicate_json(p@)->Object_0);
    Json::Object(out)
}
} // verus!
