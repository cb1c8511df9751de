//! The JSON document model: what a Node's attrs hold. Numbers keep the text
//! they were written with, so no precision is lost before they are indexed.

use vstd::prelude::*;

verus! {

/// A JSON number exactly as written, e.g. `-12.50e3`.
#[derive(Debug, Clone, PartialEq, Eq)]
pub struct Number {
    pub literal: String,
}

/// A JSON value. Objects keep their members in order, each key once.
#[derive(Debug, PartialEq, Eq)]
pub enum Json {
    Null,
    Bool(bool),
    Number(Number),
    Str(String),
    Array(Vec<Json>),
    Object(Vec<(String, Json)>),
}

/// The mathematical value of a JSON document.
pub enum JsonV {
    Null,
    Bool(bool),
    Number(Seq<char>),
    Str(Seq<char>),
    Array(Seq<JsonV>),
    Object(Seq<(Seq<char>, JsonV)>),
}

impl View for Json {
    type V = JsonV;

    open spec fn view(&self) -> JsonV {
        json_view(*self)
    }
}

pub open spec fn json_view(j: Json) -> JsonV
    decreases j,
{
    match j {
        Json::Null => JsonV::Null,
        Json::Bool(b) => JsonV::Bool(b),
        Json::Number(n) => JsonV::Number(n.literal@),
        Json::Str(s) => JsonV::Str(s@),
        Json::Array(items) => JsonV::Array(items_view(items@)),
        Json::Object(entries) => JsonV::Object(entries_view(entries@)),
    }
}

pub open spec fn items_view(items: Seq<Json>) -> Seq<JsonV>
    decreases items,
{
    if items.len() == 0 {
        Seq::empty()
    } else {
        items_view(items.drop_last()).push(json_view(items.last()))
    }
}

pub open spec fn entries_view(entries: Seq<(String, Json)>) -> Seq<(Seq<char>, JsonV)>
    decreases entries,
{
    if entries.len() == 0 {
        Seq::empty()
    } else {
        entries_view(entries.drop_last()).push((entries.last().0@, json_view(entries.last().1)))
    }
}

pub proof fn lemma_items_view(items: Seq<Json>)
    ensures
        items_view(items).len() == items.len(),
        forall|i: int| 0 <= i < items.len() ==> #[trigger] items_view(items)[i] == items[i]@,
    decreases items.len(),
{
    if items.len() > 0 {
        lemma_items_view(items.drop_last());
    }
}

pub proof fn lemma_entries_view(entries: Seq<(String, Json)>)
    ensures
        entries_view(entries).len() == entries.len(),
        forall|i: int|
            0 <= i < entries.len() ==> #[trigger] entries_view(entries)[i] == (
                entries[i].0@,
                entries[i].1@,
            ),
    decreases entries.len(),
{
    if entries.len() > 0 {
        lemma_entries_view(entries.drop_last());
    }
}

impl Json {
    /// A copy of this value.
    #[verifier::loop_isolation(false)]
    pub fn duplicate(&self) -> (out: Json)
        ensures
            out@ == self@,
        decreases self,
    {
        match self {
            Json::Null => Json::Null,
            Json::Bool(b) => Json::Bool(*b),
            Json::Number(n) => Json::Number(Number { literal: n.literal.clone() }),
            Json::Str(s) => Json::Str(s.clone()),
            Json::Array(items) => {
                let mut out: Vec<Json> = Vec::new();
                let mut i: usize = 0;
                proof {
                    lemma_items_view(items@);
                }
                while i < items.len()
                    invariant
                        i <= items@.len(),
                        out@.len() == i,
                        forall|k: int| 0 <= k < i ==> #[trigger] out@[k]@ == items@[k]@,
                    decreases items@.len() - i,
                {
                    proof {
                        assert(decreases_to!(items@ => items@[i as int]));
                        assert(decreases_to!(*items => items@));
                        assert(decreases_to!(*self => *items));
                        assert(decreases_to!(*self => items@[i as int]));
                    }
                    out.push(items[i].duplicate());
                    i += 1;
                }
                proof {
                    lemma_items_view(out@);
                    lemma_items_view(items@);
                    assert(items_view(out@) =~= items_view(items@));
                }
                Json::Array(out)
            },
            Json::Object(entries) => {
                let mut out: Vec<(String, Json)> = Vec::new();
                let mut i: usize = 0;
                while i < entries.len()
                    invariant
                        i <= entries@.len(),
                        out@.len() == i,
                        forall|k: int|
                            0 <= k < i ==> (#[trigger] out@[k]).0@ == entries@[k].0@ && out@[k].1@
                                == entries@[k].1@,
                    decreases entries@.len() - i,
                {
                    let key = entries[i].0.clone();
                    proof {
                        assert(decreases_to!(entries@ => entries@[i as int]));
                        assert(decreases_to!(*entries => entries@));
                        assert(decreases_to!(entries@[i as int] => entries@[i as int].1));
                        assert(decreases_to!(*self => *entries));
                        assert(decreases_to!(*self => entries@[i as int].1));
                    }
                    let value = entries[i].1.duplicate();
                    out.push((key, value));
                    i += 1;
                }
                proof {
                    lemma_entries_view(out@);
                    lemma_entries_view(entries@);
                    assert(entries_view(out@) =~= entries_view(entries@));
                }
                Json::Object(out)
            },
        }
    }

    pub fn is_object(&self) -> (b: bool)
        ensures
            b == (self@ is Object),
    {
        match self {
            Json::Object(_) => true,
            _ => false,
        }
    }

    pub fn is_null(&self) -> (b: bool)
        ensures
            b == (self@ is Null),
    {
        match self {
            Json::Null => true,
            _ => false,
        }
    }
}

pub open spec fn is_digit(c: char) -> bool {
    '0' <= c && c <= '9'
}

pub open spec fn all_digits(s: Seq<char>) -> bool {
    forall|i: int| 0 <= i < s.len() ==> is_digit(#[trigger] s[i])
}

/// Index of the first `a` or `b` in `s`, or `s.len()` when neither occurs.
pub open spec fn first_of(s: Seq<char>, a: char, b: char) -> int
    decreases s.len(),
{
    if s.len() == 0 {
        0
    } else if s[0] == a || s[0] == b {
        0
    } else {
        1 + first_of(s.drop_first(), a, b)
    }
}

pub proof fn lemma_first_of(s: Seq<char>, a: char, b: char)
    ensures
        0 <= first_of(s, a, b) <= s.len(),
        first_of(s, a, b) < s.len() ==> (s[first_of(s, a, b)] == a || s[first_of(s, a, b)] == b),
        forall|i: int| 0 <= i < first_of(s, a, b) ==> s[i] != a && s[i] != b,
    decreases s.len(),
{
    if s.len() > 0 && !(s[0] == a || s[0] == b) {
        lemma_first_of(s.drop_first(), a, b);
        assert forall|i: int| 0 <= i < first_of(s, a, b) implies s[i] != a && s[i] != b by {
            if i > 0 {
                assert(s[i] == s.drop_first()[i - 1]);
            }
        }
    }
}

/// The literal without its minus sign.
pub open spec fn unsigned_part(s: Seq<char>) -> Seq<char> {
    if s.len() > 0 && s[0] == '-' {
        s.drop_first()
    } else {
        s
    }
}

pub open spec fn is_negative_literal(s: Seq<char>) -> bool {
    s.len() > 0 && s[0] == '-'
}

/// Digits and at most one dot, before any exponent.
pub open spec fn mantissa_part(s: Seq<char>) -> Seq<char> {
    let u = unsigned_part(s);
    u.take(first_of(u, 'e', 'E'))
}

/// Exponent text after `e`/`E`, if any.
pub open spec fn exponent_part(s: Seq<char>) -> Option<Seq<char>> {
    let u = unsigned_part(s);
    let e = first_of(u, 'e', 'E');
    if e < u.len() {
        Some(u.skip(e + 1))
    } else {
        None
    }
}

pub open spec fn valid_exponent_text(t: Seq<char>) -> bool {
    let digits = if t.len() > 0 && (t[0] == '+' || t[0] == '-') {
        t.drop_first()
    } else {
        t
    };
    digits.len() > 0 && all_digits(digits)
}

/// RFC 8259 number grammar: `-? (0 | [1-9][0-9]*) (. [0-9]+)? ([eE] [+-]? [0-9]+)?`.
pub open spec fn valid_number(s: Seq<char>) -> bool {
    let m = mantissa_part(s);
    let d = first_of(m, '.', '.');
    let int_part = m.take(d);
    let frac = m.skip(d + 1);
    &&& int_part.len() > 0
    &&& all_digits(int_part)
    &&& (int_part[0] == '0' ==> int_part.len() == 1)
    &&& (d < m.len() ==> frac.len() > 0 && all_digits(frac))
    &&& (exponent_part(s) matches Some(t) ==> valid_exponent_text(t))
}

pub open spec fn keys_distinct(entries: Seq<(Seq<char>, JsonV)>) -> bool {
    forall|i: int, j: int|
        0 <= i < entries.len() && 0 <= j < entries.len() && i != j ==> (#[trigger] entries[i]).0
            != (#[trigger] entries[j]).0
}

/// Every number is a valid literal and every object names each key once.
pub open spec fn json_wf(j: JsonV) -> bool
    decreases j,
{
    match j {
        JsonV::Number(n) => valid_number(n),
        JsonV::Array(items) => items_wf(items),
        JsonV::Object(entries) => keys_distinct(entries) && members_wf(entries),
        _ => true,
    }
}

pub open spec fn items_wf(items: Seq<JsonV>) -> bool
    decreases items,
{
    items.len() == 0 || (items_wf(items.drop_last()) && json_wf(items.last()))
}

pub open spec fn members_wf(es: Seq<(Seq<char>, JsonV)>) -> bool
    decreases es,
{
    es.len() == 0 || (members_wf(es.drop_last()) && json_wf(es.last().1))
}

pub proof fn lemma_items_wf(items: Seq<JsonV>)
    ensures
        items_wf(items) <==> forall|i: int| 0 <= i < items.len() ==> #[trigger] json_wf(items[i]),
    decreases items.len(),
{
    if items.len() > 0 {
        lemma_items_wf(items.drop_last());
        assert(items_wf(items) == (items_wf(items.drop_last()) && json_wf(items.last())));
        if forall|i: int| 0 <= i < items.len() ==> #[trigger] json_wf(items[i]) {
            assert forall|i: int| 0 <= i < items.drop_last().len() implies #[trigger] json_wf(
                items.drop_last()[i],
            ) by {
                assert(items.drop_last()[i] == items[i]);
            }
        }
        if items_wf(items) {
            assert forall|i: int| 0 <= i < items.len() implies #[trigger] json_wf(items[i]) by {
                if i < items.len() - 1 {
                    assert(items.drop_last()[i] == items[i]);
                }
            }
        }
    }
}

pub proof fn lemma_members_wf(es: Seq<(Seq<char>, JsonV)>)
    ensures
        members_wf(es) <==> forall|i: int| 0 <= i < es.len() ==> #[trigger] json_wf(es[i].1),
    decreases es.len(),
{
    if es.len() > 0 {
        lemma_members_wf(es.drop_last());
        assert(members_wf(es) == (members_wf(es.drop_last()) && json_wf(es.last().1)));
        if forall|i: int| 0 <= i < es.len() ==> #[trigger] json_wf(es[i].1) {
            assert forall|i: int| 0 <= i < es.drop_last().len() implies #[trigger] json_wf(
                es.drop_last()[i].1,
            ) by {
                assert(es.drop_last()[i] == es[i]);
            }
        }
        if members_wf(es) {
            assert forall|i: int| 0 <= i < es.len() implies #[trigger] json_wf(es[i].1) by {
                if i < es.len() - 1 {
                    assert(es.drop_last()[i] == es[i]);
                }
            }
        }
    }
}

pub proof fn lemma_wf_members(es: Seq<(Seq<char>, JsonV)>)
    requires
        json_wf(JsonV::Object(es)),
    ensures
        keys_distinct(es),
        forall|i: int| 0 <= i < es.len() ==> #[trigger] json_wf(es[i].1),
{
    lemma_members_wf(es);
}

pub proof fn lemma_wf_items(items: Seq<JsonV>)
    requires
        json_wf(JsonV::Array(items)),
    ensures
        forall|i: int| 0 <= i < items.len() ==> #[trigger] json_wf(items[i]),
{
    lemma_items_wf(items);
}

} // verus!
