//! A time span for derived types. Convention: UTC milliseconds, [start, end),
//! `end` None while open, `start == end` for an instant. The writer converts
//! phrases like "today" and keeps them in `text`; the core only sees numbers.

use crate::error::Error;
use crate::index::value::digits_value;
use crate::json::{all_digits, entries_view, Json, JsonV, Number};
use crate::model::parse::{digits_u64, member};
use crate::model::predicate::{Predicate, PredicateV};
use crate::text::{signed_decimal, signed_decimal_spec};
use vstd::prelude::*;

verus! {

#[derive(Debug, Clone, PartialEq, Eq)]
pub struct Span {
    pub text: Option<String>,
    pub start: i64,
    pub end: Option<i64>,
}

/// The JSON number of an integer.
pub open spec fn int_number(n: i64) -> Seq<char> {
    signed_decimal_spec(n as int)
}

fn number_of(n: i64) -> (r: Number)
    ensures
        r.literal@ == int_number(n),
{
    Number { literal: signed_decimal(n) }
}

impl Span {
    /// A span without text.
    pub fn new(start: i64, end: Option<i64>) -> (s: Span)
        ensures
            s.text is None,
            s.start == start,
            s.end == end,
    {
        Span { text: None, start, end }
    }

    /// The same span, keeping the phrase it was written as.
    pub fn with_text(self, text: String) -> (s: Span)
        ensures
            s.text matches Some(t) && t@ == text@,
            s.start == self.start,
            s.end == self.end,
    {
        Span { text: Some(text), start: self.start, end: self.end }
    }

    /// Spans at `field` sharing any instant with [start, end).
    pub fn overlap(field: &str, start: i64, end: i64) -> (p: Predicate)
        ensures
            p@ == (PredicateV::Overlap { field: field@, start: int_number(start), end: int_number(end) }),
    {
        Predicate::Overlap { field: field.to_owned(), start: number_of(start), end: number_of(end) }
    }

    /// Spans at `field` holding the instant `t`.
    pub fn at(field: &str, t: i64) -> (p: Predicate)
        ensures
            p@ == (PredicateV::At { field: field@, value: int_number(t) }),
    {
        Predicate::At { field: field.to_owned(), value: number_of(t) }
    }

    /// The span as JSON: `text` when there is one, `start`, and `end`
    /// (null while open).
    pub fn to_json(&self) -> (j: Json)
        ensures
            j@ == span_json(self.text_view(), self.start, self.end),
    {
        let mut members: Vec<(String, Json)> = Vec::new();
        match &self.text {
            Some(t) => members.push(("text".to_owned(), Json::Str(t.clone()))),
            None => {},
        }
        members.push(("start".to_owned(), Json::Number(number_of(self.start))));
        let end = match self.end {
            Some(e) => Json::Number(number_of(e)),
            None => Json::Null,
        };
        members.push(("end".to_owned(), end));
        proof {
            crate::json::lemma_entries_view(members@);
            assert(crate::json::entries_view(members@) =~= span_members(self.text_view(), self.start, self.end));
        }
        Json::Object(members)
    }

    pub open spec fn text_view(&self) -> Option<Seq<char>> {
        match self.text {
            Some(t) => Some(t@),
            None => None,
        }
    }
}

pub open spec fn span_members(text: Option<Seq<char>>, start: i64, end: Option<i64>) -> Seq<(Seq<char>, JsonV)> {
    let head = match text {
        Some(t) => seq![("text"@, JsonV::Str(t))],
        None => seq![],
    };
    head + seq![
        ("start"@, JsonV::Number(int_number(start))),
        ("end"@, match end {
            Some(e) => JsonV::Number(int_number(e)),
            None => JsonV::Null,
        }),
    ]
}

pub open spec fn span_json(text: Option<Seq<char>>, start: i64, end: Option<i64>) -> JsonV {
    JsonV::Object(span_members(text, start, end))
}

/// A JSON number read as an i64: digits with an optional leading `-`.
pub open spec fn i64_value(v: JsonV) -> Result<i64, Error> {
    match v {
        JsonV::Number(n) => if n.len() > 0 && n[0] == '-' {
            let d = n.drop_first();
            if d.len() > 0 && all_digits(d) && digits_value(d) <= 0x8000_0000_0000_0000 {
                Ok((-(digits_value(d) as int)) as i64)
            } else {
                Err(Error::WrongType)
            }
        } else if n.len() > 0 && all_digits(n) && digits_value(n) <= i64::MAX {
            Ok(digits_value(n) as i64)
        } else {
            Err(Error::WrongType)
        },
        _ => Err(Error::WrongType),
    }
}

fn i64_of(j: &Json) -> (r: Result<i64, Error>)
    ensures
        r == i64_value(j@),
{
    match j {
        Json::Number(n) => {
            let c = crate::text::chars_of(n.literal.as_str());
            if c.len() > 0 && c[0] == '-' {
                let mut d: Vec<char> = Vec::new();
                let mut i: usize = 1;
                while i < c.len()
                    invariant
                        1 <= i <= c@.len(),
                        d@ == c@.subrange(1, i as int),
                    decreases c@.len() - i,
                {
                    d.push(c[i]);
                    i += 1;
                }
                assert(d@ =~= c@.drop_first());
                match digits_u64(&d) {
                    Some(v) => if v <= 0x8000_0000_0000_0000 {
                        if v == 0x8000_0000_0000_0000 {
                            Ok(i64::MIN)
                        } else {
                            Ok(-(v as i64))
                        }
                    } else {
                        Err(Error::WrongType)
                    },
                    None => Err(Error::WrongType),
                }
            } else {
                match digits_u64(&c) {
                    Some(v) => if v <= 0x7fff_ffff_ffff_ffff {
                        Ok(v as i64)
                    } else {
                        Err(Error::WrongType)
                    },
                    None => Err(Error::WrongType),
                }
            }
        },
        _ => Err(Error::WrongType),
    }
}

/// The span a JSON object describes: optional `text`, required integer
/// `start`, optional integer `end`; `null` counts as absent and other
/// members are ignored.
pub open spec fn span_value(v: JsonV) -> Result<(Option<Seq<char>>, i64, Option<i64>), Error> {
    match v {
        JsonV::Object(es) => {
            let text = match member(es, "text"@) {
                None => Ok(None),
                Some(JsonV::Null) => Ok(None),
                Some(JsonV::Str(t)) => Ok(Some(t)),
                Some(_) => Err(Error::WrongType),
            };
            let start = match member(es, "start"@) {
                None => Err(Error::MissingField),
                Some(x) => i64_value(x),
            };
            let end = match member(es, "end"@) {
                None => Ok(None),
                Some(JsonV::Null) => Ok(None),
                Some(x) => match i64_value(x) {
                    Ok(e) => Ok(Some(e)),
                    Err(e) => Err(e),
                },
            };
            match (text, start, end) {
                (Ok(t), Ok(s), Ok(e)) => Ok((t, s, e)),
                (Err(e), _, _) => Err(e),
                (_, Err(e), _) => Err(e),
                (_, _, Err(e)) => Err(e),
            }
        },
        _ => Err(Error::WrongType),
    }
}

fn member_ref<'a>(es: &'a Vec<(String, Json)>, key: &str) -> (r: Option<&'a Json>)
    ensures
        match (r, member(entries_view(es@), key@)) {
            (Some(j), Some(v)) => j@ == v,
            (None, None) => true,
            _ => false,
        },
{
    crate::store::write::member_json(es, key)
}

/// Reads a span from JSON.
pub fn span_of(j: &Json) -> (r: Result<Span, Error>)
    ensures
        match (r, span_value(j@)) {
            (Ok(s), Ok((t, a, b))) => s.text_view() == t && s.start == a && s.end == b,
            (Err(x), Err(y)) => x == y,
            _ => false,
        },
{
    match j {
        Json::Object(es) => {
            assert(j@ == JsonV::Object(entries_view(es@)));
            let text = match member_ref(es, "text") {
                None => None,
                Some(Json::Null) => None,
                Some(Json::Str(t)) => Some(t.clone()),
                Some(_) => {
                    return Err(Error::WrongType);
                },
            };
            let start = match member_ref(es, "start") {
                None => {
                    return Err(Error::MissingField);
                },
                Some(x) => match i64_of(x) {
                    Ok(v) => v,
                    Err(e) => {
                        return Err(e);
                    },
                },
            };
            let end = match member_ref(es, "end") {
                None => None,
                Some(Json::Null) => None,
                Some(x) => match i64_of(x) {
                    Ok(v) => Some(v),
                    Err(e) => {
                        return Err(e);
                    },
                },
            };
            Ok(Span { text, start, end })
        },
        _ => Err(Error::WrongType),
    }
}

} // verus!
