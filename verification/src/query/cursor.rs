//! The opaque cursor that resumes an ordered query, and the posting token
//! of a sort key.

use super::order_key::{Key, KeyV, MISSING, NUMBER, STRING};
use crate::error::Error;
use crate::index::value::{
    digits_value, hex, hex_spec, law_hex_roundtrip, lemma_hex_digit, lemma_hex_spec,
    number_token, number_token_spec, unhex, unhex_spec,
};
use crate::json::{all_digits, first_of, is_digit, lemma_first_of};
use crate::model::parse::digits_u64;
use crate::text::{chars_of, decimal, decimal_spec, digit_char, prefixed, string_of};
use vstd::prelude::*;
use vstd::utf8::*;

verus! {

/// `std::str::from_utf8` accepts exactly the valid UTF-8 byte strings and
/// gives back the characters they encode.
pub assume_specification[ core::str::from_utf8 ](v: &[u8]) -> (r: Result<&str, core::str::Utf8Error>)
    ensures
        r is Ok <==> valid_utf8(v@),
        r matches Ok(s) ==> s@ == decode_utf8(v@),
;

#[verifier::external_type_specification]
#[verifier::external_body]
pub struct ExUtf8Error(core::str::Utf8Error);

/// `s` cut at every `sep`; a string without `sep` is one part.
pub open spec fn split_on(s: Seq<char>, sep: char) -> Seq<Seq<char>>
    decreases s.len(),
{
    let i = first_of(s, sep, sep);
    if 0 <= i < s.len() {
        seq![s.take(i)] + split_on(s.skip(i + 1), sep)
    } else {
        seq![s]
    }
}

/// The digits of an unsigned integer text: one optional `+`, then digits.
pub open spec fn unsigned_digits(s: Seq<char>) -> Seq<char> {
    if s.len() > 0 && s[0] == '+' {
        s.drop_first()
    } else {
        s
    }
}

/// What `str::parse` gives for an unsigned integer type whose largest value
/// is `max`.
pub open spec fn parse_unsigned_spec(s: Seq<char>, max: nat) -> Option<nat> {
    let d = unsigned_digits(s);
    if d.len() > 0 && all_digits(d) && digits_value(d) <= max {
        Some(digits_value(d))
    } else {
        None
    }
}

/// `rank.hex(bytes).id`.
pub open spec fn encode_spec(k: KeyV) -> Seq<char> {
    decimal_spec(k.rank as nat) + seq!['.'] + hex_spec(k.bytes) + seq!['.'] + decimal_spec(
        k.id as nat,
    )
}

/// A key that a cursor can hold: a known rank, and UTF-8 bytes for strings.
pub open spec fn cursor_key(k: KeyV) -> bool {
    k.rank <= MISSING && (k.rank == STRING ==> valid_utf8(k.bytes))
}

/// The key a cursor holds, or None when no key encodes to it.
pub open spec fn decode_spec(c: Seq<char>) -> Option<KeyV> {
    let parts = split_on(c, '.');
    if parts.len() != 3 {
        None
    } else {
        match (
            parse_unsigned_spec(parts[0], 255),
            unhex_spec(encode_utf8(parts[1])),
            parse_unsigned_spec(parts[2], 0xffff_ffff),
        ) {
            (Some(r), Ok(b), Some(id)) => {
                let k = KeyV { rank: r as u8, bytes: b, id: id as u32 };
                if cursor_key(k) {
                    Some(k)
                } else {
                    None
                }
            },
            _ => None,
        }
    }
}

/// The posting token of a key's value: `n:` + hex for numbers, `s:` + the
/// text for strings; None when string bytes are not UTF-8.
pub open spec fn key_token_spec(k: KeyV) -> Option<Seq<char>> {
    if k.rank == NUMBER {
        Some(number_token_spec(k.bytes))
    } else if valid_utf8(k.bytes) {
        Some(seq!['s', ':'] + decode_utf8(k.bytes))
    } else {
        None
    }
}

pub proof fn lemma_first_at(s: Seq<char>, sep: char, k: int)
    requires
        0 <= k < s.len(),
        s[k] == sep,
        forall|j: int| 0 <= j < k ==> s[j] != sep,
    ensures
        first_of(s, sep, sep) == k,
{
    lemma_first_of(s, sep, sep);
}

pub proof fn lemma_first_none(s: Seq<char>, sep: char)
    requires
        forall|j: int| 0 <= j < s.len() ==> s[j] != sep,
    ensures
        first_of(s, sep, sep) == s.len(),
{
    lemma_first_of(s, sep, sep);
}

/// The parts of `c` between dots.
fn split_dots(c: &Vec<char>) -> (parts: Vec<Vec<char>>)
    ensures
        parts@.len() == split_on(c@, '.').len(),
        forall|i: int| 0 <= i < parts@.len() ==> #[trigger] parts@[i]@ == split_on(c@, '.')[i],
{
    let mut parts: Vec<Vec<char>> = Vec::new();
    let mut current: Vec<char> = Vec::new();
    let mut start: usize = 0;
    let mut i: usize = 0;
    let ghost s = c@;
    proof {
        assert(s.skip(0) =~= s);
        assert(Seq::new(parts@.len(), |k: int| parts@[k]@) + split_on(s, '.') =~= split_on(s, '.'));
    }
    while i < c.len()
        invariant
            s == c@,
            start <= i <= s.len(),
            current@ == s.subrange(start as int, i as int),
            forall|j: int| start <= j < i ==> s[j] != '.',
            split_on(s, '.') == Seq::new(parts@.len(), |k: int| parts@[k]@) + split_on(
                s.skip(start as int),
                '.',
            ),
        decreases s.len() - i,
    {
        if c[i] == '.' {
            let ghost rest = s.skip(start as int);
            proof {
                lemma_first_at(rest, '.', i - start);
                assert(rest.take(i - start) =~= current@);
                assert(rest.skip(i - start + 1) =~= s.skip(i + 1));
            }
            let ghost before = parts@;
            parts.push(current);
            current = Vec::new();
            proof {
                assert(Seq::new(parts@.len(), |k: int| parts@[k]@) =~= Seq::new(
                    before.len(),
                    |k: int| before[k]@,
                ) + seq![rest.take(i - start)]);
            }
            start = i + 1;
        } else {
            current.push(c[i]);
        }
        i += 1;
    }
    let ghost rest = s.skip(start as int);
    proof {
        lemma_first_none(rest, '.');
        assert(rest =~= current@);
    }
    let ghost before = parts@;
    parts.push(current);
    proof {
        assert(Seq::new(parts@.len(), |k: int| parts@[k]@) =~= Seq::new(
            before.len(),
            |k: int| before[k]@,
        ) + seq![rest]);
        let a = Seq::new(parts@.len(), |k: int| parts@[k]@);
        assert forall|k: int| 0 <= k < parts@.len() implies #[trigger] parts@[k]@ == split_on(
            c@,
            '.',
        )[k] by {
            assert(a[k] == parts@[k]@);
        }
    }
    parts
}

/// An unsigned integer text no larger than `max`, as `str::parse` reads it.
fn parse_unsigned(s: &Vec<char>, max: u64) -> (r: Option<u64>)
    ensures
        match (r, parse_unsigned_spec(s@, max as nat)) {
            (Some(a), Some(b)) => a == b,
            (None, None) => true,
            _ => false,
        },
{
    let mut d: Vec<char> = Vec::new();
    let mut i: usize = if s.len() > 0 && s[0] == '+' {
        1
    } else {
        0
    };
    let start = i;
    while i < s.len()
        invariant
            start <= i <= s@.len(),
            d@ == s@.subrange(start as int, i as int),
        decreases s@.len() - i,
    {
        d.push(s[i]);
        i += 1;
    }
    assert(d@ =~= unsigned_digits(s@));
    match digits_u64(&d) {
        Some(v) => if v <= max {
            Some(v)
        } else {
            None
        },
        None => None,
    }
}

/// The cursor text of a key.
pub fn encode(key: &Key) -> (c: String)
    ensures
        c@ == encode_spec(key@),
{
    let mut out = decimal(key.rank as u64);
    out.push('.');
    let h = hex(key.bytes.as_slice());
    out.append(h.as_str());
    out.push('.');
    let id = decimal(key.id as u64);
    out.append(id.as_str());
    assert(out@ =~= encode_spec(key@));
    out
}

/// The key held by a cursor that `encode` wrote.
pub fn decode(cursor: &str) -> (r: Result<Key, Error>)
    ensures
        match (r, decode_spec(cursor@)) {
            (Ok(k), Some(v)) => k@ == v,
            (Err(e), None) => e == Error::InvalidCursor,
            _ => false,
        },
{
    let c = chars_of(cursor);
    let parts = split_dots(&c);
    if parts.len() != 3 {
        return Err(Error::InvalidCursor);
    }
    let rank = match parse_unsigned(&parts[0], 255) {
        Some(r) => r,
        None => {
            return Err(Error::InvalidCursor);
        },
    };
    let hex_text = string_of(parts[1].as_slice());
    let bytes = match unhex(hex_text.as_str()) {
        Ok(b) => b,
        Err(_) => {
            return Err(Error::InvalidCursor);
        },
    };
    let id = match parse_unsigned(&parts[2], 0xffff_ffff) {
        Some(v) => v,
        None => {
            return Err(Error::InvalidCursor);
        },
    };
    if rank > 2 {
        return Err(Error::InvalidCursor);
    }
    if rank == 1 {
        if core::str::from_utf8(bytes.as_slice()).is_err() {
            return Err(Error::InvalidCursor);
        }
    }
    Ok(Key { rank: rank as u8, bytes, id: id as u32 })
}

/// The posting token holding this key's value.
pub fn token(key: &Key) -> (r: Result<String, Error>)
    ensures
        match (r, key_token_spec(key@)) {
            (Ok(t), Some(s)) => t@ == s,
            (Err(e), None) => e == Error::NotUtf8,
            _ => false,
        },
{
    if key.rank == NUMBER {
        Ok(number_token(key.bytes.as_slice()))
    } else {
        match core::str::from_utf8(key.bytes.as_slice()) {
            Ok(text) => Ok(prefixed('s', ':', text)),
            Err(_) => Err(Error::NotUtf8),
        }
    }
}

pub proof fn lemma_digit_char(d: nat)
    requires
        d < 10,
    ensures
        digit_char(d) as u32 == 48 + d,
{
    assert(('0' as u32) == 48);
    assert(digit_char(d) as u32 == 48 + d);
}

pub proof fn lemma_decimal(n: nat)
    ensures
        decimal_spec(n).len() > 0,
        all_digits(decimal_spec(n)),
        digits_value(decimal_spec(n)) == n,
    decreases n,
{
    let s = decimal_spec(n);
    lemma_digit_char(n % 10);
    if n < 10 {
        assert(s =~= seq![digit_char(n)]);
        assert(s.drop_last() =~= Seq::<char>::empty());
        assert(s.last() == digit_char(n));
        assert(digits_value(s) == digits_value(s.drop_last()) * 10 + ((s.last() as u32) - 48) as nat);
    } else {
        lemma_decimal(n / 10);
        let p = decimal_spec(n / 10);
        assert(s == p.push(digit_char(n % 10)));
        assert(s.drop_last() =~= p);
        assert(s.last() == digit_char(n % 10));
        assert(digits_value(s) == digits_value(p) * 10 + ((s.last() as u32) - 48) as nat);
        assert((n / 10) * 10 + n % 10 == n) by (nonlinear_arith);
        assert forall|i: int| 0 <= i < s.len() implies is_digit(#[trigger] s[i]) by {
            if i < p.len() {
                assert(s[i] == p[i]);
            }
        }
    }
}

pub proof fn lemma_hex_no_dot(b: Seq<u8>)
    ensures
        forall|i: int| 0 <= i < hex_spec(b).len() ==> #[trigger] hex_spec(b)[i] != '.',
{
    lemma_hex_spec(b);
    let h = hex_spec(b);
    assert forall|i: int| 0 <= i < h.len() implies #[trigger] h[i] != '.' by {
        let k = i / 2;
        lemma_hex_digit(b[k] / 16);
        lemma_hex_digit(b[k] % 16);
        if i % 2 == 0 {
            assert(i == 2 * k);
        } else {
            assert(i == 2 * k + 1);
        }
    }
}

/// Three dot-free parts joined by dots split back into those parts.
pub proof fn lemma_split_three(x: Seq<char>, y: Seq<char>, z: Seq<char>)
    requires
        forall|i: int| 0 <= i < x.len() ==> x[i] != '.',
        forall|i: int| 0 <= i < y.len() ==> y[i] != '.',
        forall|i: int| 0 <= i < z.len() ==> z[i] != '.',
    ensures
        split_on(x + seq!['.'] + y + seq!['.'] + z, '.') == seq![x, y, z],
{
    let s = x + seq!['.'] + y + seq!['.'] + z;
    lemma_first_at(s, '.', x.len() as int);
    let s1 = s.skip(x.len() as int + 1);
    assert(s.take(x.len() as int) =~= x);
    assert(s1 =~= y + seq!['.'] + z);
    lemma_first_at(s1, '.', y.len() as int);
    let s2 = s1.skip(y.len() as int + 1);
    assert(s1.take(y.len() as int) =~= y);
    assert(s2 =~= z);
    lemma_first_none(s2, '.');
    assert(split_on(s2, '.') == seq![z]);
    assert(split_on(s1, '.') =~= seq![y, z]);
    assert(split_on(s, '.') =~= seq![x, y, z]);
}

pub proof fn lemma_parse_decimal(n: nat, max: nat)
    requires
        n <= max,
    ensures
        parse_unsigned_spec(decimal_spec(n), max) == Some(n),
{
    lemma_decimal(n);
    assert(is_digit(decimal_spec(n)[0]));
}

/// A cursor reads back the key it was written from.
pub proof fn law_cursor_roundtrip(k: KeyV)
    requires
        cursor_key(k),
    ensures
        decode_spec(encode_spec(k)) == Some(k),
{
    let x = decimal_spec(k.rank as nat);
    let y = hex_spec(k.bytes);
    let z = decimal_spec(k.id as nat);
    lemma_decimal(k.rank as nat);
    lemma_decimal(k.id as nat);
    lemma_hex_no_dot(k.bytes);
    assert forall|i: int| 0 <= i < x.len() implies x[i] != '.' by {
        assert(is_digit(x[i]));
    }
    assert forall|i: int| 0 <= i < z.len() implies z[i] != '.' by {
        assert(is_digit(z[i]));
    }
    lemma_split_three(x, y, z);
    lemma_parse_decimal(k.rank as nat, 255);
    lemma_parse_decimal(k.id as nat, 0xffff_ffff);
    law_hex_roundtrip(k.bytes);
}

} // verus!
