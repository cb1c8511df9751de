//! Typed value tokens, hex text and order-preserving number keys.

use crate::error::Error;
use crate::json::{
    all_digits, exponent_part, first_of, is_negative_literal, json_wf, mantissa_part,
    valid_number, Json, JsonV, Number,
};
use crate::query::postings::chars_lt;
use crate::text::{bytes_from, bytes_lt, chars_of, prefixed, string_of};
use vstd::prelude::*;
use vstd::utf8::*;

verus! {

pub open spec fn hex_digit(n: u8) -> char {
    if n < 10 {
        (48 + n) as char
    } else {
        (87 + n) as char
    }
}

pub proof fn lemma_hex_digit(n: u8)
    requires
        n < 16,
    ensures
        '\0' <= hex_digit(n) <= '\u{7f}',
        hex_digit(n) as u8 == (if n < 10 { 48 + n } else { 87 + n }),
{
}

/// Lower-case hex text of `b`, two digits per byte, high nibble first.
pub open spec fn hex_spec(b: Seq<u8>) -> Seq<char>
    decreases b.len(),
{
    if b.len() == 0 {
        Seq::empty()
    } else {
        hex_spec(b.drop_last()) + seq![hex_digit(b.last() / 16), hex_digit(b.last() % 16)]
    }
}

pub proof fn lemma_hex_spec(b: Seq<u8>)
    ensures
        hex_spec(b).len() == 2 * b.len(),
        forall|i: int|
            0 <= i < b.len() ==> hex_spec(b)[2 * i] == hex_digit(b[i] / 16) && hex_spec(b)[2 * i
                + 1] == hex_digit(b[i] % 16),
    decreases b.len(),
{
    if b.len() > 0 {
        lemma_hex_spec(b.drop_last());
        let p = b.drop_last();
        assert forall|i: int| 0 <= i < b.len() implies hex_spec(b)[2 * i] == hex_digit(b[i] / 16)
            && hex_spec(b)[2 * i + 1] == hex_digit(b[i] % 16) by {
            if i < b.len() - 1 {
                assert(b[i] == p[i]);
            }
        }
    }
}

fn hex_char(n: u8) -> (c: char)
    requires
        n < 16,
    ensures
        c == hex_digit(n),
{
    if n < 10 {
        (48u8 + n) as char
    } else {
        (87u8 + n) as char
    }
}

/// Lower-case hex text of `bytes`.
pub fn hex(bytes: &[u8]) -> (out: String)
    ensures
        out@ == hex_spec(bytes@),
{
    let mut out: Vec<char> = Vec::new();
    let mut i: usize = 0;
    while i < bytes.len()
        invariant
            i <= bytes@.len(),
            out@ == hex_spec(bytes@.take(i as int)),
        decreases bytes@.len() - i,
    {
        let b = bytes[i];
        out.push(hex_char(b / 16));
        out.push(hex_char(b % 16));
        proof {
            assert(bytes@.take(i + 1).drop_last() =~= bytes@.take(i as int));
        }
        i += 1;
        assert(out@ =~= hex_spec(bytes@.take(i as int)));
    }
    assert(bytes@.take(bytes@.len() as int) =~= bytes@);
    string_of(out.as_slice())
}

/// The value of one hex digit byte, either case.
pub open spec fn hex_value(b: u8) -> Option<u8> {
    if 48 <= b <= 57 {
        Some((b - 48) as u8)
    } else if 97 <= b <= 102 {
        Some((b - 87) as u8)
    } else if 65 <= b <= 70 {
        Some((b - 55) as u8)
    } else {
        None
    }
}

/// Two bytes read as a base-16 `u8`, as `u8::from_str_radix` reads them: a
/// leading `+` is allowed.
pub open spec fn pair_value(hi: u8, lo: u8) -> Option<u8> {
    if hi == 43 {
        hex_value(lo)
    } else if hex_value(hi) is Some && hex_value(lo) is Some {
        Some((hex_value(hi)->0 * 16 + hex_value(lo)->0) as u8)
    } else {
        None
    }
}

pub open spec fn pairs_valid(b: Seq<u8>) -> bool {
    forall|i: int| 0 <= i < b.len() / 2 ==> #[trigger] pair_value(b[2 * i], b[2 * i + 1]) is Some
}

/// What `unhex` makes of the UTF-8 bytes of its text.
pub open spec fn unhex_spec(b: Seq<u8>) -> Result<Seq<u8>, Error> {
    if b.len() % 2 != 0 {
        Err(Error::OddHexLength)
    } else if pairs_valid(b) {
        Ok(Seq::new((b.len() / 2) as nat, |i: int| pair_value(b[2 * i], b[2 * i + 1])->0))
    } else {
        Err(Error::InvalidHex)
    }
}

fn hex_byte_value(b: u8) -> (r: Option<u8>)
    ensures
        r == hex_value(b),
{
    if 48 <= b && b <= 57 {
        Some(b - 48)
    } else if 97 <= b && b <= 102 {
        Some(b - 87)
    } else if 65 <= b && b <= 70 {
        Some(b - 55)
    } else {
        None
    }
}

fn pair_byte_value(hi: u8, lo: u8) -> (r: Option<u8>)
    ensures
        r == pair_value(hi, lo),
{
    if hi == 43 {
        return hex_byte_value(lo);
    }
    match (hex_byte_value(hi), hex_byte_value(lo)) {
        (Some(h), Some(l)) => Some(h * 16 + l),
        _ => None,
    }
}

/// The bytes written by `hex` (either case accepted).
pub fn unhex(text: &str) -> (r: Result<Vec<u8>, Error>)
    ensures
        match (r, unhex_spec(encode_utf8(text@))) {
            (Ok(v), Ok(s)) => v@ == s,
            (Err(e1), Err(e2)) => e1 == e2,
            _ => false,
        },
{
    let b = text.as_bytes();
    if b.len() % 2 != 0 {
        return Err(Error::OddHexLength);
    }
    let mut out: Vec<u8> = Vec::new();
    let mut i: usize = 0;
    while i < b.len() / 2
        invariant
            b@ == encode_utf8(text@),
            b@.len() % 2 == 0,
            i <= b@.len() / 2,
            out@.len() == i,
            forall|k: int| 0 <= k < i ==> #[trigger] pair_value(b@[2 * k], b@[2 * k + 1]) is Some,
            forall|k: int|
                0 <= k < i ==> out@[k] == pair_value(b@[2 * k], b@[2 * k + 1])->0,
        decreases b@.len() / 2 - i,
    {
        match pair_byte_value(b[2 * i], b[2 * i + 1]) {
            Some(v) => out.push(v),
            None => {
                assert(!pairs_valid(b@));
                return Err(Error::InvalidHex);
            },
        }
        i += 1;
    }
    let ghost s = Seq::new(
        (b@.len() / 2) as nat,
        |k: int| pair_value(b@[2 * k], b@[2 * k + 1])->0,
    );
    assert(out@ =~= s);
    Ok(out)
}

pub proof fn lemma_encode_utf8_concat(a: Seq<char>, b: Seq<char>)
    ensures
        encode_utf8(a + b) == encode_utf8(a) + encode_utf8(b),
    decreases a.len(),
{
    if a.len() == 0 {
        assert(a + b =~= b);
    } else {
        lemma_encode_utf8_concat(a.drop_first(), b);
        assert((a + b).drop_first() =~= a.drop_first() + b);
        assert((a + b)[0] == a[0]);
    }
}

pub proof fn lemma_hex_spec_ascii(b: Seq<u8>)
    ensures
        is_ascii_chars(hex_spec(b)),
        encode_utf8(hex_spec(b)).len() == 2 * b.len(),
        forall|i: int| 0 <= i < 2 * b.len() ==> encode_utf8(hex_spec(b))[i] == hex_spec(b)[i] as u8,
{
    lemma_hex_spec(b);
    let h = hex_spec(b);
    assert forall|i: int| 0 <= i < h.len() implies '\0' <= #[trigger] h[i] <= '\u{7f}' by {
        let k = i / 2;
        assert(0 <= k < b.len());
        lemma_hex_digit(b[k] / 16);
        lemma_hex_digit(b[k] % 16);
        if i % 2 == 0 {
            assert(i == 2 * k);
        } else {
            assert(i == 2 * k + 1);
        }
    }
    is_ascii_chars_encode_utf8(h);
}

/// `unhex` reads back exactly what `hex` wrote.
pub proof fn law_hex_roundtrip(b: Seq<u8>)
    ensures
        unhex_spec(encode_utf8(hex_spec(b))) == Ok::<Seq<u8>, Error>(b),
{
    lemma_hex_spec(b);
    lemma_hex_spec_ascii(b);
    let e = encode_utf8(hex_spec(b));
    assert forall|i: int| 0 <= i < e.len() / 2 implies #[trigger] pair_value(e[2 * i], e[2 * i + 1])
        == Some(b[i]) by {
        lemma_hex_digit(b[i] / 16);
        lemma_hex_digit(b[i] % 16);
        assert(e[2 * i] == hex_digit(b[i] / 16) as u8);
        assert(e[2 * i + 1] == hex_digit(b[i] % 16) as u8);
    }
    assert(pairs_valid(e));
    let s = Seq::new((e.len() / 2) as nat, |i: int| pair_value(e[2 * i], e[2 * i + 1])->0);
    assert(s =~= b);
}

/// The decimal value of a digit string.
pub open spec fn digits_value(s: Seq<char>) -> nat
    decreases s.len(),
{
    if s.len() == 0 {
        0
    } else {
        digits_value(s.drop_last()) * 10 + ((s.last() as u32) - 48) as nat
    }
}

pub proof fn lemma_digits_value_grows(s: Seq<char>, k: int)
    requires
        0 <= k <= s.len(),
    ensures
        digits_value(s.take(k)) <= digits_value(s),
    decreases s.len() - k,
{
    if k < s.len() {
        lemma_digits_value_grows(s, k + 1);
        assert(s.take(k + 1).drop_last() =~= s.take(k));
        assert(digits_value(s.take(k + 1)) == digits_value(s.take(k)) * 10 + ((s.take(k
            + 1).last() as u32) - 48) as nat);
    } else {
        assert(s.take(k) =~= s);
    }
}

/// The exponent text read as a signed decimal, if it fits in i64.
pub open spec fn exponent_text_value(t: Seq<char>) -> Option<int> {
    let negative = t.len() > 0 && t[0] == '-';
    let digits = if t.len() > 0 && (t[0] == '+' || t[0] == '-') {
        t.drop_first()
    } else {
        t
    };
    let v: int = if negative {
        -(digits_value(digits) as int)
    } else {
        digits_value(digits) as int
    };
    if i64::MIN <= v <= i64::MAX {
        Some(v)
    } else {
        None
    }
}

pub open spec fn exponent_value(s: Seq<char>) -> Option<int> {
    match exponent_part(s) {
        None => Some(0),
        Some(t) => exponent_text_value(t),
    }
}

/// Mantissa digits without the decimal point.
pub open spec fn mantissa_digits(s: Seq<char>) -> Seq<char> {
    let m = mantissa_part(s);
    let d = first_of(m, '.', '.');
    if d < m.len() {
        m.take(d) + m.skip(d + 1)
    } else {
        m
    }
}

/// Number of digits before the decimal point.
pub open spec fn integer_len(s: Seq<char>) -> int {
    first_of(mantissa_part(s), '.', '.')
}

pub open spec fn leading_zeros(d: Seq<char>) -> int
    decreases d.len(),
{
    if d.len() > 0 && d[0] == '0' {
        1 + leading_zeros(d.drop_first())
    } else {
        0
    }
}

pub open spec fn trim_trailing_zeros(d: Seq<char>) -> Seq<char>
    decreases d.len(),
{
    if d.len() > 0 && d.last() == '0' {
        trim_trailing_zeros(d.drop_last())
    } else {
        d
    }
}

/// The significant digits: no leading and no trailing zeros.
pub open spec fn significand(s: Seq<char>) -> Seq<char> {
    let d = mantissa_digits(s);
    trim_trailing_zeros(d.skip(leading_zeros(d)))
}

/// The value is `0.significand × 10^magnitude`.
pub open spec fn magnitude(s: Seq<char>, exponent: int) -> int {
    exponent + integer_len(s) - leading_zeros(mantissa_digits(s))
}

/// Big-endian bytes of `x`.
pub open spec fn be8(x: u64) -> Seq<u8> {
    seq![
        (x >> 56u64) as u8,
        (x >> 48u64) as u8,
        (x >> 40u64) as u8,
        (x >> 32u64) as u8,
        (x >> 24u64) as u8,
        (x >> 16u64) as u8,
        (x >> 8u64) as u8,
        x as u8,
    ]
}

pub open spec fn sign_bit() -> u64 {
    0x8000_0000_0000_0000u64
}

pub open spec fn complement(b: Seq<u8>) -> Seq<u8> {
    Seq::new(b.len(), |i: int| !b[i])
}

pub open spec fn ascii_bytes(s: Seq<char>) -> Seq<u8> {
    Seq::new(s.len(), |i: int| (s[i] as u32) as u8)
}

/// The key of a nonzero number: a sign byte (0 negative, 2 positive), the
/// magnitude with its sign bit flipped, the significant digits and a 0
/// terminator; every byte after the first is complemented when negative.
pub open spec fn decimal_key(negative: bool, magnitude: i64, sig: Seq<char>) -> Seq<u8> {
    let body = be8((magnitude as u64) ^ sign_bit()) + ascii_bytes(sig) + seq![0u8];
    if negative {
        seq![0u8] + complement(body)
    } else {
        seq![2u8] + body
    }
}

/// The key of zero.
pub open spec fn zero_key() -> Seq<u8> {
    seq![1u8]
}

/// Sorts after every number key: the stored end of an open interval.
pub open spec fn infinity_key() -> Seq<u8> {
    seq![3u8]
}

pub open spec fn number_key_spec(s: Seq<char>) -> Result<Seq<u8>, Error> {
    match exponent_value(s) {
        None => Err(Error::ExponentOutOfRange),
        Some(x) => {
            let sig = significand(s);
            let m = magnitude(s, x);
            if sig.len() == 0 {
                Ok(zero_key())
            } else if x + integer_len(s) > i64::MAX || m < i64::MIN || m > i64::MAX {
                Err(Error::ExponentOutOfRange)
            } else {
                Ok(decimal_key(is_negative_literal(s), m as i64, sig))
            }
        },
    }
}

pub proof fn lemma_first_of_at(s: Seq<char>, a: char, b: char, k: int)
    requires
        0 <= k <= s.len(),
        forall|i: int| 0 <= i < k ==> s[i] != a && s[i] != b,
        k == s.len() || s[k] == a || s[k] == b,
    ensures
        first_of(s, a, b) == k,
    decreases s.len(),
{
    if s.len() > 0 && k > 0 {
        assert forall|i: int| 0 <= i < k - 1 implies s.drop_first()[i] != a && s.drop_first()[i]
            != b by {
            assert(s.drop_first()[i] == s[i + 1]);
        }
        lemma_first_of_at(s.drop_first(), a, b, k - 1);
    }
}

pub proof fn lemma_leading_zeros_at(d: Seq<char>, k: int)
    requires
        0 <= k <= d.len(),
        forall|i: int| 0 <= i < k ==> d[i] == '0',
        k == d.len() || d[k] != '0',
    ensures
        leading_zeros(d) == k,
    decreases d.len(),
{
    if k > 0 {
        assert forall|i: int| 0 <= i < k - 1 implies d.drop_first()[i] == '0' by {
            assert(d.drop_first()[i] == d[i + 1]);
        }
        lemma_leading_zeros_at(d.drop_first(), k - 1);
    }
}

pub proof fn lemma_trim_at(d: Seq<char>, end: int)
    requires
        0 <= end <= d.len(),
        forall|i: int| end <= i < d.len() ==> d[i] == '0',
        end == 0 || d[end - 1] != '0',
    ensures
        trim_trailing_zeros(d) == d.take(end),
    decreases d.len(),
{
    if end < d.len() {
        assert(d.drop_last().take(end) =~= d.take(end));
        lemma_trim_at(d.drop_last(), end);
    } else {
        assert(d.take(end) =~= d);
    }
}

/// Reads `raw[from..]` as an exponent: optional sign, then digits.
fn parse_exponent(raw: &Vec<char>, from: usize) -> (r: Option<i64>)
    requires
        from <= raw@.len(),
        crate::json::valid_exponent_text(raw@.skip(from as int)),
    ensures
        match (r, exponent_text_value(raw@.skip(from as int))) {
            (Some(x), Some(y)) => x as int == y,
            (None, None) => true,
            _ => false,
        },
{
    let ghost t = raw@.skip(from as int);
    let negative = from < raw.len() && raw[from] == '-';
    let signed = from < raw.len() && (raw[from] == '+' || raw[from] == '-');
    let first: usize = if signed { from + 1 } else { from };
    let ghost digits = if t.len() > 0 && (t[0] == '+' || t[0] == '-') {
        t.drop_first()
    } else {
        t
    };
    assert(digits =~= raw@.skip(first as int));
    let bound: u64 = 0x8000_0000_0000_0000u64;
    let mut acc: u64 = 0;
    let mut i: usize = first;
    while i < raw.len()
        invariant
            first <= i <= raw@.len(),
            digits =~= raw@.skip(first as int),
            all_digits(digits),
            acc as nat == digits_value(digits.take(i - first)),
            acc <= bound,
            bound == 0x8000_0000_0000_0000u64,
            t == raw@.skip(from as int),
            digits == (if t.len() > 0 && (t[0] == '+' || t[0] == '-') {
                t.drop_first()
            } else {
                t
            }),
        decreases raw@.len() - i,
    {
        let c = raw[i];
        assert(c == digits[i - first]);
        assert(crate::json::is_digit(digits[i - first]));
        let d: u64 = ((c as u32) - 48) as u64;
        assert(d <= 9);
        assert(digits.take(i + 1 - first).drop_last() =~= digits.take(i - first));
        assert(digits_value(digits.take(i + 1 - first)) == acc * 10 + d);
        if acc > (bound - d) / 10 {
            proof {
                assert(acc * 10 + d > bound) by (nonlinear_arith)
                    requires
                        acc > (bound - d) / 10,
                        d <= 9,
                        bound == 0x8000_0000_0000_0000u64,
                ;
                lemma_digits_value_grows(digits, i + 1 - first);
                assert(digits.take(digits.len() as int) =~= digits);
                assert(digits_value(digits) > bound);
                assert(exponent_text_value(t) is None);
            }
            return None;
        }
        assert(acc * 10 + d <= bound) by (nonlinear_arith)
            requires
                acc <= (bound - d) / 10,
                d <= 9,
                bound == 0x8000_0000_0000_0000u64,
        ;
        acc = acc * 10 + d;
        i += 1;
    }
    assert(digits.take(i - first) =~= digits);
    if negative {
        if acc == bound {
            Some(i64::MIN)
        } else {
            Some(-(acc as i64))
        }
    } else if acc > 0x7FFF_FFFF_FFFF_FFFFu64 {
        None
    } else {
        Some(acc as i64)
    }
}

/// First index in `raw[from..to]` holding `a` or `b`, or `to`.
fn find_marker(raw: &Vec<char>, from: usize, to: usize, a: char, b: char) -> (k: usize)
    requires
        from <= to <= raw@.len(),
    ensures
        from <= k <= to,
        k - from == first_of(raw@.subrange(from as int, to as int), a, b),
        forall|i: int| from <= i < k ==> raw@[i] != a && raw@[i] != b,
        k < to ==> raw@[k as int] == a || raw@[k as int] == b,
{
    let mut k: usize = from;
    while k < to && raw[k] != a && raw[k] != b
        invariant
            from <= k <= to,
            to <= raw@.len(),
            forall|i: int| from <= i < k ==> raw@[i] != a && raw@[i] != b,
        decreases to - k,
    {
        k += 1;
    }
    proof {
        let w = raw@.subrange(from as int, to as int);
        assert forall|i: int| 0 <= i < k - from implies w[i] != a && w[i] != b by {
            assert(w[i] == raw@[i + from]);
        }
        lemma_first_of_at(w, a, b, k - from);
    }
    k
}

/// The mantissa `raw[start..e]` without its point at `d` (`d == e` when none).
fn mantissa_digit_chars(raw: &Vec<char>, start: usize, d: usize, e: usize) -> (out: Vec<char>)
    requires
        start <= d <= e <= raw@.len(),
        d < e ==> raw@[d as int] == '.',
    ensures
        out@ == (if d < e {
            raw@.subrange(start as int, d as int) + raw@.subrange(d + 1, e as int)
        } else {
            raw@.subrange(start as int, e as int)
        }),
{
    let mut out: Vec<char> = Vec::new();
    let mut i: usize = start;
    while i < d
        invariant
            start <= i <= d,
            d <= e <= raw@.len(),
            out@ =~= raw@.subrange(start as int, i as int),
        decreases d - i,
    {
        out.push(raw[i]);
        assert(raw@.subrange(start as int, i + 1) =~= raw@.subrange(start as int, i as int).push(
            raw@[i as int],
        ));
        i += 1;
    }
    if d < e {
        let mut j: usize = d + 1;
        while j < e
            invariant
                d + 1 <= j <= e,
                e <= raw@.len(),
                out@ =~= raw@.subrange(start as int, d as int) + raw@.subrange(d + 1, j as int),
            decreases e - j,
        {
            out.push(raw[j]);
            assert(raw@.subrange(d + 1, j + 1) =~= raw@.subrange(d + 1, j as int).push(
                raw@[j as int],
            ));
            j += 1;
        }
    }
    out
}

fn count_leading_zeros(digits: &Vec<char>) -> (n: usize)
    ensures
        n as int == leading_zeros(digits@),
        n <= digits@.len(),
{
    let mut n: usize = 0;
    while n < digits.len() && digits[n] == '0'
        invariant
            n <= digits@.len(),
            forall|k: int| 0 <= k < n ==> digits@[k] == '0',
        decreases digits@.len() - n,
    {
        n += 1;
    }
    proof {
        lemma_leading_zeros_at(digits@, n as int);
    }
    n
}

/// End of the significant digits of `digits[leading..]`.
fn significant_end(digits: &Vec<char>, leading: usize) -> (end: usize)
    requires
        leading <= digits@.len(),
    ensures
        leading <= end <= digits@.len(),
        trim_trailing_zeros(digits@.skip(leading as int)) == digits@.subrange(
            leading as int,
            end as int,
        ),
{
    let mut end: usize = digits.len();
    while end > leading && digits[end - 1] == '0'
        invariant
            leading <= end <= digits@.len(),
            forall|k: int| end <= k < digits@.len() ==> digits@[k] == '0',
        decreases end,
    {
        end -= 1;
    }
    let ghost rest = digits@.skip(leading as int);
    proof {
        assert forall|k: int| end - leading <= k < rest.len() implies rest[k] == '0' by {
            assert(rest[k] == digits@[k + leading]);
        }
        lemma_trim_at(rest, end - leading);
        assert(rest.take(end - leading) =~= digits@.subrange(leading as int, end as int));
    }
    end
}

/// The bytes of `decimal_key(negative, mag, digits[from..to])`.
fn decimal_key_bytes(negative: bool, mag: i64, digits: &Vec<char>, from: usize, to: usize) -> (key:
    Vec<u8>)
    requires
        from <= to <= digits@.len(),
    ensures
        key@ == decimal_key(negative, mag, digits@.subrange(from as int, to as int)),
{
    let x: u64 = (mag as u64) ^ 0x8000_0000_0000_0000u64;
    let mut body: Vec<u8> = Vec::new();
    body.push((x >> 56u64) as u8);
    body.push((x >> 48u64) as u8);
    body.push((x >> 40u64) as u8);
    body.push((x >> 32u64) as u8);
    body.push((x >> 24u64) as u8);
    body.push((x >> 16u64) as u8);
    body.push((x >> 8u64) as u8);
    body.push(x as u8);
    assert(body@ =~= be8(x));
    let mut k: usize = from;
    while k < to
        invariant
            from <= k <= to,
            to <= digits@.len(),
            body@ =~= be8(x) + ascii_bytes(digits@.subrange(from as int, k as int)),
        decreases to - k,
    {
        body.push((digits[k] as u32) as u8);
        assert(ascii_bytes(digits@.subrange(from as int, k + 1)) =~= ascii_bytes(
            digits@.subrange(from as int, k as int),
        ).push((digits@[k as int] as u32) as u8));
        k += 1;
    }
    body.push(0u8);
    let ghost sig = digits@.subrange(from as int, to as int);
    assert(body@ =~= be8((mag as u64) ^ sign_bit()) + ascii_bytes(sig) + seq![0u8]);
    let mut key: Vec<u8> = Vec::new();
    if negative {
        key.push(0u8);
        let mut t: usize = 0;
        while t < body.len()
            invariant
                t <= body@.len(),
                key@ =~= seq![0u8] + complement(body@.take(t as int)),
            decreases body@.len() - t,
        {
            key.push(!body[t]);
            assert(complement(body@.take(t + 1)) =~= complement(body@.take(t as int)).push(
                !body@[t as int],
            ));
            t += 1;
        }
        assert(body@.take(body@.len() as int) =~= body@);
    } else {
        key.push(2u8);
        let mut t: usize = 0;
        while t < body.len()
            invariant
                t <= body@.len(),
                key@ =~= seq![2u8] + body@.take(t as int),
            decreases body@.len() - t,
        {
            key.push(body[t]);
            assert(body@.take(t + 1) =~= body@.take(t as int).push(body@[t as int]));
            t += 1;
        }
        assert(body@.take(body@.len() as int) =~= body@);
    }
    key
}

/// The order-preserving key of a number: equal values give equal keys
/// whatever their spelling, and keys compare bytewise in numeric order.
#[verifier::rlimit(40)]
pub fn number_key(number: &Number) -> (r: Result<Vec<u8>, Error>)
    requires
        valid_number(number.literal@),
    ensures
        match (r, number_key_spec(number.literal@)) {
            (Ok(v), Ok(k)) => v@ == k,
            (Err(e1), Err(e2)) => e1 == e2,
            _ => false,
        },
{
    let raw = chars_of(number.literal.as_str());
    let ghost s = raw@;
    let negative = raw.len() > 0 && raw[0] == '-';
    let start: usize = if negative { 1 } else { 0 };
    let ghost u = crate::json::unsigned_part(s);
    assert(u =~= s.subrange(start as int, s.len() as int));
    let e = find_marker(&raw, start, raw.len(), 'e', 'E');
    let exponent: i64 = if e < raw.len() {
        proof {
            assert(exponent_part(s) == Some(u.skip(e - start + 1)));
            assert(u.skip(e - start + 1) =~= s.skip(e + 1));
        }
        match parse_exponent(&raw, e + 1) {
            Some(x) => x,
            None => {
                return Err(Error::ExponentOutOfRange);
            },
        }
    } else {
        0
    };
    assert(exponent_value(s) == Some(exponent as int));
    let ghost m = mantissa_part(s);
    assert(m =~= s.subrange(start as int, e as int));
    let d = find_marker(&raw, start, e, '.', '.');
    let digits = mantissa_digit_chars(&raw, start, d, e);
    proof {
        if d < e {
            assert(m.take(d - start) =~= s.subrange(start as int, d as int));
            assert(m.skip(d - start + 1) =~= s.subrange(d + 1, e as int));
        } else {
            assert(m =~= s.subrange(start as int, e as int));
        }
    }
    assert(digits@ == mantissa_digits(s));
    let leading = count_leading_zeros(&digits);
    let end = significant_end(&digits, leading);
    assert(significand(s) == digits@.subrange(leading as int, end as int));
    if end == leading {
        let v: Vec<u8> = vec![1u8];
        assert(v@ =~= zero_key());
        return Ok(v);
    }
    let int_digits: usize = d - start;
    assert(integer_len(s) == int_digits as int);
    let with_int: i128 = exponent as i128 + int_digits as i128;
    if with_int > 0x7FFF_FFFF_FFFF_FFFFi128 {
        return Err(Error::ExponentOutOfRange);
    }
    let mag_wide: i128 = with_int - leading as i128;
    if mag_wide < -0x8000_0000_0000_0000i128 || mag_wide > 0x7FFF_FFFF_FFFF_FFFFi128 {
        return Err(Error::ExponentOutOfRange);
    }
    let mag: i64 = mag_wide as i64;
    assert(is_negative_literal(s) == negative);
    Ok(decimal_key_bytes(negative, mag, &digits, leading, end))
}

pub open spec fn number_token_spec(key: Seq<u8>) -> Seq<char> {
    seq!['n', ':'] + hex_spec(key)
}

/// Posting tokens keep value order: hex keeps number-key byte order.
pub fn number_token(key: &[u8]) -> (t: String)
    ensures
        t@ == number_token_spec(key@),
{
    let h = hex(key);
    prefixed('n', ':', h.as_str())
}

pub open spec fn has_prefix(t: Seq<char>, a: char, b: char) -> bool {
    t.len() >= 2 && t[0] == a && t[1] == b
}

/// Number tokens (`n:`) and string tokens (`s:`) carry an order.
pub open spec fn is_sortable_token(t: Seq<char>) -> bool {
    has_prefix(t, 'n', ':') || has_prefix(t, 's', ':')
}

/// Whether a token has an order: a number or a string.
pub fn is_sortable(token: &str) -> (r: bool)
    ensures
        r == is_sortable_token(token@),
{
    let c = chars_of(token);
    c.len() >= 2 && (c[0] == 'n' || c[0] == 's') && c[1] == ':'
}

/// The bytes a sortable token orders by: the number key or the UTF-8 string.
pub open spec fn token_sort_bytes_spec(t: Seq<char>) -> Result<Seq<u8>, Error> {
    if has_prefix(t, 'n', ':') {
        unhex_spec(encode_utf8(t.skip(2)))
    } else if has_prefix(t, 's', ':') {
        Ok(encode_utf8(t.skip(2)))
    } else {
        Err(Error::NotSortable)
    }
}

pub fn token_sort_bytes(token: &str) -> (r: Result<Vec<u8>, Error>)
    ensures
        match (r, token_sort_bytes_spec(token@)) {
            (Ok(v), Ok(s)) => v@ == s,
            (Err(e1), Err(e2)) => e1 == e2,
            _ => false,
        },
{
    let c = chars_of(token);
    if c.len() >= 2 && c[0] == 'n' && c[1] == ':' {
        let mut rest: Vec<char> = Vec::new();
        let mut i: usize = 2;
        while i < c.len()
            invariant
                2 <= i <= c@.len(),
                rest@ =~= c@.subrange(2, i as int),
            decreases c@.len() - i,
        {
            rest.push(c[i]);
            assert(c@.subrange(2, i + 1) =~= c@.subrange(2, i as int).push(c@[i as int]));
            i += 1;
        }
        let text = string_of(rest.as_slice());
        assert(text@ =~= token@.skip(2));
        unhex(text.as_str())
    } else if c.len() >= 2 && c[0] == 's' && c[1] == ':' {
        let b = token.as_bytes();
        proof {
            assert(token@ =~= seq!['s', ':'] + token@.skip(2));
            lemma_encode_utf8_concat(seq!['s', ':'], token@.skip(2));
            assert(is_ascii_chars(seq!['s', ':']));
            is_ascii_chars_encode_utf8(seq!['s', ':']);
        }
        let out = bytes_from(b, 2);
        assert(out@ =~= encode_utf8(token@.skip(2)));
        Ok(out)
    } else {
        Err(Error::NotSortable)
    }
}

/// The token of a scalar: `z:` null, `b:0`/`b:1`, `s:` + text, `n:` + hex
/// key; arrays and objects have none.
pub open spec fn token_spec(v: JsonV) -> Result<(Seq<char>, Option<Seq<u8>>), Error> {
    match v {
        JsonV::Null => Ok((seq!['z', ':'], None)),
        JsonV::Bool(b) => Ok((seq!['b', ':', if b { '1' } else { '0' }], None)),
        JsonV::Str(s) => Ok((seq!['s', ':'] + s, None)),
        JsonV::Number(n) => match number_key_spec(n) {
            Ok(k) => Ok((number_token_spec(k), Some(k))),
            Err(e) => Err(e),
        },
        _ => Err(Error::NotScalar),
    }
}

/// The posting token of a scalar value, with its number key when it is a
/// number.
pub fn token(value: &Json) -> (r: Result<(String, Option<Vec<u8>>), Error>)
    requires
        json_wf(value@),
    ensures
        match (r, token_spec(value@)) {
            (Ok((t, k)), Ok((ts, ks))) => t@ == ts && match (k, ks) {
                (Some(a), Some(b)) => a@ == b,
                (None, None) => true,
                _ => false,
            },
            (Err(e1), Err(e2)) => e1 == e2,
            _ => false,
        },
{
    match value {
        Json::Null => {
            let t = string_of(vec!['z', ':'].as_slice());
            Ok((t, None))
        },
        Json::Bool(b) => {
            let v: Vec<char> = vec!['b', ':', if *b { '1' } else { '0' }];
            Ok((string_of(v.as_slice()), None))
        },
        Json::Str(s) => Ok((prefixed('s', ':', s.as_str()), None)),
        Json::Number(n) => {
            let key = number_key(n)?;
            let t = number_token(key.as_slice());
            Ok((t, Some(key)))
        },
        _ => Err(Error::NotScalar),
    }
}

proof fn lemma_digit_order(u: u8, v: u8)
    requires
        u < 16,
        v < 16,
    ensures
        (hex_digit(u) == hex_digit(v)) == (u == v),
        ((hex_digit(u) as u32) < (hex_digit(v) as u32)) == (u < v),
{
    assert(hex_digit(u) as u32 == (if u < 10 { 48 + u } else { 87 + u }));
    assert(hex_digit(v) as u32 == (if v < 10 { 48 + v } else { 87 + v }));
}

proof fn lemma_byte_nibbles(x: u8, y: u8)
    ensures
        x / 16 < 16,
        x % 16 < 16,
        (x == y) == (x / 16 == y / 16 && x % 16 == y % 16),
        (x < y) == (x / 16 < y / 16 || (x / 16 == y / 16 && x % 16 < y % 16)),
{
}

/// The hex text of a non-empty byte string: its first byte's two digits,
/// then the hex text of the rest.
proof fn lemma_hex_first(b: Seq<u8>)
    requires
        b.len() > 0,
    ensures
        hex_spec(b) == seq![hex_digit(b[0] / 16), hex_digit(b[0] % 16)] + hex_spec(b.drop_first()),
{
    let d = b.drop_first();
    lemma_hex_spec(b);
    lemma_hex_spec(d);
    let r = seq![hex_digit(b[0] / 16), hex_digit(b[0] % 16)] + hex_spec(d);
    assert forall|i: int| 0 <= i < r.len() implies hex_spec(b)[i] == r[i] by {
        if i >= 2 {
            let j = (i - 2) / 2;
            assert(d[j] == b[j + 1]);
            if i % 2 == 0 {
                assert(i == 2 * (j + 1));
                assert(i - 2 == 2 * j);
            } else {
                assert(i == 2 * (j + 1) + 1);
                assert(i - 2 == 2 * j + 1);
            }
        }
    }
    assert(hex_spec(b) =~= r);
}

/// Hex text orders as the bytes it spells.
proof fn lemma_hex_order(a: Seq<u8>, b: Seq<u8>)
    ensures
        chars_lt(hex_spec(a), hex_spec(b)) == bytes_lt(a, b),
    decreases a.len(),
{
    lemma_hex_spec(a);
    lemma_hex_spec(b);
    if a.len() > 0 && b.len() > 0 {
        lemma_hex_first(a);
        lemma_hex_first(b);
        lemma_hex_order(a.drop_first(), b.drop_first());
        lemma_byte_nibbles(a[0], b[0]);
        lemma_digit_order(a[0] / 16, b[0] / 16);
        lemma_digit_order(a[0] % 16, b[0] % 16);
        let ha = hex_spec(a);
        let hb = hex_spec(b);
        let ra = hex_spec(a.drop_first());
        let rb = hex_spec(b.drop_first());
        assert(ha.drop_first() =~= seq![hex_digit(a[0] % 16)] + ra);
        assert(hb.drop_first() =~= seq![hex_digit(b[0] % 16)] + rb);
        assert(ha.drop_first().drop_first() =~= ra);
        assert(hb.drop_first().drop_first() =~= rb);
        assert(ha.drop_first()[0] == hex_digit(a[0] % 16));
        assert(hb.drop_first()[0] == hex_digit(b[0] % 16));
        assert(ha[0] == hex_digit(a[0] / 16) && hb[0] == hex_digit(b[0] / 16));
        assert(chars_lt(ha, hb) == if ha[0] != hb[0] {
            (ha[0] as u32) < (hb[0] as u32)
        } else {
            chars_lt(ha.drop_first(), hb.drop_first())
        });
        let a1 = ha.drop_first();
        let b1 = hb.drop_first();
        assert(chars_lt(a1, b1) == if a1[0] != b1[0] {
            (a1[0] as u32) < (b1[0] as u32)
        } else {
            chars_lt(a1.drop_first(), b1.drop_first())
        });
        assert(bytes_lt(a, b) == if a[0] != b[0] {
            a[0] < b[0]
        } else {
            bytes_lt(a.drop_first(), b.drop_first())
        });
    }
}

/// Number tokens keep the byte order of the number keys they spell, and
/// tell different keys apart.
pub proof fn law_number_token_order(k1: Seq<u8>, k2: Seq<u8>)
    ensures
        chars_lt(number_token_spec(k1), number_token_spec(k2)) == bytes_lt(k1, k2),
        (number_token_spec(k1) == number_token_spec(k2)) == (k1 == k2),
{
    let t1 = number_token_spec(k1);
    let t2 = number_token_spec(k2);
    lemma_hex_order(k1, k2);
    assert(t1.drop_first() =~= seq![':'] + hex_spec(k1));
    assert(t2.drop_first() =~= seq![':'] + hex_spec(k2));
    assert(t1.drop_first().drop_first() =~= hex_spec(k1));
    assert(t2.drop_first().drop_first() =~= hex_spec(k2));
    assert(t1[0] == 'n' && t2[0] == 'n');
    assert(t1.drop_first()[0] == ':' && t2.drop_first()[0] == ':');
    assert(chars_lt(t1, t2) == chars_lt(t1.drop_first(), t2.drop_first()));
    assert(chars_lt(t1.drop_first(), t2.drop_first()) == chars_lt(hex_spec(k1), hex_spec(k2)));
    if t1 == t2 {
        assert(t1.skip(2) =~= hex_spec(k1));
        assert(t2.skip(2) =~= hex_spec(k2));
        law_hex_roundtrip(k1);
        law_hex_roundtrip(k2);
    }
}

} // verus!
