//! Character-level helpers shared by the index and query modules.

use vstd::prelude::*;

verus! {

/// `String::push` appends one character.
pub assume_specification[ std::string::String::push ](s: &mut std::string::String, ch: char)
    ensures
        final(s)@ == old(s)@.push(ch),
;

/// The characters of `s`, in order.
pub fn chars_of(s: &str) -> (out: Vec<char>)
    ensures
        out@ == s@,
{
    let mut out: Vec<char> = Vec::new();
    for c in it: s.chars()
        invariant
            out@ == it.seq().take(it.index() as int),
            it.seq() == s@,
    {
        out.push(c);
    }
    out
}

/// A string holding exactly `chars`.
pub fn string_of(chars: &[char]) -> (out: String)
    ensures
        out@ == chars@,
{
    let mut out = String::new();
    let mut i: usize = 0;
    while i < chars.len()
        invariant
            i <= chars@.len(),
            out@ == chars@.take(i as int),
        decreases chars@.len() - i,
    {
        out.push(chars[i]);
        i += 1;
        assert(chars@.take(i as int) == chars@.take(i - 1).push(chars@[i - 1]));
    }
    assert(chars@.take(chars@.len() as int) == chars@);
    out
}

/// `a`, `b`, then the characters of `rest`.
pub fn prefixed(a: char, b: char, rest: &str) -> (out: String)
    ensures
        out@ == seq![a, b] + rest@,
{
    let mut out = String::new();
    out.push(a);
    out.push(b);
    out.append(rest);
    assert(out@ =~= seq![a, b] + rest@);
    out
}

/// Bytes of `b` from index `from` on.
pub fn bytes_from(b: &[u8], from: usize) -> (out: Vec<u8>)
    requires
        from <= b@.len(),
    ensures
        out@ == b@.skip(from as int),
{
    let mut out: Vec<u8> = Vec::new();
    let mut i: usize = from;
    while i < b.len()
        invariant
            from <= i <= b@.len(),
            out@ =~= b@.subrange(from as int, i as int),
        decreases b@.len() - i,
    {
        out.push(b[i]);
        assert(b@.subrange(from as int, i + 1) =~= b@.subrange(from as int, i as int).push(b@[i as int]));
        i += 1;
    }
    out
}

pub open spec fn digit_char(d: nat) -> char {
    (48 + d) as char
}

/// Decimal digits of `n`, no leading zeros (`0` for zero).
pub open spec fn decimal_spec(n: nat) -> Seq<char>
    decreases n,
{
    if n < 10 {
        seq![digit_char(n)]
    } else {
        decimal_spec(n / 10).push(digit_char(n % 10))
    }
}

/// The decimal text of `n`.
pub fn decimal(n: u64) -> (out: String)
    ensures
        out@ == decimal_spec(n as nat),
{
    let mut digits: Vec<char> = Vec::new();
    let mut rest: u64 = n;
    // digits of n collected lowest first
    while rest >= 10
        invariant
            decimal_spec(n as nat) == decimal_spec(rest as nat) + digits@.reverse(),
        decreases rest,
    {
        let d = rest % 10;
        digits.push(((48 + d) as u8) as char);
        proof {
            assert(decimal_spec(rest as nat) == decimal_spec((rest / 10) as nat).push(
                digit_char((rest % 10) as nat),
            ));
            assert(((48 + d) as u8) as char == digit_char(d as nat));
        }
        assert(decimal_spec(n as nat) =~= decimal_spec((rest / 10) as nat) + digits@.reverse());
        rest = rest / 10;
    }
    digits.push(((48 + rest) as u8) as char);
    assert(((48 + rest) as u8) as char == digit_char(rest as nat));
    assert(decimal_spec(n as nat) =~= digits@.reverse());
    let mut out: Vec<char> = Vec::new();
    let mut i: usize = digits.len();
    while i > 0
        invariant
            i <= digits@.len(),
            out@ =~= digits@.subrange(i as int, digits@.len() as int).reverse(),
        decreases i,
    {
        i -= 1;
        out.push(digits[i]);
        assert(digits@.subrange(i as int, digits@.len() as int).reverse() =~= digits@.subrange(
            i + 1,
            digits@.len() as int,
        ).reverse().push(digits@[i as int]));
    }
    assert(digits@.subrange(0, digits@.len() as int) =~= digits@);
    string_of(out.as_slice())
}

/// `path`, a `/`, then `segment`.
pub fn join_segment(path: &str, segment: &str) -> (out: String)
    ensures
        out@ == path@ + seq!['/'] + segment@,
{
    let mut out = String::new();
    out.append(path);
    out.push('/');
    out.append(segment);
    assert(out@ =~= path@ + seq!['/'] + segment@);
    out
}

/// Strict lexicographic order on byte strings, as `Vec<u8>` compares.
pub open spec fn bytes_lt(a: Seq<u8>, b: Seq<u8>) -> bool
    decreases a.len(),
{
    if a.len() == 0 {
        b.len() > 0
    } else if b.len() == 0 {
        false
    } else if a[0] != b[0] {
        a[0] < b[0]
    } else {
        bytes_lt(a.drop_first(), b.drop_first())
    }
}

/// Whether `a` sorts strictly before `b`.
pub fn less_bytes(a: &[u8], b: &[u8]) -> (r: bool)
    ensures
        r == bytes_lt(a@, b@),
{
    let mut i: usize = 0;
    assert(a@.skip(0) =~= a@);
    assert(b@.skip(0) =~= b@);
    while i < a.len() && i < b.len() && a[i] == b[i]
        invariant
            i <= a@.len(),
            i <= b@.len(),
            forall|k: int| 0 <= k < i ==> a@[k] == b@[k],
            bytes_lt(a@, b@) == bytes_lt(a@.skip(i as int), b@.skip(i as int)),
        decreases a@.len() - i,
    {
        assert(a@.skip(i as int).drop_first() =~= a@.skip(i + 1));
        assert(b@.skip(i as int).drop_first() =~= b@.skip(i + 1));
        i += 1;
    }
    if i == a.len() {
        i < b.len()
    } else if i == b.len() {
        false
    } else {
        a[i] < b[i]
    }
}

/// Whether two byte strings are equal.
pub fn same_bytes(a: &[u8], b: &[u8]) -> (r: bool)
    ensures
        r == (a@ == b@),
{
    if a.len() != b.len() {
        return false;
    }
    let mut i: usize = 0;
    while i < a.len()
        invariant
            a@.len() == b@.len(),
            i <= a@.len(),
            forall|k: int| 0 <= k < i ==> a@[k] == b@[k],
        decreases a@.len() - i,
    {
        if a[i] != b[i] {
            return false;
        }
        i += 1;
    }
    assert(a@ =~= b@);
    true
}

/// Unicode White_Space, as `char::is_whitespace` decides it.
pub open spec fn is_white(c: char) -> bool {
    let u = c as u32;
    (0x09 <= u && u <= 0x0D) || u == 0x20 || u == 0x85 || u == 0xA0 || u == 0x1680 || (0x2000
        <= u && u <= 0x200A) || u == 0x2028 || u == 0x2029 || u == 0x202F || u == 0x205F || u
        == 0x3000
}

pub fn is_whitespace(c: char) -> (r: bool)
    ensures
        r == is_white(c),
{
    let u = c as u32;
    (0x09 <= u && u <= 0x0D) || u == 0x20 || u == 0x85 || u == 0xA0 || u == 0x1680 || (0x2000
        <= u && u <= 0x200A) || u == 0x2028 || u == 0x2029 || u == 0x202F || u == 0x205F || u
        == 0x3000
}

/// Some character of `s` is not white space: `s.trim()` is not empty.
pub open spec fn has_content(s: Seq<char>) -> bool {
    exists|i: int| 0 <= i < s.len() && !is_white(s[i])
}

/// Whether `s` still holds something once trimmed.
pub fn not_blank(s: &str) -> (r: bool)
    ensures
        r == has_content(s@),
{
    let c = chars_of(s);
    let mut i: usize = 0;
    while i < c.len()
        invariant
            c@ == s@,
            i <= c@.len(),
            forall|k: int| 0 <= k < i ==> is_white(c@[k]),
        decreases c@.len() - i,
    {
        if !is_whitespace(c[i]) {
            return true;
        }
        i += 1;
    }
    false
}

/// Decimal text of a signed integer: a `-` before negative values.
pub open spec fn signed_decimal_spec(n: int) -> Seq<char> {
    if n < 0 {
        seq!['-'] + decimal_spec((-n) as nat)
    } else {
        decimal_spec(n as nat)
    }
}

/// The decimal text of `n`, as `i64`'s `Display` writes it.
pub fn signed_decimal(n: i64) -> (out: String)
    ensures
        out@ == signed_decimal_spec(n as int),
{
    if n < 0 {
        let magnitude: u64 = if n == i64::MIN {
            0x8000_0000_0000_0000
        } else {
            (-n) as u64
        };
        let digits = decimal(magnitude);
        let mut out = String::new();
        out.push('-');
        out.append(digits.as_str());
        assert(out@ =~= signed_decimal_spec(n as int));
        out
    } else {
        decimal(n as u64)
    }
}

} // verus!
