//! Number keys sort as the numbers they stand for. A key keeps the sign, the
//! magnitude and every significant digit of its number, so two literals
//! share a key exactly when they write the same number, and keys compare as
//! their numbers compare.

use crate::index::value::{
    ascii_bytes, be8, complement, decimal_key, exponent_value, leading_zeros, magnitude,
    mantissa_digits, number_key_spec, sign_bit, significand, trim_trailing_zeros, zero_key,
};
use crate::json::{all_digits, first_of, is_digit, is_negative_literal, lemma_first_of, mantissa_part, valid_number};
use crate::text::bytes_lt;
use vstd::prelude::*;

verus! {

/// `bytes_lt` over one leading byte each.
pub proof fn lemma_lt_cons(x: u8, a: Seq<u8>, y: u8, b: Seq<u8>)
    ensures
        bytes_lt(seq![x] + a, seq![y] + b) == (if x != y {
            x < y
        } else {
            bytes_lt(a, b)
        }),
{
    assert((seq![x] + a).drop_first() =~= a);
    assert((seq![y] + b).drop_first() =~= b);
}

/// `bytes_lt` over prefixes of one length: the prefixes decide unless they
/// are equal.
pub proof fn lemma_lt_concat(p: Seq<u8>, a: Seq<u8>, q: Seq<u8>, b: Seq<u8>)
    requires
        p.len() == q.len(),
    ensures
        bytes_lt(p + a, q + b) == (if p != q {
            bytes_lt(p, q)
        } else {
            bytes_lt(a, b)
        }),
    decreases p.len(),
{
    if p.len() == 0 {
        assert(p + a =~= a);
        assert(q + b =~= b);
        assert(p =~= q);
    } else {
        lemma_lt_concat(p.drop_first(), a, q.drop_first(), b);
        assert((p + a).drop_first() =~= p.drop_first() + a);
        assert((q + b).drop_first() =~= q.drop_first() + b);
        assert((p + a)[0] == p[0]);
        assert((q + b)[0] == q[0]);
        if p[0] == q[0] && p.drop_first() == q.drop_first() {
            assert forall|i: int| 0 <= i < p.len() implies p[i] == q[i] by {
                if i > 0 {
                    assert(p[i] == p.drop_first()[i - 1]);
                    assert(q[i] == q.drop_first()[i - 1]);
                }
            }
            assert(p =~= q);
        }
    }
}

/// Byte `k` (0 the most significant) of a u64.
pub open spec fn byte_of(u: u64, k: u64) -> u8 {
    (u >> (56u64 - 8u64 * k)) as u8
}

/// The lexicographic order of the big-endian bytes of two u64s.
pub open spec fn lex8(u: u64, v: u64) -> bool {
    if byte_of(u, 0) != byte_of(v, 0) {
        byte_of(u, 0) < byte_of(v, 0)
    } else if byte_of(u, 1) != byte_of(v, 1) {
        byte_of(u, 1) < byte_of(v, 1)
    } else if byte_of(u, 2) != byte_of(v, 2) {
        byte_of(u, 2) < byte_of(v, 2)
    } else if byte_of(u, 3) != byte_of(v, 3) {
        byte_of(u, 3) < byte_of(v, 3)
    } else if byte_of(u, 4) != byte_of(v, 4) {
        byte_of(u, 4) < byte_of(v, 4)
    } else if byte_of(u, 5) != byte_of(v, 5) {
        byte_of(u, 5) < byte_of(v, 5)
    } else if byte_of(u, 6) != byte_of(v, 6) {
        byte_of(u, 6) < byte_of(v, 6)
    } else {
        byte_of(u, 7) < byte_of(v, 7)
    }
}

proof fn lemma_lex8(u: u64, v: u64)
    ensures
        lex8(u, v) == (u < v),
        (byte_of(u, 0) == byte_of(v, 0) && byte_of(u, 1) == byte_of(v, 1) && byte_of(u, 2)
            == byte_of(v, 2) && byte_of(u, 3) == byte_of(v, 3) && byte_of(u, 4) == byte_of(v, 4)
            && byte_of(u, 5) == byte_of(v, 5) && byte_of(u, 6) == byte_of(v, 6) && byte_of(u, 7)
            == byte_of(v, 7)) == (u == v),
{
    assert(lex8(u, v) == (u < v)) by (bit_vector);
    assert((byte_of(u, 0) == byte_of(v, 0) && byte_of(u, 1) == byte_of(v, 1) && byte_of(u, 2)
        == byte_of(v, 2) && byte_of(u, 3) == byte_of(v, 3) && byte_of(u, 4) == byte_of(v, 4)
        && byte_of(u, 5) == byte_of(v, 5) && byte_of(u, 6) == byte_of(v, 6) && byte_of(u, 7)
        == byte_of(v, 7)) == (u == v)) by (bit_vector);
}

proof fn lemma_be8_bytes(u: u64)
    ensures
        be8(u).len() == 8,
        be8(u)[0] == byte_of(u, 0),
        be8(u)[1] == byte_of(u, 1),
        be8(u)[2] == byte_of(u, 2),
        be8(u)[3] == byte_of(u, 3),
        be8(u)[4] == byte_of(u, 4),
        be8(u)[5] == byte_of(u, 5),
        be8(u)[6] == byte_of(u, 6),
        be8(u)[7] == byte_of(u, 7),
{
    assert(byte_of(u, 7) == u as u8) by (bit_vector);
}

/// Big-endian bytes compare as the numbers do.
pub proof fn lemma_be8_order(u: u64, v: u64)
    ensures
        (be8(u) == be8(v)) == (u == v),
        bytes_lt(be8(u), be8(v)) == (u < v),
{
    lemma_be8_bytes(u);
    lemma_be8_bytes(v);
    lemma_lex8(u, v);
    let a = be8(u);
    let b = be8(v);
    if a == b {
        assert(a[0] == b[0] && a[1] == b[1] && a[2] == b[2] && a[3] == b[3]);
        assert(a[4] == b[4] && a[5] == b[5] && a[6] == b[6] && a[7] == b[7]);
    }
    if u == v {
        assert(a =~= b);
    }
    // peel the bytes one at a time
    assert(a =~= seq![a[0]] + a.drop_first());
    assert(b =~= seq![b[0]] + b.drop_first());
    lemma_lt_cons(a[0], a.drop_first(), b[0], b.drop_first());
    let a1 = a.drop_first();
    let b1 = b.drop_first();
    assert(a1 =~= seq![a[1]] + a1.drop_first());
    assert(b1 =~= seq![b[1]] + b1.drop_first());
    lemma_lt_cons(a[1], a1.drop_first(), b[1], b1.drop_first());
    let a2 = a1.drop_first();
    let b2 = b1.drop_first();
    assert(a2 =~= seq![a[2]] + a2.drop_first());
    assert(b2 =~= seq![b[2]] + b2.drop_first());
    lemma_lt_cons(a[2], a2.drop_first(), b[2], b2.drop_first());
    let a3 = a2.drop_first();
    let b3 = b2.drop_first();
    assert(a3 =~= seq![a[3]] + a3.drop_first());
    assert(b3 =~= seq![b[3]] + b3.drop_first());
    lemma_lt_cons(a[3], a3.drop_first(), b[3], b3.drop_first());
    let a4 = a3.drop_first();
    let b4 = b3.drop_first();
    assert(a4 =~= seq![a[4]] + a4.drop_first());
    assert(b4 =~= seq![b[4]] + b4.drop_first());
    lemma_lt_cons(a[4], a4.drop_first(), b[4], b4.drop_first());
    let a5 = a4.drop_first();
    let b5 = b4.drop_first();
    assert(a5 =~= seq![a[5]] + a5.drop_first());
    assert(b5 =~= seq![b[5]] + b5.drop_first());
    lemma_lt_cons(a[5], a5.drop_first(), b[5], b5.drop_first());
    let a6 = a5.drop_first();
    let b6 = b5.drop_first();
    assert(a6 =~= seq![a[6]] + a6.drop_first());
    assert(b6 =~= seq![b[6]] + b6.drop_first());
    lemma_lt_cons(a[6], a6.drop_first(), b[6], b6.drop_first());
    let a7 = a6.drop_first();
    let b7 = b6.drop_first();
    assert(a7 =~= seq![a[7]] + a7.drop_first());
    assert(b7 =~= seq![b[7]] + b7.drop_first());
    lemma_lt_cons(a[7], a7.drop_first(), b[7], b7.drop_first());
    assert(a7.drop_first().len() == 0 && b7.drop_first().len() == 0);
}

/// Flipping the sign bit orders two's complement magnitudes as unsigned
/// numbers.
pub proof fn lemma_biased(m1: i64, m2: i64)
    ensures
        (((m1 as u64) ^ sign_bit()) < ((m2 as u64) ^ sign_bit())) == (m1 < m2),
        (((m1 as u64) ^ sign_bit()) == ((m2 as u64) ^ sign_bit())) == (m1 == m2),
{
    assert((((m1 as u64) ^ 0x8000_0000_0000_0000u64) < ((m2 as u64) ^ 0x8000_0000_0000_0000u64))
        == (m1 < m2)) by (bit_vector);
    assert((((m1 as u64) ^ 0x8000_0000_0000_0000u64) == ((m2 as u64) ^ 0x8000_0000_0000_0000u64))
        == (m1 == m2)) by (bit_vector);
}

/// The complement of big-endian bytes is the big-endian bytes of the
/// complement.
pub proof fn lemma_complement_be8(u: u64)
    ensures
        complement(be8(u)) == be8(!u),
{
    lemma_be8_bytes(u);
    lemma_be8_bytes(!u);
    assert(!byte_of(u, 0) == byte_of(!u, 0)) by (bit_vector);
    assert(!byte_of(u, 1) == byte_of(!u, 1)) by (bit_vector);
    assert(!byte_of(u, 2) == byte_of(!u, 2)) by (bit_vector);
    assert(!byte_of(u, 3) == byte_of(!u, 3)) by (bit_vector);
    assert(!byte_of(u, 4) == byte_of(!u, 4)) by (bit_vector);
    assert(!byte_of(u, 5) == byte_of(!u, 5)) by (bit_vector);
    assert(!byte_of(u, 6) == byte_of(!u, 6)) by (bit_vector);
    assert(!byte_of(u, 7) == byte_of(!u, 7)) by (bit_vector);
    assert(complement(be8(u)) =~= be8(!u));
}

/// The complement of a concatenation.
pub proof fn lemma_complement_concat(a: Seq<u8>, b: Seq<u8>)
    ensures
        complement(a + b) == complement(a) + complement(b),
{
    assert(complement(a + b) =~= complement(a) + complement(b));
}

/// Complementing bytes reverses their order.
pub proof fn lemma_not_order(x: u8, y: u8)
    ensures
        (!x == !y) == (x == y),
        (!x < !y) == (y < x),
{
    assert((!x == !y) == (x == y)) by (bit_vector);
    assert((!x < !y) == (y < x)) by (bit_vector);
}

/// The digits of a fraction `0.a` compared with those of `0.b`: digit by
/// digit, and a proper prefix first (its missing digits are zeros, and the
/// longer one's extra digits end in a nonzero digit).
pub open spec fn fraction_less(a: Seq<char>, b: Seq<char>) -> bool
    decreases a.len(),
{
    if a.len() == 0 {
        b.len() > 0
    } else if b.len() == 0 {
        false
    } else if a[0] != b[0] {
        (a[0] as u32) < (b[0] as u32)
    } else {
        fraction_less(a.drop_first(), b.drop_first())
    }
}

/// The digits of a key and its terminator.
pub open spec fn digit_bytes(a: Seq<char>) -> Seq<u8> {
    ascii_bytes(a) + seq![0u8]
}

proof fn lemma_digit_bytes_first(a: Seq<char>)
    requires
        a.len() > 0,
        all_digits(a),
    ensures
        digit_bytes(a) == seq![(a[0] as u32) as u8] + digit_bytes(a.drop_first()),
        48 <= (a[0] as u32) as u8 <= 57,
        all_digits(a.drop_first()),
{
    assert(is_digit(a[0]));
    assert(digit_bytes(a) =~= seq![(a[0] as u32) as u8] + digit_bytes(a.drop_first()));
    assert forall|i: int| 0 <= i < a.drop_first().len() implies is_digit(#[trigger] a.drop_first()[i]) by {
        assert(a.drop_first()[i] == a[i + 1]);
        assert(is_digit(a[i + 1]));
    }
}

/// Digit bytes with their terminator compare as the fractions do, and are
/// equal only for equal digits.
pub proof fn lemma_digit_order(a: Seq<char>, b: Seq<char>)
    requires
        all_digits(a),
        all_digits(b),
    ensures
        (digit_bytes(a) == digit_bytes(b)) == (a == b),
        bytes_lt(digit_bytes(a), digit_bytes(b)) == fraction_less(a, b),
        bytes_lt(complement(digit_bytes(a)), complement(digit_bytes(b))) == fraction_less(b, a),
    decreases a.len(),
{
    let da = digit_bytes(a);
    let db = digit_bytes(b);
    if a.len() == 0 && b.len() == 0 {
        assert(a =~= b);
        assert(da =~= seq![0u8]);
        assert(db =~= seq![0u8]);
        assert(!0u8 == 255u8) by (bit_vector);
        assert(complement(da) =~= seq![255u8]);
        assert(complement(db) =~= seq![255u8]);
        lemma_lt_cons(0u8, Seq::empty(), 0u8, Seq::empty());
        lemma_lt_cons(255u8, Seq::empty(), 255u8, Seq::empty());
    } else if a.len() == 0 {
        lemma_digit_bytes_first(b);
        let y = (b[0] as u32) as u8;
        assert(da =~= seq![0u8] + Seq::<u8>::empty());
        lemma_lt_cons(0u8, Seq::empty(), y, digit_bytes(b.drop_first()));
        lemma_complement_concat(seq![y], digit_bytes(b.drop_first()));
        assert(!0u8 == 255u8) by (bit_vector);
        assert(complement(da) =~= seq![255u8] + Seq::<u8>::empty());
        assert(complement(seq![y]) =~= seq![!y]);
        assert((!y) < 255u8) by (bit_vector)
            requires
                48 <= y <= 57,
        ;
        lemma_lt_cons(255u8, Seq::empty(), !y, complement(digit_bytes(b.drop_first())));
        assert(da.len() != db.len());
    } else if b.len() == 0 {
        lemma_digit_bytes_first(a);
        let x = (a[0] as u32) as u8;
        assert(db =~= seq![0u8] + Seq::<u8>::empty());
        lemma_lt_cons(x, digit_bytes(a.drop_first()), 0u8, Seq::empty());
        lemma_complement_concat(seq![x], digit_bytes(a.drop_first()));
        assert(!0u8 == 255u8) by (bit_vector);
        assert(complement(db) =~= seq![255u8] + Seq::<u8>::empty());
        assert(complement(seq![x]) =~= seq![!x]);
        assert((!x) < 255u8) by (bit_vector)
            requires
                48 <= x <= 57,
        ;
        lemma_lt_cons(!x, complement(digit_bytes(a.drop_first())), 255u8, Seq::empty());
        assert(da.len() != db.len());
    } else {
        lemma_digit_bytes_first(a);
        lemma_digit_bytes_first(b);
        let x = (a[0] as u32) as u8;
        let y = (b[0] as u32) as u8;
        assert(is_digit(a[0]) && is_digit(b[0]));
        assert((x == y) == (a[0] == b[0]));
        assert((x < y) == ((a[0] as u32) < (b[0] as u32)));
        lemma_digit_order(a.drop_first(), b.drop_first());
        lemma_lt_cons(x, digit_bytes(a.drop_first()), y, digit_bytes(b.drop_first()));
        lemma_complement_concat(seq![x], digit_bytes(a.drop_first()));
        lemma_complement_concat(seq![y], digit_bytes(b.drop_first()));
        assert(complement(seq![x]) =~= seq![!x]);
        assert(complement(seq![y]) =~= seq![!y]);
        lemma_not_order(x, y);
        lemma_lt_cons(!x, complement(digit_bytes(a.drop_first())), !y, complement(digit_bytes(b.drop_first())));
        if a == b {
            assert(a.drop_first() == b.drop_first());
        }
        if da == db {
            assert(da[0] == db[0]);
            assert(da.drop_first() == db.drop_first());
            assert((seq![x] + digit_bytes(a.drop_first())).drop_first() =~= digit_bytes(a.drop_first()));
            assert((seq![y] + digit_bytes(b.drop_first())).drop_first() =~= digit_bytes(b.drop_first()));
            assert(digit_bytes(a.drop_first()) == digit_bytes(b.drop_first()));
            assert forall|i: int| 0 <= i < a.len() implies a[i] == b[i] by {
                if i > 0 {
                    assert(a[i] == a.drop_first()[i - 1]);
                    assert(b[i] == b.drop_first()[i - 1]);
                }
            }
            assert(a =~= b);
        }
    }
}

proof fn lemma_leading_zeros_le(d: Seq<char>)
    ensures
        0 <= leading_zeros(d) <= d.len(),
    decreases d.len(),
{
    if d.len() > 0 && d[0] == '0' {
        lemma_leading_zeros_le(d.drop_first());
    }
}

proof fn lemma_trim_prefix(d: Seq<char>)
    ensures
        trim_trailing_zeros(d).len() <= d.len(),
        forall|i: int| 0 <= i < trim_trailing_zeros(d).len() ==> trim_trailing_zeros(d)[i] == d[i],
    decreases d.len(),
{
    if d.len() > 0 && d.last() == '0' {
        lemma_trim_prefix(d.drop_last());
        assert forall|i: int| 0 <= i < trim_trailing_zeros(d).len() implies trim_trailing_zeros(d)[i] == d[i] by {
            assert(trim_trailing_zeros(d) == trim_trailing_zeros(d.drop_last()));
            assert(d.drop_last()[i] == d[i]);
        }
    }
}

/// The significant digits of a valid literal are decimal digits.
pub proof fn lemma_significand_digits(s: Seq<char>)
    requires
        valid_number(s),
    ensures
        all_digits(significand(s)),
{
    let m = mantissa_part(s);
    let d = first_of(m, '.', '.');
    lemma_first_of(m, '.', '.');
    let md = mantissa_digits(s);
    if d < m.len() {
        assert forall|i: int| 0 <= i < md.len() implies is_digit(#[trigger] md[i]) by {
            if i < d {
                assert(md[i] == m.take(d)[i]);
            } else {
                assert(md[i] == m.skip(d + 1)[i - d]);
            }
        }
    } else {
        assert(m.take(d) =~= m);
    }
    lemma_leading_zeros_le(md);
    let k = leading_zeros(md);
    let rest = md.skip(k);
    assert forall|i: int| 0 <= i < rest.len() implies is_digit(#[trigger] rest[i]) by {
        assert(rest[i] == md[i + k]);
    }
    lemma_trim_prefix(rest);
    let sig = trim_trailing_zeros(rest);
    assert forall|i: int| 0 <= i < sig.len() implies is_digit(#[trigger] sig[i]) by {
        assert(sig[i] == rest[i]);
    }
}

/// A number's normal form: its sign, its magnitude and its significant
/// digits, the value being ±0.digits × 10^magnitude; None for zero.
pub open spec fn normal_form(s: Seq<char>) -> Option<(bool, int, Seq<char>)> {
    if significand(s).len() == 0 {
        None
    } else {
        Some((is_negative_literal(s), magnitude(s, exponent_value(s)->0), significand(s)))
    }
}

/// Whether the number written `s` is below the number written `t`: negative
/// below zero below positive; positive numbers by magnitude, then digits;
/// negative numbers the other way round.
pub open spec fn number_less(s: Seq<char>, t: Seq<char>) -> bool {
    match (normal_form(s), normal_form(t)) {
        (None, None) => false,
        (None, Some(y)) => !y.0,
        (Some(x), None) => x.0,
        (Some(x), Some(y)) => if x.0 != y.0 {
            x.0
        } else if !x.0 {
            x.1 < y.1 || (x.1 == y.1 && fraction_less(x.2, y.2))
        } else {
            y.1 < x.1 || (x.1 == y.1 && fraction_less(y.2, x.2))
        },
    }
}

/// Equal-length prefixes: a concatenation is equal only part by part.
proof fn lemma_concat_eq(p: Seq<u8>, a: Seq<u8>, q: Seq<u8>, b: Seq<u8>)
    requires
        p.len() == q.len(),
    ensures
        (p + a == q + b) == (p == q && a == b),
{
    if p + a == q + b {
        assert(p =~= (p + a).take(p.len() as int));
        assert(q =~= (q + b).take(q.len() as int));
        assert(a =~= (p + a).skip(p.len() as int));
        assert(b =~= (q + b).skip(q.len() as int));
    }
}

proof fn lemma_complement_injective(a: Seq<u8>, b: Seq<u8>)
    ensures
        (complement(a) == complement(b)) == (a == b),
{
    if complement(a) == complement(b) {
        assert(a.len() == complement(a).len());
        assert(b.len() == complement(b).len());
        assert forall|i: int| 0 <= i < a.len() implies a[i] == b[i] by {
            assert(complement(a)[i] == !a[i]);
            assert(complement(b)[i] == !b[i]);
            lemma_not_order(a[i], b[i]);
        }
        assert(a =~= b);
    }
}

/// The key of a nonzero number, split at its sign byte.
proof fn lemma_key_parts(negative: bool, m: i64, sig: Seq<char>)
    ensures
        decimal_key(negative, m, sig) == (if negative {
            seq![0u8] + (be8(!((m as u64) ^ sign_bit())) + complement(digit_bytes(sig)))
        } else {
            seq![2u8] + (be8((m as u64) ^ sign_bit()) + digit_bytes(sig))
        }),
{
    let u = (m as u64) ^ sign_bit();
    let body = be8(u) + ascii_bytes(sig) + seq![0u8];
    assert(body =~= be8(u) + digit_bytes(sig));
    lemma_complement_concat(be8(u), digit_bytes(sig));
    lemma_complement_be8(u);
}

/// Keys of valid literals: equal exactly when the normal forms are, and
/// ordered as the numbers are.
pub proof fn law_number_keys(s: Seq<char>, t: Seq<char>)
    requires
        valid_number(s),
        valid_number(t),
        number_key_spec(s) is Ok,
        number_key_spec(t) is Ok,
    ensures
        (number_key_spec(s) == number_key_spec(t)) == (normal_form(s) == normal_form(t)),
        bytes_lt(number_key_spec(s)->Ok_0, number_key_spec(t)->Ok_0) == number_less(s, t),
{
    lemma_significand_digits(s);
    lemma_significand_digits(t);
    let ks = number_key_spec(s)->Ok_0;
    let kt = number_key_spec(t)->Ok_0;
    let ss = significand(s);
    let st = significand(t);
    let ns = is_negative_literal(s);
    let nt = is_negative_literal(t);
    let ms = magnitude(s, exponent_value(s)->0);
    let mt = magnitude(t, exponent_value(t)->0);
    if ss.len() == 0 && st.len() == 0 {
        assert(ks =~= seq![1u8]);
        assert(kt =~= seq![1u8]);
        lemma_lt_cons(1u8, Seq::empty(), 1u8, Seq::empty());
        assert(seq![1u8] =~= seq![1u8] + Seq::<u8>::empty());
    } else if ss.len() == 0 {
        lemma_key_parts(nt, mt as i64, st);
        assert(ks =~= seq![1u8] + Seq::<u8>::empty());
        if nt {
            lemma_lt_cons(1u8, Seq::empty(), 0u8, be8(!((mt as i64 as u64) ^ sign_bit())) + complement(digit_bytes(st)));
        } else {
            lemma_lt_cons(1u8, Seq::empty(), 2u8, be8((mt as i64 as u64) ^ sign_bit()) + digit_bytes(st));
        }
        assert(ks[0] != kt[0]);
    } else if st.len() == 0 {
        lemma_key_parts(ns, ms as i64, ss);
        assert(kt =~= seq![1u8] + Seq::<u8>::empty());
        if ns {
            lemma_lt_cons(0u8, be8(!((ms as i64 as u64) ^ sign_bit())) + complement(digit_bytes(ss)), 1u8, Seq::empty());
        } else {
            lemma_lt_cons(2u8, be8((ms as i64 as u64) ^ sign_bit()) + digit_bytes(ss), 1u8, Seq::empty());
        }
        assert(ks[0] != kt[0]);
    } else {
        let ms64 = ms as i64;
        let mt64 = mt as i64;
        assert(ms64 as int == ms);
        assert(mt64 as int == mt);
        lemma_key_parts(ns, ms64, ss);
        lemma_key_parts(nt, mt64, st);
        let us = (ms64 as u64) ^ sign_bit();
        let ut = (mt64 as u64) ^ sign_bit();
        lemma_biased(ms64, mt64);
        lemma_digit_order(ss, st);
        if ns != nt {
            assert(ks[0] != kt[0]);
            if ns {
                lemma_lt_cons(0u8, be8(!us) + complement(digit_bytes(ss)), 2u8, be8(ut) + digit_bytes(st));
            } else {
                lemma_lt_cons(2u8, be8(us) + digit_bytes(ss), 0u8, be8(!ut) + complement(digit_bytes(st)));
            }
        } else if !ns {
            lemma_lt_cons(2u8, be8(us) + digit_bytes(ss), 2u8, be8(ut) + digit_bytes(st));
            lemma_lt_concat(be8(us), digit_bytes(ss), be8(ut), digit_bytes(st));
            lemma_be8_order(us, ut);
            lemma_concat_eq(be8(us), digit_bytes(ss), be8(ut), digit_bytes(st));
            lemma_concat_eq(seq![2u8], be8(us) + digit_bytes(ss), seq![2u8], be8(ut) + digit_bytes(st));
        } else {
            lemma_lt_cons(0u8, be8(!us) + complement(digit_bytes(ss)), 0u8, be8(!ut) + complement(digit_bytes(st)));
            lemma_lt_concat(be8(!us), complement(digit_bytes(ss)), be8(!ut), complement(digit_bytes(st)));
            lemma_be8_order(!us, !ut);
            assert((!us < !ut) == (ut < us)) by (bit_vector);
            assert((!us == !ut) == (us == ut)) by (bit_vector);
            lemma_concat_eq(be8(!us), complement(digit_bytes(ss)), be8(!ut), complement(digit_bytes(st)));
            lemma_concat_eq(seq![0u8], be8(!us) + complement(digit_bytes(ss)), seq![0u8], be8(!ut) + complement(digit_bytes(st)));
            lemma_complement_injective(digit_bytes(ss), digit_bytes(st));
        }
    }
}

} // verus!
