//! Token ranges over postings: string prefixes and range bounds.

use crate::text::prefixed;
use vstd::prelude::*;

verus! {

/// `char::from_u32` gives the character with that code point, or None for
/// surrogates and values above U+10FFFF.
pub assume_specification[ core::char::from_u32 ](i: u32) -> (r: Option<char>)
    ensures
        r is Some <==> (i <= 0x10FFFF && !(0xD800 <= i <= 0xDFFF)),
        r matches Some(c) ==> c as u32 == i,
;

/// Strict lexicographic order on character strings; on the UTF-8 encodings
/// it is the byte order SQLite compares text by.
pub open spec fn chars_lt(a: Seq<char>, b: Seq<char>) -> bool
    decreases a.len(),
{
    if a.len() == 0 {
        b.len() > 0
    } else if b.len() == 0 {
        false
    } else if a[0] != b[0] {
        (a[0] as u32) < (b[0] as u32)
    } else {
        chars_lt(a.drop_first(), b.drop_first())
    }
}

pub open spec fn starts_with(t: Seq<char>, p: Seq<char>) -> bool {
    p.len() <= t.len() && t.take(p.len() as int) == p
}

/// The code point after `c`, skipping the surrogate block.
pub open spec fn next_code(c: char) -> u32 {
    if c as u32 + 1 == 0xD800 {
        0xE000u32
    } else {
        (c as u32 + 1) as u32
    }
}

/// The character after `c`.
pub open spec fn next_char(c: char) -> char {
    next_code(c) as char
}

/// Drop trailing U+10FFFF, then step the last character up by one.
pub open spec fn prefix_end_spec(p: Seq<char>) -> Seq<char>
    decreases p.len(),
{
    if p.len() == 0 {
        p
    } else if p.last() as u32 == 0x10FFFF {
        prefix_end_spec(p.drop_last())
    } else {
        p.drop_last().push(next_char(p.last()))
    }
}

/// Some character of `p` is below U+10FFFF.
pub open spec fn can_follow(p: Seq<char>) -> bool {
    exists|i: int| 0 <= i < p.len() && (p[i] as u32) < 0x10FFFF
}

/// The smallest string greater than every string starting with `prefix`.
pub fn prefix_end(prefix: &str) -> (out: String)
    requires
        can_follow(prefix@),
    ensures
        out@ == prefix_end_spec(prefix@),
{
    let mut chars = crate::text::chars_of(prefix);
    let ghost p = prefix@;
    while chars.len() > 0
        invariant
            p == prefix@,
            p.len() >= chars@.len(),
            chars@ == p.take(chars@.len() as int),
            prefix_end_spec(p) == prefix_end_spec(chars@),
            can_follow(chars@),
        decreases chars@.len(),
    {
        let last = chars[chars.len() - 1];
        let ghost before = chars@;
        chars.pop();
        proof {
            vstd::utf8::char_is_scalar(last);
        }
        let mut next: u32 = last as u32;
        if next < 0x10FFFF {
            next = next + 1;
            if next == 0xD800 {
                next = 0xE000;
            }
            match core::char::from_u32(next) {
                Some(c) => {
                    proof {
                        vstd::utf8::char_u32_cast(c, next);
                    }
                    assert(next_code(last) == next);
                    assert(c == next_char(last));
                    assert(before.last() == last);
                    assert(prefix_end_spec(before) == before.drop_last().push(next_char(before.last())));
                    chars.push(c);
                    proof {
                        assert(chars@ =~= before.drop_last().push(next_char(before.last())));
                    }
                    return crate::text::string_of(chars.as_slice());
                },
                None => {
                    assert(false);
                },
            }
        }
        proof {
            assert(chars@ =~= before.drop_last());
            let i = choose|i: int| 0 <= i < before.len() && #[trigger] (before[i] as u32) < 0x10FFFF;
            assert(i < before.len() - 1);
            assert(chars@[i] == before[i]);
        }
    }
    assert(false);
    crate::text::string_of(chars.as_slice())
}

/// `s:` followed by `text`: the posting token of a string.
pub fn string_token(text: &str) -> (t: String)
    ensures
        t@ == seq!['s', ':'] + text@,
{
    prefixed('s', ':', text)
}

/// `a` sorts before `b` when it is a proper prefix of `b` or at the first
/// position where they differ it holds the smaller character.
pub open spec fn differs_below(a: Seq<char>, b: Seq<char>, k: int) -> bool {
    0 <= k < a.len() && k < b.len() && a.take(k) == b.take(k) && (a[k] as u32) < (b[k] as u32)
}

pub proof fn lemma_chars_lt(a: Seq<char>, b: Seq<char>)
    ensures
        chars_lt(a, b) <==> ((a.len() < b.len() && b.take(a.len() as int) == a) || exists|k: int|
            differs_below(a, b, k)),
    decreases a.len(),
{
    if a.len() == 0 {
        assert(b.take(0) =~= a);
    } else if b.len() == 0 {
    } else if a[0] != b[0] {
        if (a[0] as u32) < (b[0] as u32) {
            assert(a.take(0) =~= b.take(0));
            assert(differs_below(a, b, 0));
        }
        if exists|k: int| differs_below(a, b, k) {
            let k = choose|k: int| differs_below(a, b, k);
            if k > 0 {
                assert(a.take(k)[0] == b.take(k)[0]);
            }
        }
        if a.len() < b.len() && b.take(a.len() as int) == a {
            assert(b.take(a.len() as int)[0] == b[0]);
        }
    } else {
        let a1 = a.drop_first();
        let b1 = b.drop_first();
        lemma_chars_lt(a1, b1);
        if exists|k: int| differs_below(a1, b1, k) {
            let k = choose|k: int| differs_below(a1, b1, k);
            assert(a.take(k + 1) =~= seq![a[0]] + a1.take(k));
            assert(b.take(k + 1) =~= seq![b[0]] + b1.take(k));
            assert(differs_below(a, b, k + 1));
        }
        if exists|k: int| differs_below(a, b, k) {
            let k = choose|k: int| differs_below(a, b, k);
            assert(k > 0) by {
                if k == 0 {
                    assert(a[0] == b[0]);
                }
            }
            assert(a1.take(k - 1) =~= a.take(k).drop_first());
            assert(b1.take(k - 1) =~= b.take(k).drop_first());
            assert(differs_below(a1, b1, k - 1));
        }
        if a.len() < b.len() && b.take(a.len() as int) == a {
            assert(b1.take(a1.len() as int) =~= b.take(a.len() as int).drop_first());
        }
        if a1.len() < b1.len() && b1.take(a1.len() as int) == a1 {
            assert(b.take(a.len() as int) =~= seq![b[0]] + b1.take(a1.len() as int));
            assert(a =~= seq![a[0]] + a1);
        }
    }
}

/// Where `prefix_end` steps up: every later character is U+10FFFF.
pub proof fn lemma_prefix_end_shape(p: Seq<char>)
    requires
        can_follow(p),
    ensures
        exists|k: int|
            0 <= k < p.len() && (p[k] as u32) < 0x10FFFF && prefix_end_spec(p) == p.take(k).push(
                next_char(p[k]),
            ) && forall|j: int| k < j < p.len() ==> #[trigger] (p[j] as u32) == 0x10FFFF,
    decreases p.len(),
{
    let q = p.drop_last();
    if p.last() as u32 == 0x10FFFF {
        let i = choose|i: int| 0 <= i < p.len() && (p[i] as u32) < 0x10FFFF;
        assert(i < p.len() - 1);
        assert(q[i] == p[i]);
        lemma_prefix_end_shape(q);
        let k = choose|k: int|
            0 <= k < q.len() && (q[k] as u32) < 0x10FFFF && prefix_end_spec(q) == q.take(k).push(
                next_char(q[k]),
            ) && forall|j: int| k < j < q.len() ==> #[trigger] (q[j] as u32) == 0x10FFFF;
        assert(q.take(k) =~= p.take(k));
        assert(q[k] == p[k]);
        assert forall|j: int| k < j < p.len() implies #[trigger] (p[j] as u32) == 0x10FFFF by {
            if j < p.len() - 1 {
                assert(q[j] == p[j]);
            }
        }
    } else {
        let k = p.len() - 1;
        assert(q =~= p.take(k));
        vstd::utf8::char_is_scalar(p[k]);
    }
}

/// The strings at or above `p` and below `prefix_end(p)` are exactly the
/// strings that start with `p`.
pub proof fn law_prefix_end(p: Seq<char>, t: Seq<char>)
    requires
        can_follow(p),
    ensures
        starts_with(t, p) <==> (!chars_lt(t, p) && chars_lt(t, prefix_end_spec(p))),
{
    let e = prefix_end_spec(p);
    lemma_prefix_end_shape(p);
    let k = choose|k: int|
        0 <= k < p.len() && (p[k] as u32) < 0x10FFFF && e == p.take(k).push(next_char(p[k]))
            && forall|j: int| k < j < p.len() ==> #[trigger] (p[j] as u32) == 0x10FFFF;
    vstd::utf8::char_is_scalar(p[k]);
    let n = next_code(p[k]);
    vstd::utf8::char_is_scalar(next_char(p[k]));
    assert(next_char(p[k]) as u32 == n) by {
        vstd::utf8::char_u32_cast(next_char(p[k]), n);
    }
    lemma_chars_lt(t, p);
    lemma_chars_lt(t, e);
    lemma_chars_lt(p, t);
    assert(e.len() == k + 1);
    assert(e.take(k) =~= p.take(k));
    if starts_with(t, p) {
        assert(t.take(k) =~= p.take(k));
        assert(t[k] == t.take(p.len() as int)[k]);
        assert(differs_below(t, e, k));
        if exists|j: int| differs_below(t, p, j) {
            let j = choose|j: int| differs_below(t, p, j);
            assert(t[j] == t.take(p.len() as int)[j]);
        }
        assert(chars_lt(t, e));
        assert(!chars_lt(t, p));
    }
    if !chars_lt(t, p) && chars_lt(t, e) {
        let m = if t.len() < p.len() {
            t.len() as int
        } else {
            p.len() as int
        };
        if t.take(m) == p.take(m) {
            if t.len() < p.len() {
                assert(p.take(t.len() as int) =~= t);
            } else {
                assert(p.take(p.len() as int) =~= p);
            }
            assert(starts_with(t, p));
        } else {
            lemma_first_diff(t, p, m);
            let j = choose|j: int| 0 <= j < m && t.take(j) == p.take(j) && t[j] != p[j];
            vstd::utf8::char_is_scalar(t[j]);
            if (t[j] as u32) < (p[j] as u32) {
                assert(differs_below(t, p, j));
            } else {
                assert((t[j] as u32) > (p[j] as u32)) by {
                    if (t[j] as u32) == (p[j] as u32) {
                        vstd::utf8::char_u32_cast(t[j], t[j] as u32);
                        vstd::utf8::char_u32_cast(p[j], p[j] as u32);
                    }
                }
                if j > k {
                    assert((p[j] as u32) == 0x10FFFF);
                } else if j < k {
                    assert(e[j] == p[j]) by {
                        assert(e.take(k)[j] == p.take(k)[j]);
                    }
                    assert(t.take(j) =~= e.take(j)) by {
                        assert forall|x: int| 0 <= x < j implies t.take(j)[x] == e.take(j)[x] by {
                            assert(t.take(j)[x] == p.take(j)[x]);
                            assert(e.take(k)[x] == p.take(k)[x]);
                        }
                    }
                    if t.len() < e.len() && e.take(t.len() as int) == t {
                        assert(e.take(t.len() as int)[j] == e[j]);
                    } else {
                        let i = choose|i: int| differs_below(t, e, i);
                        if i < j {
                            assert(t.take(j)[i] == p.take(j)[i]);
                            assert(e.take(k)[i] == p.take(k)[i]);
                        } else if i > j {
                            assert(t.take(i)[j] == e.take(i)[j]);
                        }
                    }
                } else {
                    assert(j == k);
                    assert((t[k] as u32) >= n);
                    assert(t.take(k) =~= e.take(k)) by {
                        assert forall|x: int| 0 <= x < k implies t.take(k)[x] == e.take(k)[x] by {
                            assert(t.take(k)[x] == p.take(k)[x]);
                            assert(e.take(k)[x] == p.take(k)[x]);
                        }
                    }
                    if t.len() < e.len() && e.take(t.len() as int) == t {
                    } else {
                        let i = choose|i: int| differs_below(t, e, i);
                        if i < k {
                            assert(t.take(k)[i] == e.take(k)[i]);
                            assert(t.take(i + 1)[i] == t[i]);
                        }
                    }
                }
            }
        }
    }
}

/// Two sequences that differ within their first `m` items differ first at
/// some position.
pub proof fn lemma_first_diff(a: Seq<char>, b: Seq<char>, m: int)
    requires
        0 <= m <= a.len(),
        m <= b.len(),
        a.take(m) != b.take(m),
    ensures
        exists|j: int| 0 <= j < m && a.take(j) == b.take(j) && a[j] != b[j],
    decreases m,
{
    assert(m > 0) by {
        if m == 0 {
            assert(a.take(0) =~= b.take(0));
        }
    }
    if a.take(m - 1) == b.take(m - 1) {
        assert(a[m - 1] != b[m - 1]) by {
            if a[m - 1] == b[m - 1] {
                assert(a.take(m) =~= a.take(m - 1).push(a[m - 1]));
                assert(b.take(m) =~= b.take(m - 1).push(b[m - 1]));
            }
        }
    } else {
        lemma_first_diff(a, b, m - 1);
    }
}

} // verus!
