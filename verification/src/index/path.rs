//! Fields are JSON Pointers into attrs, plus `@type`. A segment `*` means any
//! array index; an object key that is literally `*` is written `~2`.

use crate::error::Error;
use crate::text::{chars_of, string_of};
use vstd::prelude::*;

verus! {

pub open spec fn type_field() -> Seq<char> {
    seq!['@', 't', 'y', 'p', 'e']
}

/// The `@type` field name.
pub fn type_field_string() -> (s: String)
    ensures
        s@ == type_field(),
{
    let v: Vec<char> = vec!['@', 't', 'y', 'p', 'e'];
    proof {
        assert(v@ =~= type_field());
    }
    string_of(v.as_slice())
}

/// Position `i` starts a segment (it is 0 or follows a `/`).
pub open spec fn segment_start(f: Seq<char>, i: int) -> bool {
    i == 0 || f[i - 1] == '/'
}

/// Position `i` ends a segment (it is the end or holds a `/`).
pub open spec fn segment_end(f: Seq<char>, i: int) -> bool {
    i == f.len() || f[i] == '/'
}

/// A `~` at `i` that is not followed by `0`, `1` or `2`.
pub open spec fn bad_escape_at(f: Seq<char>, i: int) -> bool {
    &&& 0 <= i < f.len()
    &&& f[i] == '~'
    &&& !(i + 1 < f.len() && (f[i + 1] == '0' || f[i + 1] == '1' || f[i + 1] == '2'))
}

/// A `~2` at `i` that is not a whole segment.
pub open spec fn partial_tilde_two_at(f: Seq<char>, i: int) -> bool {
    &&& 0 <= i && i + 1 < f.len()
    &&& f[i] == '~'
    &&& f[i + 1] == '2'
    &&& !(segment_start(f, i) && segment_end(f, i + 2))
}

pub open spec fn escapes_ok(f: Seq<char>) -> bool {
    forall|i: int| 0 <= i < f.len() ==> !bad_escape_at(f, i) && !partial_tilde_two_at(f, i)
}

/// `field` is `@type`, or a JSON Pointer (empty or starting with `/`) whose
/// escapes are `~0`, `~1` or a whole-segment `~2`.
pub open spec fn field_ok(f: Seq<char>) -> bool {
    f == type_field() || ((f.len() == 0 || f[0] == '/') && escapes_ok(f))
}

/// The first escape fault at or after position `i`, scanning left to right.
pub open spec fn escape_fault_from(f: Seq<char>, i: int) -> Option<Error>
    decreases f.len() - i,
{
    if i < 0 || i >= f.len() {
        None
    } else if bad_escape_at(f, i) {
        Some(Error::FieldBadEscape)
    } else if partial_tilde_two_at(f, i) {
        Some(Error::FieldTildeTwoNotWhole)
    } else {
        escape_fault_from(f, i + 1)
    }
}

/// What `field_valid` answers: `@type` and well-escaped pointers are
/// accepted; otherwise the first fault found reading the field left to right.
pub open spec fn field_check(f: Seq<char>) -> Result<(), Error> {
    if f == type_field() {
        Ok(())
    } else if !(f.len() == 0 || f[0] == '/') {
        Err(Error::FieldNotPointer)
    } else {
        match escape_fault_from(f, 0) {
            Some(e) => Err(e),
            None => Ok(()),
        }
    }
}

/// With no fault before `i`, the scan from the start finds what the scan
/// from `i` finds.
pub proof fn lemma_escape_scan(f: Seq<char>, i: int)
    requires
        0 <= i <= f.len(),
        forall|k: int| 0 <= k < i ==> !bad_escape_at(f, k) && !partial_tilde_two_at(f, k),
    ensures
        escape_fault_from(f, 0) == escape_fault_from(f, i),
    decreases i,
{
    if i > 0 {
        lemma_escape_scan(f, i - 1);
    }
}

/// A scan that finds nothing saw no fault.
pub proof fn lemma_escape_none(f: Seq<char>, i: int)
    requires
        0 <= i <= f.len(),
        escape_fault_from(f, i) is None,
    ensures
        forall|k: int| i <= k < f.len() ==> !bad_escape_at(f, k) && !partial_tilde_two_at(f, k),
    decreases f.len() - i,
{
    if i < f.len() {
        lemma_escape_none(f, i + 1);
    }
}

/// A scan reports only the two escape faults.
pub proof fn lemma_escape_kinds(f: Seq<char>, i: int)
    ensures
        escape_fault_from(f, i) matches Some(e) ==> (e is FieldBadEscape || e is FieldTildeTwoNotWhole),
    decreases f.len() - i,
{
    if 0 <= i < f.len() {
        lemma_escape_kinds(f, i + 1);
    }
}

/// `field_check` accepts exactly the fields of `field_ok`, and refuses with
/// one of the three field errors.
pub proof fn lemma_field_check(f: Seq<char>)
    ensures
        field_check(f) is Ok <==> field_ok(f),
        field_check(f) matches Err(e) ==> (e is FieldNotPointer || e is FieldBadEscape
            || e is FieldTildeTwoNotWhole),
{
    lemma_escape_kinds(f, 0);
    if escape_fault_from(f, 0) is None {
        lemma_escape_none(f, 0);
    }
    if escapes_ok(f) {
        lemma_escape_scan(f, f.len() as int);
    }
}

/// Checks a field name: `@type`, or a JSON Pointer such as `/city` or
/// `/jobs/*/company`.
pub fn field_valid(field: &str) -> (r: Result<(), Error>)
    ensures
        r == field_check(field@),
        r is Ok <==> field_ok(field@),
        r matches Err(e) ==> (e is FieldNotPointer || e is FieldBadEscape
            || e is FieldTildeTwoNotWhole),
{
    proof {
        lemma_field_check(field@);
    }
    let f = chars_of(field);
    let t = type_field_string();
    let tc = chars_of(t.as_str());
    if vec_char_eq(&f, &tc) {
        return Ok(());
    }
    if !(f.len() == 0 || f[0] == '/') {
        return Err(Error::FieldNotPointer);
    }
    let mut i: usize = 0;
    while i < f.len()
        invariant
            f@ == field@,
            f@ != type_field(),
            f@.len() == 0 || f@[0] == '/',
            i <= f@.len(),
            forall|k: int| 0 <= k < i ==> !bad_escape_at(f@, k) && !partial_tilde_two_at(f@, k),
        decreases f@.len() - i,
    {
        if f[i] == '~' {
            if i + 1 >= f.len() {
                assert(bad_escape_at(f@, i as int));
                proof {
                    lemma_escape_scan(f@, i as int);
                    assert(escape_fault_from(f@, i as int) == Some(Error::FieldBadEscape));
                }
                return Err(Error::FieldBadEscape);
            }
            let next = f[i + 1];
            if next == '0' || next == '1' {
                proof {
                    assert(!partial_tilde_two_at(f@, i as int + 1));
                    assert(!bad_escape_at(f@, i as int + 1));
                }
                i += 2;
            } else if next == '2' {
                let start = i == 0 || f[i - 1] == '/';
                let end = i + 2 == f.len() || f[i + 2] == '/';
                if !(start && end) {
                    assert(partial_tilde_two_at(f@, i as int));
                    proof {
                        lemma_escape_scan(f@, i as int);
                        assert(!bad_escape_at(f@, i as int));
                        assert(escape_fault_from(f@, i as int) == Some(Error::FieldTildeTwoNotWhole));
                    }
                    return Err(Error::FieldTildeTwoNotWhole);
                }
                proof {
                    assert(!partial_tilde_two_at(f@, i as int + 1));
                    assert(!bad_escape_at(f@, i as int + 1));
                }
                i += 2;
            } else {
                assert(bad_escape_at(f@, i as int));
                proof {
                    lemma_escape_scan(f@, i as int);
                    assert(escape_fault_from(f@, i as int) == Some(Error::FieldBadEscape));
                }
                return Err(Error::FieldBadEscape);
            }
        } else {
            i += 1;
        }
    }
    proof {
        lemma_escape_scan(f@, i as int);
    }
    Ok(())
}

/// Whether two character vectors hold the same characters.
pub fn vec_char_eq(a: &Vec<char>, b: &Vec<char>) -> (r: bool)
    ensures
        r == (a@ == b@),
{
    if a.len() != b.len() {
        return false;
    }
    let mut i: usize = 0;
    while i < a.len()
        invariant
            a@.len() == b@.len(),
            i <= a@.len(),
            forall|k: int| 0 <= k < i ==> a@[k] == b@[k],
        decreases a@.len() - i,
    {
        if a[i] != b[i] {
            return false;
        }
        i += 1;
    }
    assert(a@ =~= b@);
    true
}

/// Some segment of `f` is exactly `*`.
pub open spec fn has_wildcard(f: Seq<char>) -> bool {
    exists|i: int| 0 <= i < f.len() && f[i] == '*' && segment_start(f, i) && segment_end(f, i + 1)
}

/// Whether `field` has a `*` segment, matching any array index.
pub fn is_wildcard(field: &str) -> (r: bool)
    ensures
        r == has_wildcard(field@),
{
    let f = chars_of(field);
    let mut i: usize = 0;
    while i < f.len()
        invariant
            f@ == field@,
            i <= f@.len(),
            forall|k: int|
                0 <= k < i ==> !(f@[k] == '*' && segment_start(f@, k) && segment_end(f@, k + 1)),
        decreases f@.len() - i,
    {
        if f[i] == '*' && (i == 0 || f[i - 1] == '/') && (i + 1 == f.len() || f[i + 1] == '/') {
            return true;
        }
        i += 1;
    }
    false
}

pub open spec fn escape_char(c: char) -> Seq<char> {
    if c == '~' {
        seq!['~', '0']
    } else if c == '/' {
        seq!['~', '1']
    } else {
        seq![c]
    }
}

pub open spec fn escape_chars(s: Seq<char>) -> Seq<char>
    decreases s.len(),
{
    if s.len() == 0 {
        Seq::empty()
    } else {
        escape_chars(s.drop_last()) + escape_char(s.last())
    }
}

/// The pointer segment naming object key `key`: `*` becomes `~2`, then `~`
/// becomes `~0` and `/` becomes `~1`.
pub open spec fn escape_spec(key: Seq<char>) -> Seq<char> {
    if key == seq!['*'] {
        seq!['~', '2']
    } else {
        escape_chars(key)
    }
}

/// The pointer segment for an object key.
pub fn escape(key: &str) -> (out: String)
    ensures
        out@ == escape_spec(key@),
{
    let k = chars_of(key);
    if k.len() == 1 && k[0] == '*' {
        let v: Vec<char> = vec!['~', '2'];
        proof {
            assert(k@ =~= seq!['*']);
            assert(v@ =~= seq!['~', '2']);
        }
        return string_of(v.as_slice());
    }
    proof {
        assert(k@ != seq!['*']);
    }
    let mut out: Vec<char> = Vec::new();
    let mut i: usize = 0;
    while i < k.len()
        invariant
            k@ == key@,
            i <= k@.len(),
            out@ == escape_chars(k@.take(i as int)),
        decreases k@.len() - i,
    {
        let c = k[i];
        if c == '~' {
            out.push('~');
            out.push('0');
        } else if c == '/' {
            out.push('~');
            out.push('1');
        } else {
            out.push(c);
        }
        proof {
            assert(k@.take(i + 1).drop_last() =~= k@.take(i as int));
        }
        i += 1;
        assert(out@ =~= escape_chars(k@.take(i as int)));
    }
    assert(k@.take(k@.len() as int) =~= k@);
    string_of(out.as_slice())
}

/// Every `~` of `e` opens a pair `~0` or `~1`, and `e` holds no `/`.
pub open spec fn escaped_well(e: Seq<char>) -> bool {
    forall|i: int|
        0 <= i < e.len() ==> #[trigger] e[i] != '/' && (e[i] == '~' ==> i + 1 < e.len() && (e[i
            + 1] == '0' || e[i + 1] == '1'))
}

/// Reads an escaped segment back, from its end: `~0` is `~`, `~1` is `/`.
pub open spec fn unescape_chars(e: Seq<char>) -> Seq<char>
    decreases e.len(),
{
    if e.len() == 0 {
        Seq::empty()
    } else if e.len() >= 2 && e[e.len() - 2] == '~' {
        unescape_chars(e.take(e.len() - 2)) + seq![if e.last() == '0' { '~' } else { '/' }]
    } else {
        unescape_chars(e.drop_last()) + seq![e.last()]
    }
}

proof fn lemma_escape_chars(s: Seq<char>)
    ensures
        escaped_well(escape_chars(s)),
        unescape_chars(escape_chars(s)) == s,
    decreases s.len(),
{
    if s.len() > 0 {
        let d = s.drop_last();
        let c = s.last();
        lemma_escape_chars(d);
        let p = escape_chars(d);
        let e = escape_chars(s);
        assert(e == p + escape_char(c));
        assert forall|i: int| 0 <= i < e.len() implies #[trigger] e[i] != '/' && (e[i] == '~' ==> i
            + 1 < e.len() && (e[i + 1] == '0' || e[i + 1] == '1')) by {
            if i < p.len() {
                assert(e[i] == p[i]);
                if i + 1 < p.len() {
                    assert(e[i + 1] == p[i + 1]);
                }
            }
        }
        if p.len() > 0 {
            assert(p[p.len() - 1] != '~');
        }
        if c == '~' || c == '/' {
            assert(e.take(e.len() - 2) =~= p);
        } else {
            assert(e.drop_last() =~= p);
            if p.len() > 0 {
                assert(e[e.len() - 2] == p[p.len() - 1]);
            }
        }
        assert(unescape_chars(e) =~= s);
    }
}

/// The segments that `escape` makes name object keys without loss: each is
/// a valid pointer segment with no `/`, never a `*` wildcard, and different
/// keys get different segments.
pub proof fn law_escape_segment(k: Seq<char>, k2: Seq<char>)
    ensures
        !escape_spec(k).contains('/'),
        field_check(seq!['/'] + escape_spec(k)) == Ok::<(), Error>(()),
        !has_wildcard(seq!['/'] + escape_spec(k)),
        k != k2 ==> escape_spec(k) != escape_spec(k2),
{
    let e = escape_spec(k);
    let f = seq!['/'] + e;
    lemma_escape_chars(k);
    lemma_escape_chars(k2);
    lemma_field_check(f);
    assert(f[0] == '/');
    assert forall|i: int| 1 <= i < f.len() implies #[trigger] f[i] == e[i - 1] by {}
    if k == seq!['*'] {
        assert(e =~= seq!['~', '2']);
        assert(!e.contains('/')) by {
            if e.contains('/') {
                let j = choose|j: int| 0 <= j < e.len() && e[j] == '/';
            }
        }
    } else {
        assert(!e.contains('/')) by {
            if e.contains('/') {
                let j = choose|j: int| 0 <= j < e.len() && e[j] == '/';
                assert(e[j] != '/');
            }
        }
    }
    assert forall|i: int| 0 <= i < f.len() implies !bad_escape_at(f, i) && !partial_tilde_two_at(f, i) by {
        if i >= 1 && f[i] == '~' {
            if k != seq!['*'] {
                assert(e[i - 1] == '~');
                assert(f[i + 1] == e[i]);
            } else {
                assert(i == 1);
            }
        }
    }
    assert(escapes_ok(f));
    assert(field_ok(f));
    if has_wildcard(f) {
        let i = choose|i: int| 0 <= i < f.len() && f[i] == '*' && segment_start(f, i) && segment_end(f, i + 1);
        assert(i >= 1);
        assert(f[i - 1] == '/');
        if i > 1 {
            assert(e[i - 2] == '/');
            assert(e.contains('/'));
        }
        if i + 1 < f.len() {
            assert(e[i] == '/');
            assert(e.contains('/'));
        }
        assert(e =~= seq!['*']);
        assert(k != seq!['*']);
        assert(unescape_chars(e) =~= seq!['*']) by {
            assert(e.drop_last() =~= Seq::<char>::empty());
            assert(unescape_chars(e.drop_last()) =~= Seq::<char>::empty());
            assert(e.last() == '*');
        }
    }
    if k != k2 && e == escape_spec(k2) {
        if k == seq!['*'] {
            let e2 = escape_chars(k2);
            assert(e2[0] == '~');
        } else if k2 == seq!['*'] {
            assert(e[0] == '~');
        }
    }
}

} // verus!
