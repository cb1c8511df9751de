//! Turns a Node into index entries: typed postings, number keys and intervals.

pub mod patch;
pub mod path;
pub mod value;
pub mod numeric;
pub mod visit;

use crate::error::Error;
use crate::json::{json_wf, Json, JsonV};
use crate::model::node::NewNode;
use crate::text::{has_content, not_blank, prefixed, string_of};
use path::{type_field, type_field_string};
use value::{is_sortable, is_sortable_token};
use visit::{all_keyed, number_consistent, posting_key, visit_keys, visit_rows, Attributes};
use vstd::prelude::*;

verus! {

/// Posted at "" for every live Node.
pub open spec fn live_token() -> Seq<char> {
    seq!['u', ':']
}

/// Posted at a path where one Node holds more than one sortable value.
pub open spec fn multi_token() -> Seq<char> {
    seq!['m', ':']
}

/// Posted at a path where a Node holds at least one sortable value.
pub open spec fn ordered_token() -> Seq<char> {
    seq!['o', ':']
}

pub fn live_string() -> (s: String)
    ensures
        s@ == live_token(),
{
    let v: Vec<char> = vec!['u', ':'];
    assert(v@ =~= live_token());
    string_of(v.as_slice())
}

pub fn multi_string() -> (s: String)
    ensures
        s@ == multi_token(),
{
    let v: Vec<char> = vec!['m', ':'];
    assert(v@ =~= multi_token());
    string_of(v.as_slice())
}

pub fn ordered_string() -> (s: String)
    ensures
        s@ == ordered_token(),
{
    let v: Vec<char> = vec!['o', ':'];
    assert(v@ =~= ordered_token());
    string_of(v.as_slice())
}

/// `field` holds a sortable token in `s`.
pub open spec fn has_sortable(s: Set<(Seq<char>, Seq<char>)>, field: Seq<char>) -> bool {
    exists|t: Seq<char>| #[trigger] s.contains((field, t)) && is_sortable_token(t)
}

/// `field` holds two different sortable tokens in `s`.
pub open spec fn has_two_sortable(s: Set<(Seq<char>, Seq<char>)>, field: Seq<char>) -> bool {
    exists|t1: Seq<char>, t2: Seq<char>|
        t1 != t2 && #[trigger] s.contains((field, t1)) && #[trigger] s.contains((field, t2))
            && is_sortable_token(t1) && is_sortable_token(t2)
}

/// `s` plus `o:` at every path holding a sortable value and `m:` at every
/// path holding several.
pub open spec fn with_marks(s: Set<(Seq<char>, Seq<char>)>) -> Set<(Seq<char>, Seq<char>)> {
    s.union(
        Set::new(
            |k: (Seq<char>, Seq<char>)|
                (k.1 == ordered_token() && has_sortable(s, k.0)) || (k.1 == multi_token()
                    && has_two_sortable(s, k.0)),
        ),
    )
}

/// Marks contributed by the first `i` entries of `info` (field, sortable).
pub open spec fn marks_upto(info: Seq<(Seq<char>, bool)>, i: int) -> Set<(Seq<char>, Seq<char>)> {
    Set::new(
        |k: (Seq<char>, Seq<char>)|
            exists|j: int|
                0 <= j < i && (#[trigger] info[j]).1 && info[j].0 == k.0 && (k.1 == ordered_token()
                    || (k.1 == multi_token() && exists|l: int|
                    0 <= l < info.len() && l != j && (#[trigger] info[l]).1 && info[l].0
                        == info[j].0)),
    )
}

/// Marks every path of `a` that holds a sortable value (`o:`), and every
/// path holding more than one (`m:`).
pub fn mark_sortable(a: &mut Attributes)
    requires
        old(a).wf(),
    ensures
        final(a).wf(),
        final(a).keys() == with_marks(old(a).keys()),
        final(a).rows() == old(a).rows(),
{
    let ghost s = a.keys();
    let ghost ps = a.postings@;
    let n = a.postings.len();
    // (field, sortable) of each posting
    let mut info: Vec<(String, bool)> = Vec::new();
    let mut i: usize = 0;
    while i < n
        invariant
            *a == *old(a),
            n == a.postings@.len(),
            i <= n,
            info@.len() == i,
            forall|j: int|
                0 <= j < i ==> (#[trigger] info@[j]).0@ == a.postings@[j].field@ && info@[j].1
                    == is_sortable_token(a.postings@[j].token@),
        decreases n - i,
    {
        let f = a.postings[i].field.clone();
        let b = is_sortable(a.postings[i].token.as_str());
        info.push((f, b));
        i += 1;
    }
    let ghost iv = Seq::new(n as nat, |j: int| (info@[j].0@, info@[j].1));
    let mut i: usize = 0;
    assert(marks_upto(iv, 0) =~= Set::<(Seq<char>, Seq<char>)>::empty());
    assert(a.keys() =~= s.union(marks_upto(iv, 0)));
    while i < n
        invariant
            n == info@.len(),
            i <= n,
            iv == Seq::new(n as nat, |j: int| (info@[j].0@, info@[j].1)),
            a.wf(),
            a.keys() == s.union(marks_upto(iv, i as int)),
            a.rows() == old(a).rows(),
        decreases n - i,
    {
        if info[i].1 {
            // another sortable posting at the same field?
            let mut l: usize = 0;
            let mut multi = false;
            while l < n
                invariant
                    n == info@.len(),
                    i < n,
                    l <= n,
                    iv == Seq::new(n as nat, |j: int| (info@[j].0@, info@[j].1)),
                    multi <==> exists|m: int|
                        0 <= m < l && m != i && (#[trigger] iv[m]).1 && iv[m].0 == iv[i as int].0,
                decreases n - l,
            {
                assert(iv[l as int] == (info@[l as int].0@, info@[l as int].1));
                assert(iv[i as int] == (info@[i as int].0@, info@[i as int].1));
                if l != i && info[l].1 && info[l].0 == info[i].0 {
                    multi = true;
                }
                l += 1;
            }
            let ghost before = a.keys();
            assert(iv[i as int] == (info@[i as int].0@, info@[i as int].1));
            if multi {
                a.insert_posting(info[i].0.clone(), multi_string(), None);
            }
            a.insert_posting(info[i].0.clone(), ordered_string(), None);
            proof {
                assert(a.keys() =~= s.union(marks_upto(iv, i + 1))) by {
                    assert forall|k| #[trigger] marks_upto(iv, i + 1).contains(k) implies a.keys().contains(k) by {
                        let j = choose|j: int|
                            0 <= j < i + 1 && (#[trigger] iv[j]).1 && iv[j].0 == k.0 && (k.1
                                == ordered_token() || (k.1 == multi_token() && exists|l: int|
                                0 <= l < iv.len() && l != j && (#[trigger] iv[l]).1 && iv[l].0
                                    == iv[j].0));
                        if j < i {
                            assert(marks_upto(iv, i as int).contains(k));
                        }
                    }
                    assert forall|k| #[trigger] a.keys().contains(k) implies s.union(marks_upto(iv, i + 1)).contains(k) by {
                        if !before.contains(k) {
                            assert(marks_upto(iv, i + 1).contains(k));
                        } else if !s.contains(k) {
                            assert(marks_upto(iv, i as int).contains(k));
                            let j = choose|j: int|
                                0 <= j < i && (#[trigger] iv[j]).1 && iv[j].0 == k.0 && (k.1
                                    == ordered_token() || (k.1 == multi_token() && exists|l: int|
                                    0 <= l < iv.len() && l != j && (#[trigger] iv[l]).1 && iv[l].0
                                        == iv[j].0));
                            assert(marks_upto(iv, i + 1).contains(k));
                        }
                    }
                }
            }
        } else {
            assert(marks_upto(iv, i + 1) =~= marks_upto(iv, i as int));
        }
        i += 1;
    }
    proof {
        lemma_marks_complete(ps, iv, s);
    }
}

proof fn lemma_marks_complete(
    ps: Seq<visit::Posting>,
    iv: Seq<(Seq<char>, bool)>,
    s: Set<(Seq<char>, Seq<char>)>,
)
    requires
        iv.len() == ps.len(),
        forall|j: int|
            0 <= j < ps.len() ==> (#[trigger] iv[j]).0 == ps[j].field@ && iv[j].1
                == is_sortable_token(ps[j].token@),
        forall|i: int, j: int|
            0 <= i < ps.len() && 0 <= j < ps.len() && i != j ==> posting_key(#[trigger] ps[i])
                != posting_key(#[trigger] ps[j]),
        s == Set::new(
            |k: (Seq<char>, Seq<char>)|
                exists|i: int| 0 <= i < ps.len() && #[trigger] posting_key(ps[i]) == k,
        ),
    ensures
        s.union(marks_upto(iv, iv.len() as int)) == with_marks(s),
{
    let m = marks_upto(iv, iv.len() as int);
    let w = Set::new(
        |k: (Seq<char>, Seq<char>)|
            (k.1 == ordered_token() && has_sortable(s, k.0)) || (k.1 == multi_token()
                && has_two_sortable(s, k.0)),
    );
    assert forall|k| #[trigger] m.contains(k) implies w.contains(k) by {
        let j = choose|j: int|
            0 <= j < iv.len() && (#[trigger] iv[j]).1 && iv[j].0 == k.0 && (k.1 == ordered_token()
                || (k.1 == multi_token() && exists|l: int|
                0 <= l < iv.len() && l != j && (#[trigger] iv[l]).1 && iv[l].0 == iv[j].0));
        assert(s.contains(posting_key(ps[j])));
        assert(s.contains((k.0, ps[j].token@)));
        if k.1 == ordered_token() {
            assert(has_sortable(s, k.0));
        } else {
            let l = choose|l: int|
                0 <= l < iv.len() && l != j && (#[trigger] iv[l]).1 && iv[l].0 == iv[j].0;
            assert(s.contains(posting_key(ps[l])));
            assert(s.contains((k.0, ps[l].token@)));
            assert(posting_key(ps[l]) != posting_key(ps[j]));
            assert(ps[l].token@ != ps[j].token@);
            assert(has_two_sortable(s, k.0));
        }
    }
    assert forall|k| #[trigger] w.contains(k) implies m.contains(k) by {
        if k.1 == ordered_token() && has_sortable(s, k.0) {
            let t = choose|t: Seq<char>| #[trigger] s.contains((k.0, t)) && is_sortable_token(t);
            let j = choose|j: int| 0 <= j < ps.len() && #[trigger] posting_key(ps[j]) == (k.0, t);
            assert(iv[j].1 && iv[j].0 == k.0);
        } else {
            let (t1, t2) = choose|t1: Seq<char>, t2: Seq<char>|
                t1 != t2 && #[trigger] s.contains((k.0, t1)) && #[trigger] s.contains((k.0, t2))
                    && is_sortable_token(t1) && is_sortable_token(t2);
            let j1 = choose|j: int| 0 <= j < ps.len() && #[trigger] posting_key(ps[j]) == (k.0, t1);
            let j2 = choose|j: int| 0 <= j < ps.len() && #[trigger] posting_key(ps[j]) == (k.0, t2);
            assert(j1 != j2);
            assert(iv[j1].1 && iv[j1].0 == k.0);
            assert(iv[j2].1 && iv[j2].0 == k.0);
            assert(k.1 == multi_token());
        }
    }
    assert(m =~= w);
    assert(s.union(m) =~= with_marks(s));
}

/// Every posting of a Node: the live mark, its type, every attrs path, and
/// the sortable marks over all of them.
pub open spec fn attributes_keys(kind: Seq<char>, attrs: JsonV) -> Set<(Seq<char>, Seq<char>)> {
    with_marks(
        set![(Seq::<char>::empty(), live_token()), (type_field(), seq!['s', ':'] + kind)].union(
            visit_keys(Seq::empty(), None, attrs),
        ),
    )
}

/// The index entries of a Node of type `kind` holding `attrs`. Fails when a
/// number's exponent does not fit.
pub fn attributes(kind: &str, attrs: &Json) -> (r: Result<Attributes, Error>)
    requires
        json_wf(attrs@),
    ensures
        r is Ok <==> all_keyed(attrs@),
        r matches Err(e) ==> e == Error::ExponentOutOfRange,
        r matches Ok(a) ==> a.wf() && a.keys() == attributes_keys(kind@, attrs@) && a.rows()
            == visit_rows(Seq::empty(), None, attrs@),
{
    let mut out = Attributes::new();
    out.insert_posting(String::new(), live_string(), None);
    out.insert_posting(type_field_string(), prefixed('s', ':', kind), None);
    let ghost base = out.keys();
    let root = String::new();
    match visit::visit(&root, None, attrs, &mut out) {
        Ok(()) => {},
        Err(e) => {
            return Err(e);
        },
    }
    let ghost before = out.keys();
    mark_sortable(&mut out);
    proof {
        assert(base =~= set![(Seq::<char>::empty(), live_token()), (type_field(), seq!['s', ':'] + kind@)]);
        assert(out.rows() =~= visit_rows(Seq::empty(), None, attrs@));
    }
    Ok(out)
}

/// A Node can be stored: type and summary are not blank, attrs is an object.
pub open spec fn node_valid(kind: Seq<char>, summary: Seq<char>, attrs: JsonV) -> bool {
    has_content(kind) && has_content(summary) && attrs is Object
}

/// Checks what a Node must hold before it is written.
pub fn validate(node: &NewNode) -> (r: Result<(), Error>)
    ensures
        r is Ok <==> node_valid(node.kind@, node.summary@, node.attrs@),
        r == Err::<(), Error>(Error::TypeRequired) <==> !has_content(node.kind@),
        r == Err::<(), Error>(Error::SummaryRequired) <==> has_content(node.kind@) && !has_content(
            node.summary@,
        ),
        r == Err::<(), Error>(Error::AttrsNotObject) <==> has_content(node.kind@) && has_content(
            node.summary@,
        ) && !(node.attrs@ is Object),
{
    if !not_blank(node.kind.as_str()) {
        return Err(Error::TypeRequired);
    }
    if !not_blank(node.summary.as_str()) {
        return Err(Error::SummaryRequired);
    }
    if !node.attrs.is_object() {
        return Err(Error::AttrsNotObject);
    }
    Ok(())
}

} // verus!
