//! Per-type write policies. History Nodes are append-only: never deleted or
//! replaced, and only a few declared attrs keys may be patched in place.

use crate::error::{all_pass, lemma_all_pass_next, lemma_all_pass_stuck, lemma_unit_result, Error};
use crate::index::path::{escape, escape_spec, field_check, field_valid};
use crate::json::{entries_view, lemma_entries_view, Json, JsonV};
use crate::text::join_segment;
use vstd::prelude::*;

verus! {

#[derive(Debug, Clone, PartialEq, Eq)]
pub struct WritePolicy {
    pub delete: bool,
    pub replace: bool,
    /// attrs JSON Pointers that patch may change (with everything below
    /// them); None allows any patch, including type and summary.
    pub patch: Option<Vec<String>>,
}

pub open spec fn pointers_view(v: Seq<String>) -> Seq<Seq<char>> {
    v.map_values(|s: String| s@)
}

pub open spec fn patch_view(p: Option<Vec<String>>) -> Option<Seq<Seq<char>>> {
    match p {
        Some(v) => Some(pointers_view(v@)),
        None => None,
    }
}

/// What a policy field allows when it is not given.
pub fn allowed() -> (b: bool)
    ensures
        b,
{
    true
}

impl Default for WritePolicy {
    /// Everything allowed.
    fn default() -> (p: WritePolicy)
        ensures
            p.delete,
            p.replace,
            p.patch is None,
    {
        WritePolicy { delete: allowed(), replace: allowed(), patch: None }
    }
}

impl WritePolicy {
    /// No delete, no replace; patch only at or below these attrs pointers.
    pub fn append_only(patchable: &Vec<String>) -> (p: WritePolicy)
        ensures
            !p.delete,
            !p.replace,
            patch_view(p.patch) == Some(pointers_view(patchable@)),
    {
        let mut v: Vec<String> = Vec::new();
        let mut i: usize = 0;
        while i < patchable.len()
            invariant
                i <= patchable@.len(),
                v@.len() == i,
                pointers_view(v@) == pointers_view(patchable@.take(i as int)),
            decreases patchable@.len() - i,
        {
            let ghost before = v@;
            v.push(patchable[i].clone());
            proof {
                assert forall|k: int| 0 <= k < i + 1 implies #[trigger] pointers_view(v@)[k]
                    == pointers_view(patchable@.take(i + 1))[k] by {
                    if k < i {
                        assert(pointers_view(before)[k] == pointers_view(patchable@.take(i as int))[k]);
                    }
                }
            }
            i += 1;
            assert(pointers_view(v@) =~= pointers_view(patchable@.take(i as int)));
        }
        assert(patchable@.take(i as int) =~= patchable@);
        WritePolicy { delete: false, replace: false, patch: Some(v) }
    }
}

/// A patchable key: a JSON Pointer into attrs, so it starts with `/`.
pub open spec fn pointer_check(p: Seq<char>) -> Result<(), Error> {
    if !(p.len() > 0 && p[0] == '/') {
        Err(Error::PatchKeyNotPointer)
    } else {
        field_check(p)
    }
}

/// What checking a policy for `kind` answers: a type is named, then each
/// patchable key in turn.
pub open spec fn policy_check(kind: Seq<char>, patch: Option<Seq<Seq<char>>>) -> Result<(), Error> {
    if kind.len() == 0 {
        Err(Error::PolicyNeedsType)
    } else {
        match patch {
            Some(ps) => all_pass(ps.map_values(|p: Seq<char>| pointer_check(p))),
            None => Ok(()),
        }
    }
}

/// Each patchable key is an attrs pointer.
fn check_pointers(ps: &Vec<String>) -> (r: Result<(), Error>)
    ensures
        r == all_pass(pointers_view(ps@).map_values(|p: Seq<char>| pointer_check(p))),
{
    let ghost rs = pointers_view(ps@).map_values(|p: Seq<char>| pointer_check(p));
    let mut i: usize = 0;
    while i < ps.len()
        invariant
            i <= ps@.len(),
            rs == pointers_view(ps@).map_values(|p: Seq<char>| pointer_check(p)),
            rs.len() == ps@.len(),
            all_pass(rs.take(i as int)) == Ok::<(), Error>(()),
        decreases ps@.len() - i,
    {
        assert(pointers_view(ps@)[i as int] == ps@[i as int]@);
        assert(rs[i as int] == pointer_check(ps@[i as int]@));
        proof {
            lemma_all_pass_next(rs, i as int);
        }
        let p = crate::text::chars_of(ps[i].as_str());
        let checked = if p.len() == 0 || p[0] != '/' {
            Err(Error::PatchKeyNotPointer)
        } else {
            field_valid(ps[i].as_str())
        };
        match checked {
            Ok(()) => {
                proof {
                    lemma_unit_result(checked);
                }
            },
            Err(e) => {
                proof {
                    lemma_all_pass_stuck(rs, i + 1, rs.len() as int);
                    assert(rs.take(rs.len() as int) =~= rs);
                }
                return Err(e);
            },
        }
        i += 1;
    }
    assert(rs.take(i as int) =~= rs);
    Ok(())
}

/// Checks a policy before it is stored.
pub fn check_policy(kind: &str, policy: &WritePolicy) -> (r: Result<(), Error>)
    ensures
        r == policy_check(kind@, patch_view(policy.patch)),
{
    if crate::text::chars_of(kind).len() == 0 {
        return Err(Error::PolicyNeedsType);
    }
    match &policy.patch {
        Some(ps) => {
            let r = check_pointers(ps);
            assert(patch_view(policy.patch) == Some(pointers_view(ps@)));
            r
        },
        None => Ok(()),
    }
}

/// Every pointer a merge patch sets or removes under `path`: each leaf, and
/// nothing for an empty object.
pub open spec fn leaves_spec(v: JsonV, path: Seq<char>) -> Seq<Seq<char>>
    decreases v, 0int,
{
    match v {
        JsonV::Object(es) => member_leaves(es, path),
        _ => seq![path],
    }
}

pub open spec fn member_leaves(es: Seq<(Seq<char>, JsonV)>, path: Seq<char>) -> Seq<Seq<char>>
    decreases es, 1int,
{
    if es.len() == 0 {
        seq![]
    } else {
        member_leaves(es.drop_last(), path) + leaves_spec(
            es.last().1,
            path + seq!['/'] + escape_spec(es.last().0),
        )
    }
}

fn leaves(value: &Json, path: &String, out: &mut Vec<String>)
    ensures
        pointers_view(final(out)@) == pointers_view(old(out)@) + leaves_spec(value@, path@),
    decreases value, 0int,
{
    match value {
        Json::Object(es) => {
            assert(value@ == JsonV::Object(entries_view(es@)));
            member_leaves_of(es, path, out);
        },
        _ => {
            let ghost before = out@;
            out.push(path.clone());
            assert(pointers_view(out@) =~= pointers_view(before) + seq![path@]);
        },
    }
}

fn member_leaves_of(es: &Vec<(String, Json)>, path: &String, out: &mut Vec<String>)
    ensures
        pointers_view(final(out)@) == pointers_view(old(out)@) + member_leaves(entries_view(es@), path@),
    decreases es, 1int,
{
    let ghost ev = entries_view(es@);
    proof {
        lemma_entries_view(es@);
    }
    let mut i: usize = 0;
    assert(pointers_view(out@) =~= pointers_view(old(out)@) + member_leaves(ev.take(0), path@)) by {
        assert(ev.take(0) =~= Seq::<(Seq<char>, JsonV)>::empty());
    }
    while i < es.len()
        invariant
            i <= es@.len(),
            ev == entries_view(es@),
            ev.len() == es@.len(),
            forall|k: int| 0 <= k < es@.len() ==> #[trigger] ev[k] == (es@[k].0@, es@[k].1@),
            pointers_view(out@) == pointers_view(old(out)@) + member_leaves(ev.take(i as int), path@),
        decreases es@.len() - i,
    {
        let seg = escape(es[i].0.as_str());
        let child = join_segment(path.as_str(), seg.as_str());
        let ghost before = out@;
        assert(decreases_to!(*es => es@[i as int].1));
        leaves(&es[i].1, &child, out);
        proof {
            assert(ev.take(i + 1).drop_last() =~= ev.take(i as int));
            assert(ev.take(i + 1).last() == ev[i as int]);
            assert(pointers_view(out@) =~= pointers_view(old(out)@) + member_leaves(
                ev.take(i + 1),
                path@,
            ));
        }
        i += 1;
    }
    assert(ev.take(i as int) =~= ev);
}

/// `pointer` is one of the allowed pointers or lies below one.
pub open spec fn permitted(allowed: Seq<Seq<char>>, pointer: Seq<char>) -> bool {
    exists|j: int|
        0 <= j < allowed.len() && (pointer == allowed[j] || (pointer.len() > allowed[j].len()
            && pointer.take(allowed[j].len() as int) == allowed[j] && pointer[allowed[j].len() as int]
            == '/'))
}

/// The patch touches only `attrs`, and only at or below allowed pointers.
pub open spec fn patch_allowed(allowed: Seq<Seq<char>>, patch: JsonV) -> bool {
    match patch {
        JsonV::Object(es) => members_allowed(allowed, es),
        _ => true,
    }
}

pub open spec fn members_allowed(allowed: Seq<Seq<char>>, es: Seq<(Seq<char>, JsonV)>) -> bool {
    (forall|i: int| 0 <= i < es.len() ==> #[trigger] attrs_member(es[i])) && forall|k: int|
        0 <= k < member_leaves_attrs(es).len() ==> permitted(
            allowed,
            #[trigger] member_leaves_attrs(es)[k],
        )
}

pub open spec fn attrs_member(e: (Seq<char>, JsonV)) -> bool {
    e.0 == "attrs"@
}

/// The leaves of every member's value, each from the root path.
pub open spec fn member_leaves_attrs(es: Seq<(Seq<char>, JsonV)>) -> Seq<Seq<char>>
    decreases es.len(),
{
    if es.len() == 0 {
        seq![]
    } else {
        member_leaves_attrs(es.drop_last()) + leaves_spec(es.last().1, seq![])
    }
}

fn is_permitted(allowed: &Vec<String>, pointer: &String) -> (b: bool)
    ensures
        b == permitted(pointers_view(allowed@), pointer@),
{
    let p = crate::text::chars_of(pointer.as_str());
    let mut j: usize = 0;
    while j < allowed.len()
        invariant
            j <= allowed@.len(),
            p@ == pointer@,
            forall|k: int|
                0 <= k < j ==> !(pointer@ == #[trigger] pointers_view(allowed@)[k] || (pointer@.len()
                    > pointers_view(allowed@)[k].len() && pointer@.take(
                    pointers_view(allowed@)[k].len() as int,
                ) == pointers_view(allowed@)[k] && pointer@[pointers_view(allowed@)[k].len() as int]
                    == '/')),
        decreases allowed@.len() - j,
    {
        let a = crate::text::chars_of(allowed[j].as_str());
        assert(pointers_view(allowed@)[j as int] == a@);
        let mut same_start = a.len() <= p.len();
        let mut k: usize = 0;
        while same_start && k < a.len()
            invariant
                a@.len() <= p@.len() || !same_start,
                k <= a@.len(),
                same_start ==> forall|m: int| 0 <= m < k ==> a@[m] == p@[m],
                !same_start ==> !(a@.len() <= p@.len() && p@.take(a@.len() as int) == a@),
            decreases a@.len() - k,
        {
            if a[k] != p[k] {
                same_start = false;
                assert(p@.take(a@.len() as int)[k as int] == p@[k as int]);
            }
            k += 1;
        }
        if same_start {
            assert(p@.take(a@.len() as int) =~= a@);
            if a.len() == p.len() {
                assert(p@ =~= a@);
                return true;
            }
            if p[a.len()] == '/' {
                return true;
            }
        } else {
            proof {
                if p@ == a@ {
                    assert(p@.take(a@.len() as int) =~= a@);
                }
            }
        }
        j += 1;
    }
    false
}

/// Checks a merge patch against a patchable-pointer list.
#[verifier::loop_isolation(false)]
pub fn check_patch(allowed: &Option<Vec<String>>, patch: &Json) -> (r: Result<(), Error>)
    ensures
        r is Ok <==> match patch_view(*allowed) {
            Some(a) => patch_allowed(a, patch@),
            None => true,
        },
        r is Err ==> r == Err::<(), Error>(Error::PatchNotAllowed),
{
    let allowed = match allowed {
        Some(a) => a,
        None => {
            return Ok(());
        },
    };
    match patch {
        Json::Object(es) => {
            let ghost ev = entries_view(es@);
            assert(patch@ == JsonV::Object(ev));
            proof {
                lemma_entries_view(es@);
            }
            let mut changed: Vec<String> = Vec::new();
            let root = String::new();
            let mut i: usize = 0;
            assert(ev.take(0) =~= Seq::<(Seq<char>, JsonV)>::empty());
            while i < es.len()
                invariant
                    i <= es@.len(),
                    ev == entries_view(es@),
                    patch@ == JsonV::Object(ev),
                    ev.len() == es@.len(),
                    root@ == Seq::<char>::empty(),
                    forall|k: int| 0 <= k < es@.len() ==> #[trigger] ev[k] == (es@[k].0@, es@[k].1@),
                    forall|k: int| 0 <= k < i ==> #[trigger] attrs_member(ev[k]),
                    pointers_view(changed@) == member_leaves_attrs(ev.take(i as int)),
                decreases es@.len() - i,
            {
                let attrs = "attrs".to_owned();
                if es[i].0 != attrs {
                    assert(!attrs_member(ev[i as int]));
                    return Err(Error::PatchNotAllowed);
                }
                leaves(&es[i].1, &root, &mut changed);
                proof {
                    assert(ev.take(i + 1).drop_last() =~= ev.take(i as int));
                    assert(ev.take(i + 1).last() == ev[i as int]);
                    assert(attrs_member(ev[i as int]));
                }
                i += 1;
            }
            assert(ev.take(i as int) =~= ev);
            let mut k: usize = 0;
            while k < changed.len()
                invariant
                    k <= changed@.len(),
                    patch@ == JsonV::Object(ev),
                    patch_view(Some(*allowed)) == Some(pointers_view(allowed@)),
                    forall|m: int| 0 <= m < ev.len() ==> #[trigger] attrs_member(ev[m]),
                    pointers_view(changed@) == member_leaves_attrs(ev),
                    forall|m: int| 0 <= m < k ==> permitted(
                        pointers_view(allowed@),
                        #[trigger] member_leaves_attrs(ev)[m],
                    ),
                decreases changed@.len() - k,
            {
                assert(pointers_view(changed@)[k as int] == changed@[k as int]@);
                if !is_permitted(allowed, &changed[k]) {
                    assert(!permitted(pointers_view(allowed@), member_leaves_attrs(ev)[k as int]));
                    return Err(Error::PatchNotAllowed);
                }
                k += 1;
            }
            Ok(())
        },
        _ => Ok(()),
    }
}

/// A write policy's answer for a delete or a replace.
pub fn check_allowed(allowed: bool) -> (r: Result<(), Error>)
    ensures
        r is Ok <==> allowed,
        r is Err ==> r == Err::<(), Error>(Error::PolicyForbids),
{
    if allowed {
        Ok(())
    } else {
        Err(Error::PolicyForbids)
    }
}

} // verus!
