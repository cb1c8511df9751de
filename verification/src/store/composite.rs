//! Declared composite indexes: Nodes of one type, grouped by equal values at
//! the grouping paths and ordered by the ordering path.

use crate::error::{all_pass, first_refusal, lemma_all_pass_next, lemma_all_pass_stuck, lemma_unit_result, Error};
use crate::index::path::{field_check, field_valid};
use crate::index::value::{
    has_prefix, hex_spec, is_sortable, is_sortable_token, law_hex_roundtrip, number_key_spec,
    number_token_spec, token_sort_bytes, token_sort_bytes_spec,
};
use crate::index::visit::{posting_key, Attributes};
use crate::text::{bytes_from, bytes_lt};
use vstd::prelude::*;
use vstd::utf8::*;

verus! {

/// The lowest ordering key a string can have; number keys all sort below it.
pub const STRING_ORDER: u8 = 0x20;

#[derive(Debug, Clone, PartialEq, Eq)]
pub struct IndexDef {
    pub name: String,
    pub kind: String,
    pub grouping: Vec<String>,
    pub ordering: String,
}

pub struct IndexDefV {
    pub name: Seq<char>,
    pub kind: Seq<char>,
    pub grouping: Seq<Seq<char>>,
    pub ordering: Seq<char>,
}

pub open spec fn names_view(v: Seq<String>) -> Seq<Seq<char>> {
    v.map_values(|s: String| s@)
}

impl View for IndexDef {
    type V = IndexDefV;

    open spec fn view(&self) -> IndexDefV {
        IndexDefV {
            name: self.name@,
            kind: self.kind@,
            grouping: names_view(self.grouping@),
            ordering: self.ordering@,
        }
    }
}

/// The tokens joined by NUL characters.
pub open spec fn joined(tokens: Seq<Seq<char>>) -> Seq<char>
    decreases tokens.len(),
{
    if tokens.len() == 0 {
        seq![]
    } else if tokens.len() == 1 {
        tokens[0]
    } else {
        joined(tokens.drop_last()) + seq!['\0'] + tokens.last()
    }
}

/// Group key: the typed token of each grouping value, NUL-separated, as
/// UTF-8 bytes.
pub open spec fn group_key_spec(tokens: Seq<Seq<char>>) -> Seq<u8> {
    encode_utf8(joined(tokens))
}

pub fn group_key(tokens: &Vec<String>) -> (r: Vec<u8>)
    ensures
        r@ == group_key_spec(names_view(tokens@)),
{
    let mut s = String::new();
    let mut i: usize = 0;
    while i < tokens.len()
        invariant
            i <= tokens@.len(),
            s@ == joined(names_view(tokens@.take(i as int))),
        decreases tokens@.len() - i,
    {
        let ghost before = s@;
        if i > 0 {
            s.push('\0');
        }
        s.append(tokens[i].as_str());
        proof {
            let t1 = names_view(tokens@.take(i + 1));
            assert(t1.drop_last() =~= names_view(tokens@.take(i as int)));
            assert(t1.last() == tokens@[i as int]@);
            if i == 0 {
                assert(s@ =~= t1[0]);
            } else {
                assert(s@ =~= before + seq!['\0'] + tokens@[i as int]@);
            }
        }
        i += 1;
    }
    assert(tokens@.take(i as int) =~= tokens@);
    let b = s.as_str().as_bytes();
    bytes_from(b, 0)
}

/// The ordering key of a sortable token: number keys as they are, string
/// bytes after the 0x20 marker.
pub open spec fn order_key_spec(t: Seq<char>) -> Result<Seq<u8>, Error> {
    match token_sort_bytes_spec(t) {
        Ok(b) => Ok(if has_prefix(t, 's', ':') {
            seq![STRING_ORDER] + b
        } else {
            b
        }),
        Err(e) => Err(e),
    }
}

pub fn order_key(token: &str) -> (r: Result<Vec<u8>, Error>)
    ensures
        match (r, order_key_spec(token@)) {
            (Ok(a), Ok(b)) => a@ == b,
            (Err(a), Err(b)) => a == b,
            _ => false,
        },
{
    let bytes = match token_sort_bytes(token) {
        Ok(b) => b,
        Err(e) => {
            return Err(e);
        },
    };
    let c = crate::text::chars_of(token);
    if c.len() >= 2 && c[0] == 's' && c[1] == ':' {
        let mut out: Vec<u8> = vec![STRING_ORDER];
        let mut i: usize = 0;
        while i < bytes.len()
            invariant
                i <= bytes@.len(),
                out@ == seq![STRING_ORDER] + bytes@.take(i as int),
            decreases bytes@.len() - i,
        {
            out.push(bytes[i]);
            i += 1;
            assert(out@ =~= seq![STRING_ORDER] + bytes@.take(i as int));
        }
        assert(bytes@.take(i as int) =~= bytes@);
        Ok(out)
    } else {
        Ok(bytes)
    }
}

/// A scalar token: a string, number, boolean or null.
pub open spec fn is_scalar_token(t: Seq<char>) -> bool {
    has_prefix(t, 's', ':') || has_prefix(t, 'n', ':') || has_prefix(t, 'b', ':') || has_prefix(
        t,
        'z',
        ':',
    )
}

/// The scalar tokens at `field`, only the sortable ones when asked.
pub open spec fn scalar_set(keys: Set<(Seq<char>, Seq<char>)>, field: Seq<char>, sortable: bool) -> Set<Seq<char>> {
    Set::new(
        |t: Seq<char>|
            keys.contains((field, t)) && is_scalar_token(t) && (sortable ==> is_sortable_token(t)),
    )
}

/// The one element of a one-element set.
pub open spec fn only(s: Set<Seq<char>>) -> Option<Seq<char>> {
    if exists|t: Seq<char>| s == set![t] {
        Some(choose|t: Seq<char>| s == set![t])
    } else {
        None
    }
}

fn scalar_prefix(t: &str) -> (b: bool)
    ensures
        b == is_scalar_token(t@),
{
    let c = crate::text::chars_of(t);
    c.len() >= 2 && c[1] == ':' && (c[0] == 's' || c[0] == 'n' || c[0] == 'b' || c[0] == 'z')
}

/// The single scalar token at `field`, if exactly one is posted there.
pub fn single_scalar(attrs: &Attributes, field: &String, sortable: bool) -> (r: Option<String>)
    requires
        attrs.wf(),
    ensures
        match r {
            Some(t) => only(scalar_set(attrs.keys(), field@, sortable)) == Some(t@),
            None => only(scalar_set(attrs.keys(), field@, sortable)) is None,
        },
{
    let ghost s = scalar_set(attrs.keys(), field@, sortable);
    let ghost ps = attrs.postings@;
    let mut found: Option<String> = None;
    let mut second = false;
    let mut i: usize = 0;
    while i < attrs.postings.len()
        invariant
            attrs.wf(),
            ps == attrs.postings@,
            s == scalar_set(attrs.keys(), field@, sortable),
            i <= ps.len(),
            second ==> found is Some,
            found is None ==> forall|k: int| 0 <= k < i ==> !(ps[k].field@ == field@ && s.contains(
                ps[k].token@,
            )),
            found matches Some(t) ==> s.contains(t@) && exists|k: int|
                0 <= k < i && ps[k].field@ == field@ && ps[k].token@ == t@,
            !second ==> (found matches Some(t) ==> forall|k: int|
                0 <= k < i && ps[k].field@ == field@ && s.contains(ps[k].token@) ==> ps[k].token@
                    == t@),
            second ==> exists|a: Seq<char>, b: Seq<char>| a != b && s.contains(a) && s.contains(b),
        decreases ps.len() - i,
    {
        let p = &attrs.postings[i];
        if p.field == *field && scalar_prefix(p.token.as_str()) && (!sortable || is_sortable(
            p.token.as_str(),
        )) {
            assert(attrs.keys().contains((field@, p.token@))) by {
                assert(posting_key(ps[i as int]) == (field@, p.token@));
            }
            assert(s.contains(p.token@));
            match &found {
                None => {
                    found = Some(p.token.clone());
                },
                Some(t) => {
                    let ghost k = choose|k: int|
                        0 <= k < i && ps[k].field@ == field@ && ps[k].token@ == t@;
                    assert(posting_key(ps[k]) != posting_key(ps[i as int]));
                    assert(t@ != p.token@);
                    second = true;
                },
            }
        }
        i += 1;
    }
    proof {
        assert forall|t: Seq<char>| s.contains(t) implies exists|k: int|
            0 <= k < ps.len() && ps[k].field@ == field@ && ps[k].token@ == t by {
            assert(attrs.keys().contains((field@, t)));
            let k = choose|k: int| 0 <= k < ps.len() && #[trigger] posting_key(ps[k]) == (field@, t);
        }
    }
    if second {
        proof {
            let (a, b) = choose|a: Seq<char>, b: Seq<char>| a != b && s.contains(a) && s.contains(b);
            if exists|t: Seq<char>| s == set![t] {
                let t = choose|t: Seq<char>| s == set![t];
                assert(set![t].contains(a) && set![t].contains(b));
            }
        }
        None
    } else {
        match found {
            Some(t) => {
                proof {
                    assert(s =~= set![t@]);
                    let c = choose|u: Seq<char>| s == set![u];
                    assert(set![c].contains(t@));
                }
                Some(t)
            },
            None => {
                proof {
                    if exists|t: Seq<char>| s == set![t] {
                        let t = choose|t: Seq<char>| s == set![t];
                        assert(s.contains(t));
                    }
                }
                None
            },
        }
    }
}

pub type EntryV = (Seq<char>, Seq<u8>, Seq<u8>);

/// The grouping tokens of `d` when each grouping path holds one scalar.
pub open spec fn group_tokens(d: IndexDefV, keys: Set<(Seq<char>, Seq<char>)>) -> Option<Seq<Seq<char>>> {
    if forall|i: int| 0 <= i < d.grouping.len() ==> #[trigger] only(scalar_set(keys, d.grouping[i], false)) is Some {
        Some(Seq::new(d.grouping.len(), |i: int| only(scalar_set(keys, d.grouping[i], false))->Some_0))
    } else {
        None
    }
}

/// A Node's entry in the index `d`: only for Nodes of its type where every
/// grouping path holds exactly one scalar and the ordering path exactly one
/// number or string.
pub open spec fn entry_spec(d: IndexDefV, kind: Seq<char>, keys: Set<(Seq<char>, Seq<char>)>) -> Option<Result<EntryV, Error>> {
    if d.kind != kind {
        None
    } else {
        match group_tokens(d, keys) {
            None => None,
            Some(g) => match only(scalar_set(keys, d.ordering, true)) {
                None => None,
                Some(t) => match order_key_spec(t) {
                    Ok(k) => Some(Ok((d.name, group_key_spec(g), k))),
                    Err(e) => Some(Err(e)),
                },
            },
        }
    }
}

/// A Node's entries in every index, in the order of `defs`.
pub open spec fn entries_spec(defs: Seq<IndexDefV>, kind: Seq<char>, keys: Set<(Seq<char>, Seq<char>)>) -> Result<Seq<EntryV>, Error>
    decreases defs.len(),
{
    if defs.len() == 0 {
        Ok(seq![])
    } else {
        match entries_spec(defs.drop_last(), kind, keys) {
            Err(e) => Err(e),
            Ok(es) => match entry_spec(defs.last(), kind, keys) {
                None => Ok(es),
                Some(Err(e)) => Err(e),
                Some(Ok(x)) => Ok(es.push(x)),
            },
        }
    }
}

pub open spec fn entries_view(v: Seq<(String, Vec<u8>, Vec<u8>)>) -> Seq<EntryV> {
    v.map_values(|e: (String, Vec<u8>, Vec<u8>)| (e.0@, e.1@, e.2@))
}

pub open spec fn defs_view(v: Seq<IndexDef>) -> Seq<IndexDefV> {
    v.map_values(|d: IndexDef| d@)
}

fn entry(def: &IndexDef, kind: &String, attrs: &Attributes) -> (r: Option<Result<(String, Vec<u8>, Vec<u8>), Error>>)
    requires
        attrs.wf(),
    ensures
        match (r, entry_spec(def@, kind@, attrs.keys())) {
            (None, None) => true,
            (Some(Ok(a)), Some(Ok(b))) => (a.0@, a.1@, a.2@) == b,
            (Some(Err(a)), Some(Err(b))) => a == b,
            _ => false,
        },
{
    if def.kind != *kind {
        return None;
    }
    let ghost keys = attrs.keys();
    let mut group: Vec<String> = Vec::new();
    let mut i: usize = 0;
    while i < def.grouping.len()
        invariant
            attrs.wf(),
            keys == attrs.keys(),
            i <= def.grouping@.len(),
            group@.len() == i,
            forall|k: int| 0 <= k < i ==> #[trigger] only(scalar_set(keys, def@.grouping[k], false))
                == Some(group@[k]@),
        decreases def.grouping@.len() - i,
    {
        assert(def@.grouping[i as int] == def.grouping@[i as int]@);
        match single_scalar(attrs, &def.grouping[i], false) {
            Some(t) => {
                group.push(t);
            },
            None => {
                assert(group_tokens(def@, keys) is None);
                return None;
            },
        }
        i += 1;
    }
    proof {
        assert(group_tokens(def@, keys) is Some);
        assert(names_view(group@) =~= group_tokens(def@, keys)->Some_0);
    }
    let token = match single_scalar(attrs, &def.ordering, true) {
        Some(t) => t,
        None => {
            return None;
        },
    };
    match order_key(token.as_str()) {
        Ok(k) => Some(Ok((def.name.clone(), group_key(&group), k))),
        Err(e) => Some(Err(e)),
    }
}

/// A Node's entries: only for indexes over its type where every grouping
/// path holds exactly one scalar and the ordering path exactly one number or
/// string.
pub fn entries(defs: &Vec<IndexDef>, kind: &String, attrs: &Attributes) -> (r: Result<Vec<(String, Vec<u8>, Vec<u8>)>, Error>)
    requires
        attrs.wf(),
    ensures
        match (r, entries_spec(defs_view(defs@), kind@, attrs.keys())) {
            (Ok(a), Ok(b)) => entries_view(a@) == b,
            (Err(a), Err(b)) => a == b,
            _ => false,
        },
{
    let ghost dv = defs_view(defs@);
    let mut out: Vec<(String, Vec<u8>, Vec<u8>)> = Vec::new();
    let mut i: usize = 0;
    assert(dv.take(0) =~= Seq::<IndexDefV>::empty());
    assert(entries_view(out@) =~= Seq::<EntryV>::empty());
    while i < defs.len()
        invariant
            attrs.wf(),
            dv == defs_view(defs@),
            i <= defs@.len(),
            entries_spec(dv.take(i as int), kind@, attrs.keys()) == Ok::<Seq<EntryV>, Error>(entries_view(out@)),
        decreases defs@.len() - i,
    {
        assert(dv.take(i + 1).drop_last() =~= dv.take(i as int));
        assert(dv.take(i + 1).last() == defs@[i as int]@);
        match entry(&defs[i], kind, attrs) {
            None => {},
            Some(Ok(e)) => {
                let ghost before = out@;
                out.push(e);
                assert(entries_view(out@) =~= entries_view(before).push((e.0@, e.1@, e.2@)));
            },
            Some(Err(e)) => {
                proof {
                    lemma_entries_prefix(dv, kind@, attrs.keys(), i + 1);
                }
                return Err(e);
            },
        }
        i += 1;
    }
    assert(dv.take(i as int) =~= dv);
    Ok(out)
}

pub proof fn lemma_entries_prefix(defs: Seq<IndexDefV>, kind: Seq<char>, keys: Set<(Seq<char>, Seq<char>)>, k: int)
    requires
        0 <= k <= defs.len(),
        entries_spec(defs.take(k), kind, keys) is Err,
    ensures
        entries_spec(defs, kind, keys) == entries_spec(defs.take(k), kind, keys),
    decreases defs.len() - k,
{
    if k < defs.len() {
        assert(defs.take(k + 1).drop_last() =~= defs.take(k));
        lemma_entries_prefix(defs, kind, keys, k + 1);
    } else {
        assert(defs.take(k) =~= defs);
    }
}

/// An index path: not empty, and a valid field.
pub open spec fn path_check(p: Seq<char>) -> Result<(), Error> {
    if p.len() == 0 {
        Err(Error::EmptyIndexPath)
    } else {
        field_check(p)
    }
}

/// What checking a definition answers: a name and a type, at least one
/// grouping path, then each grouping path and the ordering path in turn.
pub open spec fn definition_check(d: IndexDefV) -> Result<(), Error> {
    if d.name.len() == 0 || d.kind.len() == 0 {
        Err(Error::IndexNeedsName)
    } else if d.grouping.len() == 0 {
        Err(Error::IndexNeedsGrouping)
    } else {
        first_refusal(
            all_pass(d.grouping.map_values(|p: Seq<char>| path_check(p))),
            path_check(d.ordering),
        )
    }
}

fn check_path(p: &String) -> (r: Result<(), Error>)
    ensures
        r == path_check(p@),
{
    if p.as_str().is_empty() {
        return Err(Error::EmptyIndexPath);
    }
    field_valid(p.as_str())
}

/// Checks an index definition before it is stored.
pub fn check_definition(def: &IndexDef) -> (r: Result<(), Error>)
    ensures
        r == definition_check(def@),
{
    if def.name.as_str().is_empty() || def.kind.as_str().is_empty() {
        return Err(Error::IndexNeedsName);
    }
    if def.grouping.len() == 0 {
        return Err(Error::IndexNeedsGrouping);
    }
    let ghost rs = def@.grouping.map_values(|p: Seq<char>| path_check(p));
    let mut i: usize = 0;
    while i < def.grouping.len()
        invariant
            i <= def.grouping@.len(),
            rs == def@.grouping.map_values(|p: Seq<char>| path_check(p)),
            rs.len() == def.grouping@.len(),
            def@.name.len() > 0 && def@.kind.len() > 0 && def@.grouping.len() > 0,
            all_pass(rs.take(i as int)) == Ok::<(), Error>(()),
        decreases def.grouping@.len() - i,
    {
        assert(def@.grouping[i as int] == def.grouping@[i as int]@);
        assert(rs[i as int] == path_check(def.grouping@[i as int]@));
        proof {
            lemma_all_pass_next(rs, i as int);
        }
        let checked = check_path(&def.grouping[i]);
        match checked {
            Ok(()) => {
                proof {
                    lemma_unit_result(checked);
                }
            },
            Err(e) => {
                proof {
                    lemma_all_pass_stuck(rs, i + 1, rs.len() as int);
                    assert(rs.take(rs.len() as int) =~= rs);
                }
                return Err(e);
            },
        }
        i += 1;
    }
    assert(rs.take(i as int) =~= rs);
    check_path(&def.ordering)
}

/// Two definitions are the same definition.
pub fn same_definition(a: &IndexDef, b: &IndexDef) -> (r: bool)
    ensures
        r == (a@ == b@),
{
    if a.name != b.name || a.kind != b.kind || a.ordering != b.ordering || a.grouping.len() != b.grouping.len() {
        assert(a@.grouping.len() == a.grouping@.len());
        assert(b@.grouping.len() == b.grouping@.len());
        return false;
    }
    let mut i: usize = 0;
    while i < a.grouping.len()
        invariant
            i <= a.grouping@.len(),
            a.grouping@.len() == b.grouping@.len(),
            forall|k: int| 0 <= k < i ==> a.grouping@[k]@ == b.grouping@[k]@,
        decreases a.grouping@.len() - i,
    {
        if a.grouping[i] != b.grouping[i] {
            assert(a@.grouping[i as int] != b@.grouping[i as int]);
            return false;
        }
        i += 1;
    }
    assert(a@.grouping =~= b@.grouping);
    true
}

/// The scalar tokens at `field`, in posting order.
pub open spec fn scalar_tokens(ps: Seq<crate::index::visit::Posting>, field: Seq<char>) -> Seq<Seq<char>>
    decreases ps.len(),
{
    if ps.len() == 0 {
        seq![]
    } else if ps.last().field@ == field && is_scalar_token(ps.last().token@) {
        scalar_tokens(ps.drop_last(), field).push(ps.last().token@)
    } else {
        scalar_tokens(ps.drop_last(), field)
    }
}

pub proof fn lemma_scalar_tokens(ps: Seq<crate::index::visit::Posting>, field: Seq<char>)
    requires
        forall|i: int, j: int|
            0 <= i < ps.len() && 0 <= j < ps.len() && i != j ==> posting_key(#[trigger] ps[i]) != posting_key(#[trigger] ps[j]),
    ensures
        forall|t: Seq<char>| scalar_tokens(ps, field).contains(t) <==> exists|j: int|
            0 <= j < ps.len() && ps[j].field@ == field && ps[j].token@ == t && is_scalar_token(t),
        forall|a: int, b: int| 0 <= a < b < scalar_tokens(ps, field).len() ==> scalar_tokens(ps, field)[a] != scalar_tokens(ps, field)[b],
    decreases ps.len(),
{
    if ps.len() > 0 {
        let d = ps.drop_last();
        assert forall|i: int, j: int|
            0 <= i < d.len() && 0 <= j < d.len() && i != j implies posting_key(#[trigger] d[i]) != posting_key(#[trigger] d[j]) by {
            assert(d[i] == ps[i] && d[j] == ps[j]);
        }
        lemma_scalar_tokens(d, field);
        let st = scalar_tokens(ps, field);
        let sd = scalar_tokens(d, field);
        let last = ps.len() - 1;
        assert forall|t: Seq<char>| st.contains(t) <==> exists|j: int|
            0 <= j < ps.len() && ps[j].field@ == field && ps[j].token@ == t && is_scalar_token(t) by {
            if st.contains(t) {
                if sd.contains(t) {
                    let j = choose|j: int| 0 <= j < d.len() && d[j].field@ == field && d[j].token@ == t && is_scalar_token(t);
                    assert(ps[j] == d[j]);
                } else {
                    let k = choose|k: int| 0 <= k < st.len() && st[k] == t;
                    if k < sd.len() {
                        assert(st[k] == sd[k]);
                        assert(sd.contains(t));
                    }
                    assert(ps[last].token@ == t);
                }
            }
            if exists|j: int| 0 <= j < ps.len() && ps[j].field@ == field && ps[j].token@ == t && is_scalar_token(t) {
                let j = choose|j: int| 0 <= j < ps.len() && ps[j].field@ == field && ps[j].token@ == t && is_scalar_token(t);
                if j < last {
                    assert(d[j] == ps[j]);
                    assert(sd.contains(t));
                    let k = choose|k: int| 0 <= k < sd.len() && sd[k] == t;
                    assert(st[k] == t);
                } else {
                    assert(st[st.len() - 1] == t);
                }
            }
        }
        if ps.last().field@ == field && is_scalar_token(ps.last().token@) {
            assert forall|a: int, b: int| 0 <= a < b < st.len() implies st[a] != st[b] by {
                if b == st.len() - 1 {
                    assert(sd.contains(st[a])) by {
                        assert(st[a] == sd[a]);
                    }
                    let j = choose|j: int| 0 <= j < d.len() && d[j].field@ == field && d[j].token@ == st[a] && is_scalar_token(st[a]);
                    assert(ps[j] == d[j]);
                    assert(posting_key(ps[j]) != posting_key(ps[last]));
                } else {
                    assert(st[a] == sd[a] && st[b] == sd[b]);
                }
            }
        }
    }
}

/// Every scalar token posted at `field`, each once, in posting order.
pub fn scalars(attrs: &Attributes, field: &String) -> (r: Vec<String>)
    requires
        attrs.wf(),
    ensures
        r@.map_values(|t: String| t@) == scalar_tokens(attrs.postings@, field@),
        forall|t: Seq<char>| scalar_set(attrs.keys(), field@, false).contains(t) <==> exists|i: int|
            0 <= i < r@.len() && #[trigger] r@[i]@ == t,
        forall|i: int, j: int| 0 <= i < j < r@.len() ==> r@[i]@ != r@[j]@,
{
    let ghost ps = attrs.postings@;
    let mut out: Vec<String> = Vec::new();
    let mut i: usize = 0;
    while i < attrs.postings.len()
        invariant
            ps == attrs.postings@,
            i <= ps.len(),
            out@.map_values(|t: String| t@) == scalar_tokens(ps.take(i as int), field@),
        decreases ps.len() - i,
    {
        let p = &attrs.postings[i];
        let ghost before = out@;
        if p.field == *field && scalar_prefix(p.token.as_str()) {
            out.push(p.token.clone());
        }
        proof {
            assert(ps.take(i + 1).drop_last() =~= ps.take(i as int));
            assert(ps.take(i + 1).last() == ps[i as int]);
            assert(out@.map_values(|t: String| t@) =~= scalar_tokens(ps.take(i + 1), field@));
        }
        i += 1;
    }
    proof {
        assert(ps.take(i as int) =~= ps);
        lemma_scalar_tokens(ps, field@);
        let st = scalar_tokens(ps, field@);
        let s = scalar_set(attrs.keys(), field@, false);
        assert forall|t: Seq<char>| s.contains(t) <==> exists|k: int| 0 <= k < out@.len() && #[trigger] out@[k]@ == t by {
            if s.contains(t) {
                assert(attrs.keys().contains((field@, t)));
                let j = choose|j: int| 0 <= j < ps.len() && #[trigger] posting_key(ps[j]) == (field@, t);
                assert(st.contains(t));
                let k = choose|k: int| 0 <= k < st.len() && st[k] == t;
                assert(out@.map_values(|x: String| x@)[k] == out@[k]@);
            }
            if exists|k: int| 0 <= k < out@.len() && #[trigger] out@[k]@ == t {
                let k = choose|k: int| 0 <= k < out@.len() && #[trigger] out@[k]@ == t;
                assert(out@.map_values(|x: String| x@)[k] == out@[k]@);
                assert(st.contains(t));
                let j = choose|j: int| 0 <= j < ps.len() && ps[j].field@ == field@ && ps[j].token@ == t && is_scalar_token(t);
                assert(posting_key(ps[j]) == (field@, t));
                assert(attrs.keys().contains((field@, t)));
            }
        }
        assert forall|a: int, b: int| 0 <= a < b < out@.len() implies out@[a]@ != out@[b]@ by {
            assert(out@.map_values(|x: String| x@)[a] == out@[a]@);
            assert(out@.map_values(|x: String| x@)[b] == out@[b]@);
        }
    }
    out
}

/// A common first byte does not change the order of two byte strings.
proof fn lemma_lt_same_first(c: u8, a: Seq<u8>, b: Seq<u8>)
    ensures
        bytes_lt(seq![c] + a, seq![c] + b) == bytes_lt(a, b),
{
    assert((seq![c] + a).drop_first() =~= a);
    assert((seq![c] + b).drop_first() =~= b);
}

/// What ordering keys are made of: a string token's key is 0x20 then its
/// UTF-8 bytes, a number token's key is the number key it spells, every
/// number key sorts below every string's key, and a token that is neither
/// has no ordering key.
pub proof fn law_order_key_kinds(x: Seq<char>, k: Seq<u8>, number: Seq<char>, t: Seq<char>)
    ensures
        order_key_spec(seq!['s', ':'] + x) == Ok::<Seq<u8>, Error>(seq![STRING_ORDER] + encode_utf8(x)),
        order_key_spec(number_token_spec(k)) == Ok::<Seq<u8>, Error>(k),
        number_key_spec(number) matches Ok(key) ==> bytes_lt(key, seq![STRING_ORDER] + encode_utf8(x)),
        !is_sortable_token(t) ==> order_key_spec(t) == Err::<Seq<u8>, Error>(Error::NotSortable),
{
    let st = seq!['s', ':'] + x;
    assert(st.skip(2) =~= x);
    assert(st[0] == 's' && st[1] == ':');
    let nt = number_token_spec(k);
    assert(nt.skip(2) =~= hex_spec(k));
    assert(nt[0] == 'n' && nt[1] == ':');
    law_hex_roundtrip(k);
    if let Ok(key) = number_key_spec(number) {
        assert(key.len() > 0 && key[0] <= 2);
        let sk = seq![STRING_ORDER] + encode_utf8(x);
        assert(sk[0] == STRING_ORDER);
    }
}

/// Two tokens of one kind, both sortable, have ordering keys in the order of
/// the bytes they sort by.
pub proof fn law_order_key_same_kind(t1: Seq<char>, t2: Seq<char>)
    requires
        token_sort_bytes_spec(t1) is Ok,
        token_sort_bytes_spec(t2) is Ok,
        has_prefix(t1, 's', ':') == has_prefix(t2, 's', ':'),
    ensures
        bytes_lt(order_key_spec(t1)->Ok_0, order_key_spec(t2)->Ok_0) == bytes_lt(
            token_sort_bytes_spec(t1)->Ok_0,
            token_sort_bytes_spec(t2)->Ok_0,
        ),
{
    lemma_lt_same_first(STRING_ORDER, token_sort_bytes_spec(t1)->Ok_0, token_sort_bytes_spec(t2)->Ok_0);
}

/// What declaring an index does, given the definitions already stored.
#[derive(Debug, Clone, Copy, PartialEq, Eq, Structural)]
pub enum DefineStep {
    /// Store the definition and index the existing Nodes of its type.
    Store,
    /// The identical definition is already stored: nothing to do.
    Keep,
}

/// The first stored definition with this name.
pub open spec fn named(stored: Seq<IndexDefV>, name: Seq<char>) -> Option<IndexDefV>
    decreases stored.len(),
{
    if stored.len() == 0 {
        None
    } else if stored[0].name == name {
        Some(stored[0])
    } else {
        named(stored.drop_first(), name)
    }
}

/// Declaring `def`: refused when it is malformed, kept when the identical
/// definition is stored under its name, refused when a different one is,
/// and stored otherwise.
pub open spec fn define_step_spec(stored: Seq<IndexDefV>, def: IndexDefV) -> Result<DefineStep, Error> {
    match definition_check(def) {
        Err(e) => Err(e),
        Ok(()) => match named(stored, def.name) {
            None => Ok(DefineStep::Store),
            Some(d) => if d == def {
                Ok(DefineStep::Keep)
            } else {
                Err(Error::IndexConflict)
            },
        },
    }
}

/// Decides what declaring `def` does when `stored` are the definitions.
pub fn define_step(stored: &Vec<IndexDef>, def: &IndexDef) -> (r: Result<DefineStep, Error>)
    ensures
        r == define_step_spec(defs_view(stored@), def@),
{
    match check_definition(def) {
        Err(e) => {
            return Err(e);
        },
        Ok(()) => {},
    }
    let ghost all = defs_view(stored@);
    let mut i: usize = 0;
    assert(all.skip(0) =~= all);
    while i < stored.len()
        invariant
            i <= stored@.len(),
            all == defs_view(stored@),
            named(all, def@.name) == named(all.skip(i as int), def@.name),
            definition_check(def@) is Ok,
        decreases stored@.len() - i,
    {
        let ghost rest = all.skip(i as int);
        assert(rest[0] == stored@[i as int]@);
        if stored[i].name == def.name {
            assert(rest[0].name == def@.name);
            assert(named(rest, def@.name) == Some(rest[0]));
            if same_definition(&stored[i], def) {
                return Ok(DefineStep::Keep);
            }
            return Err(Error::IndexConflict);
        }
        assert(rest.drop_first() =~= all.skip(i + 1));
        i += 1;
    }
    Ok(DefineStep::Store)
}

/// Declaring the identical definition again does nothing, and declaring a
/// different one under the same name is refused: once `def` is stored, the
/// same declaration is kept and a different well-formed one conflicts.
pub proof fn law_define_again(stored: Seq<IndexDefV>, def: IndexDefV, other: IndexDefV)
    requires
        define_step_spec(stored, def) == Ok::<DefineStep, Error>(DefineStep::Store),
    ensures
        define_step_spec(stored.push(def), def) == Ok::<DefineStep, Error>(DefineStep::Keep),
        other.name == def.name && other != def && definition_check(other) is Ok
            ==> define_step_spec(stored.push(def), other) == Err::<DefineStep, Error>(Error::IndexConflict),
{
    lemma_named_push(stored, def, def.name);
}

proof fn lemma_named_push(stored: Seq<IndexDefV>, def: IndexDefV, name: Seq<char>)
    requires
        named(stored, name) is None,
        def.name == name,
    ensures
        named(stored.push(def), name) == Some(def),
    decreases stored.len(),
{
    if stored.len() > 0 {
        assert(stored.push(def).drop_first() =~= stored.drop_first().push(def));
        lemma_named_push(stored.drop_first(), def, name);
    } else {
        assert(stored.push(def)[0] == def);
    }
}

} // verus!
