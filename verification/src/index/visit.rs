//! Walks a Node's attrs into postings and interval rows.
//!
//! Each value is posted under its concrete path (`/jobs/1/company`) and, once
//! an array holding objects or arrays has been crossed, under the same path
//! with every such index replaced by `*` (`/jobs/*/company`). Scalar array
//! members are already found through the array path itself (`/skills`), so
//! they get no `*`.

use super::path::{escape, escape_spec};
use super::value::{
    has_prefix, infinity_key, number_key, number_key_spec, number_token_spec, token, token_spec,
};
use crate::error::Error;
use crate::json::{json_wf, keys_distinct, lemma_entries_view, lemma_items_view, Json, JsonV};
use crate::text::{bytes_lt, decimal, decimal_spec, join_segment, less_bytes};
use vstd::prelude::*;

verus! {

/// One posting: `token` is held at `field`; `number` is the number key when
/// the token is a number.
#[derive(Debug, Clone, PartialEq, Eq)]
pub struct Posting {
    pub field: String,
    pub token: String,
    pub number: Option<Vec<u8>>,
}

/// One interval row: `[lo, hi)` at `field`; `hi` is the infinity key when open.
#[derive(Debug, Clone, PartialEq, Eq)]
pub struct IntervalRow {
    pub field: String,
    pub lo: Vec<u8>,
    pub hi: Vec<u8>,
}

/// A Node's index entries.
#[derive(Debug, Clone, PartialEq, Eq)]
pub struct Attributes {
    pub postings: Vec<Posting>,
    pub intervals: Vec<IntervalRow>,
}

pub open spec fn number_view(n: Option<Vec<u8>>) -> Option<Seq<u8>> {
    match n {
        Some(v) => Some(v@),
        None => None,
    }
}

/// A posting's number is the key its token names, and only number tokens
/// carry one.
pub open spec fn number_consistent(token: Seq<char>, number: Option<Seq<u8>>) -> bool {
    match number {
        Some(k) => token == number_token_spec(k),
        None => !has_prefix(token, 'n', ':'),
    }
}

pub open spec fn posting_key(p: Posting) -> (Seq<char>, Seq<char>) {
    (p.field@, p.token@)
}

pub open spec fn row_key(r: IntervalRow) -> (Seq<char>, Seq<u8>, Seq<u8>) {
    (r.field@, r.lo@, r.hi@)
}

impl Attributes {
    /// Every (field, token) posted.
    pub open spec fn keys(&self) -> Set<(Seq<char>, Seq<char>)> {
        Set::new(
            |k: (Seq<char>, Seq<char>)|
                exists|i: int|
                    0 <= i < self.postings@.len() && #[trigger] posting_key(self.postings@[i]) == k,
        )
    }

    /// Every (field, start key, end key) row.
    pub open spec fn rows(&self) -> Set<(Seq<char>, Seq<u8>, Seq<u8>)> {
        Set::new(
            |k: (Seq<char>, Seq<u8>, Seq<u8>)|
                exists|i: int|
                    0 <= i < self.intervals@.len() && #[trigger] row_key(self.intervals@[i]) == k,
        )
    }

    /// Each posting and row once; numbers agree with their tokens.
    pub open spec fn wf(&self) -> bool {
        &&& forall|i: int, j: int|
            0 <= i < self.postings@.len() && 0 <= j < self.postings@.len() && i != j
                ==> posting_key(#[trigger] self.postings@[i]) != posting_key(
                #[trigger] self.postings@[j],
            )
        &&& forall|i: int|
            0 <= i < self.postings@.len() ==> number_consistent(
                #[trigger] self.postings@[i].token@,
                number_view(self.postings@[i].number),
            )
        &&& forall|i: int, j: int|
            0 <= i < self.intervals@.len() && 0 <= j < self.intervals@.len() && i != j
                ==> row_key(#[trigger] self.intervals@[i]) != row_key(#[trigger] self.intervals@[j])
    }

    /// No postings and no rows.
    pub fn new() -> (a: Attributes)
        ensures
            a.wf(),
            a.keys() == Set::<(Seq<char>, Seq<char>)>::empty(),
            a.rows() == Set::<(Seq<char>, Seq<u8>, Seq<u8>)>::empty(),
    {
        let a = Attributes { postings: Vec::new(), intervals: Vec::new() };
        assert(a.keys() =~= Set::<(Seq<char>, Seq<char>)>::empty());
        assert(a.rows() =~= Set::<(Seq<char>, Seq<u8>, Seq<u8>)>::empty());
        a
    }

    /// Adds the posting (field, token) unless it is already there.
    pub fn insert_posting(&mut self, field: String, token: String, number: Option<Vec<u8>>)
        requires
            old(self).wf(),
            number_consistent(token@, number_view(number)),
        ensures
            final(self).wf(),
            final(self).keys() == old(self).keys().insert((field@, token@)),
            final(self).rows() == old(self).rows(),
    {
        let mut i: usize = 0;
        while i < self.postings.len()
            invariant
                *self == *old(self),
                self.wf(),
                i <= self.postings@.len(),
                forall|k: int| 0 <= k < i ==> posting_key(self.postings@[k]) != (field@, token@),
            decreases self.postings@.len() - i,
        {
            if self.postings[i].field == field && self.postings[i].token == token {
                assert(posting_key(self.postings@[i as int]) == (field@, token@));
                assert(self.keys().contains((field@, token@)));
                assert(self.keys().insert((field@, token@)) =~= self.keys());
                return;
            }
            i += 1;
        }
        let ghost before = self.postings@;
        let ghost prior = *self;
        let ghost new_key = (field@, token@);
        let entry = Posting { field, token, number };
        assert(number_consistent(entry.token@, number_view(entry.number)));
        assert(posting_key(entry) == new_key);
        self.postings.push(entry);
        assert(posting_key(self.postings@[before.len() as int]) == new_key);
        assert forall|a: int, b: int|
            0 <= a < self.postings@.len() && 0 <= b < self.postings@.len() && a != b implies posting_key(
            #[trigger] self.postings@[a],
        ) != posting_key(#[trigger] self.postings@[b]) by {
            if a < before.len() && b < before.len() {
                assert(self.postings@[a] == before[a]);
                assert(self.postings@[b] == before[b]);
            } else if a < before.len() {
                assert(self.postings@[a] == before[a]);
            } else {
                assert(self.postings@[b] == before[b]);
            }
        }
        assert forall|a: int| 0 <= a < self.postings@.len() implies number_consistent(
            #[trigger] self.postings@[a].token@,
            number_view(self.postings@[a].number),
        ) by {
            if a < before.len() {
                assert(self.postings@[a] == prior.postings@[a]);
                assert(number_consistent(
                    prior.postings@[a].token@,
                    number_view(prior.postings@[a].number),
                ));
            }
        }
        assert(self.keys() =~= old(self).keys().insert((field@, token@))) by {
            assert forall|k| self.keys().contains(k) implies old(self).keys().insert(
                (field@, token@),
            ).contains(k) by {
                let j = choose|j: int|
                    0 <= j < self.postings@.len() && #[trigger] posting_key(self.postings@[j]) == k;
                if j < before.len() {
                    assert(posting_key(before[j]) == k);
                }
            }
            assert forall|k| old(self).keys().insert((field@, token@)).contains(k) implies self.keys().contains(
                k,
            ) by {
                if k != (field@, token@) {
                    let j = choose|j: int|
                        0 <= j < before.len() && #[trigger] posting_key(before[j]) == k;
                    assert(posting_key(self.postings@[j]) == k);
                } else {
                    assert(posting_key(self.postings@[before.len() as int]) == k);
                }
            }
        }
        assert(self.rows() =~= old(self).rows());
    }

    /// Adds the row (field, lo, hi) unless it is already there.
    pub fn insert_row(&mut self, field: String, lo: Vec<u8>, hi: Vec<u8>)
        requires
            old(self).wf(),
        ensures
            final(self).wf(),
            final(self).keys() == old(self).keys(),
            final(self).rows() == old(self).rows().insert((field@, lo@, hi@)),
    {
        let mut i: usize = 0;
        while i < self.intervals.len()
            invariant
                *self == *old(self),
                self.wf(),
                i <= self.intervals@.len(),
                forall|k: int| 0 <= k < i ==> row_key(self.intervals@[k]) != (field@, lo@, hi@),
            decreases self.intervals@.len() - i,
        {
            if self.intervals[i].field == field && crate::text::same_bytes(
                self.intervals[i].lo.as_slice(),
                lo.as_slice(),
            ) && crate::text::same_bytes(self.intervals[i].hi.as_slice(), hi.as_slice()) {
                assert(row_key(self.intervals@[i as int]) == (field@, lo@, hi@));
                assert(self.rows().contains((field@, lo@, hi@)));
                assert(self.rows().insert((field@, lo@, hi@)) =~= self.rows());
                return;
            }
            i += 1;
        }
        let ghost before = self.intervals@;
        self.intervals.push(IntervalRow { field, lo, hi });
        assert(self.rows() =~= old(self).rows().insert((field@, lo@, hi@))) by {
            assert forall|k| self.rows().contains(k) implies old(self).rows().insert(
                (field@, lo@, hi@),
            ).contains(k) by {
                let j = choose|j: int|
                    0 <= j < self.intervals@.len() && #[trigger] row_key(self.intervals@[j]) == k;
                if j < before.len() {
                    assert(row_key(before[j]) == k);
                }
            }
            assert forall|k| old(self).rows().insert((field@, lo@, hi@)).contains(k) implies self.rows().contains(
                k,
            ) by {
                if k != (field@, lo@, hi@) {
                    let j = choose|j: int| 0 <= j < before.len() && #[trigger] row_key(before[j]) == k;
                    assert(row_key(self.intervals@[j]) == k);
                } else {
                    assert(row_key(self.intervals@[before.len() as int]) == k);
                }
            }
        }
        assert(self.keys() =~= old(self).keys());
    }
}

pub open spec fn opt_view(s: Option<&String>) -> Option<Seq<char>> {
    match s {
        Some(w) => Some(w@),
        None => None,
    }
}

pub open spec fn exists_token() -> Seq<char> {
    seq!['e', ':']
}

/// `t` posted at `path`, and at `wild` when there is one.
pub open spec fn post_set(path: Seq<char>, wild: Option<Seq<char>>, t: Seq<char>) -> Set<
    (Seq<char>, Seq<char>),
> {
    match wild {
        Some(w) => set![(path, t), (w, t)],
        None => set![(path, t)],
    }
}

pub open spec fn child_path(path: Seq<char>, segment: Seq<char>) -> Seq<char> {
    path + seq!['/'] + segment
}

pub open spec fn child_wild(wild: Option<Seq<char>>, segment: Seq<char>) -> Option<Seq<char>> {
    match wild {
        Some(w) => Some(child_path(w, segment)),
        None => None,
    }
}

/// The wildcard path of the members of an array at `path`.
pub open spec fn array_wild(path: Seq<char>, wild: Option<Seq<char>>) -> Seq<char> {
    match wild {
        Some(w) => child_path(w, seq!['*']),
        None => child_path(path, seq!['*']),
    }
}

pub open spec fn is_container(v: JsonV) -> bool {
    v is Object || v is Array
}

/// The scalar token of `v` (meaningful when `v` is a scalar with a key).
pub open spec fn scalar_token(v: JsonV) -> Seq<char> {
    token_spec(v)->Ok_0.0
}

/// Postings of `v` at `path` (and `wild`): an existence mark, then every
/// scalar under its path, recursively.
pub open spec fn visit_keys(path: Seq<char>, wild: Option<Seq<char>>, v: JsonV) -> Set<
    (Seq<char>, Seq<char>),
>
    decreases v,
{
    post_set(path, wild, exists_token()).union(
        match v {
            JsonV::Object(es) => entries_keys(path, wild, es),
            JsonV::Array(items) => items_keys(path, wild, items),
            _ => post_set(path, wild, scalar_token(v)),
        },
    )
}

pub open spec fn entries_keys(path: Seq<char>, wild: Option<Seq<char>>, es: Seq<(Seq<char>, JsonV)>) -> Set<
    (Seq<char>, Seq<char>),
>
    decreases es,
{
    if es.len() == 0 {
        Set::empty()
    } else {
        let seg = escape_spec(es.last().0);
        entries_keys(path, wild, es.drop_last()).union(
            visit_keys(child_path(path, seg), child_wild(wild, seg), es.last().1),
        )
    }
}

pub open spec fn items_keys(path: Seq<char>, wild: Option<Seq<char>>, items: Seq<JsonV>) -> Set<
    (Seq<char>, Seq<char>),
>
    decreases items,
{
    if items.len() == 0 {
        Set::empty()
    } else {
        let child = items.last();
        let p = child_path(path, decimal_spec((items.len() - 1) as nat));
        items_keys(path, wild, items.drop_last()).union(
            if is_container(child) {
                visit_keys(p, Some(array_wild(path, wild)), child)
            } else {
                visit_keys(p, None, child).union(post_set(path, wild, scalar_token(child)))
            },
        )
    }
}

/// The value at `key` in an object's members.
pub open spec fn lookup(es: Seq<(Seq<char>, JsonV)>, key: Seq<char>) -> Option<JsonV>
    decreases es.len(),
{
    if es.len() == 0 {
        None
    } else if es.last().0 == key {
        Some(es.last().1)
    } else {
        lookup(es.drop_last(), key)
    }
}

pub open spec fn start_key() -> Seq<char> {
    seq!['s', 't', 'a', 'r', 't']
}

pub open spec fn end_key() -> Seq<char> {
    seq!['e', 'n', 'd']
}

/// An object with a numeric `start` is the interval [start, end). A missing
/// or null `end` is open; a non-numeric end, or an end before start, makes
/// no interval.
pub open spec fn interval_of(es: Seq<(Seq<char>, JsonV)>) -> Option<(Seq<u8>, Seq<u8>)> {
    match lookup(es, start_key()) {
        Some(JsonV::Number(n)) => {
            let lo = number_key_spec(n)->Ok_0;
            let hi = match lookup(es, end_key()) {
                None => Some(infinity_key()),
                Some(JsonV::Null) => Some(infinity_key()),
                Some(JsonV::Number(m)) => Some(number_key_spec(m)->Ok_0),
                Some(_) => None,
            };
            match hi {
                Some(h) => if bytes_lt(h, lo) {
                    None
                } else {
                    Some((lo, h))
                },
                None => None,
            }
        },
        _ => None,
    }
}

/// Whether reading the interval of an object fails: a numeric start
/// without a key, or, after a start with one, a numeric end without one.
pub open spec fn interval_check(es: Seq<(Seq<char>, JsonV)>) -> Result<(), Error> {
    match lookup(es, start_key()) {
        Some(JsonV::Number(n)) => match number_key_spec(n) {
            Err(e) => Err(e),
            Ok(_) => match lookup(es, end_key()) {
                Some(JsonV::Number(m)) => match number_key_spec(m) {
                    Err(e) => Err(e),
                    Ok(_) => Ok(()),
                },
                _ => Ok(()),
            },
        },
        _ => Ok(()),
    }
}

pub open spec fn row_set(path: Seq<char>, wild: Option<Seq<char>>, lo: Seq<u8>, hi: Seq<u8>) -> Set<
    (Seq<char>, Seq<u8>, Seq<u8>),
> {
    match wild {
        Some(w) => set![(path, lo, hi), (w, lo, hi)],
        None => set![(path, lo, hi)],
    }
}

/// Interval rows of `v` at `path` (and `wild`), recursively.
pub open spec fn visit_rows(path: Seq<char>, wild: Option<Seq<char>>, v: JsonV) -> Set<
    (Seq<char>, Seq<u8>, Seq<u8>),
>
    decreases v,
{
    match v {
        JsonV::Object(es) => match interval_of(es) {
            Some((lo, hi)) => row_set(path, wild, lo, hi),
            None => Set::empty(),
        }.union(entries_rows(path, wild, es)),
        JsonV::Array(items) => items_rows(path, wild, items),
        _ => Set::empty(),
    }
}

pub open spec fn entries_rows(path: Seq<char>, wild: Option<Seq<char>>, es: Seq<(Seq<char>, JsonV)>) -> Set<
    (Seq<char>, Seq<u8>, Seq<u8>),
>
    decreases es,
{
    if es.len() == 0 {
        Set::empty()
    } else {
        let seg = escape_spec(es.last().0);
        entries_rows(path, wild, es.drop_last()).union(
            visit_rows(child_path(path, seg), child_wild(wild, seg), es.last().1),
        )
    }
}

pub open spec fn items_rows(path: Seq<char>, wild: Option<Seq<char>>, items: Seq<JsonV>) -> Set<
    (Seq<char>, Seq<u8>, Seq<u8>),
>
    decreases items,
{
    if items.len() == 0 {
        Set::empty()
    } else {
        let child = items.last();
        let p = child_path(path, decimal_spec((items.len() - 1) as nat));
        items_rows(path, wild, items.drop_last()).union(
            if is_container(child) {
                visit_rows(p, Some(array_wild(path, wild)), child)
            } else {
                visit_rows(p, None, child)
            },
        )
    }
}

/// Every number in `v` has a key (its exponent fits).
pub open spec fn all_keyed(v: JsonV) -> bool
    decreases v,
{
    match v {
        JsonV::Number(n) => number_key_spec(n) is Ok,
        JsonV::Array(items) => items_keyed(items),
        JsonV::Object(es) => entries_keyed(es),
        _ => true,
    }
}

pub open spec fn items_keyed(items: Seq<JsonV>) -> bool
    decreases items,
{
    items.len() == 0 || (items_keyed(items.drop_last()) && all_keyed(items.last()))
}

pub open spec fn entries_keyed(es: Seq<(Seq<char>, JsonV)>) -> bool
    decreases es,
{
    es.len() == 0 || (entries_keyed(es.drop_last()) && all_keyed(es.last().1))
}

pub proof fn lemma_items_keyed(items: Seq<JsonV>)
    ensures
        items_keyed(items) <==> forall|i: int| 0 <= i < items.len() ==> #[trigger] all_keyed(items[i]),
    decreases items.len(),
{
    if items.len() > 0 {
        lemma_items_keyed(items.drop_last());
        assert(items_keyed(items) == (items_keyed(items.drop_last()) && all_keyed(items.last())));
        if forall|i: int| 0 <= i < items.len() ==> #[trigger] all_keyed(items[i]) {
            assert forall|i: int| 0 <= i < items.drop_last().len() implies #[trigger] all_keyed(
                items.drop_last()[i],
            ) by {
                assert(items.drop_last()[i] == items[i]);
            }
        }
        if items_keyed(items) {
            assert forall|i: int| 0 <= i < items.len() implies #[trigger] all_keyed(items[i]) by {
                if i < items.len() - 1 {
                    assert(items.drop_last()[i] == items[i]);
                }
            }
        }
    }
}

pub proof fn lemma_entries_keyed(es: Seq<(Seq<char>, JsonV)>)
    ensures
        entries_keyed(es) <==> forall|i: int| 0 <= i < es.len() ==> #[trigger] all_keyed(es[i].1),
    decreases es.len(),
{
    if es.len() > 0 {
        lemma_entries_keyed(es.drop_last());
        assert(entries_keyed(es) == (entries_keyed(es.drop_last()) && all_keyed(es.last().1)));
        if forall|i: int| 0 <= i < es.len() ==> #[trigger] all_keyed(es[i].1) {
            assert forall|i: int| 0 <= i < es.drop_last().len() implies #[trigger] all_keyed(
                es.drop_last()[i].1,
            ) by {
                assert(es.drop_last()[i] == es[i]);
            }
        }
        if entries_keyed(es) {
            assert forall|i: int| 0 <= i < es.len() implies #[trigger] all_keyed(es[i].1) by {
                if i < es.len() - 1 {
                    assert(es.drop_last()[i] == es[i]);
                }
            }
        }
    }
}

pub proof fn lemma_lookup_in(es: Seq<(Seq<char>, JsonV)>, key: Seq<char>)
    ensures
        lookup(es, key) matches Some(v) ==> exists|k: int|
            0 <= k < es.len() && es[k].0 == key && #[trigger] es[k].1 == v,
    decreases es.len(),
{
    if es.len() > 0 && es.last().0 != key {
        lemma_lookup_in(es.drop_last(), key);
        if lookup(es, key) is Some {
            let k = choose|k: int|
                0 <= k < es.drop_last().len() && es.drop_last()[k].0 == key
                    && #[trigger] es.drop_last()[k].1 == lookup(es, key)->0;
            assert(es[k] == es.drop_last()[k]);
        }
    }
}

/// The member at `key` of an object.
pub fn find_member<'a>(map: &'a Vec<(String, Json)>, key: &String) -> (r: Option<&'a Json>)
    ensures
        match (r, lookup(crate::json::entries_view(map@), key@)) {
            (Some(j), Some(v)) => j@ == v,
            (None, None) => true,
            _ => false,
        },
{
    let ghost ev = crate::json::entries_view(map@);
    proof {
        lemma_entries_view(map@);
    }
    let mut i: usize = map.len();
    assert(ev.take(i as int) =~= ev);
    while i > 0
        invariant
            i <= map@.len(),
            ev == crate::json::entries_view(map@),
            ev.len() == map@.len(),
            forall|k: int| 0 <= k < map@.len() ==> #[trigger] ev[k] == (map@[k].0@, map@[k].1@),
            lookup(ev, key@) == lookup(ev.take(i as int), key@),
        decreases i,
    {
        if map[i - 1].0 == *key {
            assert(ev.take(i as int).last() == ev[i - 1]);
            return Some(&map[i - 1].1);
        }
        proof {
            assert(ev.take(i as int).drop_last() =~= ev.take(i - 1));
        }
        i -= 1;
    }
    None
}

fn start_string() -> (s: String)
    ensures
        s@ == start_key(),
{
    let v: Vec<char> = vec!['s', 't', 'a', 'r', 't'];
    assert(v@ =~= start_key());
    crate::text::string_of(v.as_slice())
}

fn end_string() -> (s: String)
    ensures
        s@ == end_key(),
{
    let v: Vec<char> = vec!['e', 'n', 'd'];
    assert(v@ =~= end_key());
    crate::text::string_of(v.as_slice())
}

pub open spec fn members_wf(map: Seq<(String, Json)>) -> bool {
    forall|i: int| 0 <= i < map.len() ==> #[trigger] json_wf(map[i].1@)
}

pub open spec fn members_keyed(map: Seq<(String, Json)>) -> bool {
    forall|i: int| 0 <= i < map.len() ==> #[trigger] all_keyed(map[i].1@)
}

pub open spec fn interval_view(r: Option<(Vec<u8>, Vec<u8>)>) -> Option<(Seq<u8>, Seq<u8>)> {
    match r {
        Some((lo, hi)) => Some((lo@, hi@)),
        None => None,
    }
}

/// The interval an object stands for, if any.
pub fn interval(map: &Vec<(String, Json)>) -> (r: Result<Option<(Vec<u8>, Vec<u8>)>, Error>)
    requires
        members_wf(map@),
    ensures
        r matches Ok(o) ==> interval_view(o) == interval_of(crate::json::entries_view(map@)),
        r is Err <==> interval_check(crate::json::entries_view(map@)) is Err,
        r matches Err(e) ==> Err::<(), Error>(e) == interval_check(crate::json::entries_view(map@))
            && e == Error::ExponentOutOfRange && !members_keyed(map@),
{
    let ghost ev = crate::json::entries_view(map@);
    proof {
        lemma_entries_view(map@);
    }
    let sk = start_string();
    let start = match find_member(map, &sk) {
        Some(Json::Number(n)) => n,
        _ => {
            return Ok(None);
        },
    };
    proof {
        lemma_lookup_in(ev, start_key());
        let k = choose|k: int|
            0 <= k < ev.len() && ev[k].0 == start_key() && #[trigger] ev[k].1 == lookup(
                ev,
                start_key(),
            )->0;
        assert(json_wf(map@[k].1@));
    }
    let lo = match number_key(start) {
        Ok(k) => k,
        Err(e) => {
            proof {
                let k = choose|k: int|
                    0 <= k < ev.len() && ev[k].0 == start_key() && #[trigger] ev[k].1 == lookup(
                        ev,
                        start_key(),
                    )->0;
                assert(!all_keyed(map@[k].1@));
            }
            return Err(e);
        },
    };
    let ek = end_string();
    let hi: Vec<u8> = match find_member(map, &ek) {
        None => vec![3u8],
        Some(Json::Null) => vec![3u8],
        Some(Json::Number(m)) => {
            proof {
                lemma_lookup_in(ev, end_key());
                let k = choose|k: int|
                    0 <= k < ev.len() && ev[k].0 == end_key() && #[trigger] ev[k].1 == lookup(
                        ev,
                        end_key(),
                    )->0;
                assert(json_wf(map@[k].1@));
            }
            match number_key(m) {
                Ok(k) => k,
                Err(e) => {
                    proof {
                        let k = choose|k: int|
                            0 <= k < ev.len() && ev[k].0 == end_key() && #[trigger] ev[k].1
                                == lookup(ev, end_key())->0;
                        assert(!all_keyed(map@[k].1@));
                    }
                    return Err(e);
                },
            }
        },
        Some(_) => {
            return Ok(None);
        },
    };
    assert(hi@ == match lookup(ev, end_key()) {
        None => infinity_key(),
        Some(JsonV::Null) => infinity_key(),
        Some(JsonV::Number(m)) => number_key_spec(m)->Ok_0,
        Some(_) => hi@,
    });
    if less_bytes(hi.as_slice(), lo.as_slice()) {
        Ok(None)
    } else {
        Ok(Some((lo, hi)))
    }
}

/// The token posted at every path a Node holds.
pub fn exists_token_string() -> (s: String)
    ensures
        s@ == exists_token(),
{
    let v: Vec<char> = vec!['e', ':'];
    assert(v@ =~= exists_token());
    crate::text::string_of(v.as_slice())
}

/// Posts `token` at `path` and, when given, at `wild`.
pub fn post(
    out: &mut Attributes,
    path: &String,
    wild: Option<&String>,
    token: String,
    number: Option<Vec<u8>>,
)
    requires
        old(out).wf(),
        number_consistent(token@, number_view(number)),
    ensures
        final(out).wf(),
        final(out).keys() == old(out).keys().union(post_set(path@, opt_view(wild), token@)),
        final(out).rows() == old(out).rows(),
{
    if let Some(w) = wild {
        let n2: Option<Vec<u8>> = match &number {
            Some(v) => Some(v.clone()),
            None => None,
        };
        out.insert_posting(w.clone(), token.clone(), n2);
    }
    out.insert_posting(path.clone(), token, number);
    assert(out.keys() =~= old(out).keys().union(post_set(path@, opt_view(wild), token@)));
}

pub proof fn lemma_scalar_keyed(v: Json)
    requires
        !(v is Object || v is Array),
    ensures
        token_spec(v@) is Ok <==> all_keyed(v@),
        !is_container(v@),
{
    match v {
        Json::Number(n) => {
            assert(v@ == JsonV::Number(n.literal@));
        },
        Json::Str(s) => {
            assert(v@ == JsonV::Str(s@));
        },
        Json::Bool(b) => {
            assert(v@ == JsonV::Bool(b));
        },
        _ => {
            assert(v@ == JsonV::Null);
        },
    }
}

pub proof fn lemma_token_consistent(v: JsonV)
    requires
        token_spec(v) is Ok,
    ensures
        number_consistent(token_spec(v)->Ok_0.0, token_spec(v)->Ok_0.1),
{
}

/// Adds the postings and interval rows of `value` at `path` (and `wild`).
/// Fails when a number's exponent does not fit.
#[verifier::loop_isolation(false)]
#[verifier::rlimit(60)]
pub fn visit(path: &String, wild: Option<&String>, value: &Json, out: &mut Attributes) -> (r:
    Result<(), Error>)
    requires
        old(out).wf(),
        json_wf(value@),
    ensures
        r is Ok <==> all_keyed(value@),
        r matches Err(e) ==> e == Error::ExponentOutOfRange,
        r is Ok ==> final(out).wf() && final(out).keys() == old(out).keys().union(
            visit_keys(path@, opt_view(wild), value@),
        ) && final(out).rows() == old(out).rows().union(
            visit_rows(path@, opt_view(wild), value@),
        ),
    decreases value,
{
    let ghost wv = opt_view(wild);
    post(out, path, wild, exists_token_string(), None);
    let ghost base_keys = out.keys();
    match value {
        Json::Object(map) => {
            let ghost ev = crate::json::entries_view(map@);
            proof {
                lemma_entries_view(map@);
                lemma_entries_keyed(ev);
                assert(value@ == JsonV::Object(ev));
                crate::json::lemma_wf_members(ev);
                assert forall|k: int| 0 <= k < map@.len() implies #[trigger] json_wf(
                    map@[k].1@,
                ) by {
                    assert(ev[k].1 == map@[k].1@);
                    assert(json_wf(ev[k].1));
                }
            }
            let iv = match interval(map) {
                Ok(o) => o,
                Err(e) => {
                    proof {
                        let k = choose|k: int| 0 <= k < map@.len() && !#[trigger] all_keyed(map@[k].1@);
                        assert(ev[k].1 == map@[k].1@);
                    }
                    return Err(e);
                },
            };
            let ghost before_rows = out.rows();
            match iv {
                Some((lo, hi)) => {
                    if let Some(w) = wild {
                        out.insert_row(w.clone(), lo.clone(), hi.clone());
                    }
                    out.insert_row(path.clone(), lo, hi);
                },
                None => {},
            }
            let ghost base_rows = out.rows();
            assert(base_rows =~= before_rows.union(
                match interval_of(ev) {
                    Some((lo, hi)) => row_set(path@, wv, lo, hi),
                    None => Set::empty(),
                },
            ));
            let mut i: usize = 0;
            assert(ev.take(0) =~= Seq::<(Seq<char>, JsonV)>::empty());
            while i < map.len()
                invariant
                    i <= map@.len(),
                    out.wf(),
                    out.keys() == base_keys.union(entries_keys(path@, wv, ev.take(i as int))),
                    out.rows() == base_rows.union(entries_rows(path@, wv, ev.take(i as int))),
                    forall|k: int| 0 <= k < i ==> #[trigger] all_keyed(map@[k].1@),
                decreases map@.len() - i,
            {
                let seg = escape(map[i].0.as_str());
                let p = join_segment(path.as_str(), seg.as_str());
                let cw: Option<String> = match wild {
                    Some(w) => Some(join_segment(w.as_str(), seg.as_str())),
                    None => None,
                };
                let cwr: Option<&String> = match &cw {
                    Some(w) => Some(w),
                    None => None,
                };
                proof {
                    assert(decreases_to!(map@ => map@[i as int]));
                    assert(decreases_to!(*map => map@));
                    assert(decreases_to!(map@[i as int] => map@[i as int].1));
                    assert(opt_view(cwr) == child_wild(wv, escape_spec(ev[i as int].0)));
                }
                match visit(&p, cwr, &map[i].1, out) {
                    Ok(()) => {},
                    Err(e) => {
                        assert(ev[i as int].1 == map@[i as int].1@);
                        return Err(e);
                    },
                }
                proof {
                    let t1 = ev.take(i + 1);
                    assert(t1.drop_last() =~= ev.take(i as int));
                    assert(t1.last() == ev[i as int]);
                    assert(out.keys() =~= base_keys.union(entries_keys(path@, wv, t1)));
                    assert(out.rows() =~= base_rows.union(entries_rows(path@, wv, t1)));
                }
                i += 1;
            }
            proof {
                assert(ev.take(map@.len() as int) =~= ev);
                assert forall|k: int| 0 <= k < ev.len() implies #[trigger] all_keyed(ev[k].1) by {
                    assert(ev[k].1 == map@[k].1@);
                }
                assert(out.keys() =~= old(out).keys().union(visit_keys(path@, wv, value@)));
                assert(out.rows() =~= old(out).rows().union(visit_rows(path@, wv, value@)));
            }
            Ok(())
        },
        Json::Array(items) => {
            let ghost iv = crate::json::items_view(items@);
            proof {
                lemma_items_view(items@);
                lemma_items_keyed(iv);
                assert(value@ == JsonV::Array(iv));
                crate::json::lemma_wf_items(iv);
                assert forall|k: int| 0 <= k < items@.len() implies #[trigger] json_wf(
                    items@[k]@,
                ) by {
                    assert(iv[k] == items@[k]@);
                }
            }
            let ghost base_rows = out.rows();
            let mut i: usize = 0;
            assert(iv.take(0) =~= Seq::<JsonV>::empty());
            while i < items.len()
                invariant
                    i <= items@.len(),
                    out.wf(),
                    out.keys() == base_keys.union(items_keys(path@, wv, iv.take(i as int))),
                    out.rows() == base_rows.union(items_rows(path@, wv, iv.take(i as int))),
                    forall|k: int| 0 <= k < i ==> #[trigger] all_keyed(items@[k]@),
                decreases items@.len() - i,
            {
                let idx = decimal(i as u64);
                let p = join_segment(path.as_str(), idx.as_str());
                let child = &items[i];
                proof {
                    assert(decreases_to!(items@ => items@[i as int]));
                    assert(decreases_to!(*items => items@));
                    assert(iv[i as int] == child@);
                }
                if child.is_object() || matches!(child, Json::Array(_)) {
                    let star = crate::text::string_of(vec!['*'].as_slice());
                    let aw = match wild {
                        Some(w) => join_segment(w.as_str(), star.as_str()),
                        None => join_segment(path.as_str(), star.as_str()),
                    };
                    assert(aw@ == array_wild(path@, wv));
                    match visit(&p, Some(&aw), child, out) {
                        Ok(()) => {},
                        Err(e) => {
                            return Err(e);
                        },
                    }
                } else {
                    match visit(&p, None, child, out) {
                        Ok(()) => {},
                        Err(e) => {
                            return Err(e);
                        },
                    }
                    let (t, n) = match token(child) {
                        Ok(tn) => tn,
                        Err(e) => {
                            return Err(e);
                        },
                    };
                    proof {
                        lemma_token_consistent(child@);
                    }
                    post(out, path, wild, t, n);
                }
                proof {
                    let t1 = iv.take(i + 1);
                    assert(t1.drop_last() =~= iv.take(i as int));
                    assert(t1.last() == iv[i as int]);
                    assert(out.keys() =~= base_keys.union(items_keys(path@, wv, t1)));
                    assert(out.rows() =~= base_rows.union(items_rows(path@, wv, t1)));
                }
                i += 1;
            }
            proof {
                assert(iv.take(items@.len() as int) =~= iv);
                assert forall|k: int| 0 <= k < iv.len() implies #[trigger] all_keyed(iv[k]) by {
                    assert(iv[k] == items@[k]@);
                }
                assert(out.keys() =~= old(out).keys().union(visit_keys(path@, wv, value@)));
                assert(out.rows() =~= old(out).rows().union(visit_rows(path@, wv, value@)));
            }
            Ok(())
        },
        _ => {
            proof {
                lemma_scalar_keyed(*value);
            }
            let (t, n) = match token(value) {
                Ok(tn) => tn,
                Err(e) => {
                    return Err(e);
                },
            };
            proof {
                lemma_token_consistent(value@);
            }
            post(out, path, wild, t, n);
            assert(out.keys() =~= old(out).keys().union(visit_keys(path@, wv, value@)));
            assert(out.rows() =~= old(out).rows().union(visit_rows(path@, wv, value@)));
            Ok(())
        },
    }
}

} // verus!
