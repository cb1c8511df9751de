//! What must change in the indexes when a Node's entries change.

use crate::index::visit::{number_consistent, number_view, posting_key, row_key, Attributes, IntervalRow, Posting};
use vstd::prelude::*;

verus! {

/// Postings and rows to drop and to add.
#[derive(Debug, Clone, PartialEq, Eq)]
pub struct Change {
    pub drop: Vec<Posting>,
    pub add: Vec<Posting>,
    pub drop_rows: Vec<IntervalRow>,
    pub add_rows: Vec<IntervalRow>,
}

pub open spec fn keys_of(v: Seq<Posting>) -> Set<(Seq<char>, Seq<char>)> {
    Set::new(
        |k: (Seq<char>, Seq<char>)| exists|i: int| 0 <= i < v.len() && #[trigger] posting_key(v[i]) == k,
    )
}

pub open spec fn rows_of(v: Seq<IntervalRow>) -> Set<(Seq<char>, Seq<u8>, Seq<u8>)> {
    Set::new(
        |k: (Seq<char>, Seq<u8>, Seq<u8>)| exists|i: int| 0 <= i < v.len() && #[trigger] row_key(v[i]) == k,
    )
}

fn copy_posting(p: &Posting) -> (c: Posting)
    ensures
        posting_key(c) == posting_key(*p),
        number_view(c.number) == number_view(p.number),
{
    Posting { field: p.field.clone(), token: p.token.clone(), number: p.number.clone() }
}

fn copy_row(r: &IntervalRow) -> (c: IntervalRow)
    ensures
        row_key(c) == row_key(*r),
{
    IntervalRow { field: r.field.clone(), lo: r.lo.clone(), hi: r.hi.clone() }
}

fn has_key(v: &Vec<Posting>, p: &Posting) -> (b: bool)
    ensures
        b == keys_of(v@).contains(posting_key(*p)),
{
    let mut i: usize = 0;
    while i < v.len()
        invariant
            i <= v@.len(),
            forall|k: int| 0 <= k < i ==> posting_key(#[trigger] v@[k]) != posting_key(*p),
        decreases v@.len() - i,
    {
        if v[i].field == p.field && v[i].token == p.token {
            assert(posting_key(v@[i as int]) == posting_key(*p));
            return true;
        }
        i += 1;
    }
    false
}

fn has_row(v: &Vec<IntervalRow>, r: &IntervalRow) -> (b: bool)
    ensures
        b == rows_of(v@).contains(row_key(*r)),
{
    let mut i: usize = 0;
    while i < v.len()
        invariant
            i <= v@.len(),
            forall|k: int| 0 <= k < i ==> row_key(#[trigger] v@[k]) != row_key(*r),
        decreases v@.len() - i,
    {
        if v[i].field == r.field && crate::text::same_bytes(v[i].lo.as_slice(), r.lo.as_slice())
            && crate::text::same_bytes(v[i].hi.as_slice(), r.hi.as_slice()) {
            assert(row_key(v@[i as int]) == row_key(*r));
            return true;
        }
        i += 1;
    }
    false
}

/// The postings of `from` whose key `other` lacks.
fn postings_missing(from: &Vec<Posting>, other: &Vec<Posting>) -> (r: Vec<Posting>)
    requires
        forall|i: int, j: int|
            0 <= i < from@.len() && 0 <= j < from@.len() && i != j ==> posting_key(#[trigger] from@[i])
                != posting_key(#[trigger] from@[j]),
    ensures
        keys_of(r@) == keys_of(from@).difference(keys_of(other@)),
        forall|i: int, j: int|
            0 <= i < r@.len() && 0 <= j < r@.len() && i != j ==> posting_key(#[trigger] r@[i])
                != posting_key(#[trigger] r@[j]),
        forall|i: int| 0 <= i < r@.len() ==> exists|j: int|
            0 <= j < from@.len() && posting_key(#[trigger] r@[i]) == posting_key(from@[j])
                && number_view(r@[i].number) == number_view(from@[j].number),
{
    let mut out: Vec<Posting> = Vec::new();
    let mut i: usize = 0;
    while i < from.len()
        invariant
            i <= from@.len(),
            keys_of(out@) == keys_of(from@.take(i as int)).difference(keys_of(other@)),
            forall|a: int, b: int|
                0 <= a < from@.len() && 0 <= b < from@.len() && a != b ==> posting_key(#[trigger] from@[a])
                    != posting_key(#[trigger] from@[b]),
            forall|a: int, b: int|
                0 <= a < out@.len() && 0 <= b < out@.len() && a != b ==> posting_key(#[trigger] out@[a])
                    != posting_key(#[trigger] out@[b]),
            forall|k: int| 0 <= k < out@.len() ==> exists|j: int|
                0 <= j < from@.len() && posting_key(#[trigger] out@[k]) == posting_key(from@[j])
                    && number_view(out@[k].number) == number_view(from@[j].number),
        decreases from@.len() - i,
    {
        let ghost before = out@;
        if !has_key(other, &from[i]) {
            proof {
                assert(!keys_of(from@.take(i as int)).contains(posting_key(from@[i as int]))) by {
                    if keys_of(from@.take(i as int)).contains(posting_key(from@[i as int])) {
                        let j = choose|j: int| 0 <= j < from@.take(i as int).len() && #[trigger] posting_key(from@.take(i as int)[j]) == posting_key(from@[i as int]);
                        assert(from@.take(i as int)[j] == from@[j]);
                        assert(posting_key(from@[j]) == posting_key(from@[i as int]));
                    }
                }
                assert forall|k: int| 0 <= k < before.len() implies posting_key(#[trigger] before[k]) != posting_key(from@[i as int]) by {
                    assert(keys_of(before).contains(posting_key(before[k])));
                }
            }
            out.push(copy_posting(&from[i]));
            proof {
                assert(out@[out@.len() - 1] == out@.last());
                assert forall|a: int, b: int|
                    0 <= a < out@.len() && 0 <= b < out@.len() && a != b implies posting_key(#[trigger] out@[a])
                        != posting_key(#[trigger] out@[b]) by {
                    if a < before.len() {
                        assert(out@[a] == before[a]);
                    }
                    if b < before.len() {
                        assert(out@[b] == before[b]);
                    }
                }
                assert forall|k: int| 0 <= k < out@.len() implies exists|j: int|
                    0 <= j < from@.len() && posting_key(#[trigger] out@[k]) == posting_key(
                        from@[j],
                    ) && number_view(out@[k].number) == number_view(from@[j].number) by {
                    if k < before.len() {
                        assert(out@[k] == before[k]);
                    } else {
                        assert(posting_key(out@[k]) == posting_key(from@[i as int]));
                    }
                }
            }
        }
        proof {
            let t1 = from@.take(i + 1);
            let t0 = from@.take(i as int);
            assert(keys_of(t1) =~= keys_of(t0).insert(posting_key(from@[i as int]))) by {
                assert forall|k| keys_of(t1).contains(k) implies keys_of(t0).insert(
                    posting_key(from@[i as int]),
                ).contains(k) by {
                    let j = choose|j: int| 0 <= j < t1.len() && #[trigger] posting_key(t1[j]) == k;
                    if j < i {
                        assert(t0[j] == t1[j]);
                    }
                }
                assert forall|k| keys_of(t0).insert(posting_key(from@[i as int])).contains(k) implies keys_of(
                    t1,
                ).contains(k) by {
                    if k == posting_key(from@[i as int]) {
                        assert(posting_key(t1[i as int]) == k);
                    } else {
                        let j = choose|j: int| 0 <= j < t0.len() && #[trigger] posting_key(t0[j]) == k;
                        assert(t1[j] == t0[j]);
                    }
                }
            }
            assert(keys_of(out@) =~= keys_of(t1).difference(keys_of(other@))) by {
                assert forall|k| keys_of(out@).contains(k) implies keys_of(t1).difference(
                    keys_of(other@),
                ).contains(k) by {
                    let j = choose|j: int| 0 <= j < out@.len() && #[trigger] posting_key(out@[j]) == k;
                    if j < before.len() {
                        assert(out@[j] == before[j]);
                        assert(keys_of(before).contains(k));
                    }
                }
                assert forall|k| keys_of(t1).difference(keys_of(other@)).contains(k) implies keys_of(
                    out@,
                ).contains(k) by {
                    if k == posting_key(from@[i as int]) {
                        assert(posting_key(out@[out@.len() - 1]) == k);
                    } else {
                        assert(keys_of(before).contains(k));
                        let j = choose|j: int| 0 <= j < before.len() && #[trigger] posting_key(before[j]) == k;
                        assert(out@[j] == before[j]);
                    }
                }
            }
        }
        i += 1;
    }
    assert(from@.take(i as int) =~= from@);
    out
}

/// The rows of `from` that `other` lacks.
fn rows_missing(from: &Vec<IntervalRow>, other: &Vec<IntervalRow>) -> (r: Vec<IntervalRow>)
    requires
        rows_distinct(from@),
    ensures
        rows_of(r@) == rows_of(from@).difference(rows_of(other@)),
        rows_distinct(r@),
{
    let mut out: Vec<IntervalRow> = Vec::new();
    let mut i: usize = 0;
    while i < from.len()
        invariant
            i <= from@.len(),
            rows_of(out@) == rows_of(from@.take(i as int)).difference(rows_of(other@)),
            rows_distinct(from@),
            rows_distinct(out@),
        decreases from@.len() - i,
    {
        let ghost before = out@;
        if !has_row(other, &from[i]) {
            proof {
                assert(!rows_of(from@.take(i as int)).contains(row_key(from@[i as int]))) by {
                    if rows_of(from@.take(i as int)).contains(row_key(from@[i as int])) {
                        let j = choose|j: int| 0 <= j < from@.take(i as int).len() && #[trigger] row_key(from@.take(i as int)[j]) == row_key(from@[i as int]);
                        assert(from@.take(i as int)[j] == from@[j]);
                    }
                }
                assert forall|k: int| 0 <= k < before.len() implies row_key(#[trigger] before[k]) != row_key(from@[i as int]) by {
                    assert(rows_of(before).contains(row_key(before[k])));
                }
            }
            out.push(copy_row(&from[i]));
            proof {
                assert forall|a: int, b: int|
                    0 <= a < out@.len() && 0 <= b < out@.len() && a != b implies row_key(#[trigger] out@[a])
                        != row_key(#[trigger] out@[b]) by {
                    if a < before.len() {
                        assert(out@[a] == before[a]);
                    }
                    if b < before.len() {
                        assert(out@[b] == before[b]);
                    }
                }
            }
        }
        proof {
            let t1 = from@.take(i + 1);
            let t0 = from@.take(i as int);
            assert(rows_of(t1) =~= rows_of(t0).insert(row_key(from@[i as int]))) by {
                assert forall|k| rows_of(t1).contains(k) implies rows_of(t0).insert(
                    row_key(from@[i as int]),
                ).contains(k) by {
                    let j = choose|j: int| 0 <= j < t1.len() && #[trigger] row_key(t1[j]) == k;
                    if j < i {
                        assert(t0[j] == t1[j]);
                    }
                }
                assert forall|k| rows_of(t0).insert(row_key(from@[i as int])).contains(k) implies rows_of(
                    t1,
                ).contains(k) by {
                    if k == row_key(from@[i as int]) {
                        assert(row_key(t1[i as int]) == k);
                    } else {
                        let j = choose|j: int| 0 <= j < t0.len() && #[trigger] row_key(t0[j]) == k;
                        assert(t1[j] == t0[j]);
                    }
                }
            }
            assert(rows_of(out@) =~= rows_of(t1).difference(rows_of(other@))) by {
                assert forall|k| rows_of(out@).contains(k) implies rows_of(t1).difference(
                    rows_of(other@),
                ).contains(k) by {
                    let j = choose|j: int| 0 <= j < out@.len() && #[trigger] row_key(out@[j]) == k;
                    if j < before.len() {
                        assert(out@[j] == before[j]);
                        assert(rows_of(before).contains(k));
                    }
                }
                assert forall|k| rows_of(t1).difference(rows_of(other@)).contains(k) implies rows_of(
                    out@,
                ).contains(k) by {
                    if k == row_key(from@[i as int]) {
                        assert(row_key(out@[out@.len() - 1]) == k);
                    } else {
                        assert(rows_of(before).contains(k));
                        let j = choose|j: int| 0 <= j < before.len() && #[trigger] row_key(before[j]) == k;
                        assert(out@[j] == before[j]);
                    }
                }
            }
        }
        i += 1;
    }
    assert(from@.take(i as int) =~= from@);
    out
}

/// Each row once.
pub open spec fn rows_distinct(v: Seq<IntervalRow>) -> bool {
    forall|i: int, j: int|
        0 <= i < v.len() && 0 <= j < v.len() && i != j ==> row_key(#[trigger] v[i]) != row_key(#[trigger] v[j])
}

/// Each posting once, each number the key its token names.
pub open spec fn changes_wf(v: Seq<Posting>) -> bool {
    &&& forall|i: int, j: int|
        0 <= i < v.len() && 0 <= j < v.len() && i != j ==> posting_key(#[trigger] v[i]) != posting_key(
            #[trigger] v[j],
        )
    &&& forall|i: int| 0 <= i < v.len() ==> number_consistent(#[trigger] v[i].token@, number_view(v[i].number))
}

/// What turns the entries `old` into `new`: postings and rows only `old`
/// has are dropped, those only `new` has are added.
pub fn change(old: &Attributes, new: &Attributes) -> (c: Change)
    requires
        old.wf(),
        new.wf(),
    ensures
        keys_of(c.drop@) == old.keys().difference(new.keys()),
        keys_of(c.add@) == new.keys().difference(old.keys()),
        changes_wf(c.drop@),
        changes_wf(c.add@),
        rows_distinct(c.drop_rows@),
        rows_distinct(c.add_rows@),
        rows_of(c.drop_rows@) == old.rows().difference(new.rows()),
        rows_of(c.add_rows@) == new.rows().difference(old.rows()),
{
    assert(keys_of(old.postings@) =~= old.keys());
    assert(keys_of(new.postings@) =~= new.keys());
    assert(rows_of(old.intervals@) =~= old.rows());
    assert(rows_of(new.intervals@) =~= new.rows());
    let drop = postings_missing(&old.postings, &new.postings);
    let add = postings_missing(&new.postings, &old.postings);
    assert forall|i: int| 0 <= i < drop@.len() implies number_consistent(#[trigger] drop@[i].token@, number_view(drop@[i].number)) by {
        let j = choose|j: int| 0 <= j < old.postings@.len() && posting_key(drop@[i]) == posting_key(old.postings@[j]) && number_view(drop@[i].number) == number_view(old.postings@[j].number);
        assert(number_consistent(old.postings@[j].token@, number_view(old.postings@[j].number)));
    }
    assert forall|i: int| 0 <= i < add@.len() implies number_consistent(#[trigger] add@[i].token@, number_view(add@[i].number)) by {
        let j = choose|j: int| 0 <= j < new.postings@.len() && posting_key(add@[i]) == posting_key(new.postings@[j]) && number_view(add@[i].number) == number_view(new.postings@[j].number);
        assert(number_consistent(new.postings@[j].token@, number_view(new.postings@[j].number)));
    }
    Change {
        drop,
        add,
        drop_rows: rows_missing(&old.intervals, &new.intervals),
        add_rows: rows_missing(&new.intervals, &old.intervals),
    }
}

/// Applying a change leaves exactly the new entries: the old keys minus
/// those dropped, plus those added, are the new keys; the same for rows.
pub proof fn law_change_applies(
    old_keys: Set<(Seq<char>, Seq<char>)>,
    new_keys: Set<(Seq<char>, Seq<char>)>,
    dropped: Set<(Seq<char>, Seq<char>)>,
    added: Set<(Seq<char>, Seq<char>)>,
)
    requires
        dropped == old_keys.difference(new_keys),
        added == new_keys.difference(old_keys),
    ensures
        old_keys.difference(dropped).union(added) == new_keys,
        dropped.disjoint(added),
{
    assert(old_keys.difference(dropped).union(added) =~= new_keys);
}

} // verus!
