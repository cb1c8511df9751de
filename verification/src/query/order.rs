//! ORDER BY over one single-valued path: sorting keys, keeping those after
//! the cursor, and cutting the page.

use super::cursor::{encode, encode_spec};
use super::order_key::{
    order_of, sorts_after, law_compare_antisymmetric, law_compare_transitive, position, position_spec,
    valid_rank, Key, KeyV, MISSING, NUMBER, STRING,
};
use crate::bitmap::{has_id, ids_of};
use crate::model::node::NodeId;
use crate::model::predicate::SortDirection;
use roaring::RoaringBitmap;
use vstd::prelude::*;

verus! {

/// The views of some keys.
pub open spec fn key_views(v: Seq<Key>) -> Seq<KeyV> {
    v.map_values(|k: Key| k@)
}

/// Each key sorts before or with the next.
pub open spec fn sorted_keys(v: Seq<KeyV>, direction: SortDirection) -> bool {
    forall|i: int, j: int| 0 <= i < j < v.len() ==> order_of(v[i], v[j], direction) <= 0
}

pub open spec fn all_valid(v: Seq<KeyV>) -> bool {
    forall|i: int| 0 <= i < v.len() ==> valid_rank(#[trigger] v[i])
}

fn copy_key(k: &Key) -> (c: Key)
    ensures
        c@ == k@,
{
    Key { rank: k.rank, bytes: k.bytes.clone(), id: k.id }
}

/// The keys in sort order.
pub fn sort_keys(keys: Vec<Key>, direction: SortDirection) -> (r: Vec<Key>)
    requires
        all_valid(key_views(keys@)),
    ensures
        key_views(r@).to_multiset() == key_views(keys@).to_multiset(),
        sorted_keys(key_views(r@), direction),
        all_valid(key_views(r@)),
{
    broadcast use vstd::seq_lib::group_to_multiset_ensures;

    let mut out: Vec<Key> = Vec::new();
    let mut i: usize = 0;
    while i < keys.len()
        invariant
            i <= keys@.len(),
            all_valid(key_views(keys@)),
            all_valid(key_views(out@)),
            sorted_keys(key_views(out@), direction),
            key_views(out@).to_multiset() == key_views(keys@.take(i as int)).to_multiset(),
        decreases keys@.len() - i,
    {
        let key = copy_key(&keys[i]);
        assert(key_views(keys@)[i as int] == key@);
        let ghost ov = key_views(out@);
        assert forall|k: int| 0 <= k < out@.len() implies valid_rank(#[trigger] out@[k]@) by {
            assert(ov[k] == out@[k]@);
        }
        let mut pos: usize = 0;
        while pos < out.len() && !sorts_after(&out[pos], &key, direction)
            invariant
                pos <= out@.len(),
                ov == key_views(out@),
                all_valid(ov),
                valid_rank(key@),
                forall|k: int| 0 <= k < out@.len() ==> valid_rank(#[trigger] out@[k]@),
                forall|j: int| 0 <= j < pos ==> order_of(ov[j], key@, direction) <= 0,
            decreases out@.len() - pos,
        {
            assert(ov[pos as int] == out@[pos as int]@);
            pos += 1;
        }
        proof {
            if pos < out.len() {
                assert(ov[pos as int] == out@[pos as int]@);
                assert(order_of(ov[pos as int], key@, direction) == 1);
            }
        }
        out.insert(pos, key);
        proof {
            let nv = key_views(out@);
            assert(nv =~= ov.insert(pos as int, key@));
            assert forall|a: int, b: int| 0 <= a < b < nv.len() implies order_of(
                nv[a],
                nv[b],
                direction,
            ) <= 0 by {
                if a < pos && b == pos {
                } else if a == pos && b > pos {
                    assert(nv[b] == ov[b - 1]);
                    law_compare_antisymmetric(ov[pos as int], key@, direction);
                    if b - 1 > pos {
                        law_compare_transitive(key@, ov[pos as int], ov[b - 1], direction);
                    }
                } else if a < pos && b > pos {
                    assert(nv[b] == ov[b - 1]);
                } else if a > pos {
                    assert(nv[a] == ov[a - 1]);
                    assert(nv[b] == ov[b - 1]);
                }
            }
            assert forall|k: int| 0 <= k < nv.len() implies valid_rank(#[trigger] nv[k]) by {
                if k < pos {
                    assert(nv[k] == ov[k]);
                } else if k > pos {
                    assert(nv[k] == ov[k - 1]);
                }
            }
            assert(nv.remove(pos as int) =~= ov);
            assert(nv[pos as int] == key@);
            nv.to_multiset_ensures();
            ov.to_multiset_ensures();
            key_views(keys@.take(i as int)).to_multiset_ensures();
            assert(nv.contains(key@));
            assert(nv.to_multiset().count(key@) > 0);
            assert(ov.to_multiset() =~= nv.to_multiset().remove(key@));
            assert(nv.to_multiset() =~= ov.to_multiset().insert(key@));
            assert(key_views(keys@.take(i + 1)) =~= key_views(keys@.take(i as int)).push(key@));
            assert(key_views(keys@.take(i + 1)).to_multiset() =~= key_views(keys@.take(i as int)).to_multiset().insert(key@));
        }
        i += 1;
    }
    assert(keys@.take(i as int) =~= keys@);
    out
}

/// Receives keys in sort order and keeps the ones after the cursor that
/// belong to the result set, up to `want` of them.
pub struct Collector {
    pub after: Option<Key>,
    pub direction: SortDirection,
    pub want: usize,
    pub keys: Vec<Key>,
}

/// The key sorts after the cursor, or there is no cursor.
pub open spec fn after_cursor(k: KeyV, after: Option<Key>, direction: SortDirection) -> bool {
    match after {
        Some(a) => order_of(k, a@, direction) == 1,
        None => true,
    }
}

impl Collector {
    /// Room for one page plus one key, which tells whether more remain.
    pub fn new(after: Option<Key>, direction: SortDirection, limit: usize) -> (c: Collector)
        ensures
            c.after == after,
            c.direction == direction,
            c.want == (if limit == usize::MAX {
                limit
            } else {
                (limit + 1) as usize
            }),
            c.keys@.len() == 0,
    {
        let want = if limit == usize::MAX {
            limit
        } else {
            limit + 1
        };
        Collector { after, direction, want, keys: Vec::new() }
    }

    pub fn full(&self) -> (b: bool)
        ensures
            b == (self.keys@.len() >= self.want),
    {
        self.keys.len() >= self.want
    }

    /// Keeps `key` when it sorts after the cursor and its Node is in `set`.
    pub fn offer(&mut self, key: Key, set: &RoaringBitmap)
        requires
            valid_rank(key@),
            old(self).after matches Some(a) ==> valid_rank(a@),
        ensures
            final(self).after == old(self).after,
            final(self).direction == old(self).direction,
            final(self).want == old(self).want,
            key_views(final(self).keys@) == (if after_cursor(key@, old(self).after, old(self).direction)
                && ids_of(*set).contains(key.id) {
                key_views(old(self).keys@).push(key@)
            } else {
                key_views(old(self).keys@)
            }),
    {
        let keep = match &self.after {
            Some(a) => sorts_after(&key, a, self.direction),
            None => true,
        };
        if keep && has_id(set, key.id) {
            let ghost before = self.keys@;
            self.keys.push(key);
            assert(key_views(self.keys@) =~= key_views(before).push(key@));
        }
    }

    /// The page: the first `limit` ids, and a cursor at the last of them
    /// when more keys were collected.
    pub fn finish(self, limit: usize) -> (r: (Vec<NodeId>, Option<String>))
        ensures
            r.0@.len() == (if self.keys@.len() < limit {
                self.keys@.len()
            } else {
                limit as nat
            }),
            forall|i: int| 0 <= i < r.0@.len() ==> #[trigger] r.0@[i] == self.keys@[i].id,
            r.1 matches Some(c) ==> c@ == encode_spec(self.keys@[limit - 1]@),
            r.1 is Some <==> self.keys@.len() > limit && limit > 0,
    {
        let more = self.keys.len() > limit;
        let n = if more {
            limit
        } else {
            self.keys.len()
        };
        let mut ids: Vec<NodeId> = Vec::new();
        let mut i: usize = 0;
        while i < n
            invariant
                n <= self.keys@.len(),
                i <= n,
                ids@.len() == i,
                forall|k: int| 0 <= k < i ==> #[trigger] ids@[k] == self.keys@[k].id,
            decreases n - i,
        {
            ids.push(self.keys[i].id);
            i += 1;
        }
        let cursor = if more && n > 0 {
            Some(encode(&self.keys[n - 1]))
        } else {
            None
        };
        (ids, cursor)
    }
}

/// The value kinds in the order a descending or ascending stream visits
/// them; Nodes without a value always last.
pub fn sections(direction: SortDirection) -> (r: [u8; 3])
    ensures
        r@ == (match direction {
            SortDirection::Asc => seq![NUMBER, STRING, MISSING],
            SortDirection::Desc => seq![STRING, NUMBER, MISSING],
        }),
{
    match direction {
        SortDirection::Asc => [NUMBER, STRING, MISSING],
        SortDirection::Desc => [STRING, NUMBER, MISSING],
    }
}

/// A whole section sorts before the cursor and can be skipped.
pub fn before_cursor(rank: u8, after: &Option<Key>, direction: SortDirection) -> (b: bool)
    requires
        rank <= MISSING,
        after matches Some(a) ==> valid_rank(a@),
    ensures
        b == (match after {
            Some(a) => position_spec(rank, direction) < position_spec(a.rank, direction),
            None => false,
        }),
{
    match after {
        Some(a) => position(rank, direction) < position(a.rank, direction),
        None => false,
    }
}

/// Where a stream of one section resumes: the cursor's own value when the
/// cursor lies in that section.
pub fn resume_in(rank: u8, after: &Option<Key>) -> (r: Option<&Key>)
    ensures
        r == (match after {
            Some(a) => if a.rank == rank {
                Some(a)
            } else {
                None
            },
            None => None,
        }),
{
    match after {
        Some(a) => if a.rank == rank {
            Some(a)
        } else {
            None
        },
        None => None,
    }
}

} // verus!
