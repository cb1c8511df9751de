//! Paging a result set in id order.

use crate::bitmap::{
    at_most, below, ids_of, lemma_below_len, lemma_ids_finite, rank, select,
};
use crate::model::node::NodeId;
use roaring::RoaringBitmap;
use vstd::prelude::*;

verus! {

/// The ids of `s` above `after`.
pub open spec fn above(s: Set<u32>, after: u32) -> Set<u32> {
    s.filter(|z: u32| z > after)
}

/// The ids of `s` strictly between `after` and `y`.
pub open spec fn between(s: Set<u32>, after: u32, y: u32) -> Set<u32> {
    s.filter(|z: u32| after < z && z < y)
}

/// `y` is the `i`-th id of `s` above `after`, counting from 0.
pub open spec fn nth_above(s: Set<u32>, after: u32, i: int, y: u32) -> bool {
    s.contains(y) && y > after && between(s, after, y).len() == i
}

/// One page in id order: the first `limit` ids above `after`, and the last
/// of them as the next `after` when more remain.
pub open spec fn page_ok(s: Set<u32>, after: u32, limit: usize, ids: Seq<u32>, next: Option<u32>) -> bool {
    let total = above(s, after).len();
    &&& ids.len() == (if total < limit { total } else { limit as nat })
    &&& forall|i: int| 0 <= i < ids.len() ==> #[trigger] nth_above(s, after, i, ids[i])
    &&& next == (if total > limit && limit > 0 {
        Some(ids.last())
    } else {
        None
    })
}

pub proof fn lemma_split_at(s: Set<u32>, after: u32, y: u32)
    requires
        y > after,
    ensures
        below(s, y).len() == at_most(s, after).len() + between(s, after, y).len(),
{
    lemma_ids_finite(at_most(s, after));
    lemma_ids_finite(between(s, after, y));
    assert(below(s, y) =~= at_most(s, after) + between(s, after, y));
    vstd::set_lib::lemma_set_disjoint_lens(at_most(s, after), between(s, after, y));
}

pub proof fn lemma_split_total(s: Set<u32>, after: u32)
    ensures
        s.len() == at_most(s, after).len() + above(s, after).len(),
{
    lemma_ids_finite(at_most(s, after));
    lemma_ids_finite(above(s, after));
    assert(s =~= at_most(s, after) + above(s, after));
    vstd::set_lib::lemma_set_disjoint_lens(at_most(s, after), above(s, after));
}

/// The ids after `after`, at most `limit` of them, and where the next page
/// starts.
pub fn id_page(set: &RoaringBitmap, after: NodeId, limit: usize) -> (r: (Vec<NodeId>, Option<NodeId>))
    ensures
        page_ok(ids_of(*set), after, limit, r.0@, r.1),
{
    let ghost s = ids_of(*set);
    let start = rank(set, after);
    proof {
        lemma_ids_finite(s);
        lemma_split_total(s, after);
        lemma_ids_finite(above(s, after));
    }
    let ghost total = above(s, after).len();
    let mut ids: Vec<NodeId> = Vec::new();
    let mut more = false;
    let mut i: u64 = 0;
    loop
        invariant_except_break
            s == ids_of(*set),
            start == at_most(s, after).len(),
            s.len() == start + total,
            s.len() <= 0x1_0000_0000,
            i == ids@.len(),
            i <= total,
            i <= limit,
            !more,
            forall|k: int| 0 <= k < ids@.len() ==> #[trigger] nth_above(s, after, k, ids@[k]),
        ensures
            ids@.len() <= limit,
            ids@.len() <= total,
            more ==> ids@.len() == limit && total > limit,
            !more ==> ids@.len() == total,
            forall|k: int| 0 <= k < ids@.len() ==> #[trigger] nth_above(s, after, k, ids@[k]),
        decreases total - i,
    {
        let n = start + i;
        if n > 0xffff_ffff {
            break;
        }
        match select(set, n as u32) {
            None => {
                break;
            },
            Some(y) => {
                proof {
                    if y <= after {
                        assert(below(s, y).subset_of(at_most(s, after)));
                        assert(at_most(s, after).contains(y));
                        assert(!below(s, y).contains(y));
                        lemma_ids_finite(at_most(s, after));
                        lemma_ids_finite(below(s, y));
                        assert(below(s, y).subset_of(at_most(s, after).remove(y)));
                        vstd::set_lib::lemma_len_subset(below(s, y), at_most(s, after).remove(y));
                        assert(false);
                    }
                    lemma_split_at(s, after, y);
                }
                if ids.len() == limit {
                    more = true;
                    break;
                }
                ids.push(y);
                i += 1;
            },
        }
    }
    let next = if more && ids.len() > 0 {
        Some(ids[ids.len() - 1])
    } else {
        None
    };
    (ids, next)
}

/// Paging in id order loses and repeats nothing: the `i`-th id above the
/// page's last id is the `(limit + i)`-th id above the page's start.
pub proof fn law_page_continues(s: Set<u32>, after: u32, last: u32, k: int, y: u32, i: int)
    requires
        nth_above(s, after, k, last),
        nth_above(s, last, i, y),
    ensures
        nth_above(s, after, k + 1 + i, y),
{
    lemma_ids_finite(between(s, after, y));
    lemma_ids_finite(between(s, after, last));
    lemma_ids_finite(between(s, last, y));
    assert(between(s, after, y) =~= between(s, after, last).insert(last) + between(s, last, y));
    vstd::set_lib::lemma_set_disjoint_lens(between(s, after, last).insert(last), between(s, last, y));
}

} // verus!
