//! How compound predicates combine the Node sets of their parts.
//!
//! Every predicate is evaluated within an optional candidate set and yields
//! its Nodes inside that set. An AND evaluates its operands smallest
//! estimate first, each inside the survivors of the ones before, and stops
//! once nothing survives. `AndRun` holds those decisions; the caller
//! evaluates the operand it names inside the set it names and feeds back
//! the result.

use super::plan::and_order;
use crate::bitmap::{copy_set, ids_of, intersect_with, minus, no_ids};
use roaring::RoaringBitmap;
use vstd::prelude::*;

verus! {

/// `s` narrowed to the candidates, when there are any.
pub open spec fn within(s: Set<u32>, candidate: Option<Set<u32>>) -> Set<u32> {
    match candidate {
        Some(c) => s.intersect(c),
        None => s,
    }
}

pub open spec fn opt_ids(b: Option<&RoaringBitmap>) -> Option<Set<u32>> {
    match b {
        Some(x) => Some(ids_of(*x)),
        None => None,
    }
}

/// Keeps the Nodes of `result` that are candidates.
pub fn restrict(result: &mut RoaringBitmap, candidate: Option<&RoaringBitmap>)
    ensures
        ids_of(*final(result)) == within(ids_of(*old(result)), opt_ids(candidate)),
{
    match candidate {
        Some(c) => intersect_with(result, c),
        None => {},
    }
}

/// NOT: the Nodes of the base that the operand did not select.
pub fn complement(base: &RoaringBitmap, exclude: &RoaringBitmap) -> (r: RoaringBitmap)
    ensures
        ids_of(r) == ids_of(*base).difference(ids_of(*exclude)),
{
    minus(base, exclude)
}

/// The candidate set was given and is empty: nothing can match.
pub fn nothing_to_find(candidate: Option<&RoaringBitmap>) -> (b: bool)
    ensures
        b == (match candidate {
            Some(c) => ids_of(*c) == Set::<u32>::empty(),
            None => false,
        }),
{
    match candidate {
        Some(c) => no_ids(c),
        None => false,
    }
}

/// The sets an AND sees after its operands `fs`, in evaluation order, each
/// evaluated inside what survived the ones before.
pub open spec fn narrow(current: Option<Set<u32>>, fs: Seq<Set<u32>>) -> Option<Set<u32>>
    decreases fs.len(),
{
    if fs.len() == 0 {
        current
    } else {
        let next = within(fs[0], current);
        if next == Set::<u32>::empty() {
            Some(next)
        } else {
            narrow(Some(next), fs.drop_first())
        }
    }
}

/// The Nodes every set of `fs` holds, within `start` when given.
pub open spec fn all_of(start: Option<Set<u32>>, fs: Seq<Set<u32>>) -> Set<u32>
    decreases fs.len(),
{
    if fs.len() == 0 {
        match start {
            Some(s) => s,
            None => Set::full(),
        }
    } else {
        all_of(start, fs.drop_last()).intersect(fs.last())
    }
}

pub proof fn lemma_all_of_first(start: Option<Set<u32>>, fs: Seq<Set<u32>>)
    requires
        fs.len() > 0,
    ensures
        all_of(start, fs) == all_of(Some(within(fs[0], start)), fs.drop_first()),
    decreases fs.len(),
{
    if fs.len() == 1 {
        assert(fs.drop_first().len() == 0);
        assert(fs.drop_last().len() == 0);
        assert(fs.last() == fs[0]);
        assert(all_of(start, fs) == all_of(start, fs.drop_last()).intersect(fs.last()));
        match start {
            Some(s) => {
                assert(all_of(start, fs.drop_last()) == s);
                assert(all_of(start, fs) =~= within(fs[0], start));
            },
            None => {
                assert(all_of(start, fs.drop_last()) == Set::<u32>::full());
                assert(all_of(start, fs) =~= within(fs[0], start));
            },
        }
    } else {
        lemma_all_of_first(start, fs.drop_last());
        assert(fs.drop_last().drop_first() =~= fs.drop_first().drop_last());
        assert(fs.drop_first().last() == fs.last());
        assert(fs.drop_last()[0] == fs[0]);
        let w = within(fs[0], start);
        assert(all_of(start, fs) == all_of(start, fs.drop_last()).intersect(fs.last()));
        assert(all_of(Some(w), fs.drop_first()) == all_of(Some(w), fs.drop_first().drop_last()).intersect(fs.drop_first().last()));
    }
}

pub proof fn lemma_all_of_empty(fs: Seq<Set<u32>>)
    ensures
        all_of(Some(Set::<u32>::empty()), fs) == Set::<u32>::empty(),
    decreases fs.len(),
{
    if fs.len() > 0 {
        lemma_all_of_empty(fs.drop_last());
        assert(all_of(Some(Set::<u32>::empty()), fs) =~= Set::<u32>::empty());
    }
}

/// Evaluating an AND operand by operand, each inside the survivors of the
/// ones before and stopping once nothing survives, gives the Nodes every
/// operand selects, within the candidates: the order of the operands and
/// the early stop change nothing.
pub proof fn law_and_narrowing(candidate: Option<Set<u32>>, fs: Seq<Set<u32>>)
    requires
        fs.len() > 0,
    ensures
        narrow(candidate, fs) == Some(all_of(candidate, fs)),
    decreases fs.len(),
{
    let next = within(fs[0], candidate);
    lemma_all_of_first(candidate, fs);
    if next == Set::<u32>::empty() {
        lemma_all_of_empty(fs.drop_first());
    } else if fs.len() > 1 {
        law_and_narrowing(Some(next), fs.drop_first());
    } else {
        assert(fs.drop_first().len() == 0);
    }
}

/// An AND in progress: the operands in evaluation order, how many were
/// evaluated, and what survived them.
pub struct AndRun {
    pub order: Vec<usize>,
    pub done: usize,
    pub current: Option<RoaringBitmap>,
    pub stopped: bool,
}

impl AndRun {
    /// Operands smallest estimate first, starting from the candidates.
    pub fn start(estimates: &Vec<u64>, candidate: Option<&RoaringBitmap>) -> (r: AndRun)
        ensures
            r.order@ == super::plan::operand_order(estimates@, estimates@.len()),
            r.order@.len() == estimates@.len(),
            forall|k: int| 0 <= k < r.order@.len() ==> #[trigger] r.order@[k] < estimates@.len(),
            forall|a: int, b: int| 0 <= a < b < r.order@.len() ==> super::plan::goes_before(estimates@, r.order@[a], r.order@[b]),
            forall|i: usize| i < estimates@.len() ==> r.order@.contains(i),
            r.done == 0,
            !r.stopped,
            match (r.current, candidate) {
                (Some(c), Some(d)) => ids_of(c) == ids_of(*d),
                (None, None) => true,
                _ => false,
            },
    {
        let order = and_order(estimates);
        let current = match candidate {
            Some(c) => Some(copy_set(c)),
            None => None,
        };
        AndRun { order, done: 0, current, stopped: false }
    }

    /// The operand to evaluate next, or None when the AND is decided.
    pub fn operand(&self) -> (r: Option<usize>)
        ensures
            r == (if self.stopped || self.done >= self.order@.len() {
                None
            } else {
                Some(self.order@[self.done as int])
            }),
    {
        if self.stopped || self.done >= self.order.len() {
            None
        } else {
            Some(self.order[self.done])
        }
    }

    /// The operand's result, already evaluated inside `current`.
    pub fn feed(&mut self, result: RoaringBitmap)
        requires
            !old(self).stopped,
            old(self).done < old(self).order@.len(),
        ensures
            final(self).order == old(self).order,
            final(self).done == old(self).done + 1,
            final(self).current matches Some(c) && ids_of(c) == ids_of(result),
            final(self).stopped == (ids_of(result) == Set::<u32>::empty()),
    {
        let empty = no_ids(&result);
        let n = self.order.len();
        self.current = Some(result);
        self.done = self.done + 1;
        self.stopped = empty;
    }

    /// What survived; None when there were neither operands nor candidates,
    /// which means every live Node.
    pub fn finish(self) -> (r: Option<RoaringBitmap>)
        ensures
            r == self.current,
    {
        self.current
    }
}

} // verus!
