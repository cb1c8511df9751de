//! Repeated hops along one relation: breadth-first by hop count, each Node
//! counted at its shortest distance from the start set.
//!
//! A `Walk` holds the decisions; the caller performs each expansion (the
//! Nodes one hop from the frontier) and hands the result to `advance`.

use crate::bitmap::{
    copy_set, empty_set, ids_of, lemma_ids_finite, minus, no_ids, union_with,
};
use crate::model::links::Direction;
use roaring::RoaringBitmap;
use crate::types::schema::reads_link;
use vstd::prelude::*;

verus! {

pub struct Walk {
    /// Every Node reached so far, the start set included.
    pub visited: RoaringBitmap,
    /// The Nodes first reached at the current depth.
    pub frontier: RoaringBitmap,
    /// The Nodes kept: those first reached at a depth within min..=max.
    pub reached: RoaringBitmap,
    pub depth: u64,
    pub min: u32,
    pub max: Option<u32>,
}

/// Frontier and visited set after `i` hops from `start` when `next` gives
/// the Nodes one hop from a set.
pub open spec fn bfs(next: spec_fn(Set<u32>) -> Set<u32>, start: Set<u32>, i: nat) -> (Set<u32>, Set<u32>)
    decreases i,
{
    if i == 0 {
        (start, start)
    } else {
        let (frontier, visited) = bfs(next, start, (i - 1) as nat);
        let level = next(frontier).difference(visited);
        (level, visited.union(level))
    }
}

/// The Nodes first reached at a depth from `min` to `i`.
pub open spec fn kept(next: spec_fn(Set<u32>) -> Set<u32>, start: Set<u32>, min: u32, i: nat) -> Set<u32>
    decreases i,
{
    if i == 0 {
        if min == 0 {
            start
        } else {
            Set::empty()
        }
    } else if i >= min {
        kept(next, start, min, (i - 1) as nat).union(bfs(next, start, i).0)
    } else {
        kept(next, start, min, (i - 1) as nat)
    }
}

/// The walk is `i` hops into the breadth-first search from `start`.
pub open spec fn walk_at(w: Walk, next: spec_fn(Set<u32>) -> Set<u32>, start: Set<u32>, i: nat) -> bool {
    &&& w.depth == i
    &&& ids_of(w.frontier) == bfs(next, start, i).0
    &&& ids_of(w.visited) == bfs(next, start, i).1
    &&& ids_of(w.reached) == kept(next, start, w.min, i)
}

impl Walk {
    /// The frontier lies inside the visited set, the kept Nodes too, and a
    /// non-empty frontier means at least `depth + 1` Nodes were visited.
    pub open spec fn wf(&self) -> bool {
        &&& ids_of(self.frontier).subset_of(ids_of(self.visited))
        &&& ids_of(self.reached).subset_of(ids_of(self.visited))
        &&& ids_of(self.frontier) != Set::<u32>::empty() ==> self.depth + 1 <= ids_of(
            self.visited,
        ).len()
    }

    /// A walk standing on `start`: depth 0, kept when `min` is 0.
    pub fn begin(start: &RoaringBitmap, min: u32, max: Option<u32>) -> (w: Walk)
        ensures
            w.wf(),
            w.min == min,
            w.max == max,
            forall|next: spec_fn(Set<u32>) -> Set<u32>| walk_at(w, next, ids_of(*start), 0),
    {
        let reached = if min == 0 {
            copy_set(start)
        } else {
            empty_set()
        };
        let w = Walk {
            visited: copy_set(start),
            frontier: copy_set(start),
            reached,
            depth: 0,
            min,
            max,
        };
        proof {
            lemma_ids_finite(ids_of(*start));
            if ids_of(*start).len() == 0 {
                ids_of(*start).lemma_len0_is_empty();
            }
        }
        w
    }

    /// Whether another hop is due: the frontier is not empty and `max`
    /// hops have not been made.
    pub fn wants_more(&self) -> (b: bool)
        ensures
            b == (ids_of(self.frontier) != Set::<u32>::empty() && match self.max {
                Some(m) => self.depth < m,
                None => true,
            }),
    {
        if no_ids(&self.frontier) {
            return false;
        }
        match self.max {
            Some(m) => self.depth < m as u64,
            None => true,
        }
    }

    /// One hop: `expanded` holds the Nodes one hop from the frontier. The
    /// new frontier is what was not visited before; it is kept once the
    /// depth reaches `min`.
    pub fn advance(&mut self, expanded: &RoaringBitmap)
        requires
            old(self).wf(),
            ids_of(old(self).frontier) != Set::<u32>::empty(),
        ensures
            final(self).wf(),
            final(self).min == old(self).min,
            final(self).max == old(self).max,
            final(self).depth == old(self).depth + 1,
            ids_of(final(self).frontier) == ids_of(*expanded).difference(ids_of(old(self).visited)),
            ids_of(final(self).visited) == ids_of(old(self).visited).union(ids_of(final(self).frontier)),
            ids_of(final(self).reached) == (if final(self).depth >= old(self).min {
                ids_of(old(self).reached).union(ids_of(final(self).frontier))
            } else {
                ids_of(old(self).reached)
            }),
    {
        proof {
            lemma_ids_finite(ids_of(self.visited));
        }
        let ghost old_visited = ids_of(self.visited);
        self.depth = self.depth + 1;
        self.frontier = minus(expanded, &self.visited);
        union_with(&mut self.visited, &self.frontier);
        if self.depth >= self.min as u64 {
            union_with(&mut self.reached, &self.frontier);
        }
        proof {
            let f = ids_of(self.frontier);
            lemma_ids_finite(f);
            lemma_ids_finite(ids_of(self.visited));
            if f != Set::<u32>::empty() {
                if f.len() == 0 {
                    f.lemma_len0_is_empty();
                }
                assert(f.disjoint(old_visited));
                vstd::set_lib::lemma_set_disjoint_lens(old_visited, f);
            }
        }
    }
}

/// Walking one hop keeps the walk on the breadth-first search: after `i`
/// hops the frontier is the level `i`, the visited set the levels up to
/// `i`, and the kept Nodes those of the levels from `min` to `i`.
pub proof fn law_walk_step(
    before: Walk,
    after: Walk,
    expanded: Set<u32>,
    next: spec_fn(Set<u32>) -> Set<u32>,
    start: Set<u32>,
    i: nat,
)
    requires
        walk_at(before, next, start, i),
        expanded == next(ids_of(before.frontier)),
        after.depth == before.depth + 1,
        after.min == before.min,
        ids_of(after.frontier) == expanded.difference(ids_of(before.visited)),
        ids_of(after.visited) == ids_of(before.visited).union(ids_of(after.frontier)),
        ids_of(after.reached) == (if after.depth >= before.min {
            ids_of(before.reached).union(ids_of(after.frontier))
        } else {
            ids_of(before.reached)
        }),
    ensures
        walk_at(after, next, start, i + 1),
{
}

/// A Node counts at its shortest distance: the level reached after `j`
/// hops shares nothing with what was visited after fewer hops.
pub proof fn law_shortest_distance(next: spec_fn(Set<u32>) -> Set<u32>, start: Set<u32>, i: nat, j: nat)
    requires
        i < j,
    ensures
        bfs(next, start, j).0.disjoint(bfs(next, start, i).1),
    decreases j,
{
    lemma_visited_grows(next, start, i, (j - 1) as nat);
}

pub proof fn lemma_visited_grows(next: spec_fn(Set<u32>) -> Set<u32>, start: Set<u32>, i: nat, j: nat)
    requires
        i <= j,
    ensures
        bfs(next, start, i).1.subset_of(bfs(next, start, j).1),
    decreases j,
{
    if i < j {
        lemma_visited_grows(next, start, i, (j - 1) as nat);
    }
}

/// Whether an expansion should start from the targets rather than the
/// sources: when targets are given and there are fewer of them.
pub fn from_targets(sources: &RoaringBitmap, targets: Option<&RoaringBitmap>) -> (b: bool)
    ensures
        b == (match targets {
            Some(t) => ids_of(*t).len() < ids_of(*sources).len(),
            None => false,
        }),
{
    match targets {
        Some(t) => crate::bitmap::count(t) < crate::bitmap::count(sources),
        None => false,
    }
}

/// The direction an expansion reads links in: reversed when it starts from
/// the targets.
pub open spec fn read_direction_spec(direction: Direction, flipped: bool) -> Direction {
    if flipped {
        direction.reverse_spec()
    } else {
        direction
    }
}

/// An expansion finds the same links from either end: reading from the
/// sources in `direction` reaches `t` from `s` exactly when reading from
/// the targets, flipped, reaches `s` from `t`.
pub proof fn law_flipped_expansion(direction: Direction, s: u32, t: u32, link: (u32, u32))
    ensures
        (reads_link(read_direction_spec(direction, false), s, link) == Some(t)) == (reads_link(
            read_direction_spec(direction, true),
            t,
            link,
        ) == Some(s)),
{
}

pub fn read_direction(direction: Direction, flipped: bool) -> (d: Direction)
    ensures
        d == read_direction_spec(direction, flipped),
{
    if flipped {
        direction.reverse()
    } else {
        direction
    }
}

} // verus!
