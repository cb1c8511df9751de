//! Sort keys of an ordered result and how two keys compare.

use crate::model::node::NodeId;
use crate::model::predicate::SortDirection;
use crate::text::{bytes_lt, less_bytes, same_bytes};
use std::cmp::Ordering;
use vstd::prelude::*;

verus! {

/// Rank of a number value.
pub const NUMBER: u8 = 0;

/// Rank of a string value.
pub const STRING: u8 = 1;

/// Rank of a Node without a sortable value.
pub const MISSING: u8 = 2;

/// A Node's place in an ordered result: value kind, value bytes, then id.
#[derive(Debug, Clone, PartialEq, Eq)]
pub struct Key {
    pub rank: u8,
    pub bytes: Vec<u8>,
    pub id: NodeId,
}

pub struct KeyV {
    pub rank: u8,
    pub bytes: Seq<u8>,
    pub id: NodeId,
}

impl View for Key {
    type V = KeyV;

    open spec fn view(&self) -> KeyV {
        KeyV { rank: self.rank, bytes: self.bytes@, id: self.id }
    }
}

pub open spec fn position_spec(rank: u8, direction: SortDirection) -> int {
    if rank == MISSING {
        2
    } else if direction == SortDirection::Asc {
        rank as int
    } else {
        1 - rank
    }
}

/// Numbers precede strings ascending and follow them descending; Nodes
/// without a value always come last.
pub fn position(rank: u8, direction: SortDirection) -> (p: u8)
    requires
        rank <= MISSING,
    ensures
        p == position_spec(rank, direction),
{
    if rank == MISSING {
        2
    } else {
        match direction {
            SortDirection::Asc => rank,
            SortDirection::Desc => 1 - rank,
        }
    }
}

/// -1, 0 or 1 as `a` sorts before, with or after `b` bytewise.
pub open spec fn bytes_order(a: Seq<u8>, b: Seq<u8>) -> int {
    if bytes_lt(a, b) {
        -1
    } else if a == b {
        0
    } else {
        1
    }
}

/// Bytes, then id.
pub open spec fn ascending(a: KeyV, b: KeyV) -> int {
    let c = bytes_order(a.bytes, b.bytes);
    if c != 0 {
        c
    } else if a.id < b.id {
        -1
    } else if a.id == b.id {
        0
    } else {
        1
    }
}

/// -1, 0 or 1 as `a` sorts before, with or after `b`: by position, then by
/// bytes and id, reversed when descending except for Nodes without a value.
pub open spec fn order_of(a: KeyV, b: KeyV, direction: SortDirection) -> int {
    let pa = position_spec(a.rank, direction);
    let pb = position_spec(b.rank, direction);
    if pa < pb {
        -1
    } else if pa > pb {
        1
    } else if a.rank == MISSING || direction == SortDirection::Asc {
        ascending(a, b)
    } else {
        -ascending(a, b)
    }
}

pub open spec fn valid_rank(k: KeyV) -> bool {
    k.rank <= MISSING
}

pub proof fn lemma_bytes_lt_irreflexive(a: Seq<u8>)
    ensures
        !bytes_lt(a, a),
    decreases a.len(),
{
    if a.len() > 0 {
        lemma_bytes_lt_irreflexive(a.drop_first());
    }
}

pub proof fn lemma_bytes_lt_total(a: Seq<u8>, b: Seq<u8>)
    ensures
        bytes_lt(a, b) || a == b || bytes_lt(b, a),
        !(bytes_lt(a, b) && bytes_lt(b, a)),
    decreases a.len(),
{
    if a.len() > 0 && b.len() > 0 && a[0] == b[0] {
        lemma_bytes_lt_total(a.drop_first(), b.drop_first());
        if a.drop_first() == b.drop_first() {
            assert(a =~= seq![a[0]] + a.drop_first());
            assert(b =~= seq![b[0]] + b.drop_first());
        }
    }
    if a.len() == 0 && b.len() == 0 {
        assert(a =~= b);
    }
}

pub proof fn lemma_bytes_lt_transitive(a: Seq<u8>, b: Seq<u8>, c: Seq<u8>)
    requires
        bytes_lt(a, b),
        bytes_lt(b, c),
    ensures
        bytes_lt(a, c),
    decreases a.len(),
{
    if a.len() > 0 && b.len() > 0 && c.len() > 0 && a[0] == b[0] && b[0] == c[0] {
        lemma_bytes_lt_transitive(a.drop_first(), b.drop_first(), c.drop_first());
    }
}

/// Keys compare the other way round when swapped.
pub proof fn law_compare_antisymmetric(a: KeyV, b: KeyV, direction: SortDirection)
    requires
        valid_rank(a),
        valid_rank(b),
    ensures
        order_of(a, b, direction) == -order_of(b, a, direction),
{
    lemma_bytes_lt_total(a.bytes, b.bytes);
}

/// Keys compare equal exactly when they are the same key.
pub proof fn law_compare_equal(a: KeyV, b: KeyV, direction: SortDirection)
    requires
        valid_rank(a),
        valid_rank(b),
    ensures
        order_of(a, b, direction) == 0 <==> a == b,
{
    lemma_bytes_lt_total(a.bytes, b.bytes);
    lemma_bytes_lt_irreflexive(a.bytes);
}

/// Sorting before or with is transitive.
pub proof fn law_compare_transitive(a: KeyV, b: KeyV, c: KeyV, direction: SortDirection)
    requires
        valid_rank(a),
        valid_rank(b),
        valid_rank(c),
        order_of(a, b, direction) <= 0,
        order_of(b, c, direction) <= 0,
    ensures
        order_of(a, c, direction) <= 0,
{
    lemma_bytes_lt_total(a.bytes, b.bytes);
    lemma_bytes_lt_total(b.bytes, c.bytes);
    lemma_bytes_lt_total(a.bytes, c.bytes);
    lemma_bytes_lt_irreflexive(a.bytes);
    if bytes_lt(a.bytes, b.bytes) && bytes_lt(b.bytes, c.bytes) {
        lemma_bytes_lt_transitive(a.bytes, b.bytes, c.bytes);
    }
    if bytes_lt(c.bytes, b.bytes) && bytes_lt(b.bytes, a.bytes) {
        lemma_bytes_lt_transitive(c.bytes, b.bytes, a.bytes);
    }
}

/// Values compare by bytes then id, reversed when descending; Nodes without a
/// value stay in ascending id order.
pub fn compare(a: &Key, b: &Key, direction: SortDirection) -> (r: Ordering)
    requires
        valid_rank(a@),
        valid_rank(b@),
    ensures
        r == Ordering::Less <==> order_of(a@, b@, direction) == -1,
        r == Ordering::Equal <==> order_of(a@, b@, direction) == 0,
        r == Ordering::Greater <==> order_of(a@, b@, direction) == 1,
{
    let pa = position(a.rank, direction);
    let pb = position(b.rank, direction);
    if pa < pb {
        return Ordering::Less;
    }
    if pa > pb {
        return Ordering::Greater;
    }
    let up: i8 = if less_bytes(a.bytes.as_slice(), b.bytes.as_slice()) {
        -1
    } else if same_bytes(a.bytes.as_slice(), b.bytes.as_slice()) {
        if a.id < b.id {
            -1
        } else if a.id == b.id {
            0
        } else {
            1
        }
    } else {
        1
    };
    let forward = a.rank == MISSING || direction == SortDirection::Asc;
    let c: i8 = if forward {
        up
    } else {
        -up
    };
    if c < 0 {
        Ordering::Less
    } else if c == 0 {
        Ordering::Equal
    } else {
        Ordering::Greater
    }
}

/// `a` sorts strictly after `b`.
pub fn sorts_after(a: &Key, b: &Key, direction: SortDirection) -> (r: bool)
    requires
        valid_rank(a@),
        valid_rank(b@),
    ensures
        r == (order_of(a@, b@, direction) == 1),
{
    match compare(a, b, direction) {
        Ordering::Greater => true,
        _ => false,
    }
}

} // verus!
