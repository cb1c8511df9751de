//! The order in which an AND evaluates its operands: smallest estimate
//! first.

use vstd::prelude::*;

verus! {

/// `a` goes before `b`: a smaller estimate, or the same and listed earlier.
pub open spec fn goes_before(est: Seq<u64>, a: usize, b: usize) -> bool {
    est[a as int] < est[b as int] || (est[a as int] == est[b as int] && a < b)
}

/// How many leading operands of `out` have an estimate at most that of `i`.
pub open spec fn place(est: Seq<u64>, out: Seq<usize>, i: usize) -> nat
    decreases out.len(),
{
    if out.len() == 0 {
        0
    } else if est[out[0] as int] <= est[i as int] {
        1 + place(est, out.drop_first(), i)
    } else {
        0
    }
}

/// The evaluation order of the first `n` operands: each one goes after the
/// operands before it whose estimate is at most its own.
pub open spec fn operand_order(est: Seq<u64>, n: nat) -> Seq<usize>
    decreases n,
{
    if n == 0 {
        Seq::empty()
    } else {
        let before = operand_order(est, (n - 1) as nat);
        before.insert(place(est, before, (n - 1) as usize) as int, (n - 1) as usize)
    }
}

pub proof fn lemma_place_bound(est: Seq<u64>, out: Seq<usize>, i: usize)
    ensures
        place(est, out, i) <= out.len(),
    decreases out.len(),
{
    if out.len() > 0 {
        lemma_place_bound(est, out.drop_first(), i);
    }
}

/// Operand positions, smallest estimate first; equal estimates keep their
/// order.
pub fn and_order(est: &Vec<u64>) -> (r: Vec<usize>)
    ensures
        r@ == operand_order(est@, est@.len()),
        r@.len() == est@.len(),
        forall|k: int| 0 <= k < r@.len() ==> #[trigger] r@[k] < est@.len(),
        forall|a: int, b: int| 0 <= a < b < r@.len() ==> goes_before(est@, r@[a], r@[b]),
        forall|i: usize| i < est@.len() ==> r@.contains(i),
{
    let mut out: Vec<usize> = Vec::new();
    let mut i: usize = 0;
    while i < est.len()
        invariant
            i <= est@.len(),
            out@.len() == i,
            forall|k: int| 0 <= k < out@.len() ==> #[trigger] out@[k] < i,
            forall|a: int, b: int| 0 <= a < b < out@.len() ==> goes_before(est@, out@[a], out@[b]),
            forall|j: usize| j < i ==> out@.contains(j),
            out@ == operand_order(est@, i as nat),
        decreases est@.len() - i,
    {
        let mut pos: usize = 0;
        proof {
            assert(out@.skip(0) =~= out@);
        }
        while pos < out.len() && est[out[pos]] <= est[i]
            invariant
                pos <= out@.len(),
                place(est@, out@, i) == pos + place(est@, out@.skip(pos as int), i),
                forall|k: int| 0 <= k < out@.len() ==> #[trigger] out@[k] < i,
                i < est@.len(),
                forall|k: int| 0 <= k < pos ==> est@[out@[k] as int] <= est@[i as int],
            decreases out@.len() - pos,
        {
            proof {
                assert(out@.skip(pos as int).drop_first() =~= out@.skip(pos as int + 1));
            }
            pos += 1;
        }
        proof {
            if pos < out@.len() {
                assert(out@.skip(pos as int)[0] == out@[pos as int]);
            } else {
                assert(out@.skip(pos as int).len() == 0);
            }
            assert(operand_order(est@, (i + 1) as nat) == out@.insert(place(est@, out@, i) as int, i));
        }
        let ghost before = out@;
        out.insert(pos, i);
        proof {
            assert(out@ =~= before.insert(pos as int, i));
            assert forall|a: int, b: int| 0 <= a < b < out@.len() implies goes_before(
                est@,
                out@[a],
                out@[b],
            ) by {
                if a < pos && b == pos {
                } else if a == pos && b > pos {
                    assert(out@[b] == before[b - 1]);
                    assert(est@[before[pos as int] as int] > est@[i as int]);
                    if b - 1 > pos {
                        assert(goes_before(est@, before[pos as int], before[b - 1]));
                    }
                } else if a < pos && b > pos {
                    assert(out@[b] == before[b - 1]);
                } else if a > pos {
                    assert(out@[a] == before[a - 1]);
                    assert(out@[b] == before[b - 1]);
                }
            }
            assert forall|k: int| 0 <= k < out@.len() implies #[trigger] out@[k] < i + 1 by {
                if k < pos {
                    assert(out@[k] == before[k]);
                } else if k > pos {
                    assert(out@[k] == before[k - 1]);
                }
            }
            assert forall|j: usize| j < i + 1 implies out@.contains(j) by {
                if j == i {
                    assert(out@[pos as int] == i);
                } else {
                    assert(before.contains(j));
                    let k = choose|k: int| 0 <= k < before.len() && before[k] == j;
                    if k < pos {
                        assert(out@[k] == j);
                    } else {
                        assert(out@[k + 1] == j);
                    }
                }
            }
        }
        i += 1;
    }
    out
}

} // verus!
