//! Cheap bounds used to evaluate the smallest AND operand first.
//!
//! The estimate of a predicate reads counts only: how many Nodes hold a
//! token at a path, how many hold a scalar at each attrs path, how many
//! links reach a Node. `counts` lists those reads in order; `estimate`
//! combines their answers. A single-holder number has no count row and
//! estimates as 0, which is at most one off.

use super::evaluation::{all_readable, leaf_readable, lemma_all_readable, lemma_checked_readable, readable};
use super::validate::{pred_check, pred_wf};
use super::reads::{read_of, read_spec, Read, ReadV};
use crate::index::live_string;
use crate::index::live_token;
use crate::model::links::Direction;
use crate::model::node::NodeId;
use crate::model::predicate::{lemma_predicates_view, predicates_view, Predicate, PredicateV};
use vstd::prelude::*;

verus! {

/// A count read for an estimate.
#[derive(Debug, PartialEq, Eq)]
pub enum Count {
    /// How many Nodes hold `token` at `field`; 0 without a count row.
    Holders { field: String, token: String },
    /// How many Nodes hold the scalar at each concrete attrs path.
    Anywhere { token: String, number: Option<Vec<u8>> },
    /// How many links of `relation` reach `target`, read from it in
    /// `direction`.
    Links { relation: String, target: NodeId, direction: Direction },
}

pub enum CountV {
    Holders(Seq<char>, Seq<char>),
    Anywhere(Seq<char>, Option<Seq<u8>>),
    Links(Seq<char>, NodeId, Direction),
}

impl View for Count {
    type V = CountV;

    open spec fn view(&self) -> CountV {
        match *self {
            Count::Holders { field, token } => CountV::Holders(field@, token@),
            Count::Anywhere { token, number } => CountV::Anywhere(
                token@,
                match number {
                    Some(n) => Some(n@),
                    None => None,
                },
            ),
            Count::Links { relation, target, direction } => CountV::Links(relation@, target, direction),
        }
    }
}

/// The live Nodes.
pub open spec fn live_count() -> CountV {
    CountV::Holders(Seq::empty(), live_token())
}

/// The counts an index read's estimate reads.
pub open spec fn read_counts(r: ReadV) -> Seq<CountV> {
    match r {
        ReadV::Exact { field, token, .. } => seq![CountV::Holders(field, token)],
        ReadV::Posting { field, token } => seq![CountV::Holders(field, token)],
        ReadV::Anywhere { token, number } => seq![CountV::Anywhere(token, number)],
        ReadV::AnyOf { field, tokens } => tokens.map_values(
            |t: (Seq<char>, Option<Seq<u8>>)| CountV::Holders(field, t.0),
        ),
        ReadV::Linked { target, relation, direction } => seq![CountV::Links(relation, target, direction)],
        _ => seq![],
    }
}

/// The counts the estimate of `p` reads, in order: a value's holders, the
/// holders of each value of an IN, a scalar's holders at every path, the
/// links reaching a Node, the live Nodes for an AND (then its operands')
/// and for what has no cheaper bound; nothing for ids and a limited seek.
pub open spec fn counts_of(p: PredicateV) -> Seq<CountV>
    decreases p, 0nat,
{
    match p {
        PredicateV::And { args } => seq![live_count()] + counts_from(args, 0),
        PredicateV::Or { args } => counts_from(args, 0),
        PredicateV::Ids { .. } => seq![],
        PredicateV::Seek { limit, .. } => match limit {
            Some(_) => seq![],
            None => seq![live_count()],
        },
        PredicateV::Eq { .. } | PredicateV::Exists { .. } | PredicateV::Any { .. } | PredicateV::In { .. }
        | PredicateV::HasLink { .. } => match read_spec(p) {
            Some(r) => read_counts(r),
            None => seq![],
        },
        _ => seq![live_count()],
    }
}

pub open spec fn counts_from(args: Seq<PredicateV>, i: nat) -> Seq<CountV>
    decreases args, args.len() - i,
{
    if i >= args.len() {
        seq![]
    } else {
        counts_of(args[i as int]) + counts_from(args, i + 1)
    }
}

/// `a + b`, saturating at u64::MAX.
pub open spec fn sat_add(a: u64, b: u64) -> u64 {
    if a + b > u64::MAX {
        u64::MAX
    } else {
        (a + b) as u64
    }
}

/// `acc` plus every count of `v`, saturating.
pub open spec fn add_all(acc: u64, v: Seq<u64>) -> u64
    decreases v.len(),
{
    if v.len() == 0 {
        acc
    } else {
        sat_add(add_all(acc, v.drop_last()), v.last())
    }
}

/// `acc` plus every count of every answer, saturating.
pub open spec fn add_answers(acc: u64, a: Seq<Seq<u64>>) -> u64
    decreases a.len(),
{
    if a.len() == 0 {
        acc
    } else {
        add_all(add_answers(acc, a.drop_last()), a.last())
    }
}

/// The estimate of `p` from the answers to its counts from `pos` on, and
/// the position after them: the ids' number, a seek's limit, the smallest
/// of the live count and an AND's operands, the saturating sum of an OR's
/// operands, and the saturating sum of what a leaf's counts found.
pub open spec fn estimate_at(p: PredicateV, ans: Seq<Seq<u64>>, pos: nat) -> (u64, nat)
    decreases p, 0nat,
{
    match p {
        PredicateV::Ids { ids } => (ids.len() as u64, pos),
        PredicateV::And { args } => least_from(args, 0, add_all(0, ans[pos as int]), ans, pos + 1),
        PredicateV::Or { args } => sum_from(args, 0, 0, ans, pos),
        PredicateV::Seek { limit: Some(l), .. } => (l as u64, pos),
        _ => {
            let n = counts_of(p).len();
            (add_answers(0, ans.subrange(pos as int, (pos + n) as int)), pos + n)
        },
    }
}

pub open spec fn least_from(args: Seq<PredicateV>, i: nat, m: u64, ans: Seq<Seq<u64>>, pos: nat) -> (u64, nat)
    decreases args, args.len() - i,
{
    if i >= args.len() {
        (m, pos)
    } else {
        let (e, q) = estimate_at(args[i as int], ans, pos);
        least_from(args, i + 1, if e < m { e } else { m }, ans, q)
    }
}

pub open spec fn sum_from(args: Seq<PredicateV>, i: nat, s: u64, ans: Seq<Seq<u64>>, pos: nat) -> (u64, nat)
    decreases args, args.len() - i,
{
    if i >= args.len() {
        (s, pos)
    } else {
        let (e, q) = estimate_at(args[i as int], ans, pos);
        sum_from(args, i + 1, sat_add(s, e), ans, q)
    }
}

pub open spec fn counts_view(v: Seq<Count>) -> Seq<CountV> {
    v.map_values(|c: Count| c@)
}

pub open spec fn answers_view(v: Seq<Vec<u64>>) -> Seq<Seq<u64>> {
    v.map_values(|a: Vec<u64>| a@)
}

/// The counts of the operands before `i`.
pub open spec fn counts_upto(args: Seq<PredicateV>, i: nat) -> Seq<CountV>
    decreases i,
{
    if i == 0 || i > args.len() {
        seq![]
    } else {
        counts_upto(args, (i - 1) as nat) + counts_of(args[i - 1])
    }
}

proof fn lemma_counts_split(args: Seq<PredicateV>, i: nat)
    requires
        i <= args.len(),
    ensures
        counts_upto(args, i) + counts_from(args, i) == counts_from(args, 0),
    decreases i,
{
    if i > 0 {
        lemma_counts_split(args, (i - 1) as nat);
        assert(counts_from(args, (i - 1) as nat) == counts_of(args[i - 1]) + counts_from(args, i));
        assert(counts_upto(args, i) + counts_from(args, i) =~= counts_upto(args, (i - 1) as nat) + counts_from(
            args,
            (i - 1) as nat,
        ));
    } else {
        assert(counts_upto(args, 0) + counts_from(args, 0) =~= counts_from(args, 0));
    }
}

fn push_live(out: &mut Vec<Count>)
    ensures
        counts_view(final(out)@) == counts_view(old(out)@).push(live_count()),
{
    let ghost before = out@;
    out.push(Count::Holders { field: String::new(), token: live_string() });
    proof {
        assert(counts_view(out@) =~= counts_view(before).push(live_count()));
    }
}

/// Appends the counts the estimate of `p` reads.
fn push_counts(p: &Predicate, out: &mut Vec<Count>)
    requires
        readable(p@),
    ensures
        counts_view(final(out)@) == counts_view(old(out)@) + counts_of(p@),
    decreases p, 1nat,
{
    match p {
        Predicate::And { .. } | Predicate::Or { .. } => push_list(p, out),
        Predicate::Eq { .. } | Predicate::Exists { .. } | Predicate::Any { .. } | Predicate::In { .. }
        | Predicate::HasLink { .. } => push_leaf(p, out),
        _ => push_plain(p, out),
    }
}

fn push_list(p: &Predicate, out: &mut Vec<Count>)
    requires
        p is And || p is Or,
        readable(p@),
    ensures
        counts_view(final(out)@) == counts_view(old(out)@) + counts_of(p@),
    decreases p, 0nat,
{
    let ghost before = counts_view(out@);
    match p {
        Predicate::And { args } => {
            push_live(out);
            push_all(args, out);
            proof {
                lemma_counts_split(predicates_view(args@), predicates_view(args@).len());
                lemma_predicates_view(args@);
                assert(counts_view(out@) =~= before + counts_of(p@));
            }
        },
        Predicate::Or { args } => {
            push_all(args, out);
            proof {
                lemma_counts_split(predicates_view(args@), predicates_view(args@).len());
                lemma_predicates_view(args@);
                assert(counts_view(out@) =~= before + counts_of(p@));
            }
        },
        _ => {},
    }
}

fn push_plain(p: &Predicate, out: &mut Vec<Count>)
    requires
        !(p is And || p is Or || p is Eq || p is Exists || p is Any || p is In || p is HasLink),
    ensures
        counts_view(final(out)@) == counts_view(old(out)@) + counts_of(p@),
{
    let ghost before = counts_view(out@);
    match p {
        Predicate::Ids { .. } => {},
        Predicate::Seek { limit, .. } => {
            if limit.is_none() {
                push_live(out);
            }
        },
        _ => {
            push_live(out);
        },
    }
    proof {
        assert(counts_view(out@) =~= before + counts_of(p@));
    }
}

fn push_leaf(p: &Predicate, out: &mut Vec<Count>)
    requires
        p is Eq || p is Exists || p is Any || p is In || p is HasLink,
        readable(p@),
    ensures
        counts_view(final(out)@) == counts_view(old(out)@) + counts_of(p@),
{
    proof {
        reveal(leaf_readable);
        assert(leaf_readable(p@));
    }
    let ghost before = counts_view(out@);
    match read_of(p) {
        Some(read) => push_read(read, out),
        None => {},
    }
    proof {
        assert(counts_of(p@) == match read_spec(p@) {
            Some(r) => read_counts(r),
            None => seq![],
        });
        assert(counts_view(out@) =~= before + counts_of(p@));
    }
}

fn push_all(args: &Vec<Predicate>, out: &mut Vec<Count>)
    requires
        all_readable(predicates_view(args@)),
    ensures
        counts_view(final(out)@) == counts_view(old(out)@) + counts_upto(predicates_view(args@), args@.len() as nat),
    decreases args, 0nat,
{
    let ghost a = predicates_view(args@);
    let ghost before = counts_view(out@);
    proof {
        lemma_predicates_view(args@);
        lemma_all_readable(a);
    }
    let mut i: usize = 0;
    while i < args.len()
        invariant
            i <= args@.len(),
            a == predicates_view(args@),
            a.len() == args@.len(),
            forall|j: int| 0 <= j < a.len() ==> #[trigger] readable(a[j]),
            forall|j: int| 0 <= j < a.len() ==> #[trigger] a[j] == args@[j]@,
            counts_view(out@) == before + counts_upto(a, i as nat),
        decreases args@.len() - i,
    {
        assert(a[i as int] == args@[i as int]@);
        assert(readable(a[i as int]));
        push_counts(&args[i], out);
        proof {
            assert(counts_upto(a, (i + 1) as nat) == counts_upto(a, i as nat) + counts_of(a[i as int]));
            assert(counts_view(out@) =~= before + counts_upto(a, (i + 1) as nat));
        }
        i += 1;
    }
}

fn push_read(read: Read, out: &mut Vec<Count>)
    ensures
        counts_view(final(out)@) == counts_view(old(out)@) + read_counts(read@),
{
    let ghost before = counts_view(out@);
    let ghost rv = read@;
    match read {
        Read::Exact { field, token, .. } => {
            out.push(Count::Holders { field, token });
        },
        Read::Posting { field, token } => {
            out.push(Count::Holders { field, token });
        },
        Read::Anywhere { token, number } => {
            out.push(Count::Anywhere { token, number });
        },
        Read::AnyOf { field, tokens } => {
            let mut i: usize = 0;
            while i < tokens.len()
                invariant
                    i <= tokens@.len(),
                    rv == read@,
                    counts_view(out@) == before + tokens@.take(i as int).map_values(
                        |t: (String, Option<Vec<u8>>)| CountV::Holders(field@, t.0@),
                    ),
                decreases tokens@.len() - i,
            {
                let ghost prev = counts_view(out@);
                out.push(Count::Holders { field: field.clone(), token: tokens[i].0.clone() });
                proof {
                    assert(tokens@.take(i + 1 as int) =~= tokens@.take(i as int).push(tokens@[i as int]));
                    assert(counts_view(out@) =~= prev.push(CountV::Holders(field@, tokens@[i as int].0@)));
                }
                i += 1;
            }
            proof {
                assert(tokens@.take(tokens@.len() as int) =~= tokens@);
            }
        },
        Read::Linked { target, relation, direction } => {
            out.push(Count::Links { relation, target, direction });
        },
        _ => {},
    }
    proof {
        assert(counts_view(out@) =~= before + read_counts(rv));
    }
}

/// The counts the estimate of `p` reads, in order.
pub fn counts(p: &Predicate) -> (r: Vec<Count>)
    requires
        pred_wf(p@),
        pred_check(p@, 0) is Ok,
    ensures
        counts_view(r@) == counts_of(p@),
{
    proof {
        lemma_checked_readable(p@, 0);
    }
    let mut out: Vec<Count> = Vec::new();
    proof {
        assert(counts_view(out@) =~= Seq::<CountV>::empty());
    }
    push_counts(p, &mut out);
    proof {
        assert(counts_view(out@) =~= counts_of(p@));
    }
    out
}

proof fn lemma_estimate_pos(p: PredicateV, ans: Seq<Seq<u64>>, pos: nat)
    ensures
        estimate_at(p, ans, pos).1 == pos + counts_of(p).len(),
    decreases p, 1nat,
{
    match p {
        PredicateV::And { args } => {
            lemma_least_pos(args, 0, add_all(0, ans[pos as int]), ans, pos + 1);
        },
        PredicateV::Or { args } => {
            lemma_sum_pos(args, 0, 0, ans, pos);
        },
        _ => {},
    }
}

proof fn lemma_least_pos(args: Seq<PredicateV>, i: nat, m: u64, ans: Seq<Seq<u64>>, pos: nat)
    ensures
        least_from(args, i, m, ans, pos).1 == pos + counts_from(args, i).len(),
    decreases args, args.len() - i,
{
    if i < args.len() {
        let (e, q) = estimate_at(args[i as int], ans, pos);
        lemma_estimate_pos(args[i as int], ans, pos);
        lemma_least_pos(args, i + 1, if e < m { e } else { m }, ans, q);
    }
}

proof fn lemma_sum_pos(args: Seq<PredicateV>, i: nat, s: u64, ans: Seq<Seq<u64>>, pos: nat)
    ensures
        sum_from(args, i, s, ans, pos).1 == pos + counts_from(args, i).len(),
    decreases args, args.len() - i,
{
    if i < args.len() {
        let (e, q) = estimate_at(args[i as int], ans, pos);
        lemma_estimate_pos(args[i as int], ans, pos);
        lemma_sum_pos(args, i + 1, sat_add(s, e), ans, q);
    }
}

fn add_sat(a: u64, b: u64) -> (r: u64)
    ensures
        r == sat_add(a, b),
{
    if a > u64::MAX - b {
        u64::MAX
    } else {
        a + b
    }
}

fn add_counts(acc: u64, v: &Vec<u64>) -> (r: u64)
    ensures
        r == add_all(acc, v@),
{
    let mut r = acc;
    let mut i: usize = 0;
    while i < v.len()
        invariant
            i <= v@.len(),
            r == add_all(acc, v@.take(i as int)),
        decreases v@.len() - i,
    {
        proof {
            assert(v@.take(i + 1 as int).drop_last() =~= v@.take(i as int));
        }
        r = add_sat(r, v[i]);
        i += 1;
    }
    proof {
        assert(v@.take(v@.len() as int) =~= v@);
    }
    r
}

/// How many counts a predicate that is neither an AND nor an OR reads.
fn own_count(p: &Predicate) -> (n: usize)
    requires
        !(p is And || p is Or),
    ensures
        n == counts_of(p@).len(),
{
    match p {
        Predicate::Ids { .. } => 0,
        Predicate::Seek { limit, .. } => if limit.is_some() {
            0
        } else {
            1
        },
        Predicate::In { values, .. } => {
            proof {
                crate::json::lemma_items_view(values@);
            }
            values.len()
        },
        _ => 1,
    }
}

/// The estimate of `p` from the answers from `pos` on, and the position
/// after them.
#[verifier::spinoff_prover]
fn estimate_from(p: &Predicate, answers: &Vec<Vec<u64>>, pos: usize) -> (r: (u64, usize))
    requires
        pos + counts_of(p@).len() <= answers@.len(),
    ensures
        r.0 == estimate_at(p@, answers_view(answers@), pos as nat).0,
        r.1 == pos + counts_of(p@).len(),
    decreases p, 1nat,
{
    let ghost av = answers_view(answers@);
    proof {
        lemma_estimate_pos(p@, av, pos as nat);
    }
    assert(answers@.len() == answers.len());
    match p {
        Predicate::Ids { ids } => (ids.len() as u64, pos),
        Predicate::And { args } => {
            proof {
                assert(av[pos as int] == answers@[pos as int]@);
            }
            let live = add_counts(0, &answers[pos]);
            least_of(args, answers, pos + 1, live)
        },
        Predicate::Or { args } => sum_of(args, answers, pos),
        Predicate::Seek { limit: Some(l), .. } => (*l as u64, pos),
        _ => {
            let n = own_count(p);
            (add_range(answers, pos, n), pos + n)
        },
    }
}

/// Every count of the answers at `pos` up to `pos + n`, added up.
fn add_range(answers: &Vec<Vec<u64>>, pos: usize, n: usize) -> (r: u64)
    requires
        pos + n <= answers@.len(),
    ensures
        r == add_answers(0, answers_view(answers@).subrange(pos as int, pos + n)),
{
    let ghost av = answers_view(answers@);
    assert(answers@.len() == answers.len());
    let end = pos + n;
    let mut acc: u64 = 0;
    let mut j: usize = pos;
    proof {
        assert(av.subrange(pos as int, pos as int) =~= Seq::<Seq<u64>>::empty());
    }
    while j < end
        invariant
            pos <= j <= end,
            end == pos + n,
            end <= answers@.len(),
            av == answers_view(answers@),
            acc == add_answers(0, av.subrange(pos as int, j as int)),
        decreases end - j,
    {
        proof {
            assert(av.subrange(pos as int, j + 1 as int).drop_last() =~= av.subrange(pos as int, j as int));
            assert(av[j as int] == answers@[j as int]@);
        }
        acc = add_counts(acc, &answers[j]);
        j += 1;
    }
    acc
}

/// The smallest of `live` and the operands' estimates.
fn least_of(args: &Vec<Predicate>, answers: &Vec<Vec<u64>>, pos: usize, live: u64) -> (r: (u64, usize))
    requires
        pos + counts_from(predicates_view(args@), 0).len() <= answers@.len(),
    ensures
        r.0 == least_from(predicates_view(args@), 0, live, answers_view(answers@), pos as nat).0,
        r.1 == pos + counts_from(predicates_view(args@), 0).len(),
    decreases args, 0nat,
{
    let ghost av = answers_view(answers@);
    let ghost a = predicates_view(args@);
    proof {
        lemma_predicates_view(args@);
        lemma_counts_split(a, 0);
        lemma_least_pos(a, 0, live, av, pos as nat);
        assert(counts_upto(a, 0) =~= Seq::<CountV>::empty());
    }
    let mut m = live;
    let mut q = pos;
    let mut i: usize = 0;
    while i < args.len()
        invariant
            i <= args@.len(),
            a == predicates_view(args@),
            a.len() == args@.len(),
            forall|j: int| 0 <= j < a.len() ==> #[trigger] a[j] == args@[j]@,
            av == answers_view(answers@),
            pos + counts_from(a, 0).len() <= answers@.len(),
            counts_upto(a, i as nat) + counts_from(a, i as nat) == counts_from(a, 0),
            q == pos + counts_upto(a, i as nat).len(),
            least_from(a, i as nat, m, av, q as nat) == least_from(a, 0, live, av, pos as nat),
        decreases args@.len() - i,
    {
        assert(a[i as int] == args@[i as int]@);
        assert(counts_from(a, i as nat) == counts_of(a[i as int]) + counts_from(a, i as nat + 1));
        let (e, next) = estimate_from(&args[i], answers, q);
        proof {
            lemma_estimate_pos(a[i as int], av, q as nat);
            lemma_counts_split(a, (i + 1) as nat);
            assert(counts_upto(a, (i + 1) as nat) == counts_upto(a, i as nat) + counts_of(a[i as int]));
        }
        if e < m {
            m = e;
        }
        q = next;
        i += 1;
    }
    proof {
        assert(counts_from(a, i as nat) =~= Seq::<CountV>::empty());
    }
    (m, q)
}

/// The saturating sum of the operands' estimates.
fn sum_of(args: &Vec<Predicate>, answers: &Vec<Vec<u64>>, pos: usize) -> (r: (u64, usize))
    requires
        pos + counts_from(predicates_view(args@), 0).len() <= answers@.len(),
    ensures
        r.0 == sum_from(predicates_view(args@), 0, 0, answers_view(answers@), pos as nat).0,
        r.1 == pos + counts_from(predicates_view(args@), 0).len(),
    decreases args, 0nat,
{
    let ghost av = answers_view(answers@);
    let ghost a = predicates_view(args@);
    proof {
        lemma_predicates_view(args@);
        lemma_counts_split(a, 0);
        lemma_sum_pos(a, 0, 0, av, pos as nat);
        assert(counts_upto(a, 0) =~= Seq::<CountV>::empty());
    }
    let mut sum: u64 = 0;
    let mut q = pos;
    let mut i: usize = 0;
    while i < args.len()
        invariant
            i <= args@.len(),
            a == predicates_view(args@),
            a.len() == args@.len(),
            forall|j: int| 0 <= j < a.len() ==> #[trigger] a[j] == args@[j]@,
            av == answers_view(answers@),
            pos + counts_from(a, 0).len() <= answers@.len(),
            counts_upto(a, i as nat) + counts_from(a, i as nat) == counts_from(a, 0),
            q == pos + counts_upto(a, i as nat).len(),
            sum_from(a, i as nat, sum, av, q as nat) == sum_from(a, 0, 0, av, pos as nat),
        decreases args@.len() - i,
    {
        assert(a[i as int] == args@[i as int]@);
        assert(counts_from(a, i as nat) == counts_of(a[i as int]) + counts_from(a, i as nat + 1));
        let (e, next) = estimate_from(&args[i], answers, q);
        proof {
            lemma_estimate_pos(a[i as int], av, q as nat);
            lemma_counts_split(a, (i + 1) as nat);
            assert(counts_upto(a, (i + 1) as nat) == counts_upto(a, i as nat) + counts_of(a[i as int]));
        }
        sum = add_sat(sum, e);
        q = next;
        i += 1;
    }
    proof {
        assert(counts_from(a, i as nat) =~= Seq::<CountV>::empty());
    }
    (sum, q)
}

/// The estimate of `p` from the answers to its counts, in their order.
pub fn estimate(p: &Predicate, answers: &Vec<Vec<u64>>) -> (r: u64)
    requires
        answers@.len() == counts_of(p@).len(),
    ensures
        r == estimate_at(p@, answers_view(answers@), 0).0,
{
    estimate_from(p, answers, 0).0
}

} // verus!
