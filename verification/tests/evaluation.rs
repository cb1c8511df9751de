use std::collections::BTreeMap;

use fastnode::bitmap::{count, has_id, insert_id, rank, remove_id, select};
use fastnode::model::links::Direction;
use fastnode::query::eval::{complement, nothing_to_find, restrict, AndRun};
use fastnode::query::graph::{from_targets, read_direction, Walk};
use fastnode::query::page::id_page;
use fastnode::query::plan::and_order;
use roaring::RoaringBitmap;

fn set(ids: &[u32]) -> RoaringBitmap {
    ids.iter().copied().collect()
}

fn ids(b: &RoaringBitmap) -> Vec<u32> {
    b.iter().collect()
}

#[test]
fn bitmap_wrappers_follow_roaring() {
    let mut b = RoaringBitmap::new();
    assert!(insert_id(&mut b, 5));
    assert!(!insert_id(&mut b, 5));
    assert!(insert_id(&mut b, 9));
    assert!(has_id(&b, 9));
    assert!(!has_id(&b, 6));
    assert_eq!(count(&b), 2);
    assert_eq!(rank(&b, 8), 1);
    assert_eq!(rank(&b, 9), 2);
    assert_eq!(select(&b, 0), Some(5));
    assert_eq!(select(&b, 1), Some(9));
    assert_eq!(select(&b, 2), None);
    assert!(remove_id(&mut b, 5));
    assert!(!remove_id(&mut b, 5));
    assert_eq!(ids(&b), vec![9]);
}

#[test]
fn id_pages_continue_where_the_last_stopped() {
    let s = set(&[2, 4, 6, 8, 10]);
    let (page, next) = id_page(&s, 0, 2);
    assert_eq!(page, vec![2, 4]);
    assert_eq!(next, Some(4));
    let (page, next) = id_page(&s, 4, 2);
    assert_eq!(page, vec![6, 8]);
    assert_eq!(next, Some(8));
    let (page, next) = id_page(&s, 8, 2);
    assert_eq!(page, vec![10]);
    assert_eq!(next, None);
    // exactly a full last page: no next
    assert_eq!(id_page(&s, 6, 2), (vec![8, 10], None));
}

#[test]
fn id_page_edges() {
    let s = set(&[1, 2, 3]);
    assert_eq!(id_page(&s, 0, 0), (vec![], None));
    assert_eq!(id_page(&s, 3, 10), (vec![], None));
    assert_eq!(id_page(&s, 1, 10), (vec![2, 3], None));
    assert_eq!(id_page(&RoaringBitmap::new(), 0, 5), (vec![], None));
    let top = set(&[u32::MAX - 1, u32::MAX]);
    assert_eq!(id_page(&top, 0, 1), (vec![u32::MAX - 1], Some(u32::MAX - 1)));
    assert_eq!(id_page(&top, u32::MAX - 1, 1), (vec![u32::MAX], None));
}

#[test]
fn paging_visits_every_id_once() {
    let s: RoaringBitmap = (1..=37u32).map(|i| i * 3).collect();
    let mut seen = Vec::new();
    let mut after = 0;
    loop {
        let (page, next) = id_page(&s, after, 5);
        seen.extend(page);
        match next {
            Some(n) => after = n,
            None => break,
        }
    }
    assert_eq!(seen, ids(&s));
}

#[test]
fn and_evaluates_the_smallest_estimate_first() {
    assert_eq!(and_order(&vec![50, 3, 7, 3]), vec![1, 3, 2, 0]);
    assert_eq!(and_order(&vec![]), Vec::<usize>::new());
}

#[test]
fn and_run_narrows_and_stops_on_empty() {
    let operands = [set(&[1, 2, 3, 4]), set(&[2, 3, 9]), set(&[3])];
    let mut run = AndRun::start(&vec![10, 5, 1], None);
    assert_eq!(run.order, vec![2, 1, 0]);
    let mut evaluated = Vec::new();
    while let Some(i) = run.operand() {
        evaluated.push(i);
        // each operand is evaluated within what survived so far
        let mut r = operands[i].clone();
        restrict(&mut r, run.current.as_ref());
        run.feed(r);
    }
    assert_eq!(evaluated, vec![2, 1, 0]);
    assert_eq!(ids(&run.finish().unwrap()), vec![3]);

    let mut run = AndRun::start(&vec![1, 2], Some(&set(&[7])));
    let i = run.operand().unwrap();
    assert_eq!(i, 0);
    let mut r = set(&[1, 2]);
    restrict(&mut r, run.current.as_ref());
    run.feed(r);
    assert!(run.stopped);
    assert_eq!(run.operand(), None);
    assert_eq!(ids(&run.finish().unwrap()), Vec::<u32>::new());
}

#[test]
fn and_of_nothing_is_the_candidate_set() {
    let run = AndRun::start(&vec![], Some(&set(&[4, 5])));
    assert_eq!(run.operand(), None);
    assert_eq!(ids(&run.finish().unwrap()), vec![4, 5]);
    let run = AndRun::start(&vec![], None);
    assert!(run.finish().is_none());
}

#[test]
fn restrict_complement_and_empty_candidates() {
    let mut r = set(&[1, 2, 3]);
    restrict(&mut r, Some(&set(&[2, 3, 4])));
    assert_eq!(ids(&r), vec![2, 3]);
    restrict(&mut r, None);
    assert_eq!(ids(&r), vec![2, 3]);
    assert_eq!(ids(&complement(&set(&[1, 2, 3, 4]), &set(&[2, 4, 9]))), vec![1, 3]);
    assert!(nothing_to_find(Some(&RoaringBitmap::new())));
    assert!(!nothing_to_find(Some(&set(&[1]))));
    assert!(!nothing_to_find(None));
}

/// Breadth-first walk over a small graph, with the caller doing each
/// expansion as the store would.
fn walk(edges: &BTreeMap<u32, Vec<u32>>, start: &[u32], min: u32, max: Option<u32>) -> Vec<u32> {
    let mut w = Walk::begin(&set(start), min, max);
    while w.wants_more() {
        let mut next = RoaringBitmap::new();
        for id in w.frontier.iter() {
            for t in edges.get(&id).into_iter().flatten() {
                next.insert(*t);
            }
        }
        w.advance(&next);
    }
    ids(&w.reached)
}

#[test]
fn repeated_hops_count_each_node_at_its_shortest_distance() {
    // 1 -> 2 -> 3 -> 4, 1 -> 3, 4 -> 1 (a cycle)
    let mut edges = BTreeMap::new();
    edges.insert(1, vec![2, 3]);
    edges.insert(2, vec![3]);
    edges.insert(3, vec![4]);
    edges.insert(4, vec![1]);
    assert_eq!(walk(&edges, &[1], 1, None), vec![2, 3, 4]);
    assert_eq!(walk(&edges, &[1], 0, None), vec![1, 2, 3, 4]);
    // 3 is one hop away, so min 2 keeps only 4
    assert_eq!(walk(&edges, &[1], 2, None), vec![4]);
    assert_eq!(walk(&edges, &[1], 1, Some(1)), vec![2, 3]);
    assert_eq!(walk(&edges, &[1], 0, Some(0)), vec![1]);
    assert_eq!(walk(&edges, &[1], 3, Some(5)), Vec::<u32>::new());
    assert_eq!(walk(&edges, &[], 0, None), Vec::<u32>::new());
}

#[test]
fn walk_state_after_one_hop() {
    let mut w = Walk::begin(&set(&[1]), 1, None);
    assert_eq!(w.depth, 0);
    assert!(w.wants_more());
    w.advance(&set(&[1, 2]));
    assert_eq!(w.depth, 1);
    assert_eq!(ids(&w.frontier), vec![2]);
    assert_eq!(ids(&w.visited), vec![1, 2]);
    assert_eq!(ids(&w.reached), vec![2]);
    w.advance(&set(&[1]));
    assert!(!w.wants_more());
}

#[test]
fn expansion_side_and_direction() {
    assert!(from_targets(&set(&[1, 2, 3]), Some(&set(&[9]))));
    assert!(!from_targets(&set(&[1]), Some(&set(&[9]))));
    assert!(!from_targets(&set(&[1, 2]), None));
    assert_eq!(read_direction(Direction::Out, true), Direction::In);
    assert_eq!(read_direction(Direction::In, true), Direction::Out);
    assert_eq!(read_direction(Direction::Out, false), Direction::Out);
    assert_eq!(Direction::In.reverse(), Direction::Out);
}
