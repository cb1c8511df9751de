use fastnode::model::links::Direction;
use fastnode::model::predicate::{Predicate, Step};
use fastnode::query::estimate::{counts, estimate, Count};
use fastnode::query::evaluation::{Evaluation, Request};
use fastnode::query::reads::Read;
use roaring::RoaringBitmap;

fn set(ids: &[u32]) -> RoaringBitmap {
    ids.iter().copied().collect()
}

fn ids(b: &RoaringBitmap) -> Vec<u32> {
    b.iter().collect()
}

fn asked_among(walk: &Evaluation) -> Vec<u32> {
    match walk.request() {
        Some(Request::LiveAmong { ids: among }) => ids(among),
        _ => panic!("expected a request for live Nodes among ids"),
    }
}

#[test]
fn or_reads_each_operand_and_joins_them() {
    let p = Predicate::Or {
        args: vec![Predicate::Ids { ids: vec![1, 2] }, Predicate::Ids { ids: vec![5] }],
    };
    let mut walk = Evaluation::new(&p, None);
    assert_eq!(asked_among(&walk), vec![1, 2]);
    walk.give_nodes(set(&[1, 2]));
    assert_eq!(asked_among(&walk), vec![5]);
    walk.give_nodes(set(&[]));
    assert!(walk.request().is_none());
    assert_eq!(ids(walk.value().unwrap()), vec![1, 2]);
}

#[test]
fn not_takes_its_operand_away_from_the_live_nodes() {
    let p = Predicate::Not { arg: Box::new(Predicate::Ids { ids: vec![1, 7] }) };
    let mut walk = Evaluation::new(&p, None);
    assert!(matches!(walk.request(), Some(Request::Live)));
    walk.give_nodes(set(&[1, 2, 3]));
    // the operand is evaluated inside the live Nodes
    assert_eq!(asked_among(&walk), vec![1]);
    walk.give_nodes(set(&[1]));
    assert_eq!(ids(walk.value().unwrap()), vec![2, 3]);
}

#[test]
fn not_inside_candidates_reads_no_live_nodes() {
    let p = Predicate::Not { arg: Box::new(Predicate::Ids { ids: vec![4] }) };
    let mut walk = Evaluation::new(&p, Some(set(&[4, 6])));
    assert_eq!(asked_among(&walk), vec![4]);
    walk.give_nodes(set(&[4]));
    assert_eq!(ids(walk.value().unwrap()), vec![6]);
}

#[test]
fn and_reads_the_smallest_estimate_first_inside_the_survivors() {
    let p = Predicate::And {
        args: vec![Predicate::Ids { ids: vec![1, 2, 3] }, Predicate::Ids { ids: vec![2, 9] }],
    };
    let mut walk = Evaluation::new(&p, None);
    match walk.request() {
        Some(Request::Estimates { args }) => assert_eq!(args.len(), 2),
        _ => panic!("expected a request for estimates"),
    }
    walk.give_estimates(vec![3, 1]);
    assert_eq!(asked_among(&walk), vec![2, 9]);
    walk.give_nodes(set(&[2]));
    // the second operand only looks inside what survived the first
    assert_eq!(asked_among(&walk), vec![2]);
    walk.give_nodes(set(&[2]));
    assert_eq!(ids(walk.value().unwrap()), vec![2]);
}

#[test]
fn and_stops_once_nothing_survives() {
    let p = Predicate::And {
        args: vec![Predicate::Ids { ids: vec![1] }, Predicate::Ids { ids: vec![2] }],
    };
    let mut walk = Evaluation::new(&p, None);
    walk.give_estimates(vec![0, 5]);
    assert_eq!(asked_among(&walk), vec![1]);
    walk.give_nodes(set(&[]));
    assert!(walk.request().is_none());
    assert_eq!(ids(walk.value().unwrap()), Vec::<u32>::new());
}

#[test]
fn and_of_nothing_without_candidates_is_every_live_node() {
    let p = Predicate::And { args: vec![] };
    let mut walk = Evaluation::new(&p, None);
    walk.give_estimates(vec![]);
    assert!(matches!(walk.request(), Some(Request::Live)));
    walk.give_nodes(set(&[3, 4]));
    assert_eq!(ids(walk.value().unwrap()), vec![3, 4]);
}

#[test]
fn empty_candidates_need_no_read() {
    let p = Predicate::Exists { field: "name".to_string() };
    let walk = Evaluation::new(&p, Some(set(&[])));
    assert!(walk.request().is_none());
    assert_eq!(ids(walk.value().unwrap()), Vec::<u32>::new());
}

#[test]
fn a_leaf_asks_for_its_index_read_and_keeps_the_candidates() {
    let p = Predicate::Exists { field: "name".to_string() };
    let mut walk = Evaluation::new(&p, Some(set(&[1, 2])));
    match walk.request() {
        Some(Request::Read { read: Read::Posting { field, .. }, candidate }) => {
            assert_eq!(field, "name");
            assert_eq!(ids(candidate.as_ref().unwrap()), vec![1, 2]);
        }
        _ => panic!("expected a posting read"),
    }
    walk.give_nodes(set(&[2, 3]));
    assert_eq!(ids(walk.value().unwrap()), vec![2]);
}

#[test]
fn all_inside_candidates_is_the_candidates() {
    let p = Predicate::All;
    let walk = Evaluation::new(&p, Some(set(&[8, 9])));
    assert!(walk.request().is_none());
    assert_eq!(ids(walk.value().unwrap()), vec![8, 9]);
}

#[test]
fn traversal_without_steps_is_its_start_within_the_candidates() {
    let p = Predicate::Traverse { from: Box::new(Predicate::All), steps: vec![] };
    let mut walk = Evaluation::new(&p, Some(set(&[1, 5])));
    // the start is evaluated without the traversal's candidates
    assert!(matches!(walk.request(), Some(Request::Live)));
    walk.give_nodes(set(&[1, 5, 6]));
    assert_eq!(ids(walk.value().unwrap()), vec![1, 5]);
}

fn hop(relation: &str, filter: Option<Predicate>, min: Option<u32>, max: Option<u32>) -> Step {
    Step { relation: relation.to_string(), direction: Direction::Out, filter, min, max }
}

#[test]
fn one_hop_asks_for_the_nodes_linked_from_the_start() {
    let p = Predicate::Traverse {
        from: Box::new(Predicate::Ids { ids: vec![1] }),
        steps: vec![hop("knows", None, None, None)],
    };
    let mut walk = Evaluation::new(&p, None);
    assert_eq!(asked_among(&walk), vec![1]);
    walk.give_nodes(set(&[1]));
    match walk.request() {
        Some(Request::Expand { sources, relation, direction, targets }) => {
            assert_eq!(ids(sources), vec![1]);
            assert_eq!(relation.as_str(), "knows");
            assert_eq!(*direction, Direction::Out);
            assert!(targets.is_none());
        }
        _ => panic!("expected a hop"),
    }
    walk.give_nodes(set(&[2, 3]));
    assert_eq!(ids(walk.value().unwrap()), vec![2, 3]);
}

#[test]
fn the_last_hop_looks_only_among_its_filter_inside_the_candidates() {
    let p = Predicate::Traverse {
        from: Box::new(Predicate::Ids { ids: vec![1] }),
        steps: vec![hop("knows", Some(Predicate::Ids { ids: vec![3, 9] }), None, None)],
    };
    let mut walk = Evaluation::new(&p, Some(set(&[3, 4])));
    assert_eq!(asked_among(&walk), vec![1]);
    walk.give_nodes(set(&[1]));
    // the filter is evaluated inside the traversal's candidates
    assert_eq!(asked_among(&walk), vec![3]);
    walk.give_nodes(set(&[3]));
    match walk.request() {
        Some(Request::Expand { targets, .. }) => assert_eq!(ids(targets.as_ref().unwrap()), vec![3]),
        _ => panic!("expected a hop"),
    }
    walk.give_nodes(set(&[3]));
    assert_eq!(ids(walk.value().unwrap()), vec![3]);
}

#[test]
fn repeated_hops_are_asked_for_whole_and_then_filtered() {
    let p = Predicate::Traverse {
        from: Box::new(Predicate::Ids { ids: vec![1] }),
        steps: vec![hop("next", Some(Predicate::Ids { ids: vec![3, 4] }), Some(1), Some(2))],
    };
    let mut walk = Evaluation::new(&p, None);
    walk.give_nodes(set(&[1]));
    match walk.request() {
        Some(Request::Walk { start, min, max, .. }) => {
            assert_eq!(ids(start), vec![1]);
            assert_eq!(*min, 1);
            assert_eq!(*max, Some(2));
        }
        _ => panic!("expected repeated hops"),
    }
    walk.give_nodes(set(&[2, 3]));
    // the filter only looks among the reached Nodes
    assert_eq!(asked_among(&walk), vec![3]);
    walk.give_nodes(set(&[3]));
    assert_eq!(ids(walk.value().unwrap()), vec![3]);
}

#[test]
fn a_traversal_stops_once_a_step_reaches_nothing() {
    let p = Predicate::Traverse {
        from: Box::new(Predicate::Ids { ids: vec![1] }),
        steps: vec![hop("a", None, None, None), hop("b", None, None, None)],
    };
    let mut walk = Evaluation::new(&p, None);
    walk.give_nodes(set(&[1]));
    walk.give_nodes(set(&[]));
    assert!(walk.request().is_none());
    assert_eq!(ids(walk.value().unwrap()), Vec::<u32>::new());
}

fn eq(field: &str, n: i64) -> Predicate {
    Predicate::Eq {
        field: field.to_string(),
        value: fastnode::json::Json::Number(fastnode::json::Number { literal: n.to_string() }),
    }
}

#[test]
fn an_and_estimates_as_its_smallest_part_or_the_live_count() {
    let p = Predicate::And { args: vec![eq("/age", 3), Predicate::Ids { ids: vec![1, 2, 3] }] };
    let reads = counts(&p);
    assert_eq!(reads.len(), 2);
    assert!(matches!(&reads[0], Count::Holders { field, .. } if field.is_empty()));
    assert!(matches!(&reads[1], Count::Holders { field, .. } if field == "/age"));
    assert_eq!(estimate(&p, &vec![vec![10], vec![4]]), 3);
    assert_eq!(estimate(&p, &vec![vec![2], vec![4]]), 2);
}

#[test]
fn sums_saturate_and_limited_seeks_read_nothing() {
    let p = Predicate::In {
        field: "/age".to_string(),
        values: vec![
            fastnode::json::Json::Number(fastnode::json::Number { literal: "1".to_string() }),
            fastnode::json::Json::Number(fastnode::json::Number { literal: "2".to_string() }),
        ],
    };
    assert_eq!(counts(&p).len(), 2);
    assert_eq!(estimate(&p, &vec![vec![2], vec![u64::MAX]]), u64::MAX);
    let any = Predicate::Any { value: fastnode::json::Json::Bool(true) };
    assert!(matches!(&counts(&any)[0], Count::Anywhere { .. }));
    assert_eq!(estimate(&any, &vec![vec![1, 2, 3]]), 6);
    let or = Predicate::Or { args: vec![Predicate::Ids { ids: vec![1] }, Predicate::Exists { field: "/a".to_string() }] };
    assert_eq!(estimate(&or, &vec![vec![7]]), 8);
    let prefix = Predicate::Prefix { field: "/a".to_string(), prefix: "x".to_string() };
    assert!(matches!(&counts(&prefix)[0], Count::Holders { field, .. } if field.is_empty()));
}
