use fastnode::index::value::number_key;
use fastnode::json::{Json, Number};
use fastnode::model::links::Direction;
use fastnode::model::predicate::{Predicate, SortDirection};
use fastnode::query::bounds::{Compare, IntervalOp, TokenBound};
use fastnode::query::range::RangeKind;
use fastnode::query::reads::{
    attribute_field, blocks_of_candidates, from_number_rows, look_up_each, read_of, Read,
};

fn num(s: &str) -> Number {
    Number { literal: s.to_string() }
}

fn key(s: &str) -> Vec<u8> {
    number_key(&num(s)).unwrap()
}

fn s(t: &str) -> Json {
    Json::Str(t.to_string())
}

#[test]
fn scalar_reads() {
    assert_eq!(
        read_of(&Predicate::Eq { field: "/city".into(), value: s("Paris") }),
        Some(Read::Exact { field: "/city".into(), token: "s:Paris".into(), number: None })
    );
    assert_eq!(
        read_of(&Predicate::Eq { field: "/n".into(), value: Json::Number(num("1.0")) }),
        Some(Read::Exact { field: "/n".into(), token: "n:0280000000000000013100".into(), number: Some(key("1")) })
    );
    assert_eq!(
        read_of(&Predicate::In { field: "/a".into(), values: vec![Json::Null, Json::Bool(true)] }),
        Some(Read::AnyOf { field: "/a".into(), tokens: vec![("z:".into(), None), ("b:1".into(), None)] })
    );
    assert_eq!(
        read_of(&Predicate::Any { value: s("x") }),
        Some(Read::Anywhere { token: "s:x".into(), number: None })
    );
    assert_eq!(
        read_of(&Predicate::Exists { field: "/a".into() }),
        Some(Read::Posting { field: "/a".into(), token: "e:".into() })
    );
}

#[test]
fn range_reads() {
    assert_eq!(
        read_of(&Predicate::Prefix { field: "/a".into(), prefix: "ab".into() }),
        Some(Read::Tokens {
            field: "/a".into(),
            lower: TokenBound::Included("s:ab".into()),
            upper: TokenBound::Excluded("s:ac".into()),
        })
    );
    assert_eq!(
        read_of(&Predicate::Range { field: "/a".into(), gt: None, gte: Some(s("b")), lt: None, lte: None }),
        Some(Read::Tokens {
            field: "/a".into(),
            lower: TokenBound::Included("s:b".into()),
            upper: TokenBound::Excluded("s;".into()),
        })
    );
    assert_eq!(
        read_of(&Predicate::Range {
            field: "/age".into(),
            gt: None,
            gte: Some(Json::Number(num("20"))),
            lt: Some(Json::Number(num("30"))),
            lte: None,
        }),
        Some(Read::Numbers { field: "/age".into(), bounds: vec![(Compare::AtLeast, key("20")), (Compare::Below, key("30"))] })
    );
    assert_eq!(
        read_of(&Predicate::Range { field: "/age".into(), gt: None, gte: None, lt: None, lte: None }),
        Some(Read::Numbers { field: "/age".into(), bounds: vec![] })
    );
}

#[test]
fn interval_and_link_reads() {
    assert_eq!(
        read_of(&Predicate::At { field: "/t".into(), value: num("5") }),
        Some(Read::Intervals { field: "/t".into(), op: IntervalOp::At, start: key("5"), end: key("5") })
    );
    assert_eq!(
        read_of(&Predicate::ContainedBy { field: "/t".into(), start: num("1"), end: num("9") }),
        Some(Read::Intervals { field: "/t".into(), op: IntervalOp::ContainedBy, start: key("1"), end: key("9") })
    );
    // links to the target are read from the target's side
    assert_eq!(
        read_of(&Predicate::HasLink { relation: "knows".into(), target: 7, direction: Direction::Out }),
        Some(Read::Linked { target: 7, relation: "knows".into(), direction: Direction::In })
    );
}

#[test]
fn seek_reads() {
    let p = Predicate::Seek {
        index: "by_key".into(),
        group: vec![s("k1"), Json::Number(num("2"))],
        gt: None,
        gte: None,
        lt: None,
        lte: Some(Json::Number(num("10"))),
        direction: SortDirection::Desc,
        limit: Some(1),
    };
    assert_eq!(
        read_of(&p),
        Some(Read::Seek {
            index: "by_key".into(),
            group: vec!["s:k1".into(), fastnode::index::value::number_token(&key("2"))],
            bounds: vec![(Compare::AtMost, fastnode::index::value::number_token(&key("10")))],
            kind: Some(RangeKind::Number),
            direction: SortDirection::Desc,
            limit: Some(1),
        })
    );
    let unbounded = Predicate::Seek {
        index: "i".into(),
        group: vec![s("g")],
        gt: None,
        gte: None,
        lt: None,
        lte: None,
        direction: SortDirection::Asc,
        limit: None,
    };
    match read_of(&unbounded) {
        Some(Read::Seek { kind, bounds, .. }) => {
            assert_eq!(kind, None);
            assert!(bounds.is_empty());
        }
        other => panic!("unexpected {other:?}"),
    }
}

#[test]
fn combining_predicates_have_no_read() {
    assert_eq!(read_of(&Predicate::All), None);
    assert_eq!(read_of(&Predicate::Ids { ids: vec![1] }), None);
    assert_eq!(read_of(&Predicate::And { args: vec![] }), None);
    assert_eq!(read_of(&Predicate::Not { arg: Box::new(Predicate::All) }), None);
}

#[test]
fn read_choices() {
    assert!(from_number_rows(0, &Some(vec![1])));
    assert!(!from_number_rows(2, &Some(vec![1])));
    assert!(!from_number_rows(0, &None));
    assert!(attribute_field("/a/b"));
    assert!(!attribute_field("/a/*/b"));
    assert!(!attribute_field("@type"));
    assert!(!attribute_field(""));
    assert!(look_up_each(2048));
    assert!(!look_up_each(2049));
    assert!(blocks_of_candidates(32767));
    assert!(!blocks_of_candidates(32768));
}
