use fastnode::error::Error;
use fastnode::json::{Json, Number};
use fastnode::model::links::{default_link_limit, Direction, LinkMode, LinkOptions};
use fastnode::model::parse::parse;
use fastnode::model::render::predicate_to_json;
use fastnode::model::predicate::{Predicate, SortDirection, Step};
use fastnode::model::query::{default_limit, OrderBy, Query};
use fastnode::query::validate::{predicate, query};

/// A JSON text as the library's document model.
fn j(text: &str) -> Json {
    let v: serde_json::Value = serde_json::from_str(text).unwrap();
    to_json(&v)
}

fn to_json(v: &serde_json::Value) -> Json {
    match v {
        serde_json::Value::Null => Json::Null,
        serde_json::Value::Bool(b) => Json::Bool(*b),
        serde_json::Value::Number(n) => Json::Number(Number { literal: n.to_string() }),
        serde_json::Value::String(s) => Json::Str(s.clone()),
        serde_json::Value::Array(a) => Json::Array(a.iter().map(to_json).collect()),
        serde_json::Value::Object(m) => {
            Json::Object(m.iter().map(|(k, v)| (k.clone(), to_json(v))).collect())
        }
    }
}

fn num(s: &str) -> Number {
    Number { literal: s.to_string() }
}

fn p(text: &str) -> Predicate {
    parse(&j(text)).unwrap()
}

#[test]
fn parse_simple_predicates() {
    assert_eq!(p(r#"{"op":"all"}"#), Predicate::All);
    assert_eq!(p(r#"{"op":"ids","ids":[3,1]}"#), Predicate::Ids { ids: vec![3, 1] });
    assert_eq!(
        p(r#"{"op":"eq","field":"/city","value":"Paris"}"#),
        Predicate::Eq { field: "/city".into(), value: Json::Str("Paris".into()) }
    );
    assert_eq!(
        p(r#"{"op":"eq","field":"/x","value":null}"#),
        Predicate::Eq { field: "/x".into(), value: Json::Null }
    );
    assert_eq!(
        p(r#"{"op":"in","field":"/n","values":[1,"a"]}"#),
        Predicate::In {
            field: "/n".into(),
            values: vec![Json::Number(num("1")), Json::Str("a".into())],
        }
    );
    assert_eq!(p(r#"{"op":"exists","field":"/a"}"#), Predicate::Exists { field: "/a".into() });
    assert_eq!(
        p(r#"{"op":"prefix","field":"/a","prefix":"ab"}"#),
        Predicate::Prefix { field: "/a".into(), prefix: "ab".into() }
    );
}

#[test]
fn parse_keeps_number_text() {
    assert_eq!(
        p(r#"{"op":"eq","field":"/n","value":12345678901234567890.50}"#),
        Predicate::Eq { field: "/n".into(), value: Json::Number(num("12345678901234567890.50")) }
    );
    let at = Json::Object(vec![
        ("op".to_string(), Json::Str("at".into())),
        ("field".to_string(), Json::Str("/t".into())),
        ("value".to_string(), Json::Number(num("1e3"))),
    ]);
    assert_eq!(parse(&at), Ok(Predicate::At { field: "/t".into(), value: num("1e3") }));
}

#[test]
fn parse_range_with_null_bounds_as_absent() {
    assert_eq!(
        p(r#"{"op":"range","field":"/n","gte":1,"lt":null}"#),
        Predicate::Range {
            field: "/n".into(),
            gt: None,
            gte: Some(Json::Number(num("1"))),
            lt: None,
            lte: None,
        }
    );
}

#[test]
fn parse_seek_and_has_link_defaults() {
    assert_eq!(
        p(r#"{"op":"seek","index":"by_city","group":["Paris"],"direction":"desc","limit":5}"#),
        Predicate::Seek {
            index: "by_city".into(),
            group: vec![Json::Str("Paris".into())],
            gt: None,
            gte: None,
            lt: None,
            lte: None,
            direction: SortDirection::Desc,
            limit: Some(5),
        }
    );
    assert_eq!(
        p(r#"{"op":"has_link","relation":"knows","target":7}"#),
        Predicate::HasLink { relation: "knows".into(), target: 7, direction: Direction::Out }
    );
    assert_eq!(
        p(r#"{"op":"has_link","relation":"knows","target":7,"direction":"in"}"#),
        Predicate::HasLink { relation: "knows".into(), target: 7, direction: Direction::In }
    );
}

#[test]
fn parse_nested_predicates_and_steps() {
    let got = p(r#"{"op":"traverse","from":{"op":"not","arg":{"op":"all"}},
        "steps":[{"relation":"parent","direction":"in","min":1,"max":3},
                 {"relation":"knows","filter":{"op":"and","args":[{"op":"all"}]}}]}"#);
    let mut s1 = Step::new("parent".into(), Direction::In);
    s1.min = Some(1);
    s1.max = Some(3);
    let mut s2 = Step::new("knows".into(), Direction::Out);
    s2.filter = Some(Predicate::And { args: vec![Predicate::All] });
    assert_eq!(
        got,
        Predicate::Traverse {
            from: Box::new(Predicate::Not { arg: Box::new(Predicate::All) }),
            steps: vec![s1, s2],
        }
    );
}

#[test]
fn parse_errors() {
    let e = |t: &str| parse(&j(t)).err().unwrap().error;
    assert_eq!(e(r#"[1]"#), Error::NotAnObject);
    assert_eq!(e(r#"{"field":"/a"}"#), Error::MissingField);
    assert_eq!(e(r#"{"op":"eq","field":"/a"}"#), Error::MissingField);
    assert_eq!(e(r#"{"op":"nope"}"#), Error::UnknownOp);
    assert_eq!(e(r#"{"op":7}"#), Error::WrongType);
    assert_eq!(e(r#"{"op":"ids","ids":[-1]}"#), Error::WrongType);
    assert_eq!(e(r#"{"op":"ids","ids":[4294967296]}"#), Error::WrongType);
    assert_eq!(e(r#"{"op":"at","field":"/t","value":"now"}"#), Error::WrongType);
    assert_eq!(e(r#"{"op":"all","extra":1}"#), Error::UnknownField);
    assert_eq!(e(r#"{"op":"not","arg":3}"#), Error::NotAnObject);
    assert_eq!(
        e(r#"{"op":"traverse","from":{"op":"all"},"steps":[{"relation":"r","hops":2}]}"#),
        Error::UnknownField
    );
    assert_eq!(
        e(r#"{"op":"traverse","from":{"op":"all"},"steps":[{"direction":"in"}]}"#),
        Error::MissingField
    );
    assert_eq!(e(r#"{"op":"has_link","relation":"r","target":1,"direction":"up"}"#), Error::WrongType);
}

#[test]
fn validate_predicates() {
    assert_eq!(predicate(&Predicate::All, 0), Ok(()));
    assert_eq!(predicate(&p(r#"{"op":"eq","field":"city","value":1}"#), 0), Err(Error::FieldNotPointer));
    assert_eq!(predicate(&p(r#"{"op":"eq","field":"/a","value":[1]}"#), 0), Err(Error::NotScalar));
    assert_eq!(predicate(&p(r#"{"op":"range","field":"/a","gt":1,"gte":2}"#), 0), Err(Error::GtWithGte));
    assert_eq!(predicate(&p(r#"{"op":"range","field":"/a","lt":1,"lte":2}"#), 0), Err(Error::LtWithLte));
    assert_eq!(predicate(&p(r#"{"op":"range","field":"/a","gt":1,"lt":"z"}"#), 0), Err(Error::RangeMixedTypes));
    assert_eq!(
        predicate(&p(r#"{"op":"overlap","field":"/t","start":5,"end":1}"#), 0),
        Err(Error::IntervalReversed)
    );
    assert_eq!(predicate(&p(r#"{"op":"contains","field":"/t","start":1,"end":1.0}"#), 0), Ok(()));
    assert_eq!(predicate(&p(r#"{"op":"seek","index":"","group":[1]}"#), 0), Err(Error::SeekNeedsIndex));
    assert_eq!(predicate(&p(r#"{"op":"seek","index":"i","group":[]}"#), 0), Err(Error::SeekNeedsGroup));
    assert_eq!(
        predicate(&p(r#"{"op":"seek","index":"i","group":[1],"limit":100001}"#), 0),
        Err(Error::SeekLimitTooLarge)
    );
    assert_eq!(predicate(&p(r#"{"op":"has_link","relation":"","target":1}"#), 0), Err(Error::EmptyRelation));
    assert_eq!(
        predicate(&p(r#"{"op":"traverse","from":{"op":"all"},"steps":[{"relation":"r","min":3,"max":2}]}"#), 0),
        Err(Error::StepMinAboveMax)
    );
    assert_eq!(
        predicate(&p(r#"{"op":"traverse","from":{"op":"all"},"steps":[{"relation":"r","max":0}]}"#), 0),
        Err(Error::StepMinAboveMax)
    );
    assert_eq!(
        predicate(&p(r#"{"op":"at","field":"/t","value":1e9223372036854775807}"#), 0),
        Err(Error::ExponentOutOfRange)
    );
}

#[test]
fn nesting_limit_is_64() {
    let mut deep = Predicate::All;
    for _ in 0..63 {
        deep = Predicate::Not { arg: Box::new(deep) };
    }
    assert_eq!(predicate(&deep, 0), Ok(()));
    let deeper = Predicate::Not { arg: Box::new(deep) };
    assert_eq!(predicate(&deeper, 0), Err(Error::NestingTooDeep));
    assert_eq!(predicate(&Predicate::All, 64), Err(Error::NestingTooDeep));
}

#[test]
fn at_most_64_steps() {
    let steps = (0..65).map(|_| Step::new("r".into(), Direction::Out)).collect();
    let t = Predicate::Traverse { from: Box::new(Predicate::All), steps };
    assert_eq!(predicate(&t, 0), Err(Error::TooManySteps));
}

#[test]
fn query_defaults() {
    let q = Query::new(Predicate::All);
    assert_eq!(q.limit, 100);
    assert_eq!(default_limit(), 100);
    assert_eq!(q.after, 0);
    assert!(!q.include_data);
    assert_eq!(q.links, LinkMode::Summary);
    assert_eq!(q.link_limit, default_link_limit());
    assert_eq!(default_link_limit(), 100);
    assert!(q.order_by.is_none() && q.cursor.is_none());
    assert_eq!(query(&q), Ok(()));
    let o = LinkOptions::default();
    assert_eq!((o.mode, o.limit), (LinkMode::Summary, 100));
    assert_eq!(OrderBy::desc("/n".into()).direction, SortDirection::Desc);
    assert_eq!(OrderBy::asc("/n".into()).field, "/n");
    assert_eq!(SortDirection::default(), SortDirection::Asc);
    assert_eq!(Direction::default(), Direction::Out);
}

#[test]
fn query_limits_and_cursors() {
    let mut q = Query::new(Predicate::All);
    q.limit = 100_000;
    assert_eq!(query(&q), Ok(()));
    q.limit = 100_001;
    assert_eq!(query(&q), Err(Error::PageTooLarge));
    q.limit = 0;
    q.link_limit = 10_001;
    assert_eq!(query(&q), Err(Error::LinkLimitTooLarge));
    q.link_limit = 10;
    q.cursor = Some("0.01.1".into());
    assert_eq!(query(&q), Err(Error::CursorWithoutOrder));
    q.order_by = Some(OrderBy::asc("/n".into()));
    assert_eq!(query(&q), Ok(()));
    q.after = 3;
    assert_eq!(query(&q), Err(Error::AfterWithOrder));
    q.after = 0;
    q.order_by = Some(OrderBy::asc("".into()));
    assert_eq!(query(&q), Err(Error::OrderNeedsField));
    q.order_by = Some(OrderBy::asc("n".into()));
    assert_eq!(query(&q), Err(Error::FieldNotPointer));
    let bad = Query::new(Predicate::Exists { field: "x".into() });
    assert_eq!(query(&bad), Err(Error::FieldNotPointer));
}

#[test]
fn the_first_fault_in_checking_order_is_reported() {
    assert_eq!(predicate(&p(r#"{"op":"eq","field":"city","value":[1]}"#), 0), Err(Error::FieldNotPointer));
    assert_eq!(
        predicate(&p(r#"{"op":"range","field":"/a","gt":1,"gte":2,"lt":"x"}"#), 0),
        Err(Error::GtWithGte)
    );
    assert_eq!(predicate(&p(r#"{"op":"seek","index":"","group":[]}"#), 0), Err(Error::SeekNeedsIndex));
    assert_eq!(
        predicate(&p(r#"{"op":"and","args":[{"op":"exists","field":"a"},{"op":"eq","field":"/b","value":{}}]}"#), 0),
        Err(Error::FieldNotPointer)
    );
    assert_eq!(
        predicate(&p(r#"{"op":"or","args":[{"op":"all"},{"op":"eq","field":"/b","value":{}},{"op":"exists","field":"a"}]}"#), 0),
        Err(Error::NotScalar)
    );
    let mut q = Query::new(Predicate::Exists { field: "x".into() });
    q.limit = 100_001;
    assert_eq!(query(&q), Err(Error::FieldNotPointer));
    let mut q = Query::new(Predicate::All);
    q.limit = 100_001;
    q.link_limit = 10_001;
    assert_eq!(query(&q), Err(Error::PageTooLarge));
}

#[test]
fn a_refusal_names_the_unknown_members() {
    let r = parse(&j(r#"{"op":"eq","field":"/city","value":"上海","limit":5}"#)).err().unwrap();
    assert_eq!(r.error, Error::UnknownField);
    assert_eq!(r.names, vec!["limit".to_string()]);
    assert_eq!(
        parse(&j(r#"{"op":"eq","field":"/city","value":"上海"}"#)),
        Ok(Predicate::Eq { field: "/city".into(), value: Json::Str("上海".into()) })
    );
    let nested = r#"{"op":"and","args":[{"op":"all"},{"op":"not","arg":{"op":"all","x":1,"y":2}}],"z":3}"#;
    let r = parse(&j(nested)).err().unwrap();
    assert_eq!(r.error, Error::UnknownField);
    assert_eq!(r.names, vec!["x".to_string(), "y".to_string()]);
    let step = r#"{"op":"traverse","from":{"op":"all"},"steps":[{"relation":"r","hops":2}]}"#;
    assert_eq!(parse(&j(step)).err().unwrap().names, vec!["hops".to_string()]);
    let other = parse(&j(r#"{"op":"nope","extra":1}"#)).err().unwrap();
    assert_eq!(other.error, Error::UnknownOp);
    assert_eq!(other.names, vec!["nope".to_string()]);
    let deep = parse(&j(r#"{"op":"or","args":[{"op":"all"},{"op":"bogus"}]}"#)).err().unwrap();
    assert_eq!((deep.error, deep.names), (Error::UnknownOp, vec!["bogus".to_string()]));
    let missing = parse(&j(r#"{"op":"eq","field":"/a"}"#)).err().unwrap();
    assert_eq!((missing.error, missing.names.len()), (Error::MissingField, 0));
}

#[test]
fn a_written_predicate_reads_back() {
    let texts = [
        r#"{"op":"all"}"#,
        r#"{"op":"ids","ids":[3,1,4294967295]}"#,
        r#"{"op":"eq","field":"/city","value":"上海"}"#,
        r#"{"op":"in","field":"/n","values":[1,"a",true]}"#,
        r#"{"op":"range","field":"/age","gte":18,"lt":65}"#,
        r#"{"op":"at","field":"/t","value":1e3}"#,
        r#"{"op":"contained_by","field":"/t","start":1,"end":2}"#,
        r#"{"op":"seek","index":"by_city","group":["x"],"gt":3,"direction":"desc","limit":10}"#,
        r#"{"op":"has_link","relation":"knows","target":7,"direction":"in"}"#,
        r#"{"op":"and","args":[{"op":"exists","field":"/a"},{"op":"not","arg":{"op":"prefix","field":"/b","prefix":"x"}}]}"#,
        r#"{"op":"traverse","from":{"op":"any","value":1},"steps":[{"relation":"r","filter":{"op":"all"},"min":1,"max":3},{"relation":"s","direction":"in"}]}"#,
    ];
    for t in texts.iter() {
        let p = parse(&j(t)).unwrap();
        let written = predicate_to_json(&p);
        assert_eq!(parse(&written), Ok(p));
    }
    let p = parse(&j(r#"{"op":"has_link","relation":"r","target":5}"#)).unwrap();
    assert_eq!(
        predicate_to_json(&p),
        Json::Object(vec![
            ("op".to_string(), Json::Str("has_link".into())),
            ("relation".to_string(), Json::Str("r".into())),
            ("target".to_string(), Json::Number(Number { literal: "5".into() })),
            ("direction".to_string(), Json::Str("out".into())),
        ])
    );
}
