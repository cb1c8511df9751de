use fastnode::cli::flags;
use fastnode::error::Error;
use fastnode::import::{batch_full, ImportReport};
use fastnode::json::{Json, Number};
use fastnode::model::links::Direction;
use fastnode::model::predicate::{Predicate, SortDirection, Step};
use fastnode::types::derived::{
    cut_patch, during_query, event_attrs, history, history_query, in_place_patch, reachable,
    set_plan, state_attrs, tree_attrs, SetPlan,
};
use fastnode::types::schema::{link_ends, schema, schemas, FieldRefusal, Source};
use fastnode::types::span::{span_of, Span};

fn n(s: &str) -> Json {
    Json::Number(Number { literal: s.to_string() })
}

fn s(t: &str) -> Json {
    Json::Str(t.to_string())
}

fn obj(members: Vec<(&str, Json)>) -> Json {
    Json::Object(members.into_iter().map(|(k, v)| (k.to_string(), v)).collect())
}

fn args(v: &[&str]) -> Vec<String> {
    v.iter().map(|x| x.to_string()).collect()
}

#[test]
fn five_builtin_schemas() {
    let kinds: Vec<&str> = schemas().iter().map(|s| s.kind).collect();
    assert_eq!(kinds, vec!["tree", "event", "state", "code", "relationship"]);
    assert!(schema("nope").is_none());
    let state = schema("state").unwrap();
    assert_eq!(state.kind, "state");
    let subject = state.field("subject").unwrap();
    assert_eq!(
        subject.source,
        Source::Link { relation: "state_of", direction: Direction::Out, many: false }
    );
    assert_eq!(state.field("valid").unwrap().source, Source::Attr("/valid"));
    assert_eq!(
        state.field("color").err(),
        Some(FieldRefusal { error: Error::NoSuchField, kind: "state", name: "color".to_string() })
    );
    assert_eq!(state.all(), Predicate::Eq { field: "@type".into(), value: s("state") });
}

#[test]
fn tree_fields_and_links() {
    let tree = schema("tree").unwrap();
    let names: Vec<&str> = tree.fields.iter().map(|f| f.name).collect();
    assert_eq!(names, vec!["name", "parent", "children", "next", "before"]);
    assert_eq!(tree.link_of("children"), Ok(("parent", Direction::In)));
    let parent = tree.field("parent").unwrap();
    assert_eq!(parent.name, "parent");
    assert_eq!(parent.source, Source::Link { relation: "parent", direction: Direction::Out, many: false });
    assert_eq!(
        tree.field("missing").err(),
        Some(FieldRefusal { error: Error::NoSuchField, kind: "tree", name: "missing".to_string() })
    );
    assert_eq!(
        tree.link_of("name").err(),
        Some(FieldRefusal { error: Error::NotALinkField, kind: "tree", name: "name".to_string() })
    );
    assert_eq!(
        tree.link_of("missing").err(),
        Some(FieldRefusal { error: Error::NoSuchField, kind: "tree", name: "missing".to_string() })
    );
    assert_eq!(link_ends(1, 2, Direction::Out), (1, 2));
    assert_eq!(link_ends(1, 2, Direction::In), (2, 1));
}

#[test]
fn spans() {
    let sp = Span::new(10, None);
    assert_eq!((sp.start, sp.end, sp.text.clone()), (10, None, None));
    let t = Span::new(10, Some(20)).with_text("today".into());
    assert_eq!(t.text.as_deref(), Some("today"));
    assert_eq!(t.end, Some(20));
    assert_eq!(
        t.to_json(),
        obj(vec![("text", s("today")), ("start", n("10")), ("end", n("20"))])
    );
    assert_eq!(sp.to_json(), obj(vec![("start", n("10")), ("end", Json::Null)]));
    assert_eq!(span_of(&t.to_json()), Ok(t.clone()));
    assert_eq!(span_of(&sp.to_json()), Ok(sp));
    assert_eq!(
        Span::overlap("/time", 1, 2),
        Predicate::Overlap { field: "/time".into(), start: Number { literal: "1".into() }, end: Number { literal: "2".into() } }
    );
    assert_eq!(
        Span::at("/valid", -5),
        Predicate::At { field: "/valid".into(), value: Number { literal: "-5".into() } }
    );
}

#[test]
fn span_of_refusals_and_extremes() {
    assert_eq!(span_of(&obj(vec![("end", n("1"))])), Err(Error::MissingField));
    assert_eq!(span_of(&obj(vec![("start", s("x"))])), Err(Error::WrongType));
    assert_eq!(span_of(&obj(vec![("start", n("1.5"))])), Err(Error::WrongType));
    assert_eq!(span_of(&obj(vec![("start", n("9223372036854775808"))])), Err(Error::WrongType));
    assert_eq!(span_of(&s("x")), Err(Error::WrongType));
    let min = span_of(&obj(vec![("start", n("-9223372036854775808")), ("other", Json::Bool(true))])).unwrap();
    assert_eq!((min.start, min.end), (i64::MIN, None));
}

#[test]
fn derived_predicates() {
    let mut step = Step::new("parent".into(), Direction::In);
    step.min = Some(1);
    assert_eq!(
        reachable(7, "parent", Direction::In),
        Predicate::Traverse { from: Box::new(Predicate::Ids { ids: vec![7] }), steps: vec![step] }
    );
    let of_subject = Predicate::Traverse {
        from: Box::new(Predicate::Ids { ids: vec![3] }),
        steps: vec![Step::new("state_of".into(), Direction::In)],
    };
    let base = vec![
        Predicate::Eq { field: "@type".into(), value: s("state") },
        Predicate::Eq { field: "/key".into(), value: s("color") },
        of_subject,
    ];
    assert_eq!(history(3, "color", None), Predicate::And { args: base });
    match history(3, "color", Some(Span::at("/valid", 9))) {
        Predicate::And { args } => {
            assert_eq!(args.len(), 4);
            assert_eq!(args[3], Span::at("/valid", 9));
        }
        other => panic!("unexpected {other:?}"),
    }
}

#[test]
fn derived_queries() {
    let q = during_query(1, 5, 10);
    assert_eq!(q.limit, 10);
    let order = q.order_by.clone().unwrap();
    assert_eq!((order.field.as_str(), order.direction), ("/time/start", SortDirection::Asc));
    assert_eq!(
        q.predicate,
        Predicate::And {
            args: vec![
                Predicate::Eq { field: "@type".into(), value: s("event") },
                Span::overlap("/time", 1, 5),
            ]
        }
    );
    let h = history_query(3, "k");
    assert_eq!(h.limit, 100_000);
    assert_eq!(h.order_by.unwrap().field, "/valid/start");
    assert_eq!(h.predicate, history(3, "k", None));
}

#[test]
fn derived_attrs_and_patches() {
    assert_eq!(tree_attrs("root"), obj(vec![("name", s("root"))]));
    let t = Span::new(1, Some(2));
    assert_eq!(event_attrs("deploy", &t), obj(vec![("what", s("deploy")), ("time", t.to_json())]));
    assert_eq!(
        state_attrs("color", &s("red"), &t),
        obj(vec![("key", s("color")), ("value", s("red")), ("valid", t.to_json())])
    );
    assert_eq!(
        in_place_patch("now red", &s("red")),
        obj(vec![("summary", s("now red")), ("attrs", obj(vec![("value", s("red"))]))])
    );
    assert_eq!(
        cut_patch(42),
        obj(vec![("attrs", obj(vec![("valid", obj(vec![("end", n("42"))]))]))])
    );
}

#[test]
fn setting_a_state_cuts_or_updates() {
    assert_eq!(set_plan(&vec![], 5), SetPlan { cut: vec![], in_place: None, end: None });
    assert_eq!(
        set_plan(&vec![(1, 0, Some(10))], 5),
        SetPlan { cut: vec![1], in_place: None, end: Some(10) }
    );
    assert_eq!(
        set_plan(&vec![(1, 0, None)], 5),
        SetPlan { cut: vec![1], in_place: None, end: None }
    );
    assert_eq!(
        set_plan(&vec![(1, 5, Some(10))], 5),
        SetPlan { cut: vec![], in_place: Some(1), end: None }
    );
    assert_eq!(
        set_plan(&vec![(1, 0, Some(7)), (2, 5, None), (3, 1, Some(9))], 5),
        SetPlan { cut: vec![1], in_place: Some(2), end: None }
    );
}

#[test]
fn a_new_state_ends_where_the_next_state_begins() {
    // no state holds 5: the new state stops at the next start after 5
    assert_eq!(
        set_plan(&vec![(1, 10, Some(20))], 5),
        SetPlan { cut: vec![], in_place: None, end: Some(10) }
    );
    assert_eq!(
        set_plan(&vec![(1, 0, Some(3)), (2, 12, Some(20)), (3, 8, None)], 5),
        SetPlan { cut: vec![], in_place: None, end: Some(8) }
    );
    // a state ending at 5 does not hold 5
    assert_eq!(
        set_plan(&vec![(1, 0, Some(5)), (2, 9, None)], 5),
        SetPlan { cut: vec![], in_place: None, end: Some(9) }
    );
    // an instant at 5 holds 5 and starts there
    assert_eq!(
        set_plan(&vec![(1, 5, Some(5))], 5),
        SetPlan { cut: vec![], in_place: Some(1), end: None }
    );
}

#[test]
fn flags_split_named_from_positional() {
    let (p, named) = flags(&args(&["x", "--limit", "5", "y", "--order", "/n"])).unwrap();
    assert_eq!(p, args(&["x", "y"]));
    assert_eq!(
        named,
        vec![("limit".to_string(), "5".to_string()), ("order".to_string(), "/n".to_string())]
    );
    assert_eq!(flags(&args(&["x", "--limit"])), Err(Error::FlagNeedsValue));
    // a lone dash or a value that looks like a flag
    let (p, named) = flags(&args(&["-", "--a", "--b"])).unwrap();
    assert_eq!(p, args(&["-"]));
    assert_eq!(named, vec![("a".to_string(), "--b".to_string())]);
    assert_eq!(flags(&args(&[])), Ok((vec![], vec![])));
}

#[test]
fn import_report_counts_batches() {
    let mut r = ImportReport::default();
    assert_eq!(r.record_number(0), 1);
    r.record(&vec![5, 6, 7]);
    assert_eq!((r.imported, r.batches, r.first_id, r.last_id), (3, 1, Some(5), Some(7)));
    r.record(&vec![8]);
    assert_eq!((r.imported, r.batches, r.first_id, r.last_id), (4, 2, Some(5), Some(8)));
    assert_eq!(r.record_number(2), 7);
    r.record(&vec![]);
    assert_eq!((r.imported, r.batches, r.last_id), (4, 3, None));
    assert!(batch_full(3, 3));
    assert!(!batch_full(2, 3));
}
