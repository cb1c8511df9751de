use std::collections::BTreeSet;

use fastnode::error::Error;
use fastnode::index::attributes;
use fastnode::index::value::{number_key, number_token};
use fastnode::json::{Json, Number};
use fastnode::model::links::{Direction, LinkMode, LinkOptions};
use fastnode::store::composite::{
    check_definition, define_step, entries, group_key, order_key, same_definition, scalars,
    single_scalar, DefineStep,
    IndexDef, STRING_ORDER,
};
use fastnode::store::policy::{allowed, check_allowed, check_patch, check_policy, WritePolicy};
use fastnode::store::read::{build_sql, keep_row, link_sql, sql_slot};
use fastnode::store::write::{
    after_add, after_remove, check_limit, check_relation, document, member_json, next_time,
    ClockStep, TxClock,
    node_of, patched, NumberAction, MAX_LINK_LIMIT,
};

fn n(s: &str) -> Json {
    Json::Number(Number { literal: s.to_string() })
}

fn s(t: &str) -> Json {
    Json::Str(t.to_string())
}

fn obj(members: Vec<(&str, Json)>) -> Json {
    Json::Object(members.into_iter().map(|(k, v)| (k.to_string(), v)).collect())
}

fn strings(v: &[&str]) -> Vec<String> {
    v.iter().map(|x| x.to_string()).collect()
}

#[test]
fn clock_is_monotonic() {
    assert_eq!(next_time(None, 1000), 1000);
    assert_eq!(next_time(Some(999), 1000), 1000);
    assert_eq!(next_time(Some(1000), 1000), 1001);
    // the system clock stepped back
    assert_eq!(next_time(Some(5000), 1000), 5001);
    let mut last = None;
    for system in [10, 10, 9, 30, 2] {
        let t = next_time(last, system);
        assert!(t >= system);
        if let Some(l) = last {
            assert!(t > l);
        }
        last = Some(t);
    }
}

#[test]
fn number_rows_gain_and_lose_postings() {
    assert_eq!(after_add(1), NumberAction::Nothing);
    assert_eq!(after_add(2), NumberAction::Both);
    assert_eq!(after_add(3), NumberAction::This);
    assert_eq!(after_remove(0), NumberAction::Nothing);
    assert_eq!(after_remove(1), NumberAction::Both);
    assert_eq!(after_remove(2), NumberAction::This);
}

#[test]
fn link_limits_and_relations() {
    assert_eq!(MAX_LINK_LIMIT, 10_000);
    assert_eq!(check_limit(&LinkOptions { mode: LinkMode::Bare, limit: 10_000 }), Ok(()));
    assert_eq!(
        check_limit(&LinkOptions { mode: LinkMode::Full, limit: 10_001 }),
        Err(Error::LinkLimitTooLarge)
    );
    assert_eq!(check_relation(&"knows".to_string()), Ok(()));
    assert_eq!(check_relation(&String::new()), Err(Error::EmptyRelation));
}

#[test]
fn document_and_node_of_round_trip() {
    let attrs = obj(vec![("a", n("1"))]);
    let d = document(&"t".to_string(), &"sum".to_string(), &attrs);
    assert_eq!(d, obj(vec![("type", s("t")), ("summary", s("sum")), ("attrs", attrs.duplicate())]));
    let back = node_of(&d).unwrap();
    assert_eq!((back.kind.as_str(), back.summary.as_str()), ("t", "sum"));
    assert_eq!(back.attrs, attrs);
}

#[test]
fn node_of_refusals() {
    assert_eq!(node_of(&s("x")).err(), Some(Error::InvalidNode));
    assert_eq!(node_of(&obj(vec![("type", s("t"))])).err(), Some(Error::InvalidNode));
    assert_eq!(node_of(&obj(vec![("type", n("1")), ("summary", s("s"))])).err(), Some(Error::InvalidNode));
    assert_eq!(
        node_of(&obj(vec![("type", s("t")), ("summary", s("s")), ("extra", Json::Null)])).err(),
        Some(Error::InvalidNode)
    );
    // attrs defaults to an empty object
    let no_attrs = node_of(&obj(vec![("summary", s("s")), ("type", s("t"))])).unwrap();
    assert_eq!(no_attrs.attrs, obj(vec![]));
}

#[test]
fn patching_a_node() {
    let attrs = obj(vec![("a", n("1")), ("b", s("x"))]);
    let patch = obj(vec![("summary", s("new")), ("attrs", obj(vec![("a", Json::Null), ("c", n("2"))]))]);
    let node = patched(&"t".to_string(), &"old".to_string(), &attrs, &patch).unwrap();
    assert_eq!(node.kind, "t");
    assert_eq!(node.summary, "new");
    assert_eq!(node.attrs, obj(vec![("b", s("x")), ("c", n("2"))]));
    assert_eq!(
        patched(&"t".to_string(), &"s".to_string(), &attrs, &s("x")).err(),
        Some(Error::PatchNotObject)
    );
    let drop_type = obj(vec![("type", Json::Null)]);
    assert_eq!(
        patched(&"t".to_string(), &"s".to_string(), &attrs, &drop_type).err(),
        Some(Error::InvalidNode)
    );
}

#[test]
fn member_lookup() {
    let es = vec![("a".to_string(), n("1")), ("b".to_string(), s("x"))];
    assert_eq!(member_json(&es, "b"), Some(&s("x")));
    assert_eq!(member_json(&es, "c"), None);
}

#[test]
fn policies() {
    assert!(allowed());
    let d = WritePolicy::default();
    assert!(d.delete && d.replace && d.patch.is_none());
    let p = WritePolicy::append_only(&strings(&["/valid/end"]));
    assert!(!p.delete && !p.replace);
    assert_eq!(p.patch, Some(strings(&["/valid/end"])));
    assert_eq!(check_policy("state", &p), Ok(()));
    assert_eq!(check_policy("", &p), Err(Error::PolicyNeedsType));
    let bad = WritePolicy::append_only(&strings(&["valid"]));
    assert_eq!(check_policy("state", &bad), Err(Error::PatchKeyNotPointer));
    let escape = WritePolicy::append_only(&strings(&["/a~9"]));
    assert_eq!(check_policy("state", &escape), Err(Error::FieldBadEscape));
    assert_eq!(check_allowed(true), Ok(()));
    assert_eq!(check_allowed(false), Err(Error::PolicyForbids));
}

#[test]
fn patch_policy_checks_every_changed_pointer() {
    let allowed = Some(strings(&["/valid/end", "/note"]));
    let ok = obj(vec![("attrs", obj(vec![("valid", obj(vec![("end", n("5"))]))]))]);
    assert_eq!(check_patch(&allowed, &ok), Ok(()));
    let below = obj(vec![("attrs", obj(vec![("note", obj(vec![("x", s("y"))]))]))]);
    assert_eq!(check_patch(&allowed, &below), Ok(()));
    let other = obj(vec![("attrs", obj(vec![("valid", obj(vec![("start", n("5"))]))]))]);
    assert_eq!(check_patch(&allowed, &other), Err(Error::PatchNotAllowed));
    let sibling = obj(vec![("attrs", obj(vec![("notes", s("y"))]))]);
    assert_eq!(check_patch(&allowed, &sibling), Err(Error::PatchNotAllowed));
    let summary = obj(vec![("summary", s("x"))]);
    assert_eq!(check_patch(&allowed, &summary), Err(Error::PatchNotAllowed));
    let whole = obj(vec![("attrs", Json::Null)]);
    assert_eq!(check_patch(&allowed, &whole), Err(Error::PatchNotAllowed));
    assert_eq!(check_patch(&None, &summary), Ok(()));
    assert_eq!(check_patch(&allowed, &obj(vec![])), Ok(()));
}

#[test]
fn composite_keys() {
    assert_eq!(group_key(&strings(&["s:a", "n:01"])), b"s:a\0n:01".to_vec());
    assert_eq!(group_key(&strings(&[])), Vec::<u8>::new());
    assert_eq!(order_key("s:ab"), Ok(vec![STRING_ORDER, b'a', b'b']));
    assert_eq!(order_key("n:0102"), Ok(vec![1, 2]));
    assert_eq!(order_key("b:1"), Err(Error::NotSortable));
    // every number key sorts below every string ordering key
    let big = number_key(&Number { literal: "1e300".into() }).unwrap();
    assert!(big < vec![STRING_ORDER]);
}

fn def(name: &str, kind: &str, grouping: &[&str], ordering: &str) -> IndexDef {
    IndexDef { name: name.into(), kind: kind.into(), grouping: strings(grouping), ordering: ordering.into() }
}

#[test]
fn index_definitions() {
    assert_eq!(check_definition(&def("i", "t", &["/a"], "/b")), Ok(()));
    assert_eq!(check_definition(&def("", "t", &["/a"], "/b")), Err(Error::IndexNeedsName));
    assert_eq!(check_definition(&def("i", "", &["/a"], "/b")), Err(Error::IndexNeedsName));
    assert_eq!(check_definition(&def("i", "t", &[], "/b")), Err(Error::IndexNeedsGrouping));
    assert_eq!(check_definition(&def("i", "t", &[""], "/b")), Err(Error::EmptyIndexPath));
    assert_eq!(check_definition(&def("i", "t", &["/a"], "")), Err(Error::EmptyIndexPath));
    assert_eq!(check_definition(&def("i", "t", &["a"], "/b")), Err(Error::FieldNotPointer));
    assert!(same_definition(&def("i", "t", &["/a"], "/b"), &def("i", "t", &["/a"], "/b")));
    assert!(!same_definition(&def("i", "t", &["/a"], "/b"), &def("i", "t", &["/a"], "/c")));
}

#[test]
fn composite_entries_need_single_values() {
    let defs = vec![
        def("by_key", "state", &["/key"], "/valid/start"),
        def("by_tag", "state", &["/tags"], "/valid/start"),
        def("other", "event", &["/key"], "/valid/start"),
    ];
    let attrs = obj(vec![
        ("key", s("k1")),
        ("tags", Json::Array(vec![s("a"), s("b")])),
        ("valid", obj(vec![("start", n("10"))])),
    ]);
    let a = attributes("state", &attrs).unwrap();
    let e = entries(&defs, &"state".to_string(), &a).unwrap();
    let start = number_key(&Number { literal: "10".into() }).unwrap();
    assert_eq!(e, vec![("by_key".to_string(), b"s:k1".to_vec(), start)]);
    let none = entries(&defs, &"tree".to_string(), &a).unwrap();
    assert!(none.is_empty());
}

#[test]
fn scalars_at_a_path() {
    let attrs = obj(vec![("tags", Json::Array(vec![s("a"), Json::Null, Json::Bool(false)])), ("one", s("x"))]);
    let a = attributes("t", &attrs).unwrap();
    let got: BTreeSet<String> = scalars(&a, &"/tags".to_string()).into_iter().collect();
    let want: BTreeSet<String> = strings(&["s:a", "z:", "b:0"]).into_iter().collect();
    assert_eq!(got, want);
    assert_eq!(single_scalar(&a, &"/one".to_string(), false), Some("s:x".to_string()));
    assert_eq!(single_scalar(&a, &"/tags".to_string(), false), None);
    assert_eq!(single_scalar(&a, &"/tags".to_string(), true), Some("s:a".to_string()));
    assert_eq!(single_scalar(&a, &"/missing".to_string(), false), None);
}

#[test]
fn link_queries() {
    assert_eq!(
        link_sql(Direction::Out, LinkMode::Bare, false),
        "SELECT l.relation,l.target FROM links l WHERE l.source=?1 ORDER BY l.relation,l.target LIMIT ?2"
    );
    assert_eq!(
        build_sql(Direction::In, LinkMode::Full, true),
        "SELECT l.relation,l.source,n.type,n.summary,n.attrs FROM links l JOIN nodes n ON n.id=l.source WHERE l.target=?1 AND l.relation=?3 ORDER BY l.relation,l.source LIMIT ?2"
    );
    assert_eq!(
        link_sql(Direction::Out, LinkMode::Summary, false),
        "SELECT l.relation,l.target,n.type,n.summary FROM links l JOIN nodes n ON n.id=l.target WHERE l.source=?1 ORDER BY l.relation,l.target LIMIT ?2"
    );
    let mut slots = BTreeSet::new();
    for d in [Direction::Out, Direction::In] {
        for m in [LinkMode::Bare, LinkMode::Summary, LinkMode::Full] {
            for r in [false, true] {
                assert!(slots.insert(sql_slot(d, m, r)));
                assert_eq!(link_sql(d, m, r), build_sql(d, m, r));
            }
        }
    }
    assert_eq!(slots.len(), 12);
    assert!(keep_row(0, 1));
    assert!(!keep_row(1, 1));
}

#[test]
fn definition_and_policy_refusals_come_in_checking_order() {
    assert_eq!(check_definition(&def("", "", &[], "")), Err(Error::IndexNeedsName));
    assert_eq!(check_definition(&def("i", "t", &[], "")), Err(Error::IndexNeedsGrouping));
    assert_eq!(check_definition(&def("i", "t", &["/ok", "a", ""], "")), Err(Error::FieldNotPointer));
    assert_eq!(check_definition(&def("i", "t", &["/ok"], "/a~9")), Err(Error::FieldBadEscape));
    let bad = WritePolicy::append_only(&strings(&["/ok", "bad", "/a~9"]));
    assert_eq!(check_policy("", &bad), Err(Error::PolicyNeedsType));
    assert_eq!(check_policy("t", &bad), Err(Error::PatchKeyNotPointer));
    let escape_first = WritePolicy::append_only(&strings(&["/a~9", "bad"]));
    assert_eq!(check_policy("t", &escape_first), Err(Error::FieldBadEscape));
}

#[test]
fn ordering_keys_put_numbers_before_strings() {
    let k = number_key(&Number { literal: "123.5".to_string() }).unwrap();
    assert_eq!(order_key(&number_token(&k)), Ok(k.clone()));
    let s = order_key("s:").unwrap();
    assert!(k < s);
    let big = number_key(&Number { literal: "1e300".to_string() }).unwrap();
    assert!(big < order_key("s:a").unwrap());
    assert_eq!(order_key("s:b"), Ok(vec![STRING_ORDER, b'b']));
    assert!(order_key("s:a").unwrap() < order_key("s:b").unwrap());
    assert_eq!(order_key("u:"), Err(Error::NotSortable));
}

#[test]
fn declaring_an_index_again_does_nothing() {
    let by_city = |ordering: &str| IndexDef {
        name: "by_city".to_string(),
        kind: "person".to_string(),
        grouping: vec!["/city".to_string()],
        ordering: ordering.to_string(),
    };
    assert_eq!(define_step(&vec![], &by_city("/age")), Ok(DefineStep::Store));
    assert_eq!(define_step(&vec![by_city("/age")], &by_city("/age")), Ok(DefineStep::Keep));
    assert_eq!(define_step(&vec![by_city("/age")], &by_city("/name")), Err(Error::IndexConflict));
    assert_eq!(define_step(&vec![by_city("/age")], &by_city("")), Err(Error::EmptyIndexPath));
    let other = IndexDef { name: "by_age".to_string(), ..by_city("/age") };
    assert_eq!(define_step(&vec![other], &by_city("/name")), Ok(DefineStep::Store));
}

#[test]
fn a_transaction_keeps_one_time() {
    let mut c = TxClock::new();
    assert_eq!(c.step(), ClockStep::Read);
    let t = c.settle(Some(2000), 1000);
    assert_eq!(t, 2001);
    assert_eq!(c.step(), ClockStep::Known(2001));
    assert_eq!(c.step(), ClockStep::Known(2001));
    let mut fresh = TxClock::new();
    assert_eq!(fresh.settle(None, 1000), 1000);
}
