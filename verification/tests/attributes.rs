use std::collections::BTreeSet;

use fastnode::error::Error;
use fastnode::index::patch::merge_patch;
use fastnode::index::value::number_key;
use fastnode::index::visit::{interval, Attributes};
use fastnode::index::{attributes, mark_sortable, validate};
use fastnode::json::{Json, Number};
use fastnode::model::node::NewNode;
use fastnode::store::maintain::change;

fn n(s: &str) -> Json {
    Json::Number(Number { literal: s.to_string() })
}

fn s(t: &str) -> Json {
    Json::Str(t.to_string())
}

fn obj(members: Vec<(&str, Json)>) -> Json {
    Json::Object(members.into_iter().map(|(k, v)| (k.to_string(), v)).collect())
}

fn keys(a: &Attributes) -> BTreeSet<(String, String)> {
    a.postings.iter().map(|p| (p.field.clone(), p.token.clone())).collect()
}

fn pair(f: &str, t: &str) -> (String, String) {
    (f.to_string(), t.to_string())
}

fn ntok(lit: &str) -> String {
    fastnode::index::value::number_token(&number_key(&Number { literal: lit.to_string() }).unwrap())
}

#[test]
fn attributes_of_a_flat_object() {
    let attrs = obj(vec![("city", s("Paris")), ("age", n("30")), ("ok", Json::Bool(true))]);
    let a = attributes("person", &attrs).unwrap();
    let expected: BTreeSet<(String, String)> = [
        pair("", "u:"),
        pair("@type", "s:person"),
        pair("", "e:"),
        pair("/city", "e:"),
        pair("/city", "s:Paris"),
        pair("/city", "o:"),
        pair("/age", "e:"),
        pair("/age", &ntok("30")),
        pair("/age", "o:"),
        pair("/ok", "e:"),
        pair("/ok", "b:1"),
        pair("@type", "o:"),
    ]
    .into_iter()
    .collect();
    assert_eq!(keys(&a), expected);
    assert!(a.intervals.is_empty());
    // each posting once
    assert_eq!(a.postings.len(), expected.len());
}

#[test]
fn scalar_array_members_post_at_the_array_path() {
    let attrs = obj(vec![("skills", Json::Array(vec![s("rust"), s("go")]))]);
    let a = attributes("t", &attrs).unwrap();
    let k = keys(&a);
    assert!(k.contains(&pair("/skills", "s:rust")));
    assert!(k.contains(&pair("/skills", "s:go")));
    assert!(k.contains(&pair("/skills/0", "s:rust")));
    assert!(k.contains(&pair("/skills/1", "s:go")));
    assert!(k.contains(&pair("/skills", "o:")));
    assert!(k.contains(&pair("/skills", "m:")));
    assert!(!k.contains(&pair("/skills/0", "m:")));
    assert!(!k.iter().any(|(f, _)| f.contains('*')));
}

#[test]
fn objects_in_arrays_post_under_the_wildcard_path() {
    let jobs = Json::Array(vec![obj(vec![("company", s("A"))]), obj(vec![("company", s("B"))])]);
    let a = attributes("t", &obj(vec![("jobs", jobs)])).unwrap();
    let k = keys(&a);
    assert!(k.contains(&pair("/jobs/0/company", "s:A")));
    assert!(k.contains(&pair("/jobs/1/company", "s:B")));
    assert!(k.contains(&pair("/jobs/*/company", "s:A")));
    assert!(k.contains(&pair("/jobs/*/company", "s:B")));
    assert!(k.contains(&pair("/jobs/*", "e:")));
    assert!(k.contains(&pair("/jobs/*/company", "m:")));
}

#[test]
fn keys_are_escaped_into_segments() {
    let a = attributes("t", &obj(vec![("a/b", s("x")), ("*", s("y"))])).unwrap();
    let k = keys(&a);
    assert!(k.contains(&pair("/a~1b", "s:x")));
    assert!(k.contains(&pair("/~2", "s:y")));
}

#[test]
fn null_is_posted_and_distinct_from_missing() {
    let a = attributes("t", &obj(vec![("x", Json::Null)])).unwrap();
    let k = keys(&a);
    assert!(k.contains(&pair("/x", "z:")));
    assert!(k.contains(&pair("/x", "e:")));
    assert!(!k.contains(&pair("/x", "o:")));
}

#[test]
fn an_object_with_a_numeric_start_is_an_interval() {
    let a = attributes("t", &obj(vec![("time", obj(vec![("start", n("1")), ("end", n("5"))]))])).unwrap();
    assert_eq!(a.intervals.len(), 1);
    let row = &a.intervals[0];
    assert_eq!(row.field, "/time");
    assert_eq!(row.lo, number_key(&Number { literal: "1".into() }).unwrap());
    assert_eq!(row.hi, number_key(&Number { literal: "5".into() }).unwrap());
}

#[test]
fn interval_edge_cases() {
    let one = number_key(&Number { literal: "1".into() }).unwrap();
    // open end
    let open = vec![("start".to_string(), n("1"))];
    assert_eq!(interval(&open), Ok(Some((one.clone(), vec![3]))));
    let null_end = vec![("start".to_string(), n("1")), ("end".to_string(), Json::Null)];
    assert_eq!(interval(&null_end), Ok(Some((one.clone(), vec![3]))));
    // end before start, or not a number: no interval
    let reversed = vec![("start".to_string(), n("5")), ("end".to_string(), n("1"))];
    assert_eq!(interval(&reversed), Ok(None));
    let text_end = vec![("start".to_string(), n("1")), ("end".to_string(), s("x"))];
    assert_eq!(interval(&text_end), Ok(None));
    // empty interval is kept
    let point = vec![("start".to_string(), n("1")), ("end".to_string(), n("1.0"))];
    assert_eq!(interval(&point), Ok(Some((one.clone(), one.clone()))));
    let no_start = vec![("end".to_string(), n("1"))];
    assert_eq!(interval(&no_start), Ok(None));
    let bad = vec![("start".to_string(), n("1e9223372036854775807"))];
    assert_eq!(interval(&bad), Err(Error::ExponentOutOfRange));
}

#[test]
fn attributes_fail_on_an_exponent_out_of_range() {
    let attrs = obj(vec![("x", n("1e9223372036854775807"))]);
    assert_eq!(attributes("t", &attrs).err(), Some(Error::ExponentOutOfRange));
}

#[test]
fn mark_sortable_marks_sortable_paths() {
    let mut a = Attributes::new();
    a.insert_posting("/a".into(), "s:x".into(), None);
    a.insert_posting("/a".into(), "s:y".into(), None);
    a.insert_posting("/b".into(), "b:1".into(), None);
    a.insert_posting("/c".into(), "n:01".into(), Some(vec![1]));
    mark_sortable(&mut a);
    let k = keys(&a);
    assert!(k.contains(&pair("/a", "o:")));
    assert!(k.contains(&pair("/a", "m:")));
    assert!(!k.contains(&pair("/b", "o:")));
    assert!(k.contains(&pair("/c", "o:")));
    assert!(!k.contains(&pair("/c", "m:")));
    assert_eq!(k.len(), 7);
}

#[test]
fn validate_checks_type_summary_and_attrs() {
    let ok = NewNode::new("t".into(), "s".into(), obj(vec![]));
    assert_eq!(validate(&ok), Ok(()));
    let no_type = NewNode::new("  ".into(), "s".into(), obj(vec![]));
    assert_eq!(validate(&no_type), Err(Error::TypeRequired));
    let no_summary = NewNode::new("t".into(), "\n".into(), obj(vec![]));
    assert_eq!(validate(&no_summary), Err(Error::SummaryRequired));
    let not_object = NewNode::new("t".into(), "s".into(), Json::Array(vec![]));
    assert_eq!(validate(&not_object), Err(Error::AttrsNotObject));
}

#[test]
fn merge_patch_sets_removes_and_recurses() {
    let mut target = obj(vec![
        ("a", n("1")),
        ("b", obj(vec![("c", n("2")), ("d", n("3"))])),
        ("e", s("x")),
    ]);
    let patch = obj(vec![
        ("a", Json::Null),
        ("b", obj(vec![("c", n("4"))])),
        ("f", s("new")),
    ]);
    merge_patch(&mut target, &patch);
    let expected = obj(vec![
        ("b", obj(vec![("c", n("4")), ("d", n("3"))])),
        ("e", s("x")),
        ("f", s("new")),
    ]);
    assert_eq!(target, expected);
}

#[test]
fn merge_patch_with_a_non_object_replaces() {
    let mut target = obj(vec![("a", n("1"))]);
    merge_patch(&mut target, &s("all"));
    assert_eq!(target, s("all"));
    let mut scalar = n("5");
    merge_patch(&mut scalar, &obj(vec![("k", Json::Null), ("j", n("1"))]));
    assert_eq!(scalar, obj(vec![("j", n("1"))]));
}

#[test]
fn change_applies_to_the_old_entries() {
    let old = attributes("t", &obj(vec![("a", n("1")), ("b", s("x"))])).unwrap();
    let new = attributes("t", &obj(vec![("a", n("2")), ("b", s("x")), ("c", Json::Null)])).unwrap();
    let c = change(&old, &new);
    let mut applied = keys(&old);
    for p in &c.drop {
        assert!(applied.remove(&(p.field.clone(), p.token.clone())));
    }
    for p in &c.add {
        assert!(applied.insert((p.field.clone(), p.token.clone())));
    }
    assert_eq!(applied, keys(&new));
    assert!(c.drop.iter().any(|p| p.field == "/a" && p.token == ntok("1")));
    assert!(c.add.iter().any(|p| p.field == "/c" && p.token == "z:"));
    assert!(!c.drop.iter().any(|p| p.field == "/b"));
    assert!(c.drop_rows.is_empty() && c.add_rows.is_empty());
}

#[test]
fn change_of_intervals() {
    let old = attributes("t", &obj(vec![("t", obj(vec![("start", n("1"))]))])).unwrap();
    let new = attributes("t", &obj(vec![("t", obj(vec![("start", n("1")), ("end", n("2"))]))])).unwrap();
    let c = change(&old, &new);
    assert_eq!(c.drop_rows.len(), 1);
    assert_eq!(c.drop_rows[0].hi, vec![3]);
    assert_eq!(c.add_rows.len(), 1);
    assert_eq!(c.add_rows[0].hi, number_key(&Number { literal: "2".into() }).unwrap());
    let same = change(&new, &new);
    assert!(same.drop.is_empty() && same.add.is_empty());
    assert!(same.drop_rows.is_empty() && same.add_rows.is_empty());
}
