use fastnode::error::Error;
use fastnode::json::{Json, Number};
use fastnode::model::mutation::{mutation_of, Mutation};
use fastnode::model::node::{Link, NewNode};

fn s(t: &str) -> Json {
    Json::Str(t.to_string())
}

fn n(t: &str) -> Json {
    Json::Number(Number { literal: t.to_string() })
}

fn obj(members: Vec<(&str, Json)>) -> Json {
    Json::Object(members.into_iter().map(|(k, v)| (k.to_string(), v)).collect())
}

fn node() -> Json {
    obj(vec![("type", s("person")), ("summary", s("Ann")), ("attrs", obj(vec![]))])
}

#[test]
fn every_write_reads_its_members() {
    let ann = NewNode { kind: "person".into(), summary: "Ann".into(), attrs: obj(vec![]) };
    assert_eq!(
        mutation_of(&obj(vec![("op", s("create")), ("node", node())])),
        Ok(Mutation::Create { node: ann })
    );
    assert_eq!(
        mutation_of(&obj(vec![("op", s("delete")), ("id", n("7"))])),
        Ok(Mutation::Delete { id: 7 })
    );
    assert_eq!(
        mutation_of(&obj(vec![("op", s("patch")), ("id", n("3")), ("patch", obj(vec![("summary", s("B"))]))])),
        Ok(Mutation::Patch { id: 3, patch: obj(vec![("summary", s("B"))]) })
    );
    assert_eq!(
        mutation_of(&obj(vec![("op", s("unlink")), ("from", n("1")), ("relation", s("knows")), ("to", n("2"))])),
        Ok(Mutation::Unlink(Link { from: 1, relation: "knows".into(), to: 2 }))
    );
}

#[test]
fn refused_writes_say_why() {
    let r = mutation_of(&obj(vec![("op", s("delete")), ("id", n("7")), ("force", Json::Bool(true))])).err().unwrap();
    assert_eq!(r.error, Error::UnknownField);
    assert_eq!(r.members, vec!["force".to_string()]);
    let r = mutation_of(&obj(vec![("op", s("rename"))])).err().unwrap();
    assert_eq!((r.error, r.members.len()), (Error::UnknownOp, 0));
    let r = mutation_of(&obj(vec![("op", s("delete"))])).err().unwrap();
    assert_eq!(r.error, Error::MissingField);
    let r = mutation_of(&obj(vec![("op", s("delete")), ("id", n("-3"))])).err().unwrap();
    assert_eq!(r.error, Error::WrongType);
    assert_eq!(mutation_of(&n("1")).err().unwrap().error, Error::NotAnObject);
    let r = mutation_of(&obj(vec![("op", s("create")), ("node", s("x"))])).err().unwrap();
    assert_eq!(r.error, Error::InvalidNode);
}
