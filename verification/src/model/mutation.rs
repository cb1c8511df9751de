//! One write of a batch, or a single-operation rpc request, read from JSON:
//! `create`, `replace`, `patch`, `delete`, `link` or `unlink`.

use crate::cli::strings_view;
use crate::error::Error;
use crate::json::{entries_view, json_wf, Json, JsonV};
use crate::model::node::{Link, NewNode, NodeId};
use crate::model::parse::{
    is, known_members, lemma_member_wf, lemma_unknown_keys, member_of, names, take_json, take_str,
    take_string, take_u32, take_value, u32_of, unknown_keys, unknown_keys_of,
};
use crate::model::render::{keys_distinct, lemma_member_at, lemma_nat_back, nat_json};
use crate::store::write::{node_of, node_of_spec};
use vstd::prelude::*;

verus! {

/// One write.
#[derive(Debug, PartialEq, Eq)]
pub enum Mutation {
    Create { node: NewNode },
    Replace { id: NodeId, node: NewNode },
    Patch { id: NodeId, patch: Json },
    Delete { id: NodeId },
    Link(Link),
    Unlink(Link),
}

/// A Node as type, summary and attrs.
pub type NodeV = (Seq<char>, Seq<char>, JsonV);

pub enum MutationV {
    Create { node: NodeV },
    Replace { id: NodeId, node: NodeV },
    Patch { id: NodeId, patch: JsonV },
    Delete { id: NodeId },
    Link { from: NodeId, relation: Seq<char>, to: NodeId },
    Unlink { from: NodeId, relation: Seq<char>, to: NodeId },
}

pub open spec fn node_view(n: NewNode) -> NodeV {
    (n.kind@, n.summary@, n.attrs@)
}

impl View for Mutation {
    type V = MutationV;

    open spec fn view(&self) -> MutationV {
        match self {
            Mutation::Create { node } => MutationV::Create { node: node_view(*node) },
            Mutation::Replace { id, node } => MutationV::Replace { id: *id, node: node_view(*node) },
            Mutation::Patch { id, patch } => MutationV::Patch { id: *id, patch: patch@ },
            Mutation::Delete { id } => MutationV::Delete { id: *id },
            Mutation::Link(l) => MutationV::Link { from: l.from, relation: l.relation@, to: l.to },
            Mutation::Unlink(l) => MutationV::Unlink { from: l.from, relation: l.relation@, to: l.to },
        }
    }
}

/// The members each write takes besides `op`.
pub open spec fn mutation_keys(op: Seq<char>) -> Seq<Seq<char>> {
    if op == "create"@ {
        seq!["node"@]
    } else if op == "replace"@ {
        seq!["id"@, "node"@]
    } else if op == "patch"@ {
        seq!["id"@, "patch"@]
    } else if op == "delete"@ {
        seq!["id"@]
    } else if op == "link"@ || op == "unlink"@ {
        seq!["from"@, "relation"@, "to"@]
    } else {
        seq![]
    }
}

/// The Node under `node`.
pub open spec fn node_member(es: Seq<(Seq<char>, JsonV)>) -> Result<NodeV, Error> {
    match take_value(es, "node"@) {
        Err(e) => Err(e),
        Ok(v) => node_of_spec(v),
    }
}

/// `from`, `relation` and `to`, read in that order.
pub open spec fn link_members(es: Seq<(Seq<char>, JsonV)>) -> Result<(NodeId, Seq<char>, NodeId), Error> {
    match take_u32(es, "from"@) {
        Err(e) => Err(e),
        Ok(from) => match take_str(es, "relation"@) {
            Err(e) => Err(e),
            Ok(relation) => match take_u32(es, "to"@) {
                Err(e) => Err(e),
                Ok(to) => Ok((from, relation, to)),
            },
        },
    }
}

/// The write `op` builds from the members `es`, before unknown members are
/// looked for.
pub open spec fn mutation_op(es: Seq<(Seq<char>, JsonV)>, op: Seq<char>) -> Result<MutationV, Error> {
    if op == "create"@ {
        match node_member(es) {
            Err(e) => Err(e),
            Ok(node) => Ok(MutationV::Create { node }),
        }
    } else if op == "replace"@ {
        match take_u32(es, "id"@) {
            Err(e) => Err(e),
            Ok(id) => match node_member(es) {
                Err(e) => Err(e),
                Ok(node) => Ok(MutationV::Replace { id, node }),
            },
        }
    } else if op == "patch"@ {
        match take_u32(es, "id"@) {
            Err(e) => Err(e),
            Ok(id) => match take_value(es, "patch"@) {
                Err(e) => Err(e),
                Ok(patch) => Ok(MutationV::Patch { id, patch }),
            },
        }
    } else if op == "delete"@ {
        match take_u32(es, "id"@) {
            Err(e) => Err(e),
            Ok(id) => Ok(MutationV::Delete { id }),
        }
    } else if op == "link"@ || op == "unlink"@ {
        match link_members(es) {
            Err(e) => Err(e),
            Ok((from, relation, to)) => Ok(
                if op == "link"@ {
                    MutationV::Link { from, relation, to }
                } else {
                    MutationV::Unlink { from, relation, to }
                },
            ),
        }
    } else {
        Err(Error::UnknownOp)
    }
}

/// The write a JSON value denotes: an object with a string `op`, the
/// members that op takes, and nothing else.
pub open spec fn mutation_value(v: JsonV) -> Result<MutationV, Error> {
    match v {
        JsonV::Object(es) => match take_str(es, "op"@) {
            Err(e) => Err(e),
            Ok(op) => match mutation_op(es, op) {
                Err(e) => Err(e),
                Ok(m) => if known_members(es, mutation_keys(op), true) {
                    Ok(m)
                } else {
                    Err(Error::UnknownField)
                },
            },
        },
        _ => Err(Error::NotAnObject),
    }
}

/// The members a write does not take, when that is why it is refused.
pub open spec fn refused_mutation_members(v: JsonV) -> Seq<Seq<char>> {
    match v {
        JsonV::Object(es) => match take_str(es, "op"@) {
            Err(_) => seq![],
            Ok(op) => match mutation_op(es, op) {
                Err(_) => seq![],
                Ok(_) => unknown_keys(es, mutation_keys(op), true),
            },
        },
        _ => seq![],
    }
}

/// Why a write was refused: the rule broken, and the members it does not
/// take when that is the rule.
#[derive(Debug, Clone, PartialEq, Eq)]
pub struct MutationRefusal {
    pub error: Error,
    pub members: Vec<String>,
}

fn mutation_keys_of(op: &String) -> (r: Vec<&'static str>)
    ensures
        names(r@) == mutation_keys(op@),
{
    let v: Vec<&'static str> = if is(op, "create") {
        vec!["node"]
    } else if is(op, "replace") {
        vec!["id", "node"]
    } else if is(op, "patch") {
        vec!["id", "patch"]
    } else if is(op, "delete") {
        vec!["id"]
    } else if is(op, "link") || is(op, "unlink") {
        vec!["from", "relation", "to"]
    } else {
        vec![]
    };
    assert(names(v@) =~= mutation_keys(op@));
    v
}

fn take_id(es: &Vec<(String, Json)>, key: &str) -> (r: Result<NodeId, Error>)
    ensures
        r == take_u32(entries_view(es@), key@),
{
    match member_of(es, key) {
        Some(j) => u32_of(j),
        None => Err(Error::MissingField),
    }
}

fn node_of_member(es: &Vec<(String, Json)>) -> (r: Result<NewNode, Error>)
    requires
        json_wf(JsonV::Object(entries_view(es@))),
    ensures
        match (r, node_member(entries_view(es@))) {
            (Ok(n), Ok(v)) => node_view(n) == v,
            (Err(a), Err(b)) => a == b,
            _ => false,
        },
{
    proof {
        lemma_member_wf(entries_view(es@), "node"@);
    }
    match member_of(es, "node") {
        Some(j) => node_of(j),
        None => Err(Error::MissingField),
    }
}

fn link_of_members(es: &Vec<(String, Json)>) -> (r: Result<Link, Error>)
    ensures
        match (r, link_members(entries_view(es@))) {
            (Ok(l), Ok((f, rel, t))) => l.from == f && l.relation@ == rel && l.to == t,
            (Err(a), Err(b)) => a == b,
            _ => false,
        },
{
    let from = match take_id(es, "from") {
        Ok(v) => v,
        Err(e) => {
            return Err(e);
        },
    };
    let relation = match take_string(es, "relation") {
        Ok(v) => v,
        Err(e) => {
            return Err(e);
        },
    };
    let to = match take_id(es, "to") {
        Ok(v) => v,
        Err(e) => {
            return Err(e);
        },
    };
    Ok(Link { from, relation, to })
}

fn mutation_op_of(es: &Vec<(String, Json)>, op: &String) -> (r: Result<Mutation, Error>)
    requires
        json_wf(JsonV::Object(entries_view(es@))),
    ensures
        match (r, mutation_op(entries_view(es@), op@)) {
            (Ok(m), Ok(v)) => m@ == v,
            (Err(a), Err(b)) => a == b,
            _ => false,
        },
{
    if is(op, "create") {
        match node_of_member(es) {
            Ok(node) => Ok(Mutation::Create { node }),
            Err(e) => Err(e),
        }
    } else if is(op, "replace") {
        let id = match take_id(es, "id") {
            Ok(v) => v,
            Err(e) => {
                return Err(e);
            },
        };
        match node_of_member(es) {
            Ok(node) => Ok(Mutation::Replace { id, node }),
            Err(e) => Err(e),
        }
    } else if is(op, "patch") {
        let id = match take_id(es, "id") {
            Ok(v) => v,
            Err(e) => {
                return Err(e);
            },
        };
        match take_json(es, "patch") {
            Ok(patch) => Ok(Mutation::Patch { id, patch }),
            Err(e) => Err(e),
        }
    } else if is(op, "delete") {
        match take_id(es, "id") {
            Ok(id) => Ok(Mutation::Delete { id }),
            Err(e) => Err(e),
        }
    } else if is(op, "link") || is(op, "unlink") {
        match link_of_members(es) {
            Ok(l) => Ok(if is(op, "link") {
                Mutation::Link(l)
            } else {
                Mutation::Unlink(l)
            }),
            Err(e) => Err(e),
        }
    } else {
        Err(Error::UnknownOp)
    }
}

/// Reads one write from JSON. A refusal names the rule broken and, for
/// members the write does not take, those members.
pub fn mutation_of(j: &Json) -> (r: Result<Mutation, MutationRefusal>)
    requires
        json_wf(j@),
    ensures
        match (r, mutation_value(j@)) {
            (Ok(m), Ok(v)) => m@ == v,
            (Err(a), Err(b)) => a.error == b && strings_view(a.members@) == refused_mutation_members(j@),
            _ => false,
        },
        r matches Err(a) ==> (a.members@.len() > 0 <==> a.error == Error::UnknownField),
{
    let none: Vec<String> = Vec::new();
    assert(strings_view(none@) =~= Seq::<Seq<char>>::empty());
    match j {
        Json::Object(es) => {
            assert(j@ == JsonV::Object(entries_view(es@)));
            let op = match take_string(es, "op") {
                Ok(v) => v,
                Err(e) => {
                    return Err(MutationRefusal { error: e, members: none });
                },
            };
            let m = match mutation_op_of(es, &op) {
                Ok(v) => v,
                Err(e) => {
                    return Err(MutationRefusal { error: e, members: none });
                },
            };
            let keys = mutation_keys_of(&op);
            let unknown = unknown_keys_of(es, &keys, true);
            proof {
                lemma_unknown_keys(entries_view(es@), mutation_keys(op@), true);
            }
            if unknown.len() == 0 {
                Ok(m)
            } else {
                Err(MutationRefusal { error: Error::UnknownField, members: unknown })
            }
        },
        _ => Err(MutationRefusal { error: Error::NotAnObject, members: none }),
    }
}


/// The JSON of a link write.
pub open spec fn link_write(op: Seq<char>, from: NodeId, relation: Seq<char>, to: NodeId) -> JsonV {
    JsonV::Object(
        seq![
            ("op"@, JsonV::Str(op)),
            ("from"@, nat_json(from as nat)),
            ("relation"@, JsonV::Str(relation)),
            ("to"@, nat_json(to as nat)),
        ],
    )
}

proof fn lemma_link_write(op: Seq<char>, from: NodeId, relation: Seq<char>, to: NodeId)
    requires
        op == "link"@ || op == "unlink"@,
    ensures
        mutation_value(link_write(op, from, relation, to)) == Ok::<MutationV, Error>(
            if op == "link"@ {
                MutationV::Link { from, relation, to }
            } else {
                MutationV::Unlink { from, relation, to }
            },
        ),
{
    reveal_strlit("op");
    reveal_strlit("from");
    reveal_strlit("relation");
    reveal_strlit("to");
    reveal_strlit("link");
    reveal_strlit("unlink");
    reveal_strlit("create");
    reveal_strlit("replace");
    reveal_strlit("patch");
    reveal_strlit("delete");
    let es = link_write(op, from, relation, to)->Object_0;
    assert("op"@.len() != "from"@.len() && "op"@.len() != "relation"@.len() && "op"@[0] != "to"@[0]
        && "from"@.len() != "relation"@.len() && "from"@.len() != "to"@.len() && "relation"@.len()
        != "to"@.len());
    assert("link"@.len() != "create"@.len() && "link"@.len() != "replace"@.len() && "link"@[0] != "patch"@[0]
        && "link"@.len() != "delete"@.len() && "unlink"@[0] != "create"@[0] && "unlink"@.len()
        != "replace"@.len() && "unlink"@[0] != "patch"@[0] && "unlink"@[0] != "delete"@[0]
        && "unlink"@.len() != "link"@.len());
    assert(keys_distinct(es));
    lemma_member_at(es, 0);
    lemma_member_at(es, 1);
    lemma_member_at(es, 2);
    lemma_member_at(es, 3);
    lemma_nat_back(from as nat, u32::MAX as nat);
    lemma_nat_back(to as nat, u32::MAX as nat);
    let keys = mutation_keys(op);
    assert(keys =~= seq!["from"@, "relation"@, "to"@]);
    assert forall|i: int| 0 <= i < es.len() implies ("op"@ == es[i].0) || keys.contains(#[trigger] es[i].0) by {
        if i > 0 {
            assert(keys[i - 1] == es[i].0);
        }
    }
}

/// A link write keeps its members: reading `{op: link, from: a, relation:
/// r, to: b}` gives the link from `a` by `r` to `b`, and the same for
/// `unlink`, whatever `a`, `r` and `b`.
pub proof fn law_link_members(a: NodeId, r: Seq<char>, b: NodeId)
    ensures
        mutation_value(link_write("link"@, a, r, b)) == Ok::<MutationV, Error>(
            MutationV::Link { from: a, relation: r, to: b },
        ),
        mutation_value(link_write("unlink"@, a, r, b)) == Ok::<MutationV, Error>(
            MutationV::Unlink { from: a, relation: r, to: b },
        ),
{
    reveal_strlit("link");
    reveal_strlit("unlink");
    assert("unlink"@.len() != "link"@.len());
    lemma_link_write("link"@, a, r, b);
    lemma_link_write("unlink"@, a, r, b);
}


/// A delete or a patch keeps its members: reading `{op: delete, id: n}`
/// deletes Node `n`, and `{op: patch, id: n, patch: v}` patches Node `n`
/// with `v`, whatever `n` and `v`.
pub proof fn law_id_members(n: NodeId, v: JsonV)
    ensures
        mutation_value(JsonV::Object(seq![("op"@, JsonV::Str("delete"@)), ("id"@, nat_json(n as nat))]))
            == Ok::<MutationV, Error>(MutationV::Delete { id: n }),
        mutation_value(
            JsonV::Object(seq![("op"@, JsonV::Str("patch"@)), ("id"@, nat_json(n as nat)), ("patch"@, v)]),
        ) == Ok::<MutationV, Error>(MutationV::Patch { id: n, patch: v }),
{
    reveal_strlit("op");
    reveal_strlit("id");
    reveal_strlit("patch");
    reveal_strlit("delete");
    reveal_strlit("create");
    reveal_strlit("replace");
    assert("op"@.len() != "patch"@.len() && "op"@[0] != "id"@[0] && "id"@.len() != "patch"@.len());
    assert("delete"@[0] != "create"@[0] && "delete"@[0] != "replace"@[0] && "delete"@[0] != "patch"@[0]
        && "patch"@.len() != "create"@.len() && "patch"@.len() != "replace"@.len());
    lemma_nat_back(n as nat, u32::MAX as nat);
    let d = seq![("op"@, JsonV::Str("delete"@)), ("id"@, nat_json(n as nat))];
    assert(keys_distinct(d));
    lemma_member_at(d, 0);
    lemma_member_at(d, 1);
    assert(mutation_keys("delete"@) =~= seq!["id"@]);
    assert forall|i: int| 0 <= i < d.len() implies ("op"@ == d[i].0) || mutation_keys("delete"@).contains(#[trigger] d[i].0) by {
        if i == 1 {
            assert(mutation_keys("delete"@)[0] == d[i].0);
        }
    }
    let p = seq![("op"@, JsonV::Str("patch"@)), ("id"@, nat_json(n as nat)), ("patch"@, v)];
    assert(keys_distinct(p));
    lemma_member_at(p, 0);
    lemma_member_at(p, 1);
    lemma_member_at(p, 2);
    assert(mutation_keys("patch"@) =~= seq!["id"@, "patch"@]);
    assert forall|i: int| 0 <= i < p.len() implies ("op"@ == p[i].0) || mutation_keys("patch"@).contains(#[trigger] p[i].0) by {
        if i > 0 {
            assert(mutation_keys("patch"@)[i - 1] == p[i].0);
        }
    }
}

} // verus!
