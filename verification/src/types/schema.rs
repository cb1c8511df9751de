//! Built-in derived types: the Node `type` each covers and its first-level
//! fields.

use crate::error::Error;
use crate::json::{Json, JsonV};
use crate::model::links::Direction;
use crate::model::predicate::{Predicate, PredicateV};
use vstd::prelude::*;

verus! {

/// Where a first-level field reads from.
#[derive(Debug, Clone, Copy, PartialEq, Eq)]
pub enum Source {
    /// A JSON Pointer into attrs.
    Attr(&'static str),
    /// Links of one relation; `many` keeps all, otherwise the first.
    Link { relation: &'static str, direction: Direction, many: bool },
}

#[derive(Debug, Clone, Copy, PartialEq, Eq)]
pub struct Field {
    pub name: &'static str,
    pub source: Source,
}

/// A derived type: the Node `type` it covers and its first-level fields.
#[derive(Debug, Clone, PartialEq, Eq)]
pub struct Schema {
    pub kind: &'static str,
    pub fields: Vec<Field>,
}

pub enum SourceV {
    Attr(Seq<char>),
    Link { relation: Seq<char>, direction: Direction, many: bool },
}

pub struct FieldV {
    pub name: Seq<char>,
    pub source: SourceV,
}

pub struct SchemaV {
    pub kind: Seq<char>,
    pub fields: Seq<FieldV>,
}

pub open spec fn source_view(s: Source) -> SourceV {
    match s {
        Source::Attr(p) => SourceV::Attr(p@),
        Source::Link { relation, direction, many } => SourceV::Link { relation: relation@, direction, many },
    }
}

impl View for Field {
    type V = FieldV;

    open spec fn view(&self) -> FieldV {
        FieldV { name: self.name@, source: source_view(self.source) }
    }
}

impl View for Schema {
    type V = SchemaV;

    open spec fn view(&self) -> SchemaV {
        SchemaV { kind: self.kind@, fields: self.fields@.map_values(|f: Field| f@) }
    }
}

/// tree: `parent` is the `parent` link out, `children` the same relation in;
/// `next` / `before` are the sibling order along `next`.
pub open spec fn tree_schema_spec() -> SchemaV {
    SchemaV {
        kind: "tree"@,
        fields: seq![
            FieldV { name: "name"@, source: SourceV::Attr("/name"@) },
            FieldV { name: "parent"@, source: SourceV::Link { relation: "parent"@, direction: Direction::Out, many: false } },
            FieldV { name: "children"@, source: SourceV::Link { relation: "parent"@, direction: Direction::In, many: true } },
            FieldV { name: "next"@, source: SourceV::Link { relation: "next"@, direction: Direction::Out, many: false } },
            FieldV { name: "before"@, source: SourceV::Link { relation: "next"@, direction: Direction::In, many: false } },
        ],
    }
}

pub fn tree_schema() -> (s: Schema)
    ensures
        s@ == tree_schema_spec(),
{
    let s = Schema {
        kind: "tree",
        fields: vec![
            Field { name: "name", source: Source::Attr("/name") },
            Field { name: "parent", source: Source::Link { relation: "parent", direction: Direction::Out, many: false } },
            Field { name: "children", source: Source::Link { relation: "parent", direction: Direction::In, many: true } },
            Field { name: "next", source: Source::Link { relation: "next", direction: Direction::Out, many: false } },
            Field { name: "before", source: Source::Link { relation: "next", direction: Direction::In, many: false } },
        ],
    };
    assert(s@.fields =~= tree_schema_spec().fields);
    s
}

/// event: `time` is a Span (roughly when); `next` / `before` record which
/// happened first, independently of how precise the spans are.
pub open spec fn event_schema_spec() -> SchemaV {
    SchemaV {
        kind: "event"@,
        fields: seq![
            FieldV { name: "what"@, source: SourceV::Attr("/what"@) },
            FieldV { name: "time"@, source: SourceV::Attr("/time"@) },
            FieldV { name: "next"@, source: SourceV::Link { relation: "next"@, direction: Direction::Out, many: false } },
            FieldV { name: "before"@, source: SourceV::Link { relation: "next"@, direction: Direction::In, many: false } },
        ],
    }
}

pub fn event_schema() -> (s: Schema)
    ensures
        s@ == event_schema_spec(),
{
    let s = Schema {
        kind: "event",
        fields: vec![
            Field { name: "what", source: Source::Attr("/what") },
            Field { name: "time", source: Source::Attr("/time") },
            Field { name: "next", source: Source::Link { relation: "next", direction: Direction::Out, many: false } },
            Field { name: "before", source: Source::Link { relation: "next", direction: Direction::In, many: false } },
        ],
    };
    assert(s@.fields =~= event_schema_spec().fields);
    s
}

/// state: the `value` of one `key` of a subject during `valid`. A subject's
/// history is its states along `state_of`, never overlapping for one key.
pub open spec fn state_schema_spec() -> SchemaV {
    SchemaV {
        kind: "state"@,
        fields: seq![
            FieldV { name: "key"@, source: SourceV::Attr("/key"@) },
            FieldV { name: "value"@, source: SourceV::Attr("/value"@) },
            FieldV { name: "valid"@, source: SourceV::Attr("/valid"@) },
            FieldV { name: "subject"@, source: SourceV::Link { relation: "state_of"@, direction: Direction::Out, many: false } },
        ],
    }
}

pub fn state_schema() -> (s: Schema)
    ensures
        s@ == state_schema_spec(),
{
    let s = Schema {
        kind: "state",
        fields: vec![
            Field { name: "key", source: Source::Attr("/key") },
            Field { name: "value", source: Source::Attr("/value") },
            Field { name: "valid", source: Source::Attr("/valid") },
            Field { name: "subject", source: Source::Link { relation: "state_of", direction: Direction::Out, many: false } },
        ],
    };
    assert(s@.fields =~= state_schema_spec().fields);
    s
}

/// code: a code symbol (function/method/class/module). Structural relations
/// (`call`, `dataflow`, `impact`) lift to first-level fields in both
/// directions; symbol metadata stays in attrs.
pub open spec fn code_schema_spec() -> SchemaV {
    SchemaV {
        kind: "code"@,
        fields: seq![
            FieldV { name: "symbol"@, source: SourceV::Attr("/symbol"@) },
            FieldV { name: "qualified_name"@, source: SourceV::Attr("/qualified_name"@) },
            FieldV { name: "symbol_type"@, source: SourceV::Attr("/symbol_type"@) },
            FieldV { name: "file"@, source: SourceV::Attr("/file"@) },
            FieldV { name: "line_start"@, source: SourceV::Attr("/line_start"@) },
            FieldV { name: "line_end"@, source: SourceV::Attr("/line_end"@) },
            FieldV { name: "hash"@, source: SourceV::Attr("/hash"@) },
            FieldV { name: "imports"@, source: SourceV::Attr("/imports"@) },
            FieldV { name: "callers"@, source: SourceV::Attr("/callers"@) },
            FieldV { name: "inputs"@, source: SourceV::Attr("/inputs"@) },
            FieldV { name: "calls"@, source: SourceV::Link { relation: "call"@, direction: Direction::Out, many: true } },
            FieldV { name: "called_by"@, source: SourceV::Link { relation: "call"@, direction: Direction::In, many: true } },
            FieldV { name: "flows_to"@, source: SourceV::Link { relation: "dataflow"@, direction: Direction::Out, many: true } },
            FieldV { name: "flows_from"@, source: SourceV::Link { relation: "dataflow"@, direction: Direction::In, many: true } },
            FieldV { name: "impacts"@, source: SourceV::Link { relation: "impact"@, direction: Direction::Out, many: true } },
            FieldV { name: "impacted_by"@, source: SourceV::Link { relation: "impact"@, direction: Direction::In, many: true } },
        ],
    }
}

pub fn code_schema() -> (s: Schema)
    ensures
        s@ == code_schema_spec(),
{
    let s = Schema {
        kind: "code",
        fields: vec![
            Field { name: "symbol", source: Source::Attr("/symbol") },
            Field { name: "qualified_name", source: Source::Attr("/qualified_name") },
            Field { name: "symbol_type", source: Source::Attr("/symbol_type") },
            Field { name: "file", source: Source::Attr("/file") },
            Field { name: "line_start", source: Source::Attr("/line_start") },
            Field { name: "line_end", source: Source::Attr("/line_end") },
            Field { name: "hash", source: Source::Attr("/hash") },
            Field { name: "imports", source: Source::Attr("/imports") },
            Field { name: "callers", source: Source::Attr("/callers") },
            Field { name: "inputs", source: Source::Attr("/inputs") },
            Field { name: "calls", source: Source::Link { relation: "call", direction: Direction::Out, many: true } },
            Field { name: "called_by", source: Source::Link { relation: "call", direction: Direction::In, many: true } },
            Field { name: "flows_to", source: Source::Link { relation: "dataflow", direction: Direction::Out, many: true } },
            Field { name: "flows_from", source: Source::Link { relation: "dataflow", direction: Direction::In, many: true } },
            Field { name: "impacts", source: Source::Link { relation: "impact", direction: Direction::Out, many: true } },
            Field { name: "impacted_by", source: Source::Link { relation: "impact", direction: Direction::In, many: true } },
        ],
    };
    assert(s@.fields =~= code_schema_spec().fields);
    s
}

/// relationship: a reified edge. The endpoints are the `rel_from` / `rel_to`
/// links; every edge attribute stays in attrs and is indexed like any other
/// field.
pub open spec fn relationship_schema_spec() -> SchemaV {
    SchemaV {
        kind: "relationship"@,
        fields: seq![
            FieldV { name: "from"@, source: SourceV::Link { relation: "rel_from"@, direction: Direction::Out, many: false } },
            FieldV { name: "to"@, source: SourceV::Link { relation: "rel_to"@, direction: Direction::Out, many: false } },
            FieldV { name: "edge_type"@, source: SourceV::Attr("/edge_type"@) },
            FieldV { name: "condition"@, source: SourceV::Attr("/condition"@) },
            FieldV { name: "data_in"@, source: SourceV::Attr("/data_in"@) },
            FieldV { name: "data_out"@, source: SourceV::Attr("/data_out"@) },
            FieldV { name: "outer_hash"@, source: SourceV::Attr("/outer_hash"@) },
            FieldV { name: "dispatch_key"@, source: SourceV::Attr("/dispatch_key"@) },
            FieldV { name: "dispatch_value"@, source: SourceV::Attr("/dispatch_value"@) },
            FieldV { name: "is_conditional"@, source: SourceV::Attr("/is_conditional"@) },
            FieldV { name: "scope_label"@, source: SourceV::Attr("/scope_label"@) },
            FieldV { name: "seq"@, source: SourceV::Attr("/seq"@) },
            FieldV { name: "call_line"@, source: SourceV::Attr("/call_line"@) },
            FieldV { name: "call_column"@, source: SourceV::Attr("/call_column"@) },
            FieldV { name: "resolution"@, source: SourceV::Attr("/resolution"@) },
            FieldV { name: "evidence"@, source: SourceV::Attr("/evidence"@) },
            FieldV { name: "bridge_kind"@, source: SourceV::Attr("/bridge_kind"@) },
        ],
    }
}

pub fn relationship_schema() -> (s: Schema)
    ensures
        s@ == relationship_schema_spec(),
{
    let s = Schema {
        kind: "relationship",
        fields: vec![
            Field { name: "from", source: Source::Link { relation: "rel_from", direction: Direction::Out, many: false } },
            Field { name: "to", source: Source::Link { relation: "rel_to", direction: Direction::Out, many: false } },
            Field { name: "edge_type", source: Source::Attr("/edge_type") },
            Field { name: "condition", source: Source::Attr("/condition") },
            Field { name: "data_in", source: Source::Attr("/data_in") },
            Field { name: "data_out", source: Source::Attr("/data_out") },
            Field { name: "outer_hash", source: Source::Attr("/outer_hash") },
            Field { name: "dispatch_key", source: Source::Attr("/dispatch_key") },
            Field { name: "dispatch_value", source: Source::Attr("/dispatch_value") },
            Field { name: "is_conditional", source: Source::Attr("/is_conditional") },
            Field { name: "scope_label", source: Source::Attr("/scope_label") },
            Field { name: "seq", source: Source::Attr("/seq") },
            Field { name: "call_line", source: Source::Attr("/call_line") },
            Field { name: "call_column", source: Source::Attr("/call_column") },
            Field { name: "resolution", source: Source::Attr("/resolution") },
            Field { name: "evidence", source: Source::Attr("/evidence") },
            Field { name: "bridge_kind", source: Source::Attr("/bridge_kind") },
        ],
    };
    assert(s@.fields =~= relationship_schema_spec().fields);
    s
}

/// The built-in schema of `kind`, if there is one.
pub open spec fn builtin(kind: Seq<char>) -> Option<SchemaV> {
    if kind == "tree"@ {
        Some(tree_schema_spec())
    } else if kind == "event"@ {
        Some(event_schema_spec())
    } else if kind == "state"@ {
        Some(state_schema_spec())
    } else if kind == "code"@ {
        Some(code_schema_spec())
    } else if kind == "relationship"@ {
        Some(relationship_schema_spec())
    } else {
        None
    }
}

fn is(s: &str, lit: &str) -> (b: bool)
    ensures
        b == (s@ == lit@),
{
    s.to_owned() == lit.to_owned()
}

/// Every registered built-in schema.
pub fn schemas() -> (r: Vec<Schema>)
    ensures
        r@.len() == 5,
        r@[0]@ == tree_schema_spec(),
        r@[1]@ == event_schema_spec(),
        r@[2]@ == state_schema_spec(),
        r@[3]@ == code_schema_spec(),
        r@[4]@ == relationship_schema_spec(),
{
    vec![tree_schema(), event_schema(), state_schema(), code_schema(), relationship_schema()]
}

/// The built-in schema for Nodes of type `kind`.
pub fn schema(kind: &str) -> (r: Option<Schema>)
    ensures
        match (r, builtin(kind@)) {
            (Some(s), Some(v)) => s@ == v,
            (None, None) => true,
            _ => false,
        },
{
    if is(kind, "tree") {
        Some(tree_schema())
    } else if is(kind, "event") {
        Some(event_schema())
    } else if is(kind, "state") {
        Some(state_schema())
    } else if is(kind, "code") {
        Some(code_schema())
    } else if is(kind, "relationship") {
        Some(relationship_schema())
    } else {
        None
    }
}

/// Position of the first field named `name`, or the number of fields.
pub open spec fn field_index(fields: Seq<FieldV>, name: Seq<char>) -> int
    decreases fields.len(),
{
    if fields.len() == 0 {
        0
    } else if fields[0].name == name {
        0
    } else {
        1 + field_index(fields.drop_first(), name)
    }
}

pub proof fn lemma_field_index(fields: Seq<FieldV>, name: Seq<char>)
    ensures
        0 <= field_index(fields, name) <= fields.len(),
        field_index(fields, name) < fields.len() ==> fields[field_index(fields, name)].name == name,
        forall|j: int| 0 <= j < field_index(fields, name) ==> fields[j].name != name,
    decreases fields.len(),
{
    if fields.len() > 0 && fields[0].name != name {
        lemma_field_index(fields.drop_first(), name);
        assert forall|j: int| 0 <= j < field_index(fields, name) implies fields[j].name != name by {
            if j > 0 {
                assert(fields[j] == fields.drop_first()[j - 1]);
            }
        }
    }
}

/// Why a schema refused a field name: what was wrong, the schema's kind and
/// the name asked for.
#[derive(Debug, Clone, PartialEq, Eq)]
pub struct FieldRefusal {
    pub error: Error,
    pub kind: &'static str,
    pub name: String,
}

/// A link field's relation and the direction it points.
pub open spec fn link_of_spec(s: SchemaV, name: Seq<char>) -> Result<(Seq<char>, Direction), Error> {
    let i = field_index(s.fields, name);
    if i >= s.fields.len() {
        Err(Error::NoSuchField)
    } else {
        match s.fields[i].source {
            SourceV::Link { relation, direction, .. } => Ok((relation, direction)),
            SourceV::Attr(_) => Err(Error::NotALinkField),
        }
    }
}

impl Schema {
    /// The field named `name`; refused with the schema's kind and the name
    /// asked for when there is none.
    pub fn field(&self, name: &str) -> (r: Result<&Field, FieldRefusal>)
        ensures
            match r {
                Ok(f) => field_index(self@.fields, name@) < self@.fields.len() && f@ == self@.fields[field_index(
                    self@.fields,
                    name@,
                )],
                Err(e) => e.error == Error::NoSuchField && e.kind@ == self@.kind && e.name@ == name@
                    && field_index(self@.fields, name@) == self@.fields.len(),
            },
    {
        proof {
            lemma_field_index(self@.fields, name@);
        }
        let mut i: usize = 0;
        while i < self.fields.len()
            invariant
                i <= self.fields@.len(),
                self@.fields.len() == self.fields@.len(),
                forall|k: int| 0 <= k < self.fields@.len() ==> #[trigger] self@.fields[k] == self.fields@[k]@,
                forall|k: int| 0 <= k < i ==> self@.fields[k].name != name@,
                0 <= field_index(self@.fields, name@) <= self@.fields.len(),
                field_index(self@.fields, name@) < self@.fields.len() ==> self@.fields[field_index(self@.fields, name@)].name == name@,
                forall|j: int| 0 <= j < field_index(self@.fields, name@) ==> self@.fields[j].name != name@,
            decreases self.fields@.len() - i,
        {
            assert(self@.fields[i as int] == self.fields@[i as int]@);
            if is(self.fields[i].name, name) {
                return Ok(&self.fields[i]);
            }
            i += 1;
        }
        Err(FieldRefusal { error: Error::NoSuchField, kind: self.kind, name: name.to_owned() })
    }

    /// Every Node of this type.
    pub fn all(&self) -> (p: Predicate)
        ensures
            p@ == (PredicateV::Eq { field: "@type"@, value: JsonV::Str(self@.kind) }),
    {
        Predicate::Eq { field: "@type".to_owned(), value: Json::Str(self.kind.to_owned()) }
    }

    /// The relation and direction of the link field `name`; refused with
    /// the schema's kind and the name asked for.
    pub fn link_of(&self, name: &str) -> (r: Result<(&'static str, Direction), FieldRefusal>)
        ensures
            match (r, link_of_spec(self@, name@)) {
                (Ok((rel, d)), Ok((srel, sd))) => rel@ == srel && d == sd,
                (Err(a), Err(b)) => a.error == b && a.kind@ == self@.kind && a.name@ == name@,
                _ => false,
            },
    {
        match self.field(name) {
            Ok(f) => match f.source {
                Source::Link { relation, direction, .. } => Ok((relation, direction)),
                Source::Attr(_) => Err(FieldRefusal { error: Error::NotALinkField, kind: self.kind, name: name.to_owned() }),
            },
            Err(e) => Err(e),
        }
    }
}

/// The link a link field sets: out fields link from `id`, in fields link
/// to it.
/// The link a link field of `id` set to `other` writes, as (from, to).
pub open spec fn ends(id: u32, other: u32, direction: Direction) -> (u32, u32) {
    match direction {
        Direction::Out => (id, other),
        Direction::In => (other, id),
    }
}

/// What a link field of Node `id` reads from the link (from, to): an out
/// field the link's target when the link starts at `id`, an in field the
/// link's source when it ends at `id`.
pub open spec fn reads_link(d: Direction, id: u32, link: (u32, u32)) -> Option<u32> {
    match d {
        Direction::Out => if link.0 == id {
            Some(link.1)
        } else {
            None
        },
        Direction::In => if link.1 == id {
            Some(link.0)
        } else {
            None
        },
    }
}

/// Events keep their order both ways: `next` and `before` read the same
/// relation, so setting A's `next` to B writes the link that A's `next`
/// reads as B and B's `before` reads as A.
pub proof fn law_event_order(a: u32, b: u32)
    ensures
        link_of_spec(event_schema_spec(), "next"@) matches Ok((rn, dn)) && link_of_spec(
            event_schema_spec(),
            "before"@,
        ) matches Ok((rb, db)) && rb == rn && reads_link(dn, a, ends(a, b, dn)) == Some(b) && reads_link(
            db,
            b,
            ends(a, b, dn),
        ) == Some(a),
{
    reveal_strlit("what");
    reveal_strlit("time");
    reveal_strlit("next");
    reveal_strlit("before");
    let fs = event_schema_spec().fields;
    assert("what"@[0] != "next"@[0] && "time"@[0] != "next"@[0] && "what"@.len() != "before"@.len()
        && "time"@.len() != "before"@.len() && "next"@.len() != "before"@.len());
    lemma_index_at(fs, 2, "next"@);
    lemma_index_at(fs, 3, "before"@);
}

/// Trees keep their shape both ways: setting A's `parent` to P writes the
/// link that P's `children` read as A, and setting A's `next` to B writes
/// the link that B's `before` reads as A.
pub proof fn law_tree_links(a: u32, b: u32)
    ensures
        link_of_spec(tree_schema_spec(), "parent"@) matches Ok((rp, dp)) && link_of_spec(
            tree_schema_spec(),
            "children"@,
        ) matches Ok((rc, dc)) && rc == rp && reads_link(dp, a, ends(a, b, dp)) == Some(b) && reads_link(
            dc,
            b,
            ends(a, b, dp),
        ) == Some(a),
        link_of_spec(tree_schema_spec(), "next"@) matches Ok((rn, dn)) && link_of_spec(
            tree_schema_spec(),
            "before"@,
        ) matches Ok((rb, db)) && rb == rn && reads_link(dn, a, ends(a, b, dn)) == Some(b) && reads_link(
            db,
            b,
            ends(a, b, dn),
        ) == Some(a),
{
    reveal_strlit("name");
    reveal_strlit("parent");
    reveal_strlit("children");
    reveal_strlit("next");
    reveal_strlit("before");
    let fs = tree_schema_spec().fields;
    assert("name"@.len() != "parent"@.len() && "name"@.len() != "children"@.len() && "name"@[1] != "next"@[1]
        && "name"@.len() != "before"@.len() && "parent"@.len() != "children"@.len() && "parent"@.len()
        != "next"@.len() && "parent"@.len() == "before"@.len() && "parent"@[0] != "before"@[0]
        && "children"@.len() != "next"@.len() && "children"@.len() != "before"@.len());
    lemma_index_at(fs, 1, "parent"@);
    lemma_index_at(fs, 2, "children"@);
    lemma_index_at(fs, 3, "next"@);
    lemma_index_at(fs, 4, "before"@);
}

/// The first field named `name` stands at `k` when no earlier field has
/// that name.
proof fn lemma_index_at(fields: Seq<FieldV>, k: int, name: Seq<char>)
    requires
        0 <= k < fields.len(),
        fields[k].name == name,
        forall|j: int| 0 <= j < k ==> fields[j].name != name,
    ensures
        field_index(fields, name) == k,
    decreases k,
{
    if k > 0 {
        let d = fields.drop_first();
        assert forall|j: int| 0 <= j < k - 1 implies d[j].name != name by {
            assert(d[j] == fields[j + 1]);
        }
        lemma_index_at(d, k - 1, name);
    }
}

pub fn link_ends(id: u32, other: u32, direction: Direction) -> (r: (u32, u32))
    ensures
        r == ends(id, other, direction),
{
    match direction {
        Direction::Out => (id, other),
        Direction::In => (other, id),
    }
}


/// Two link fields read one relation in opposite directions: setting `x`'s
/// field `a` to `y` writes the link that `x`'s `a` reads as `y` and `y`'s
/// `b` reads as `x`.
pub open spec fn inverse_fields(s: SchemaV, a: Seq<char>, b: Seq<char>, x: u32, y: u32) -> bool {
    link_of_spec(s, a) matches Ok((ra, da)) && link_of_spec(s, b) matches Ok((rb, db)) && ra == rb && reads_link(
        da,
        x,
        ends(x, y, da),
    ) == Some(y) && reads_link(db, y, ends(x, y, da)) == Some(x)
}

/// Code links read both ways: who a symbol calls and who calls it, where
/// its data flows to and from, what it impacts and what impacts it.
pub proof fn law_code_links(x: u32, y: u32)
    ensures
        inverse_fields(code_schema_spec(), "calls"@, "called_by"@, x, y),
        inverse_fields(code_schema_spec(), "flows_to"@, "flows_from"@, x, y),
        inverse_fields(code_schema_spec(), "impacts"@, "impacted_by"@, x, y),
{
    reveal_strlit("symbol");
    reveal_strlit("qualified_name");
    reveal_strlit("symbol_type");
    reveal_strlit("file");
    reveal_strlit("line_start");
    reveal_strlit("line_end");
    reveal_strlit("hash");
    reveal_strlit("imports");
    reveal_strlit("callers");
    reveal_strlit("inputs");
    reveal_strlit("calls");
    reveal_strlit("called_by");
    reveal_strlit("flows_to");
    reveal_strlit("flows_from");
    reveal_strlit("impacts");
    reveal_strlit("impacted_by");
    let fs = code_schema_spec().fields;
    assert("symbol"@.len() != "calls"@.len());
    assert("qualified_name"@.len() != "calls"@.len());
    assert("symbol_type"@.len() != "calls"@.len());
    assert("file"@.len() != "calls"@.len());
    assert("line_start"@.len() != "calls"@.len());
    assert("line_end"@.len() != "calls"@.len());
    assert("hash"@.len() != "calls"@.len());
    assert("imports"@.len() != "calls"@.len());
    assert("callers"@.len() != "calls"@.len());
    assert("inputs"@.len() != "calls"@.len());
    assert("symbol"@.len() != "called_by"@.len());
    assert("qualified_name"@.len() != "called_by"@.len());
    assert("symbol_type"@.len() != "called_by"@.len());
    assert("file"@.len() != "called_by"@.len());
    assert("line_start"@.len() != "called_by"@.len());
    assert("line_end"@.len() != "called_by"@.len());
    assert("hash"@.len() != "called_by"@.len());
    assert("imports"@.len() != "called_by"@.len());
    assert("callers"@.len() != "called_by"@.len());
    assert("inputs"@.len() != "called_by"@.len());
    assert("calls"@.len() != "called_by"@.len());
    assert("symbol"@.len() != "flows_to"@.len());
    assert("qualified_name"@.len() != "flows_to"@.len());
    assert("symbol_type"@.len() != "flows_to"@.len());
    assert("file"@.len() != "flows_to"@.len());
    assert("line_start"@.len() != "flows_to"@.len());
    assert("line_end"@[0] != "flows_to"@[0]);
    assert("hash"@.len() != "flows_to"@.len());
    assert("imports"@.len() != "flows_to"@.len());
    assert("callers"@.len() != "flows_to"@.len());
    assert("inputs"@.len() != "flows_to"@.len());
    assert("calls"@.len() != "flows_to"@.len());
    assert("called_by"@.len() != "flows_to"@.len());
    assert("symbol"@.len() != "flows_from"@.len());
    assert("qualified_name"@.len() != "flows_from"@.len());
    assert("symbol_type"@.len() != "flows_from"@.len());
    assert("file"@.len() != "flows_from"@.len());
    assert("line_start"@[0] != "flows_from"@[0]);
    assert("line_end"@.len() != "flows_from"@.len());
    assert("hash"@.len() != "flows_from"@.len());
    assert("imports"@.len() != "flows_from"@.len());
    assert("callers"@.len() != "flows_from"@.len());
    assert("inputs"@.len() != "flows_from"@.len());
    assert("calls"@.len() != "flows_from"@.len());
    assert("called_by"@.len() != "flows_from"@.len());
    assert("flows_to"@.len() != "flows_from"@.len());
    assert("symbol"@.len() != "impacts"@.len());
    assert("qualified_name"@.len() != "impacts"@.len());
    assert("symbol_type"@.len() != "impacts"@.len());
    assert("file"@.len() != "impacts"@.len());
    assert("line_start"@.len() != "impacts"@.len());
    assert("line_end"@.len() != "impacts"@.len());
    assert("hash"@.len() != "impacts"@.len());
    assert("imports"@[3] != "impacts"@[3]);
    assert("callers"@[0] != "impacts"@[0]);
    assert("inputs"@.len() != "impacts"@.len());
    assert("calls"@.len() != "impacts"@.len());
    assert("called_by"@.len() != "impacts"@.len());
    assert("flows_to"@.len() != "impacts"@.len());
    assert("flows_from"@.len() != "impacts"@.len());
    assert("symbol"@.len() != "impacted_by"@.len());
    assert("qualified_name"@.len() != "impacted_by"@.len());
    assert("symbol_type"@[0] != "impacted_by"@[0]);
    assert("file"@.len() != "impacted_by"@.len());
    assert("line_start"@.len() != "impacted_by"@.len());
    assert("line_end"@.len() != "impacted_by"@.len());
    assert("hash"@.len() != "impacted_by"@.len());
    assert("imports"@.len() != "impacted_by"@.len());
    assert("callers"@.len() != "impacted_by"@.len());
    assert("inputs"@.len() != "impacted_by"@.len());
    assert("calls"@.len() != "impacted_by"@.len());
    assert("called_by"@.len() != "impacted_by"@.len());
    assert("flows_to"@.len() != "impacted_by"@.len());
    assert("flows_from"@.len() != "impacted_by"@.len());
    assert("impacts"@.len() != "impacted_by"@.len());
    lemma_index_at(fs, 10, "calls"@);
    lemma_index_at(fs, 11, "called_by"@);
    lemma_index_at(fs, 12, "flows_to"@);
    lemma_index_at(fs, 13, "flows_from"@);
    lemma_index_at(fs, 14, "impacts"@);
    lemma_index_at(fs, 15, "impacted_by"@);
}

} // verus!
