//! The decisions of a write transaction: its clock, what a patch turns a
//! Node into, and which number values get a bitmap posting.

use crate::error::Error;
use crate::index::patch::{merge_patch, merge_patch_spec};
use crate::json::{entries_view, json_wf, keys_distinct, lemma_entries_view, Json, JsonV};
use crate::model::links::LinkOptions;
use crate::model::node::{NewNode, NodeId};
use crate::model::parse::{key_index, lemma_key_index, member};
use vstd::prelude::*;

verus! {

/// Most links returned per direction of one Node.
pub const MAX_LINK_LIMIT: usize = 10_000;

/// Link limits above `MAX_LINK_LIMIT` are refused.
pub fn check_limit(options: &LinkOptions) -> (r: Result<(), Error>)
    ensures
        r is Ok <==> options.limit <= MAX_LINK_LIMIT,
        r is Err ==> r == Err::<(), Error>(Error::LinkLimitTooLarge),
{
    if options.limit <= MAX_LINK_LIMIT {
        Ok(())
    } else {
        Err(Error::LinkLimitTooLarge)
    }
}

/// A link needs a relation.
pub fn check_relation(relation: &String) -> (r: Result<(), Error>)
    ensures
        r is Ok <==> relation@.len() > 0,
        r is Err ==> r == Err::<(), Error>(Error::EmptyRelation),
{
    if relation.as_str().is_empty() {
        Err(Error::EmptyRelation)
    } else {
        Ok(())
    }
}

pub open spec fn next_time_spec(last: Option<i64>, system: i64) -> i64 {
    match last {
        None => system,
        Some(l) => if system > l {
            system
        } else {
            (l + 1) as i64
        },
    }
}

/// A transaction's timestamp: the system clock, but strictly after the last
/// committed transaction's even if the clock stepped back.
pub fn next_time(last: Option<i64>, system: i64) -> (t: i64)
    requires
        last matches Some(l) ==> l < i64::MAX,
    ensures
        t == next_time_spec(last, system),
{
    match last {
        None => system,
        Some(l) => if system > l {
            system
        } else {
            l + 1
        },
    }
}

/// Timestamps only grow: each transaction's time is at or after the system
/// clock and strictly after the previous transaction's.
pub proof fn law_clock_monotonic(last: Option<i64>, system: i64)
    requires
        last matches Some(l) ==> l < i64::MAX,
    ensures
        next_time_spec(last, system) >= system,
        last matches Some(l) ==> next_time_spec(last, system) > l,
{
}

/// What a transaction's clock answers when its time is asked for.
#[derive(PartialEq, Eq, Structural, Clone, Copy, Debug)]
pub enum ClockStep {
    /// The time already fixed for this transaction.
    Known(i64),
    /// Not fixed yet: read the last committed time and the system clock and
    /// hand them to `TxClock::settle`.
    Read,
}

/// The time of one write transaction, fixed at its first use.
pub struct TxClock {
    pub now: Option<i64>,
}

pub open spec fn clock_step_spec(now: Option<i64>) -> ClockStep {
    match now {
        Some(t) => ClockStep::Known(t),
        None => ClockStep::Read,
    }
}

impl TxClock {
    /// The clock of a transaction that has not asked for its time.
    pub fn new() -> (c: TxClock)
        ensures
            c.now is None,
    {
        TxClock { now: None }
    }

    /// The fixed time, or that it must be read.
    pub fn step(&self) -> (s: ClockStep)
        ensures
            s == clock_step_spec(self.now),
    {
        match self.now {
            Some(t) => ClockStep::Known(t),
            None => ClockStep::Read,
        }
    }

    /// Fixes the transaction's time from the last committed time and the
    /// system clock.
    pub fn settle(&mut self, last: Option<i64>, system: i64) -> (t: i64)
        requires
            old(self).now is None,
            last matches Some(l) ==> l < i64::MAX,
        ensures
            t == next_time_spec(last, system),
            final(self).now == Some(t),
    {
        let t = next_time(last, system);
        self.now = Some(t);
        t
    }
}

/// A transaction reads one time: once settled from the last committed time
/// and the system clock, every later ask answers that same time, which is at
/// or after the system clock and strictly after the last committed time.
pub proof fn law_time_fixed_per_transaction(last: Option<i64>, system: i64)
    requires
        last matches Some(l) ==> l < i64::MAX,
    ensures
        clock_step_spec(None) == ClockStep::Read,
        clock_step_spec(Some(next_time_spec(last, system))) == ClockStep::Known(next_time_spec(last, system)),
        next_time_spec(last, system) >= system,
        last matches Some(l) ==> next_time_spec(last, system) > l,
{
}

/// The document a Node's patch applies to.
pub open spec fn document_spec(kind: Seq<char>, summary: Seq<char>, attrs: JsonV) -> JsonV {
    JsonV::Object(
        seq![("type"@, JsonV::Str(kind)), ("summary"@, JsonV::Str(summary)), ("attrs"@, attrs)],
    )
}

/// `{type, summary, attrs}` of a Node.
pub fn document(kind: &String, summary: &String, attrs: &Json) -> (d: Json)
    ensures
        d@ == document_spec(kind@, summary@, attrs@),
{
    let members: Vec<(String, Json)> = vec![
        ("type".to_owned(), Json::Str(kind.clone())),
        ("summary".to_owned(), Json::Str(summary.clone())),
        ("attrs".to_owned(), attrs.duplicate()),
    ];
    let d = Json::Object(members);
    proof {
        lemma_entries_view(members@);
        assert(entries_view(members@) =~= seq![("type"@, JsonV::Str(kind@)), ("summary"@, JsonV::Str(summary@)), ("attrs"@, attrs@)]);
    }
    d
}

/// The Node a patched document describes: an object with a string `type`, a
/// string `summary`, `attrs` (an empty object when absent), and nothing else.
pub open spec fn node_of_spec(d: JsonV) -> Result<(Seq<char>, Seq<char>, JsonV), Error> {
    match d {
        JsonV::Object(es) => node_of_members(es),
        _ => Err(Error::InvalidNode),
    }
}

pub open spec fn node_of_members(es: Seq<(Seq<char>, JsonV)>) -> Result<(Seq<char>, Seq<char>, JsonV), Error> {
    if !(forall|i: int| 0 <= i < es.len() ==> #[trigger] node_member(es[i].0)) {
        Err(Error::InvalidNode)
    } else {
        match (member(es, "type"@), member(es, "summary"@)) {
            (Some(JsonV::Str(k)), Some(JsonV::Str(s))) => Ok(
                (
                    k,
                    s,
                    match member(es, "attrs"@) {
                        Some(a) => a,
                        None => JsonV::Object(seq![]),
                    },
                ),
            ),
            _ => Err(Error::InvalidNode),
        }
    }
}

pub open spec fn node_member(key: Seq<char>) -> bool {
    key == "type"@ || key == "summary"@ || key == "attrs"@
}

pub fn member_json<'a>(es: &'a Vec<(String, Json)>, key: &str) -> (r: Option<&'a Json>)
    ensures
        match (r, member(entries_view(es@), key@)) {
            (Some(j), Some(v)) => j@ == v,
            (None, None) => true,
            _ => false,
        },
{
    let ghost ev = entries_view(es@);
    proof {
        lemma_entries_view(es@);
        lemma_key_index(ev, key@);
    }
    let k = key.to_owned();
    let mut i: usize = es.len();
    while i > 0
        invariant
            i <= es@.len(),
            ev == entries_view(es@),
            ev.len() == es@.len(),
            forall|j: int| 0 <= j < es@.len() ==> #[trigger] ev[j] == (es@[j].0@, es@[j].1@),
            k@ == key@,
            -1 <= key_index(ev, key@) < ev.len(),
            0 <= key_index(ev, key@) ==> ev[key_index(ev, key@)].0 == key@,
            forall|j: int| key_index(ev, key@) < j < ev.len() ==> ev[j].0 != key@,
            forall|j: int| i <= j < ev.len() ==> ev[j].0 != key@,
        decreases i,
    {
        if es[i - 1].0 == k {
            assert(ev[i - 1].0 == key@);
            return Some(&es[i - 1].1);
        }
        i -= 1;
    }
    None
}

/// Reads the Node a document describes.
#[verifier::loop_isolation(false)]
pub fn node_of(d: &Json) -> (r: Result<NewNode, Error>)
    requires
        json_wf(d@),
    ensures
        match (r, node_of_spec(d@)) {
            (Ok(n), Ok((k, s, a))) => n.kind@ == k && n.summary@ == s && n.attrs@ == a,
            (Err(a), Err(b)) => a == b,
            _ => false,
        },
{
    match d {
        Json::Object(es) => {
            let ghost ev = entries_view(es@);
            assert(d@ == JsonV::Object(ev));
            proof {
                lemma_entries_view(es@);
            }
            let mut i: usize = 0;
            while i < es.len()
                invariant
                    i <= es@.len(),
                    ev == entries_view(es@),
                    ev.len() == es@.len(),
                    forall|j: int| 0 <= j < es@.len() ==> #[trigger] ev[j] == (es@[j].0@, es@[j].1@),
                    forall|j: int| 0 <= j < i ==> #[trigger] node_member(ev[j].0),
                decreases es@.len() - i,
            {
                let key = &es[i].0;
                let t = "type".to_owned();
                let s = "summary".to_owned();
                let a = "attrs".to_owned();
                if !(*key == t || *key == s || *key == a) {
                    assert(!node_member(ev[i as int].0));
                    return Err(Error::InvalidNode);
                }
                assert(node_member(ev[i as int].0));
                i += 1;
            }
            let kind = match member_json(es, "type") {
                Some(Json::Str(k)) => k.clone(),
                _ => {
                    return Err(Error::InvalidNode);
                },
            };
            let summary = match member_json(es, "summary") {
                Some(Json::Str(s)) => s.clone(),
                _ => {
                    return Err(Error::InvalidNode);
                },
            };
            let attrs = match member_json(es, "attrs") {
                Some(a) => a.duplicate(),
                None => {
                    let empty: Vec<(String, Json)> = Vec::new();
                    proof {
                        assert(entries_view(empty@) =~= Seq::<(Seq<char>, JsonV)>::empty());
                    }
                    Json::Object(empty)
                },
            };
            Ok(NewNode { kind, summary, attrs })
        },
        _ => Err(Error::InvalidNode),
    }
}

/// The Node a JSON Merge Patch over `{type, summary, attrs}` makes of a
/// Node; the patch must be an object.
pub open spec fn patched_spec(kind: Seq<char>, summary: Seq<char>, attrs: JsonV, patch: JsonV) -> Result<(Seq<char>, Seq<char>, JsonV), Error> {
    if patch is Object {
        node_of_spec(merge_patch_spec(document_spec(kind, summary, attrs), patch))
    } else {
        Err(Error::PatchNotObject)
    }
}

/// Applies a merge patch to a Node's document and reads the Node back.
pub fn patched(kind: &String, summary: &String, attrs: &Json, patch: &Json) -> (r: Result<NewNode, Error>)
    requires
        json_wf(attrs@),
        json_wf(patch@),
    ensures
        match (r, patched_spec(kind@, summary@, attrs@, patch@)) {
            (Ok(n), Ok((k, s, a))) => n.kind@ == k && n.summary@ == s && n.attrs@ == a,
            (Err(a), Err(b)) => a == b,
            _ => false,
        },
{
    if !patch.is_object() {
        return Err(Error::PatchNotObject);
    }
    let mut doc = document(kind, summary, attrs);
    proof {
        let es = seq![("type"@, JsonV::Str(kind@)), ("summary"@, JsonV::Str(summary@)), ("attrs"@, attrs@)];
        reveal_strlit("type");
        reveal_strlit("summary");
        reveal_strlit("attrs");
        assert("type"@.len() == 4);
        assert("summary"@.len() == 7);
        assert("attrs"@.len() == 5);
        assert("type"@ != "summary"@);
        assert("type"@ != "attrs"@);
        assert("summary"@ != "attrs"@);
        assert(keys_distinct(es));
        crate::json::lemma_members_wf(es);
    }
    merge_patch(&mut doc, patch);
    node_of(&doc)
}

/// What a write does to the bitmap postings of a number value once a holder
/// was added or removed.
#[derive(PartialEq, Eq, Structural, Clone, Copy, Debug)]
pub enum NumberAction {
    /// Nothing: the value stays without a posting.
    Nothing,
    /// Only the written Node's membership changes.
    This,
    /// The other holder's membership changes too.
    Both,
}

/// After adding a holder, counting holders up to three: the second holder
/// brings a posting for both, later ones for themselves.
pub fn after_add(holders: u32) -> (a: NumberAction)
    ensures
        a == (if holders == 1 {
            NumberAction::Nothing
        } else if holders == 2 {
            NumberAction::Both
        } else {
            NumberAction::This
        }),
{
    if holders == 1 {
        NumberAction::Nothing
    } else if holders == 2 {
        NumberAction::Both
    } else {
        NumberAction::This
    }
}

/// After removing a holder: back to one holder drops the posting of both.
pub fn after_remove(holders: u32) -> (a: NumberAction)
    ensures
        a == (if holders == 0 {
            NumberAction::Nothing
        } else if holders == 1 {
            NumberAction::Both
        } else {
            NumberAction::This
        }),
{
    if holders == 0 {
        NumberAction::Nothing
    } else if holders == 1 {
        NumberAction::Both
    } else {
        NumberAction::This
    }
}

/// The Nodes with a posting for one number value: every holder once there
/// are two or more, none while there is one.
pub open spec fn posted(holders: Set<NodeId>) -> Set<NodeId> {
    if holders.len() >= 2 {
        holders
    } else {
        Set::empty()
    }
}

/// The memberships an action changes: `id`, and `other` for Both.
pub open spec fn apply_action(p: Set<NodeId>, a: NumberAction, insert: bool, id: NodeId, other: NodeId) -> Set<NodeId> {
    let touched = match a {
        NumberAction::Nothing => Set::empty(),
        NumberAction::This => set![id],
        NumberAction::Both => set![id, other],
    };
    if insert {
        p.union(touched)
    } else {
        p.difference(touched)
    }
}

/// Adding a holder keeps the postings exactly at the holders of values held
/// by two or more Nodes.
pub proof fn law_add_number(holders: Set<NodeId>, id: NodeId, other: NodeId)
    requires
        holders.finite(),
        !holders.contains(id),
        holders.len() == 1 ==> holders.contains(other),
    ensures
        apply_action(
            posted(holders),
            if holders.insert(id).len() == 1 {
                NumberAction::Nothing
            } else if holders.insert(id).len() == 2 {
                NumberAction::Both
            } else {
                NumberAction::This
            },
            true,
            id,
            other,
        ) == posted(holders.insert(id)),
{
    let h = holders.insert(id);
    if holders.len() == 1 {
        holders.remove(other).lemma_len0_is_empty();
        assert(holders =~= set![other]);
    }
    if holders.len() == 0 {
        assert(holders =~= Set::<NodeId>::empty());
    }
    assert(apply_action(posted(holders), if h.len() == 1 {
        NumberAction::Nothing
    } else if h.len() == 2 {
        NumberAction::Both
    } else {
        NumberAction::This
    }, true, id, other) =~= posted(h));
}

/// Removing a holder keeps the postings exactly at the holders of values
/// held by two or more Nodes.
pub proof fn law_remove_number(holders: Set<NodeId>, id: NodeId, other: NodeId)
    requires
        holders.finite(),
        holders.contains(id),
        holders.remove(id).len() == 1 ==> holders.remove(id).contains(other),
    ensures
        apply_action(
            posted(holders),
            if holders.remove(id).len() == 0 {
                NumberAction::Nothing
            } else if holders.remove(id).len() == 1 {
                NumberAction::Both
            } else {
                NumberAction::This
            },
            false,
            id,
            other,
        ) == posted(holders.remove(id)),
{
    let h = holders.remove(id);
    if h.len() == 1 {
        h.remove(other).lemma_len0_is_empty();
        assert(h =~= set![other]);
        assert(holders =~= set![other, id]);
    }
    if h.len() == 0 {
        assert(h =~= Set::<NodeId>::empty());
        assert(holders =~= set![id]);
    }
    assert(apply_action(posted(holders), if h.len() == 0 {
        NumberAction::Nothing
    } else if h.len() == 1 {
        NumberAction::Both
    } else {
        NumberAction::This
    }, false, id, other) =~= posted(h));
}

} // verus!
