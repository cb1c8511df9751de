//! JSON Merge Patch (RFC 7396): an object patch sets or merges each of its
//! members and removes those it sets to null; any other patch replaces.

use super::visit::lookup;
use crate::json::{
    entries_view, json_wf, keys_distinct, lemma_entries_view, lemma_members_wf, members_wf, Json,
    JsonV,
};
use vstd::prelude::*;

verus! {

/// `es` without the member `key`.
pub open spec fn remove_member(es: Seq<(Seq<char>, JsonV)>, key: Seq<char>) -> Seq<
    (Seq<char>, JsonV),
>
    decreases es.len(),
{
    if es.len() == 0 {
        es
    } else if es.last().0 == key {
        remove_member(es.drop_last(), key)
    } else {
        remove_member(es.drop_last(), key).push(es.last())
    }
}

/// `es` with `key` set to `v`: in place when present, appended otherwise.
pub open spec fn set_member(es: Seq<(Seq<char>, JsonV)>, key: Seq<char>, v: JsonV) -> Seq<
    (Seq<char>, JsonV),
> {
    if exists|i: int| 0 <= i < es.len() && es[i].0 == key {
        es.update(choose|i: int| 0 <= i < es.len() && es[i].0 == key, (key, v))
    } else {
        es.push((key, v))
    }
}

pub open spec fn members_of(t: JsonV) -> Seq<(Seq<char>, JsonV)> {
    match t {
        JsonV::Object(es) => es,
        _ => Seq::empty(),
    }
}

pub open spec fn value_or_null(v: Option<JsonV>) -> JsonV {
    match v {
        Some(x) => x,
        None => JsonV::Null,
    }
}

/// `target` patched by `patch`.
pub open spec fn merge_patch_spec(target: JsonV, patch: JsonV) -> JsonV
    decreases patch,
{
    match patch {
        JsonV::Object(ps) => JsonV::Object(apply_members(members_of(target), ps)),
        _ => patch,
    }
}

/// The members `es` after the patch members `ps`, in order.
pub open spec fn apply_members(es: Seq<(Seq<char>, JsonV)>, ps: Seq<(Seq<char>, JsonV)>) -> Seq<
    (Seq<char>, JsonV),
>
    decreases ps,
{
    if ps.len() == 0 {
        es
    } else {
        let prev = apply_members(es, ps.drop_last());
        let (key, v) = ps.last();
        if v is Null {
            remove_member(prev, key)
        } else {
            set_member(prev, key, merge_patch_spec(value_or_null(lookup(prev, key)), v))
        }
    }
}

pub proof fn lemma_lookup_at(es: Seq<(Seq<char>, JsonV)>, key: Seq<char>, idx: int)
    requires
        keys_distinct(es),
        0 <= idx < es.len(),
        es[idx].0 == key,
    ensures
        lookup(es, key) == Some(es[idx].1),
    decreases es.len(),
{
    if idx < es.len() - 1 {
        assert(es.last().0 != key);
        assert(keys_distinct(es.drop_last()));
        assert(es.drop_last()[idx] == es[idx]);
        lemma_lookup_at(es.drop_last(), key, idx);
    }
}

pub proof fn lemma_lookup_none(es: Seq<(Seq<char>, JsonV)>, key: Seq<char>)
    requires
        forall|i: int| 0 <= i < es.len() ==> es[i].0 != key,
    ensures
        lookup(es, key) == None::<JsonV>,
    decreases es.len(),
{
    if es.len() > 0 {
        assert forall|i: int| 0 <= i < es.drop_last().len() implies es.drop_last()[i].0 != key by {
            assert(es.drop_last()[i] == es[i]);
        }
        lemma_lookup_none(es.drop_last(), key);
    }
}

pub proof fn lemma_remove_member_at(es: Seq<(Seq<char>, JsonV)>, key: Seq<char>, idx: int)
    requires
        keys_distinct(es),
        0 <= idx < es.len(),
        es[idx].0 == key,
    ensures
        remove_member(es, key) == es.remove(idx),
    decreases es.len(),
{
    if idx == es.len() - 1 {
        lemma_remove_member_absent(es.drop_last(), key);
        assert(es.remove(idx) =~= es.drop_last());
    } else {
        assert(keys_distinct(es.drop_last()));
        assert(es.drop_last()[idx] == es[idx]);
        lemma_remove_member_at(es.drop_last(), key, idx);
        assert(es.last().0 != key);
        assert(es.drop_last().remove(idx).push(es.last()) =~= es.remove(idx));
    }
}

pub proof fn lemma_remove_member_absent(es: Seq<(Seq<char>, JsonV)>, key: Seq<char>)
    requires
        forall|i: int| 0 <= i < es.len() ==> es[i].0 != key,
    ensures
        remove_member(es, key) == es,
    decreases es.len(),
{
    if es.len() > 0 {
        assert forall|i: int| 0 <= i < es.drop_last().len() implies es.drop_last()[i].0 != key by {
            assert(es.drop_last()[i] == es[i]);
        }
        lemma_remove_member_absent(es.drop_last(), key);
        assert(es.drop_last().push(es.last()) =~= es);
    }
}

/// First member index holding `key`.
pub fn find_key(es: &Vec<(String, Json)>, key: &String) -> (r: Option<usize>)
    ensures
        match r {
            Some(i) => i < es@.len() && es@[i as int].0@ == key@,
            None => forall|i: int| 0 <= i < es@.len() ==> es@[i].0@ != key@,
        },
{
    let mut i: usize = 0;
    while i < es.len()
        invariant
            i <= es@.len(),
            forall|k: int| 0 <= k < i ==> es@[k].0@ != key@,
        decreases es@.len() - i,
    {
        if es[i].0 == *key {
            return Some(i);
        }
        i += 1;
    }
    None
}

/// Applies a JSON Merge Patch to `target`.
#[verifier::loop_isolation(false)]
pub fn merge_patch(target: &mut Json, patch: &Json)
    requires
        json_wf(old(target)@),
        json_wf(patch@),
    ensures
        final(target)@ == merge_patch_spec(old(target)@, patch@),
        json_wf(final(target)@),
    decreases patch,
{
    match patch {
        Json::Object(pmap) => {
            let ghost pv = entries_view(pmap@);
            proof {
                lemma_entries_view(pmap@);
                assert(patch@ == JsonV::Object(pv));
                lemma_members_wf(pv);
            }
            let mut taken = Json::Null;
            std::mem::swap(&mut taken, target);
            let mut es: Vec<(String, Json)> = match taken {
                Json::Object(es) => es,
                _ => Vec::new(),
            };
            proof {
                lemma_entries_view(es@);
                let ev = entries_view(es@);
                if old(target)@ is Object {
                    assert(old(target)@ == JsonV::Object(ev));
                    lemma_members_wf(ev);
                } else {
                    assert(ev =~= Seq::<(Seq<char>, JsonV)>::empty());
                }
                assert(ev == members_of(old(target)@));
                assert(pv.take(0) =~= Seq::<(Seq<char>, JsonV)>::empty());
                assert forall|k: int| 0 <= k < es@.len() implies #[trigger] json_wf(es@[k].1@) by {
                    assert(ev[k].1 == es@[k].1@);
                }
            }
            let mut i: usize = 0;
            while i < pmap.len()
                invariant
                    i <= pmap@.len(),
                    entries_view(es@) == apply_members(members_of(old(target)@), pv.take(i as int)),
                    keys_distinct(entries_view(es@)),
                    forall|k: int| 0 <= k < es@.len() ==> #[trigger] json_wf(es@[k].1@),
                decreases pmap@.len() - i,
            {
                let ghost prev = entries_view(es@);
                proof {
                    lemma_entries_view(es@);
                    let t1 = pv.take(i + 1);
                    assert(t1.drop_last() =~= pv.take(i as int));
                    assert(t1.last() == pv[i as int]);
                    assert(pv[i as int] == (pmap@[i as int].0@, pmap@[i as int].1@));
                    assert(json_wf(pv[i as int].1));
                }
                let key = &pmap[i].0;
                let value = &pmap[i].1;
                let found = find_key(&es, key);
                if value.is_null() {
                    match found {
                        Some(idx) => {
                            proof {
                                assert(prev[idx as int].0 == key@);
                                lemma_remove_member_at(prev, key@, idx as int);
                            }
                            es.remove(idx);
                            proof {
                                lemma_entries_view(es@);
                                assert(entries_view(es@) =~= prev.remove(idx as int));
                            }
                        },
                        None => {
                            proof {
                                assert forall|k: int| 0 <= k < prev.len() implies prev[k].0 != key@ by {
                                    assert(prev[k].0 == es@[k].0@);
                                }
                                lemma_remove_member_absent(prev, key@);
                            }
                        },
                    }
                } else {
                    proof {
                        assert(decreases_to!(pmap@ => pmap@[i as int]));
                        assert(decreases_to!(*pmap => pmap@));
                        assert(decreases_to!(pmap@[i as int] => pmap@[i as int].1));
                    }
                    match found {
                        Some(idx) => {
                            proof {
                                assert(prev[idx as int].0 == key@);
                                lemma_lookup_at(prev, key@, idx as int);
                            }
                            let (k, mut child) = es.remove(idx);
                            merge_patch(&mut child, value);
                            es.insert(idx, (k, child));
                            proof {
                                lemma_entries_view(es@);
                                let nv = merge_patch_spec(prev[idx as int].1, pv[i as int].1);
                                assert(exists|j: int| 0 <= j < prev.len() && prev[j].0 == key@);
                                let c = choose|j: int| 0 <= j < prev.len() && prev[j].0 == key@;
                                assert(c == idx);
                                assert(entries_view(es@) =~= prev.update(idx as int, (key@, nv)));
                            }
                        },
                        None => {
                            proof {
                                assert forall|k: int| 0 <= k < prev.len() implies prev[k].0 != key@ by {
                                    assert(prev[k].0 == es@[k].0@);
                                }
                                lemma_lookup_none(prev, key@);
                            }
                            let mut child = Json::Null;
                            merge_patch(&mut child, value);
                            es.push((key.clone(), child));
                            proof {
                                lemma_entries_view(es@);
                                assert(entries_view(es@) =~= prev.push(
                                    (key@, merge_patch_spec(JsonV::Null, pv[i as int].1)),
                                ));
                            }
                        },
                    }
                }
                i += 1;
            }
            proof {
                assert(pv.take(pmap@.len() as int) =~= pv);
                lemma_entries_view(es@);
                let ev = entries_view(es@);
                assert forall|k: int| 0 <= k < ev.len() implies #[trigger] json_wf(ev[k].1) by {
                    assert(ev[k].1 == es@[k].1@);
                }
                lemma_members_wf(ev);
            }
            *target = Json::Object(es);
        },
        _ => {
            *target = patch.duplicate();
        },
    }
}

} // verus!
