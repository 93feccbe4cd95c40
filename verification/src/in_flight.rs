//! The ids that a channel has handed out and that wait for an acknowledgement, each with
//! its deadline, kept in the order in which they were handed out.
//!
//! The collection itself is `LinkedHashMap` of the crate `linked-hash-map`. Its contents are
//! named by [`contents`]: the entries from the front (the oldest) to the back. The functions
//! here say over that name what each method of the crate does.

use linked_hash_map::LinkedHashMap;
use vstd::prelude::*;

verus! {

/// `linked_hash_map::LinkedHashMap`, as an opaque type.
#[verifier::external_type_specification]
#[verifier::external_body]
#[verifier::reject_recursive_types(K)]
#[verifier::reject_recursive_types(V)]
#[verifier::reject_recursive_types(S)]
pub struct ExLinkedHashMap<K, V, S>(linked_hash_map::LinkedHashMap<K, V, S>);

/// The entries of a map, from the front to the back.
pub uninterp spec fn contents(map: LinkedHashMap<u64, u32>) -> Seq<(u64, u32)>;

/// Some entry carries the id.
pub open spec fn has_id(entries: Seq<(u64, u32)>, id: u64) -> bool {
    exists|i: int| 0 <= i < entries.len() && (#[trigger] entries[i]).0 == id
}

/// Where the entry with the id stands.
pub open spec fn index_of_id(entries: Seq<(u64, u32)>, id: u64) -> int {
    choose|i: int| 0 <= i < entries.len() && (#[trigger] entries[i]).0 == id
}

/// No id occurs twice.
pub open spec fn distinct_ids(entries: Seq<(u64, u32)>) -> bool {
    forall|i: int, j: int|
        0 <= i < j < entries.len() ==> (#[trigger] entries[i]).0 != (#[trigger] entries[j]).0
}

/// The entries without the one that carries the id.
pub open spec fn without_id(entries: Seq<(u64, u32)>, id: u64) -> Seq<(u64, u32)> {
    if has_id(entries, id) {
        entries.remove(index_of_id(entries, id))
    } else {
        entries
    }
}

/// `LinkedHashMap::new`: a map without entries.
#[verifier::external_body]
pub(crate) fn new_map() -> (map: LinkedHashMap<u64, u32>)
    ensures
        contents(map) == Seq::<(u64, u32)>::empty(),
{
    LinkedHashMap::new()
}

/// `LinkedHashMap::len`: the number of entries.
#[verifier::external_body]
pub(crate) fn count(map: &LinkedHashMap<u64, u32>) -> (n: usize)
    ensures
        n == contents(*map).len(),
{
    map.len()
}

/// `LinkedHashMap::front`: the entry at the front, if there is one.
#[verifier::external_body]
pub(crate) fn front(map: &LinkedHashMap<u64, u32>) -> (entry: Option<(u64, u32)>)
    ensures
        contents(*map).len() == 0 ==> entry is None,
        contents(*map).len() > 0 ==> entry == Some(contents(*map)[0]),
{
    map.front().map(|entry| (*entry.0, *entry.1))
}

/// `LinkedHashMap::get`: the deadline stored for the id, if the id is in the map.
#[verifier::external_body]
pub(crate) fn deadline_of(map: &LinkedHashMap<u64, u32>, id: u64) -> (deadline: Option<u32>)
    ensures
        deadline is Some <==> has_id(contents(*map), id),
        deadline matches Some(d) ==> d == contents(*map)[index_of_id(contents(*map), id)].1,
{
    map.get(&id).copied()
}

/// `LinkedHashMap::contains_key`: whether the id is in the map.
#[verifier::external_body]
pub(crate) fn contains(map: &LinkedHashMap<u64, u32>, id: u64) -> (found: bool)
    ensures
        found == has_id(contents(*map), id),
{
    map.contains_key(&id)
}

/// `LinkedHashMap::get_mut`: the deadline stored for the id, to be written in place; the
/// order of the entries stays.
#[verifier::external_body]
pub(crate) fn deadline_mut(map: &mut LinkedHashMap<u64, u32>, id: u64) -> (slot: Option<
    &mut u32,
>)
    ensures
        match slot {
            Some(deadline) => {
                let at = index_of_id(contents(*old(map)), id);
                &&& has_id(contents(*old(map)), id)
                &&& *deadline == contents(*old(map))[at].1
                &&& contents(*final(map)) == contents(*old(map)).update(at, (id, *final(deadline)))
            },
            None => {
                &&& !has_id(contents(*old(map)), id)
                &&& contents(*final(map)) == contents(*old(map))
            },
        },
{
    map.get_mut(&id)
}

/// `LinkedHashMap::get_refresh`: the deadline stored for the id, to be written in place; the
/// entry moves to the back.
#[verifier::external_body]
pub(crate) fn refresh(map: &mut LinkedHashMap<u64, u32>, id: u64) -> (slot: Option<
    &mut u32,
>)
    ensures
        match slot {
            Some(deadline) => {
                let at = index_of_id(contents(*old(map)), id);
                &&& has_id(contents(*old(map)), id)
                &&& *deadline == contents(*old(map))[at].1
                &&& contents(*final(map)) == contents(*old(map)).remove(at).push(
                    (id, *final(deadline)),
                )
            },
            None => {
                &&& !has_id(contents(*old(map)), id)
                &&& contents(*final(map)) == contents(*old(map))
            },
        },
{
    map.get_refresh(&id)
}

/// `LinkedHashMap::insert`: the id goes to the back with its deadline; an entry that it had
/// before leaves.
#[verifier::external_body]
pub(crate) fn insert(map: &mut LinkedHashMap<u64, u32>, id: u64, deadline: u32)
    ensures
        contents(*final(map)) == without_id(contents(*old(map)), id).push((id, deadline)),
{
    map.insert(id, deadline);
}

/// `LinkedHashMap::remove`: the entry with the id leaves; the others keep their order.
#[verifier::external_body]
pub(crate) fn remove(map: &mut LinkedHashMap<u64, u32>, id: u64)
    ensures
        contents(*final(map)) == without_id(contents(*old(map)), id),
{
    map.remove(&id);
}

/// `LinkedHashMap::clear`: all entries leave.
#[verifier::external_body]
pub(crate) fn clear(map: &mut LinkedHashMap<u64, u32>)
    ensures
        contents(*final(map)) == Seq::<(u64, u32)>::empty(),
{
    map.clear();
}

/// `LinkedHashMap::iter`: all entries, from the front to the back.
#[verifier::external_body]
pub(crate) fn entries(map: &LinkedHashMap<u64, u32>) -> (all: Vec<(u64, u32)>)
    ensures
        all@ == contents(*map),
{
    map.iter().map(|entry| (*entry.0, *entry.1)).collect()
}

/// Where ids are distinct, an id stands at one place only.
pub proof fn lemma_index_of_id(entries: Seq<(u64, u32)>, i: int)
    requires
        distinct_ids(entries),
        0 <= i < entries.len(),
    ensures
        has_id(entries, entries[i].0),
        index_of_id(entries, entries[i].0) == i,
{
    let id = entries[i].0;
    assert(entries[i].0 == id);
    let k = index_of_id(entries, id);
    assert(0 <= k < entries.len() && entries[k].0 == id);
    assert(!(k < i) && !(i < k));
}

/// Taking the entry of an id out leaves the other ids, and them distinct.
pub proof fn lemma_without_id(entries: Seq<(u64, u32)>, id: u64)
    requires
        distinct_ids(entries),
    ensures
        distinct_ids(without_id(entries, id)),
        !has_id(without_id(entries, id), id),
        forall|other: u64|
            other != id ==> #[trigger] has_id(without_id(entries, id), other) == has_id(
                entries,
                other,
            ),
{
    let rest = without_id(entries, id);
    if has_id(entries, id) {
        let at = index_of_id(entries, id);
        assert(0 <= at < entries.len() && entries[at].0 == id);
        assert forall|i: int, j: int| 0 <= i < j < rest.len() implies (#[trigger] rest[i]).0 != (
        #[trigger] rest[j]).0 by {
            let i0 = if i < at { i } else { i + 1 };
            let j0 = if j < at { j } else { j + 1 };
            assert(rest[i] == entries[i0] && rest[j] == entries[j0]);
        }
        assert forall|i: int| 0 <= i < rest.len() implies (#[trigger] rest[i]).0 != id by {
            let i0 = if i < at { i } else { i + 1 };
            assert(rest[i] == entries[i0]);
            assert(entries[i0].0 != entries[at].0);
        }
        assert forall|other: u64| other != id implies #[trigger] has_id(rest, other) == has_id(
            entries,
            other,
        ) by {
            if has_id(entries, other) {
                let i = index_of_id(entries, other);
                assert(entries[i].0 == other);
                assert(rest[if i < at { i } else { i - 1 }] == entries[i]);
            }
            if has_id(rest, other) {
                let i = index_of_id(rest, other);
                assert(rest[i] == entries[if i < at { i } else { i + 1 }]);
            }
        }
    }
}

} // verus!
