//! The ordered hash map of the `indexmap` crate, as the property maps (string
//! keys) and the cross-hierarchy maps (edge keys) use it: entries kept in
//! insertion order.

use vstd::prelude::*;
use indexmap::IndexMap;
use crate::property_map::StoredValue;
use crate::compound::CrossHierarchyEdge;
use crate::lgraph::LEdgeId;

verus! {

#[verifier::external_type_specification]
#[verifier::external_body]
#[verifier::reject_recursive_types(K)]
#[verifier::reject_recursive_types(V)]
#[verifier::reject_recursive_types(S)]
pub struct ExIndexMap<K, V, S>(IndexMap<K, V, S>);

/// The entries of a property map in their order: key characters and value.
pub uninterp spec fn property_entries(m: IndexMap<String, StoredValue>) -> Seq<(Seq<char>, StoredValue)>;

/// Position of the first entry with the given key, if any.
pub open spec fn find_key(entries: Seq<(Seq<char>, StoredValue)>, key: Seq<char>) -> Option<int>
    decreases entries.len(),
{
    if entries.len() == 0 {
        None
    } else if entries[0].0 == key {
        Some(0)
    } else {
        match find_key(entries.drop_first(), key) {
            Some(i) => Some(i + 1),
            None => None,
        }
    }
}

/// `IndexMap::new`: an empty map.
#[verifier::external_body]
pub(crate) fn entries_new() -> (r: IndexMap<String, StoredValue>)
    ensures
        property_entries(r) == Seq::<(Seq<char>, StoredValue)>::empty(),
{
    IndexMap::new()
}

/// `IndexMap::len`: the number of entries.
#[verifier::external_body]
pub(crate) fn entries_len(m: &IndexMap<String, StoredValue>) -> (r: usize)
    ensures
        r == property_entries(*m).len(),
{
    m.len()
}

/// `IndexMap::insert`: a present key keeps its place and gets the new value
/// (the old one is returned); an absent key is appended last.
#[verifier::external_body]
pub(crate) fn entries_insert(m: &mut IndexMap<String, StoredValue>, key: String, value: StoredValue)
    -> (r: Option<StoredValue>)
    ensures
        ({
            let before = property_entries(*old(m));
            match find_key(before, key@) {
                Some(i) => property_entries(*final(m)) == before.update(i, (key@, value)) && r
                    == Some(before[i].1),
                None => property_entries(*final(m)) == before.push((key@, value)) && r is None,
            }
        }),
{
    m.insert(key, value)
}

/// `IndexMap::get`: the value stored under the key, if any.
#[verifier::external_body]
pub(crate) fn entries_get<'a>(m: &'a IndexMap<String, StoredValue>, key: &str) -> (r: Option<&'a StoredValue>)
    ensures
        r == match find_key(property_entries(*m), key@) {
            Some(i) => Some(&property_entries(*m)[i].1),
            None => None,
        },
{
    m.get(key)
}

/// `IndexMap::contains_key`: whether an entry has the key.
#[verifier::external_body]
pub(crate) fn entries_contains_key(m: &IndexMap<String, StoredValue>, key: &str) -> (r: bool)
    ensures
        r == find_key(property_entries(*m), key@) is Some,
{
    m.contains_key(key)
}

/// `IndexMap::shift_remove`: removes the key's entry, shifting the later
/// entries down so that their order is kept, and returns its value.
#[verifier::external_body]
pub(crate) fn entries_shift_remove(m: &mut IndexMap<String, StoredValue>, key: &str)
    -> (r: Option<StoredValue>)
    ensures
        ({
            let before = property_entries(*old(m));
            match find_key(before, key@) {
                Some(i) => property_entries(*final(m)) == before.remove(i) && r == Some(before[i].1),
                None => property_entries(*final(m)) == before && r is None,
            }
        }),
{
    m.shift_remove(key)
}

/// `IndexMap::get_index`: the entry at a position in the order.
#[verifier::external_body]
pub(crate) fn entries_get_index(m: &IndexMap<String, StoredValue>, index: usize) -> (r: Option<(&String, &StoredValue)>)
    ensures
        r is Some <==> index < property_entries(*m).len(),
        r is Some ==> r.unwrap().0@ == property_entries(*m)[index as int].0,
        r is Some ==> *r.unwrap().1 == property_entries(*m)[index as int].1,
{
    m.get_index(index)
}

/// The entries of a cross-hierarchy map in their order: an edge and the
/// segments it is split into.
pub uninterp spec fn segment_entries(m: IndexMap<LEdgeId, Vec<CrossHierarchyEdge>>) -> Seq<(LEdgeId, Seq<CrossHierarchyEdge>)>;

/// Position of the first entry for the given edge, if any.
pub open spec fn find_edge(entries: Seq<(LEdgeId, Seq<CrossHierarchyEdge>)>, e: LEdgeId) -> Option<int>
    decreases entries.len(),
{
    if entries.len() == 0 {
        None
    } else if entries[0].0 == e {
        Some(0)
    } else {
        match find_edge(entries.drop_first(), e) {
            Some(i) => Some(i + 1),
            None => None,
        }
    }
}

/// `IndexMap::new`, for a cross-hierarchy map: an empty map.
#[verifier::external_body]
pub(crate) fn segments_new() -> (r: IndexMap<LEdgeId, Vec<CrossHierarchyEdge>>)
    ensures
        segment_entries(r) == Seq::<(LEdgeId, Seq<CrossHierarchyEdge>)>::empty(),
{
    IndexMap::new()
}

/// `IndexMap::clone`, for a cross-hierarchy map: a map with the same
/// entries in the same order.
#[verifier::external_body]
pub(crate) fn segments_clone(m: &IndexMap<LEdgeId, Vec<CrossHierarchyEdge>>) -> (r: IndexMap<LEdgeId, Vec<CrossHierarchyEdge>>)
    ensures
        segment_entries(r) == segment_entries(*m),
{
    m.clone()
}

/// `IndexMap::len`, for a cross-hierarchy map: the number of entries.
#[verifier::external_body]
pub(crate) fn segments_len(m: &IndexMap<LEdgeId, Vec<CrossHierarchyEdge>>) -> (r: usize)
    ensures
        r == segment_entries(*m).len(),
{
    m.len()
}

/// `IndexMap::get_index`, for a cross-hierarchy map: the entry at a
/// position in the order.
#[verifier::external_body]
pub(crate) fn segments_get_index(m: &IndexMap<LEdgeId, Vec<CrossHierarchyEdge>>, index: usize) -> (r: Option<(&LEdgeId, &Vec<CrossHierarchyEdge>)>)
    ensures
        r is Some <==> index < segment_entries(*m).len(),
        r is Some ==> *r.unwrap().0 == segment_entries(*m)[index as int].0,
        r is Some ==> r.unwrap().1@ == segment_entries(*m)[index as int].1,
{
    m.get_index(index)
}

/// `IndexMap::get`, for a cross-hierarchy map: the segments stored for the
/// edge, if any.
#[verifier::external_body]
pub(crate) fn segments_get<'a>(m: &'a IndexMap<LEdgeId, Vec<CrossHierarchyEdge>>, key: &LEdgeId) -> (r: Option<&'a Vec<CrossHierarchyEdge>>)
    ensures
        r is Some <==> find_edge(segment_entries(*m), *key) is Some,
        r is Some ==> r.unwrap()@ == segment_entries(*m)[find_edge(segment_entries(*m), *key).unwrap()].1,
{
    m.get(key)
}

} // verus!
