//! The hash collections of `ahash` that the writer and the allocator fill.
use vstd::prelude::*;
use ahash::{AHashMap, AHashSet};

verus! {

#[verifier::external_type_specification]
#[verifier::external_body]
pub struct ExRandomState(ahash::RandomState);

#[verifier::external_type_specification]
#[verifier::external_body]
#[verifier::reject_recursive_types(T)]
#[verifier::reject_recursive_types(S)]
pub struct ExAHashSet<T, S>(AHashSet<T, S>);

#[verifier::external_type_specification]
#[verifier::external_body]
#[verifier::reject_recursive_types(K)]
#[verifier::reject_recursive_types(V)]
#[verifier::reject_recursive_types(S)]
pub struct ExAHashMap<K, V, S>(AHashMap<K, V, S>);

/// A map from serialized keys to byte strings.
pub type ByteMap = AHashMap<Vec<u8>, Vec<u8>>;

/// The ids that a set of document ids holds.
pub uninterp spec fn id_set_contents(s: AHashSet<u32>) -> Set<u32>;

/// The entries of a map from serialized keys to byte strings.
pub uninterp spec fn byte_map_contents(m: ByteMap) -> Map<Seq<u8>, Seq<u8>>;

/// Relies on `AHashSet::new`: a new set is empty.
#[verifier::external_body]
pub(crate) fn id_set_new() -> (r: AHashSet<u32>)
    ensures
        id_set_contents(r) == Set::<u32>::empty(),
{
    AHashSet::new()
}

/// Relies on `HashSet::insert` (through `AHashSet`'s `DerefMut`): the id is
/// added, nothing else changes.
#[verifier::external_body]
pub(crate) fn id_set_insert(s: &mut AHashSet<u32>, id: u32)
    ensures
        id_set_contents(*final(s)) == id_set_contents(*old(s)).insert(id),
{
    s.insert(id);
}

/// Relies on `HashSet::contains` (through `AHashSet`'s `Deref`).
#[verifier::external_body]
pub(crate) fn id_set_contains(s: &AHashSet<u32>, id: u32) -> (r: bool)
    ensures
        r == id_set_contents(*s).contains(id),
{
    s.contains(&id)
}

/// Relies on `AHashMap::new`: a new map is empty.
#[verifier::external_body]
pub(crate) fn byte_map_new() -> (r: ByteMap)
    ensures
        byte_map_contents(r).dom().is_empty(),
{
    AHashMap::new()
}

/// Relies on `AHashMap::get`: the value stored under an equal key, cloned.
#[verifier::external_body]
pub(crate) fn byte_map_get(m: &ByteMap, k: &Vec<u8>) -> (r: Option<Vec<u8>>)
    ensures
        match r {
            Some(v) => byte_map_contents(*m).contains_key(k@) && byte_map_contents(*m)[k@] == v@,
            None => !byte_map_contents(*m).contains_key(k@),
        },
{
    m.get(k).cloned()
}

/// Relies on `AHashMap::insert`: the key now maps to the value, nothing else
/// changes.
#[verifier::external_body]
pub(crate) fn byte_map_insert(m: &mut ByteMap, k: Vec<u8>, v: Vec<u8>)
    ensures
        byte_map_contents(*final(m)) == byte_map_contents(*old(m)).insert(k@, v@),
{
    m.insert(k, v);
}

/// Relies on `HashMap::iter` (through `AHashMap`'s `Deref`): each entry once,
/// in an order that is not specified.
#[verifier::external_body]
pub(crate) fn byte_map_entries(m: &ByteMap) -> (r: Vec<(Vec<u8>, Vec<u8>)>)
    ensures
        forall|i: int, j: int| 0 <= i < j < r@.len() ==> r@[i].0@ != r@[j].0@,
        forall|i: int|
            0 <= i < r@.len() ==> byte_map_contents(*m).contains_key(#[trigger] r@[i].0@)
                && byte_map_contents(*m)[r@[i].0@] == r@[i].1@,
        forall|k: Seq<u8>|
            #[trigger] byte_map_contents(*m).contains_key(k) ==> exists|i: int|
                0 <= i < r@.len() && r@[i].0@ == k,
{
    m.iter().map(|(k, v)| (k.clone(), v.clone())).collect()
}

} // verus!
