//! Trusted boundary to `indexmap`: the insertion-ordered map that counting
//! relies on for deterministic tie-breaking. Each wrapper states over
//! `index_map_entries` what the crate's source shows of the method it calls.

use vstd::prelude::*;
use crate::model::has_key;

verus! {

#[verifier::external_type_specification]
#[verifier::external_body]
#[verifier::reject_recursive_types(K)]
#[verifier::reject_recursive_types(V)]
#[verifier::reject_recursive_types(S)]
pub struct ExIndexMap<K, V, S>(indexmap::IndexMap<K, V, S>);

/// The key-value pairs the map holds, in their order in the map.
pub uninterp spec fn index_map_entries(m: indexmap::IndexMap<char, u32>) -> Seq<(char, u32)>;

/// Relies on indexmap::IndexMap::with_capacity: a newly created map holds
/// nothing.
#[verifier::external_body]
pub(crate) fn imap_new(n: usize) -> (m: indexmap::IndexMap<char, u32>)
    ensures
        index_map_entries(m) == Seq::<(char, u32)>::empty(),
{
    indexmap::IndexMap::with_capacity(n)
}

/// Relies on indexmap::IndexMap::get: returns the value stored for the key,
/// or nothing when the key is absent.
#[verifier::external_body]
pub(crate) fn imap_get(m: &indexmap::IndexMap<char, u32>, c: char) -> (r: Option<u32>)
    ensures
        r is Some <==> has_key(index_map_entries(*m), c),
        forall|i: int|
            0 <= i < index_map_entries(*m).len() && index_map_entries(*m)[i].0 == c && (forall|
                j: int,
            | 0 <= j < i ==> index_map_entries(*m)[j].0 != c) ==> r == Some(
                index_map_entries(*m)[i].1,
            ),
{
    m.get(&c).copied()
}

/// Relies on indexmap::IndexMap::insert: an existing key keeps its place in
/// the order and gets the new value; a new key is appended last in order.
#[verifier::external_body]
pub(crate) fn imap_insert(m: &mut indexmap::IndexMap<char, u32>, c: char, v: u32)
    ensures
        !has_key(index_map_entries(*old(m)), c) ==> index_map_entries(*final(m))
            == index_map_entries(*old(m)).push((c, v)),
        forall|i: int|
            0 <= i < index_map_entries(*old(m)).len() && index_map_entries(*old(m))[i].0 == c && (
            forall|j: int| 0 <= j < i ==> index_map_entries(*old(m))[j].0 != c)
                ==> index_map_entries(*final(m)) == index_map_entries(*old(m)).update(i, (c, v)),
{
    m.insert(c, v);
}

/// Relies on indexmap::IndexMap::into_iter: yields the key-value pairs in
/// their order in the map.
#[verifier::external_body]
pub(crate) fn imap_into_vec(m: indexmap::IndexMap<char, u32>) -> (r: Vec<(char, u32)>)
    ensures
        r@ == index_map_entries(m),
{
    m.into_iter().collect()
}

} // verus!
