//! The insertion-ordered frequency table of the least-frequently-used pager,
//! kept in an `indexmap::IndexMap`.
//!
//! Verus does not look inside the map. What it holds is named by
//! [`entries`], and each method that the pager calls is wrapped in a function
//! whose contract says, over that name, what the method does. These contracts
//! are taken from the map's documentation and are not proved here.
use indexmap::IndexMap;
use vstd::prelude::*;

verus! {

/// `indexmap::IndexMap`, made known to Verus as a type whose inside it does
/// not see.
#[verifier::external_type_specification]
#[verifier::external_body]
#[verifier::reject_recursive_types(K)]
#[verifier::reject_recursive_types(V)]
#[verifier::reject_recursive_types(S)]
pub struct ExIndexMap<K, V, S>(IndexMap<K, V, S>);

/// The key-value pairs of the map in its iteration order, which is the
/// order of insertion as long as pairs are only removed by shifting.
pub uninterp spec fn entries(table: IndexMap<u32, u32>) -> Seq<(u32, u32)>;

/// No pair of `pairs` has the key `key`.
pub open spec fn lacks(pairs: Seq<(u32, u32)>, key: u32) -> bool {
    forall|i: int| 0 <= i < pairs.len() ==> (#[trigger] pairs[i]).0 != key
}

/// `IndexMap::new`: a map without pairs.
#[verifier::external_body]
pub(crate) fn table_new() -> (table: IndexMap<u32, u32>)
    ensures
        entries(table) == Seq::<(u32, u32)>::empty(),
{
    IndexMap::new()
}

/// `IndexMap::get`: the value stored under `key`, if the map has the key.
#[verifier::external_body]
pub(crate) fn table_get(table: &IndexMap<u32, u32>, key: u32) -> (value: Option<u32>)
    ensures
        forall|i: int|
            0 <= i < entries(*table).len() && (#[trigger] entries(*table)[i]).0 == key ==> value
                == Some(entries(*table)[i].1),
        lacks(entries(*table), key) ==> value is None,
{
    table.get(&key).copied()
}

/// `IndexMap::insert`: a key that the map has keeps its place and takes the
/// new value, and the old value is returned; a new key goes last with its
/// value, and nothing is returned.
#[verifier::external_body]
pub(crate) fn table_insert(table: &mut IndexMap<u32, u32>, key: u32, value: u32) -> (previous:
    Option<u32>)
    ensures
        forall|i: int|
            0 <= i < entries(*old(table)).len() && (#[trigger] entries(*old(table))[i]).0 == key
                ==> entries(*final(table)) == entries(*old(table)).update(i, (key, value))
                && previous == Some(entries(*old(table))[i].1),
        lacks(entries(*old(table)), key) ==> entries(*final(table)) == entries(*old(table)).push(
            (key, value),
        ) && previous is None,
{
    table.insert(key, value)
}

/// `IndexMap::shift_remove`: the pair under `key` leaves, the pairs behind
/// it move up in their order, and its value is returned; a map without the
/// key is left as it is.
#[verifier::external_body]
pub(crate) fn table_shift_remove(table: &mut IndexMap<u32, u32>, key: u32) -> (removed: Option<
    u32,
>)
    ensures
        forall|i: int|
            0 <= i < entries(*old(table)).len() && (#[trigger] entries(*old(table))[i]).0 == key
                ==> entries(*final(table)) == entries(*old(table)).remove(i) && removed == Some(
                entries(*old(table))[i].1,
            ),
        lacks(entries(*old(table)), key) ==> entries(*final(table)) == entries(*old(table))
            && removed is None,
{
    table.shift_remove(&key)
}

/// `IndexMap::iter`: the pairs in iteration order, copied out.
#[verifier::external_body]
pub(crate) fn table_pairs(table: &IndexMap<u32, u32>) -> (pairs: Vec<(u32, u32)>)
    ensures
        pairs@ == entries(*table),
{
    table.iter().map(|(key, value)| (*key, *value)).collect()
}

} // verus!
