//! The ordered map from file names to payloads that a writer keeps: an
//! `indexmap::IndexMap`, seen through the sequence of its entries.
use crate::hash_name;
use crate::spec_hash_name;
use indexmap::IndexMap;
use std::cmp::Ordering;
use vstd::prelude::*;

verus! {

/// The ordered map of the `indexmap` crate.
#[verifier::external_type_specification]
#[verifier::external_body]
#[verifier::reject_recursive_types(K)]
#[verifier::reject_recursive_types(V)]
#[verifier::reject_recursive_types(S)]
pub struct ExIndexMap<K, V, S>(IndexMap<K, V, S>);

/// A file of a writer as plain values: its name and its payload.
pub type Entry = (Seq<char>, Seq<u8>);

/// The entries of a map, in the map's order.
pub uninterp spec fn spec_entries(map: IndexMap<String, Vec<u8>>) -> Seq<Entry>;

/// No two entries have the same name.
pub open spec fn spec_distinct_names(entries: Seq<Entry>) -> bool {
    forall|i: int, j: int|
        0 <= i < j < entries.len() ==> (#[trigger] entries[i]).0 != (#[trigger] entries[j]).0
}

/// The position of the entry with the given name, or the number of entries
/// where there is none.
pub open spec fn spec_position(entries: Seq<Entry>, name: Seq<char>) -> int
    decreases entries.len(),
{
    if entries.len() == 0 {
        0
    } else if entries[0].0 == name {
        0
    } else {
        1 + spec_position(entries.drop_first(), name)
    }
}

/// The entries after an insertion: an entry of that name keeps its place
/// and gets the new payload; a new name goes to the end.
pub open spec fn spec_insert(entries: Seq<Entry>, name: Seq<char>, data: Seq<u8>) -> Seq<Entry> {
    let at = spec_position(entries, name);
    if at < entries.len() {
        entries.update(at, (name, data))
    } else {
        entries.push((name, data))
    }
}

/// The entries after a removal: the entry of that name leaves, and those
/// behind it move up.
pub open spec fn spec_remove(entries: Seq<Entry>, name: Seq<char>) -> Seq<Entry> {
    let at = spec_position(entries, name);
    if at < entries.len() {
        entries.remove(at)
    } else {
        entries
    }
}

/// `order` lists every index below `len` once.
pub open spec fn spec_is_permutation(order: Seq<int>, len: nat) -> bool {
    &&& order.len() == len
    &&& forall|i: int| 0 <= i < len ==> 0 <= #[trigger] order[i] < len
    &&& forall|i: int, j: int| 0 <= i < j < len ==> #[trigger] order[i] != #[trigger] order[j]
    &&& forall|index: int| 0 <= index < len ==> #[trigger] order.contains(index)
}

/// `after` holds the entries of `before` in the given order, by ascending
/// hash of the name, and entries of equal hash in the order they had.
pub open spec fn spec_sorted_in_order(
    before: Seq<Entry>,
    after: Seq<Entry>,
    multiplier: u32,
    order: Seq<int>,
) -> bool {
    &&& spec_is_permutation(order, before.len())
    &&& after.len() == before.len()
    &&& forall|i: int| 0 <= i < after.len() ==> #[trigger] after[i] == before[order[i]]
    &&& forall|i: int, j: int|
        0 <= i < j < after.len() ==> {
            let hash_i = spec_hash_name(multiplier, (#[trigger] after[i]).0);
            let hash_j = spec_hash_name(multiplier, (#[trigger] after[j]).0);
            hash_i < hash_j || (hash_i == hash_j && order[i] < order[j])
        }
}

/// `after` is `before`, stably sorted by the hash of the name.
pub open spec fn spec_is_stable_sort(before: Seq<Entry>, after: Seq<Entry>, multiplier: u32) -> bool {
    exists|order: Seq<int>| #[trigger] spec_sorted_in_order(before, after, multiplier, order)
}

/// Makes an empty map with `IndexMap::new`.
#[verifier::external_body]
pub(crate) fn file_map_new() -> (map: IndexMap<String, Vec<u8>>)
    ensures
        spec_entries(map) == Seq::<Entry>::empty(),
{
    IndexMap::new()
}

/// The number of entries, from `IndexMap::len`.
#[verifier::external_body]
pub(crate) fn file_map_len(map: &IndexMap<String, Vec<u8>>) -> (len: usize)
    ensures
        len == spec_entries(*map).len(),
{
    map.len()
}

/// The entry at a position, from `IndexMap::get_index`, which knows the
/// positions below the number of entries.
#[verifier::external_body]
pub(crate) fn file_map_get_index(map: &IndexMap<String, Vec<u8>>, index: usize) -> (entry: Option<
    (&String, &Vec<u8>),
>)
    ensures
        entry is Some <==> index < spec_entries(*map).len(),
        entry matches Some(found) ==> (found.0@, found.1@) == spec_entries(*map)[index as int],
{
    map.get_index(index)
}

/// Inserts with `IndexMap::insert`: an equal key keeps its place and gets
/// the new value, a new key goes last.
#[verifier::external_body]
pub(crate) fn file_map_insert(map: &mut IndexMap<String, Vec<u8>>, name: String, data: Vec<u8>)
    ensures
        spec_entries(*final(map)) == spec_insert(spec_entries(*old(map)), name@, data@),
{
    map.insert(name, data);
}

/// Removes with `IndexMap::shift_remove`: the pair of that key leaves, the
/// pairs behind it move up and keep their order.
#[verifier::external_body]
pub(crate) fn file_map_shift_remove(map: &mut IndexMap<String, Vec<u8>>, name: &str)
    ensures
        spec_entries(*final(map)) == spec_remove(spec_entries(*old(map)), name@),
{
    map.shift_remove(name);
}

/// Orders two names by their hashes.
pub fn compare_name_hashes(multiplier: u32, a: &str, b: &str) -> (order: Ordering)
    ensures
        order is Less <==> spec_hash_name(multiplier, a@) < spec_hash_name(multiplier, b@),
        order is Greater <==> spec_hash_name(multiplier, a@) > spec_hash_name(multiplier, b@),
{
    let hash_a = hash_name(multiplier, a);
    let hash_b = hash_name(multiplier, b);
    if hash_a < hash_b {
        Ordering::Less
    } else if hash_a > hash_b {
        Ordering::Greater
    } else {
        Ordering::Equal
    }
}

/// Sorts with `IndexMap::sort_by`, a stable sort, by the hash of the name.
#[verifier::external_body]
pub(crate) fn file_map_sort_by_hash(map: &mut IndexMap<String, Vec<u8>>, multiplier: u32)
    ensures
        spec_is_stable_sort(spec_entries(*old(map)), spec_entries(*final(map)), multiplier),
{
    map.sort_by(|name, _, name2, _| compare_name_hashes(multiplier, name, name2));
}

} // verus!
