//! Hash tables of the `rustc_hash` crate, keyed by document id.
//!
//! The functions here hand each operation to the table; their contracts are what the
//! tables are trusted for. A table is seen as the `Map` or `Set` of its contents.
use rustc_hash::{FxBuildHasher, FxHashMap, FxHashSet};
use vstd::prelude::*;

verus! {

/// The hasher of the tables, `rustc_hash::FxBuildHasher`; nothing is claimed of it.
#[verifier::external_type_specification]
#[verifier::external_body]
pub struct ExFxBuildHasher(FxBuildHasher);

/// `FxHashSet::insert`: puts `doc` in the set, changes nothing else, and says whether it was
/// missing.
#[verifier::external_body]
pub(crate) fn set_insert(set: &mut FxHashSet<u32>, doc: u32) -> (was_missing: bool)
    ensures
        final(set)@ == old(set)@.insert(doc),
        was_missing == !old(set)@.contains(doc),
{
    set.insert(doc)
}

/// `FxHashSet::iter`: hands out every member exactly once, in no promised order.
#[verifier::external_body]
pub(crate) fn set_members(set: &FxHashSet<u32>) -> (members: Vec<u32>)
    ensures
        members@.no_duplicates(),
        forall|doc: u32| members@.contains(doc) <==> #[trigger] set@.contains(doc),
{
    set.iter().copied().collect()
}

/// `FxHashMap::insert`: maps `doc` to `value` and changes nothing else.
#[verifier::external_body]
pub(crate) fn map_insert<V>(map: &mut FxHashMap<u32, V>, doc: u32, value: V)
    ensures
        final(map)@ == old(map)@.insert(doc, value),
{
    map.insert(doc, value);
}

/// `FxHashMap::get`: the value of `doc`, where it has one.
#[verifier::external_body]
pub(crate) fn map_get<V: Copy>(map: &FxHashMap<u32, V>, doc: u32) -> (value: Option<V>)
    ensures
        value == (if map@.contains_key(doc) {
            Some(map@[doc])
        } else {
            None
        }),
{
    map.get(&doc).copied()
}

/// `FxHashMap::iter`: hands out every key exactly once, with its value, in no promised order.
#[verifier::external_body]
pub(crate) fn map_entries<V: Copy>(map: &FxHashMap<u32, V>) -> (entries: Vec<(u32, V)>)
    ensures
        forall|i: int|
            0 <= i < entries@.len() ==> map@.contains_key((#[trigger] entries@[i]).0)
                && map@[entries@[i].0] == entries@[i].1,
        forall|i: int, j: int|
            0 <= i < j < entries@.len() ==> (#[trigger] entries@[i]).0 != (#[trigger] entries@[j]).0,
        forall|doc: u32| #[trigger]
            map@.contains_key(doc) ==> exists|i: int|
                0 <= i < entries@.len() && (#[trigger] entries@[i]).0 == doc,
{
    map.iter().map(|(doc, value)| (*doc, *value)).collect()
}

} // verus!
