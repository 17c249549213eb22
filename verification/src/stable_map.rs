//! The durable ordered map that holds the serialized records, and the
//! contracts this library relies on for it.
//!
//! Nothing in this file is proved: each function states what the stable
//! B-tree map of `ic_stable_structures` does, over [`map_contents`].

use ic_stable_structures::memory_manager::{MemoryId, MemoryManager, VirtualMemory};
use ic_stable_structures::{DefaultMemoryImpl, StableBTreeMap};
use vstd::prelude::*;

verus! {

/// A stable B-tree map from note ids to serialized records, living in region 0
/// of the default memory. The verifier sees none of its fields.
#[verifier::external_body]
pub struct RecordMap {
    inner: StableBTreeMap<u32, Vec<u8>, VirtualMemory<DefaultMemoryImpl>>,
}

/// The entries that a record map holds: key to stored bytes.
pub uninterp spec fn map_contents(map: RecordMap) -> Map<u32, Seq<u8>>;

/// A record map without entries.
pub open spec fn empty_records() -> Map<u32, Seq<u8>> {
    Map::empty()
}

/// `BTreeMap::new` on region 0 of a memory manager over the default memory:
/// the map that is returned has no entries. It stops the process where the
/// default memory holds a memory manager's layout of a version that it does
/// not know. The region must be reserved for this map alone.
#[verifier::external_body]
pub(crate) fn map_new() -> (created: RecordMap)
    ensures
        map_contents(created) == empty_records(),
{
    let manager = MemoryManager::init(DefaultMemoryImpl::default());
    RecordMap { inner: StableBTreeMap::new(manager.get(MemoryId::new(0))) }
}

/// `BTreeMap::init` on the same region: loads the map that the region holds,
/// or starts an empty one. Nothing is claimed of what it holds. It stops the
/// process where the memory or the region holds a layout of a version that it
/// does not know. The region must be reserved for this map alone.
#[verifier::external_body]
pub(crate) fn map_init() -> (loaded: RecordMap) {
    let manager = MemoryManager::init(DefaultMemoryImpl::default());
    RecordMap { inner: StableBTreeMap::init(manager.get(MemoryId::new(0))) }
}

/// `BTreeMap::len`: the number of entries.
#[verifier::external_body]
pub(crate) fn map_len(map: &RecordMap) -> (count: u64)
    ensures
        count == map_contents(*map).dom().len(),
{
    map.inner.len()
}

/// `BTreeMap::get`: the bytes stored under `key`, if any.
#[verifier::external_body]
pub(crate) fn map_get(map: &RecordMap, key: u32) -> (found: Option<Vec<u8>>)
    ensures
        found is Some <==> map_contents(*map).dom().contains(key),
        found matches Some(bytes) ==> bytes@ == map_contents(*map)[key],
{
    map.inner.get(&key)
}

/// `BTreeMap::insert`: afterwards `key` maps to `value` and every other entry
/// is as before; the bytes that `key` held before are returned. Like a push
/// on a vector it stops the process where the memory cannot grow any more.
#[verifier::external_body]
pub(crate) fn map_insert(map: &mut RecordMap, key: u32, value: Vec<u8>) -> (previous: Option<
    Vec<u8>,
>)
    ensures
        map_contents(*final(map)) == map_contents(*old(map)).insert(key, value@),
        previous is Some <==> map_contents(*old(map)).dom().contains(key),
        previous matches Some(bytes) ==> bytes@ == map_contents(*old(map))[key],
{
    map.inner.insert(key, value)
}

/// `BTreeMap::remove`: afterwards `key` has no entry and every other entry is
/// as before; the bytes that `key` held are returned.
#[verifier::external_body]
pub(crate) fn map_remove(map: &mut RecordMap, key: u32) -> (previous: Option<Vec<u8>>)
    ensures
        map_contents(*final(map)) == map_contents(*old(map)).remove(key),
        previous is Some <==> map_contents(*old(map)).dom().contains(key),
        previous matches Some(bytes) ==> bytes@ == map_contents(*old(map))[key],
{
    map.inner.remove(&key)
}

/// `BTreeMap::iter`, collected: every entry once, in ascending order of key.
#[verifier::external_body]
pub(crate) fn map_entries(map: &RecordMap) -> (entries: Vec<(u32, Vec<u8>)>)
    ensures
        forall|i: int, j: int| 0 <= i < j < entries@.len() ==> entries@[i].0 < entries@[j].0,
        forall|i: int|
            0 <= i < entries@.len() ==> map_contents(*map).dom().contains(
                (#[trigger] entries@[i]).0,
            ) && map_contents(*map)[entries@[i].0] == entries@[i].1@,
        forall|k: u32| #[trigger]
            map_contents(*map).dom().contains(k) ==> exists|i: int|
                0 <= i < entries@.len() && (#[trigger] entries@[i]).0 == k,
{
    map.inner.iter().collect()
}

} // verus!
