//! The calls into outside crates, each with what is relied on of it.
use vstd::prelude::*;

verus! {

/// The hasher state of `ahash`, with which its `HashMap` is std's hash map.
#[verifier::external_type_specification]
#[verifier::external_body]
pub struct ExAhashRandomState(ahash::RandomState);

/// The order of `ash::vk::ShaderStageFlags`, which derives it from its only field, the raw mask that
/// `from_raw` takes: one is at most the other where its mask, as a number, is.
#[verifier::external_body]
pub(crate) fn flags_at_most(a: u32, b: u32) -> (r: bool)
    ensures
        r == (a <= b),
{
    ash::vk::ShaderStageFlags::from_raw(a) <= ash::vk::ShaderStageFlags::from_raw(b)
}

/// A list of Vulkan handles in a `SmallVec`.
#[verifier::external_body]
#[derive(Debug)]
pub struct HandleList {
    items: smallvec::SmallVec<[u64; 4]>,
}

/// The handles in a list.
pub uninterp spec fn handles_of(list: HandleList) -> Seq<u64>;

/// `SmallVec::from_iter`: the list holds the items that the iterator yields, in their order.
#[verifier::external_body]
pub(crate) fn collect_handles(handles: Vec<u64>) -> (list: HandleList)
    ensures
        handles_of(list) == handles@,
{
    HandleList { items: handles.into_iter().collect() }
}

/// `SmallVec::as_slice`: all items of the list, in their order.
#[verifier::external_body]
pub(crate) fn handle_slice(list: &HandleList) -> (slice: &[u64])
    ensures
        slice@ == handles_of(*list),
{
    list.items.as_slice()
}

/// A list of push constant ranges in a `SmallVec`, each as stage mask, offset and size.
#[verifier::external_body]
#[derive(Debug)]
pub struct RangeList {
    items: smallvec::SmallVec<[(u32, u32, u32); 4]>,
}

/// The ranges in a list.
pub uninterp spec fn ranges_of(list: RangeList) -> Seq<(u32, u32, u32)>;

/// `SmallVec::from_iter`: the list holds the items that the iterator yields, in their order.
#[verifier::external_body]
pub(crate) fn collect_ranges(ranges: Vec<(u32, u32, u32)>) -> (list: RangeList)
    ensures
        ranges_of(list) == ranges@,
{
    RangeList { items: ranges.into_iter().collect() }
}

/// `SmallVec::as_slice`: all items of the list, in their order.
#[verifier::external_body]
pub(crate) fn range_slice(list: &RangeList) -> (slice: &[(u32, u32, u32)])
    ensures
        slice@ == ranges_of(*list),
{
    list.items.as_slice()
}

/// The keys of maps: integers and pairs of them. Std compares and hashes these by their value.
pub(crate) trait MapKey: Eq + core::hash::Hash {

}

impl MapKey for u32 {

}

impl MapKey for (u32, u32) {

}

/// `HashMap::get_mut` on `ahash`'s map: gives access to what stands under `key`, if anything does.
/// Nothing else changes.
#[verifier::external_body]
pub(crate) fn value_mut<'a, K: MapKey, V>(m: &'a mut ahash::HashMap<K, V>, key: K) -> (r: Option<
    &'a mut V,
>)
    ensures
        match r {
            Some(value) => old(m)@.contains_key(key) && *value == old(m)@[key] && final(m)@ == old(
                m,
            )@.insert(key, *final(value)),
            None => !old(m)@.contains_key(key) && final(m)@ == old(m)@,
        },
{
    m.get_mut(&key)
}

/// `HashMap::insert` on `ahash`'s map: puts `value` under `key`, in place of what was there. Nothing
/// else changes.
#[verifier::external_body]
pub(crate) fn insert_value<K: MapKey, V>(m: &mut ahash::HashMap<K, V>, key: K, value: V)
    ensures
        final(m)@ == old(m)@.insert(key, value),
{
    m.insert(key, value);
}

/// `HashMap::iter` on `ahash`'s map: hands out each key with what stands under it, once, in no
/// order that could be relied on.
#[verifier::external_body]
pub(crate) fn map_entries<K: MapKey, V>(m: &ahash::HashMap<K, V>) -> (entries: Vec<(&K, &V)>)
    ensures
        forall|i: int|
            0 <= i < entries.len() ==> m@.contains_key(*(#[trigger] entries@[i]).0)
                && m@[*entries@[i].0] == *entries@[i].1,
        forall|i: int, j: int|
            0 <= i < entries.len() && 0 <= j < entries.len() && i != j ==> *(
            #[trigger] entries@[i]).0 != *(#[trigger] entries@[j]).0,
        forall|k: K| #[trigger] m@.contains_key(k) ==> exists|i: int|
            0 <= i < entries.len() && *(#[trigger] entries@[i]).0 == k,
{
    m.iter().collect()
}

} // verus!
