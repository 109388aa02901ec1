//! The hash maps through which the loader finds what it has already seen:
//! `ahash` maps, each with a name for what it holds and one trusted item per
//! method that the loader calls.

use vstd::prelude::*;
use ahash::{AHashMap, AHashSet};
use crate::data::AllocationChain;
use crate::squeeze::{Bucket, SqueezeStats};
use crate::timestamp::Timestamp;
use crate::event::AllocBody;

verus! {

#[verifier::external_type_specification]
#[verifier::external_body]
#[verifier::reject_recursive_types(K)]
#[verifier::reject_recursive_types(V)]
#[verifier::reject_recursive_types(S)]
pub struct ExAHashMap<K, V, S>(AHashMap<K, V, S>);

#[verifier::external_type_specification]
#[verifier::external_body]
pub struct ExRandomState(ahash::RandomState);

#[verifier::external_type_specification]
#[verifier::external_body]
#[verifier::reject_recursive_types(T)]
#[verifier::reject_recursive_types(S)]
pub struct ExAHashSet<T, S>(AHashSet<T, S>);

/// The contents of an empty map of this kind.
pub open spec fn key_positions_none() -> Map<(u64, u64), u64> {
    Map::empty()
}

/// What a map from live allocations' keys to their positions holds.
pub uninterp spec fn key_positions(map: AHashMap<(u64, u64), u64>) -> Map<(u64, u64), u64>;

/// The contents of an empty map of this kind.
pub open spec fn number_positions_none() -> Map<u64, u64> {
    Map::empty()
}

/// What a map from one kind of raw number to positions holds.
pub uninterp spec fn number_positions(map: AHashMap<u64, u64>) -> Map<u64, u64>;

/// The contents of an empty map of this kind.
pub open spec fn address_list_positions_none() -> Map<Seq<u64>, u64> {
    Map::empty()
}

/// What a map from lists of addresses to positions holds, each list taken
/// as the sequence of its addresses.
pub uninterp spec fn address_list_positions(map: AHashMap<Vec<u64>, u64>) -> Map<Seq<u64>, u64>;

/// The contents of an empty map of this kind.
pub open spec fn thread_address_lists_none() -> Map<u32, Seq<u64>> {
    Map::empty()
}

/// What a map from threads to lists of addresses holds.
pub uninterp spec fn thread_address_lists(map: AHashMap<u32, Vec<u64>>) -> Map<u32, Seq<u64>>;

/// `AHashMap::new`, for keys of live allocations: an empty map.
#[verifier::external_body]
pub fn key_positions_new() -> (map: AHashMap<(u64, u64), u64>)
    ensures
        key_positions(map) == key_positions_none(),
{
    AHashMap::new()
}

/// `HashMap::contains_key` (through `AHashMap`'s `Deref`): whether the map
/// holds `key`.
#[verifier::external_body]
pub fn key_positions_contains(map: &AHashMap<(u64, u64), u64>, key: (u64, u64)) -> (r: bool)
    ensures
        r == key_positions(*map).contains_key(key),
{
    map.contains_key(&key)
}

/// `AHashMap::get`, with the value copied out: what `key` maps to, if
/// anything.
#[verifier::external_body]
pub fn key_positions_get(map: &AHashMap<(u64, u64), u64>, key: (u64, u64)) -> (value: Option<u64>)
    ensures
        value == (if key_positions(*map).contains_key(key) {
            Some(key_positions(*map)[key])
        } else {
            None::<u64>
        }),
{
    map.get(&key).copied()
}

/// `AHashMap::insert`: maps `key` to `value`, in place of what it mapped to.
#[verifier::external_body]
pub fn key_positions_insert(map: &mut AHashMap<(u64, u64), u64>, key: (u64, u64), value: u64)
    ensures
        key_positions(*final(map)) == key_positions(*old(map)).insert(key, value),
{
    map.insert(key, value);
}

/// `AHashMap::remove`: takes `key` out of the map, and gives back what it
/// mapped to.
#[verifier::external_body]
pub fn key_positions_remove(map: &mut AHashMap<(u64, u64), u64>, key: (u64, u64)) -> (value: Option<u64>)
    ensures
        value == (if key_positions(*old(map)).contains_key(key) {
            Some(key_positions(*old(map))[key])
        } else {
            None::<u64>
        }),
        key_positions(*final(map)) == key_positions(*old(map)).remove(key),
{
    map.remove(&key)
}

/// `AHashMap::new`, for raw numbers: an empty map.
#[verifier::external_body]
pub fn number_positions_new() -> (map: AHashMap<u64, u64>)
    ensures
        number_positions(map) == number_positions_none(),
{
    AHashMap::new()
}

/// `AHashMap::get`, with the value copied out: what `key` maps to, if
/// anything.
#[verifier::external_body]
pub fn number_positions_get(map: &AHashMap<u64, u64>, key: u64) -> (value: Option<u64>)
    ensures
        value == (if number_positions(*map).contains_key(key) {
            Some(number_positions(*map)[key])
        } else {
            None::<u64>
        }),
{
    map.get(&key).copied()
}

/// `AHashMap::insert`: maps `key` to `value`, in place of what it mapped to.
#[verifier::external_body]
pub fn number_positions_insert(map: &mut AHashMap<u64, u64>, key: u64, value: u64)
    ensures
        number_positions(*final(map)) == number_positions(*old(map)).insert(key, value),
{
    map.insert(key, value);
}

/// `AHashMap::new`, for lists of addresses: an empty map.
#[verifier::external_body]
pub fn address_list_positions_new() -> (map: AHashMap<Vec<u64>, u64>)
    ensures
        address_list_positions(map) == address_list_positions_none(),
{
    AHashMap::new()
}

/// `AHashMap::get`, with a slice as the borrowed form of the key and the
/// value copied out: what the list with the same addresses maps to, if
/// anything.
#[verifier::external_body]
pub fn address_list_positions_get(map: &AHashMap<Vec<u64>, u64>, key: &[u64]) -> (value: Option<u64>)
    ensures
        value == (if address_list_positions(*map).contains_key(key@) {
            Some(address_list_positions(*map)[key@])
        } else {
            None::<u64>
        }),
{
    map.get(key).copied()
}

/// `AHashMap::insert`: maps the list `key` to `value`.
#[verifier::external_body]
pub fn address_list_positions_insert(map: &mut AHashMap<Vec<u64>, u64>, key: Vec<u64>, value: u64)
    ensures
        address_list_positions(*final(map)) == address_list_positions(*old(map)).insert(key@, value),
{
    map.insert(key, value);
}

/// `AHashMap::new`, for threads: an empty map.
#[verifier::external_body]
pub fn thread_address_lists_new() -> (map: AHashMap<u32, Vec<u64>>)
    ensures
        thread_address_lists(map) == thread_address_lists_none(),
{
    AHashMap::new()
}

/// `AHashMap::get`, with the list cloned out: the list that `thread` maps
/// to, if any.
#[verifier::external_body]
pub fn thread_address_lists_get(map: &AHashMap<u32, Vec<u64>>, thread: u32) -> (list: Option<Vec<u64>>)
    ensures
        match list {
            Some(list) => thread_address_lists(*map).contains_key(thread) && list@ == thread_address_lists(*map)[thread],
            None => !thread_address_lists(*map).contains_key(thread),
        },
{
    map.get(&thread).cloned()
}

/// `AHashMap::insert`: maps `thread` to `list`.
#[verifier::external_body]
pub fn thread_address_lists_insert(map: &mut AHashMap<u32, Vec<u64>>, thread: u32, list: Vec<u64>)
    ensures
        thread_address_lists(*final(map)) == thread_address_lists(*old(map)).insert(thread, list@),
{
    map.insert(thread, list);
}

/// The contents of an empty map of chains.
pub open spec fn chains_by_first_none() -> Map<u64, AllocationChain> {
    Map::empty()
}

/// What a map from the first allocation of each chain to the chain holds.
pub uninterp spec fn chains_by_first(map: AHashMap<u64, AllocationChain>) -> Map<u64, AllocationChain>;

/// `AHashMap::new`, for chains: an empty map.
#[verifier::external_body]
pub fn chains_by_first_new() -> (map: AHashMap<u64, AllocationChain>)
    ensures
        chains_by_first(map) == chains_by_first_none(),
{
    AHashMap::new()
}

/// `AHashMap::get`, with the chain copied out: the chain that starts with
/// `first`, if any.
#[verifier::external_body]
pub fn chains_by_first_get(map: &AHashMap<u64, AllocationChain>, first: u64) -> (chain: Option<AllocationChain>)
    ensures
        chain == (if chains_by_first(*map).contains_key(first) {
            Some(chains_by_first(*map)[first])
        } else {
            None::<AllocationChain>
        }),
{
    map.get(&first).copied()
}

/// `AHashMap::insert`: maps `first` to `chain`.
#[verifier::external_body]
pub fn chains_by_first_insert(map: &mut AHashMap<u64, AllocationChain>, first: u64, chain: AllocationChain)
    ensures
        chains_by_first(*final(map)) == chains_by_first(*old(map)).insert(first, chain),
{
    map.insert(first, chain);
}

/// What a map from pointers to buffered allocations holds, each bucket
/// as its counter and its events.
pub uninterp spec fn buckets_by_pointer(map: AHashMap<u64, Bucket>) -> Map<u64, (u64, Seq<(Timestamp, AllocBody)>)>;

/// The contents of an empty map of buckets.
pub open spec fn buckets_by_pointer_none() -> Map<u64, (u64, Seq<(Timestamp, AllocBody)>)> {
    Map::empty()
}

/// `AHashMap::new`, for buckets: an empty map.
#[verifier::external_body]
pub fn buckets_by_pointer_new() -> (map: AHashMap<u64, Bucket>)
    ensures
        buckets_by_pointer(map) == buckets_by_pointer_none(),
{
    AHashMap::new()
}

/// `HashMap::contains_key` (through `AHashMap`'s `Deref`): whether a
/// bucket is buffered under `pointer`.
#[verifier::external_body]
pub fn buckets_by_pointer_contains(map: &AHashMap<u64, Bucket>, pointer: u64) -> (r: bool)
    ensures
        r == buckets_by_pointer(*map).contains_key(pointer),
{
    map.contains_key(&pointer)
}

/// `AHashMap::insert`: buffers `bucket` under `pointer`.
#[verifier::external_body]
pub fn buckets_by_pointer_insert(map: &mut AHashMap<u64, Bucket>, pointer: u64, bucket: Bucket)
    ensures
        buckets_by_pointer(*final(map)) == buckets_by_pointer(*old(map)).insert(pointer, bucket@),
{
    map.insert(pointer, bucket);
}

/// `AHashMap::get`, with the events cloned out: the events of the bucket
/// under `pointer`, if any.
#[verifier::external_body]
pub fn buckets_by_pointer_events(map: &AHashMap<u64, Bucket>, pointer: u64) -> (events: Option<Vec<(Timestamp, AllocBody)>>)
    ensures
        match events {
            Some(events) => buckets_by_pointer(*map).contains_key(pointer) && events@ == buckets_by_pointer(*map)[pointer].1,
            None => !buckets_by_pointer(*map).contains_key(pointer),
        },
{
    map.get(&pointer).map(|bucket: &Bucket| bucket.events.clone())
}

/// `AHashMap::remove`: takes the bucket under `pointer` out, if any.
#[verifier::external_body]
pub fn buckets_by_pointer_remove(map: &mut AHashMap<u64, Bucket>, pointer: u64) -> (bucket: Option<Bucket>)
    ensures
        match bucket {
            Some(bucket) => buckets_by_pointer(*old(map)).contains_key(pointer) && bucket@ == buckets_by_pointer(*old(map))[pointer],
            None => !buckets_by_pointer(*old(map)).contains_key(pointer),
        },
        buckets_by_pointer(*final(map)) == buckets_by_pointer(*old(map)).remove(pointer),
{
    map.remove(&pointer)
}

/// `IntoIterator::into_iter` of the map, collected: every pointer and its
/// bucket, each once, in an order that the map's hashing decides.
#[verifier::external_body]
pub fn buckets_by_pointer_entries(map: AHashMap<u64, Bucket>) -> (entries: Vec<(u64, Bucket)>)
    ensures
        forall|i: int|
            #![trigger entries@[i]]
            0 <= i < entries@.len() ==> buckets_by_pointer(map).contains_key(entries@[i].0)
                && entries@[i].1@ == buckets_by_pointer(map)[entries@[i].0],
        forall|p: u64| buckets_by_pointer(map).contains_key(p) ==> exists|i: int|
            0 <= i < entries@.len() && #[trigger] entries@[i].0 == p,
        forall|i: int, j: int|
            0 <= i < j < entries@.len() ==> (#[trigger] entries@[i]).0 != (#[trigger] entries@[j]).0,
{
    map.into_iter().collect()
}

/// What a map from backtraces to their statistics holds.
pub uninterp spec fn stats_by_backtrace(map: AHashMap<u64, SqueezeStats>) -> Map<u64, SqueezeStats>;

/// The contents of an empty map of statistics.
pub open spec fn stats_by_backtrace_none() -> Map<u64, SqueezeStats> {
    Map::empty()
}

/// `AHashMap::new`, for statistics: an empty map.
#[verifier::external_body]
pub fn stats_by_backtrace_new() -> (map: AHashMap<u64, SqueezeStats>)
    ensures
        stats_by_backtrace(map) == stats_by_backtrace_none(),
{
    AHashMap::new()
}

/// `AHashMap::get`, with the statistics copied out.
#[verifier::external_body]
pub fn stats_by_backtrace_get(map: &AHashMap<u64, SqueezeStats>, backtrace: u64) -> (stats: Option<SqueezeStats>)
    ensures
        stats == (if stats_by_backtrace(*map).contains_key(backtrace) {
            Some(stats_by_backtrace(*map)[backtrace])
        } else {
            None::<SqueezeStats>
        }),
{
    map.get(&backtrace).copied()
}

/// `AHashMap::insert`: sets the statistics of `backtrace`.
#[verifier::external_body]
pub fn stats_by_backtrace_insert(map: &mut AHashMap<u64, SqueezeStats>, backtrace: u64, stats: SqueezeStats)
    ensures
        stats_by_backtrace(*final(map)) == stats_by_backtrace(*old(map)).insert(backtrace, stats),
{
    map.insert(backtrace, stats);
}

/// `AHashMap::clone`: a map with the same statistics.
#[verifier::external_body]
pub fn stats_by_backtrace_clone(map: &AHashMap<u64, SqueezeStats>) -> (copy: AHashMap<u64, SqueezeStats>)
    ensures
        stats_by_backtrace(copy) == stats_by_backtrace(*map),
{
    map.clone()
}

/// `IntoIterator::into_iter` of the map, collected: every backtrace and
/// its statistics, each once, in an order that the map's hashing decides.
#[verifier::external_body]
pub fn stats_by_backtrace_entries(map: AHashMap<u64, SqueezeStats>) -> (entries: Vec<(u64, SqueezeStats)>)
    ensures
        forall|i: int|
            #![trigger entries@[i]]
            0 <= i < entries@.len() ==> stats_by_backtrace(map).contains_key(entries@[i].0)
                && entries@[i].1 == stats_by_backtrace(map)[entries@[i].0],
        forall|b: u64| stats_by_backtrace(map).contains_key(b) ==> exists|i: int|
            0 <= i < entries@.len() && #[trigger] entries@[i].0 == b,
        forall|i: int, j: int|
            0 <= i < j < entries@.len() ==> (#[trigger] entries@[i]).0 != (#[trigger] entries@[j]).0,
{
    map.into_iter().collect()
}

/// What a set of raw backtrace identifiers holds.
pub uninterp spec fn backtrace_set(set: AHashSet<u32>) -> Set<u32>;

/// The contents of an empty set of backtraces.
pub open spec fn backtrace_set_none() -> Set<u32> {
    Set::empty()
}

/// `AHashSet::new`, for backtraces: an empty set.
#[verifier::external_body]
pub fn backtrace_set_new() -> (set: AHashSet<u32>)
    ensures
        backtrace_set(set) == backtrace_set_none(),
{
    AHashSet::new()
}

/// `HashSet::insert` (through `AHashSet`'s `DerefMut`): the set gains
/// `backtrace`.
#[verifier::external_body]
pub fn backtrace_set_insert(set: &mut AHashSet<u32>, backtrace: u32)
    ensures
        backtrace_set(*final(set)) == backtrace_set(*old(set)).insert(backtrace),
{
    set.insert(backtrace);
}

/// `HashSet::contains` (through `AHashSet`'s `Deref`): whether the set
/// holds `backtrace`.
#[verifier::external_body]
pub fn backtrace_set_contains(set: &AHashSet<u32>, backtrace: u32) -> (r: bool)
    ensures
        r == backtrace_set(*set).contains(backtrace),
{
    set.contains(&backtrace)
}

/// `AHashSet::clone`: a set with the same members.
#[verifier::external_body]
pub fn backtrace_set_clone(set: &AHashSet<u32>) -> (copy: AHashSet<u32>)
    ensures
        backtrace_set(copy) == backtrace_set(*set),
{
    set.clone()
}

/// What a map from pointers to live allocations holds: each allocation's
/// counter, backtrace and usable size.
pub uninterp spec fn allocation_records(map: AHashMap<u64, (u64, u64, u64)>) -> Map<u64, (u64, u64, u64)>;

/// The contents of an empty map of records.
pub open spec fn allocation_records_none() -> Map<u64, (u64, u64, u64)> {
    Map::empty()
}

/// `AHashMap::new`, for allocation records: an empty map.
#[verifier::external_body]
pub fn allocation_records_new() -> (map: AHashMap<u64, (u64, u64, u64)>)
    ensures
        allocation_records(map) == allocation_records_none(),
{
    AHashMap::new()
}

/// `AHashMap::get`, with the record copied out.
#[verifier::external_body]
pub fn allocation_records_get(map: &AHashMap<u64, (u64, u64, u64)>, pointer: u64) -> (record: Option<(u64, u64, u64)>)
    ensures
        record == (if allocation_records(*map).contains_key(pointer) {
            Some(allocation_records(*map)[pointer])
        } else {
            None::<(u64, u64, u64)>
        }),
{
    map.get(&pointer).copied()
}

/// `AHashMap::insert`: sets the record under `pointer`.
#[verifier::external_body]
pub fn allocation_records_insert(map: &mut AHashMap<u64, (u64, u64, u64)>, pointer: u64, record: (u64, u64, u64))
    ensures
        allocation_records(*final(map)) == allocation_records(*old(map)).insert(pointer, record),
{
    map.insert(pointer, record);
}

/// `AHashMap::remove`: drops the record under `pointer`.
#[verifier::external_body]
pub fn allocation_records_remove(map: &mut AHashMap<u64, (u64, u64, u64)>, pointer: u64)
    ensures
        allocation_records(*final(map)) == allocation_records(*old(map)).remove(pointer),
{
    map.remove(&pointer);
}

/// `IntoIterator::into_iter` of the map, collected: every pointer and its
/// record, each once, in an order that the map's hashing decides.
#[verifier::external_body]
pub fn allocation_records_entries(map: AHashMap<u64, (u64, u64, u64)>) -> (entries: Vec<(u64, (u64, u64, u64))>)
    ensures
        forall|i: int|
            #![trigger entries@[i]]
            0 <= i < entries@.len() ==> allocation_records(map).contains_key(entries@[i].0)
                && entries@[i].1 == allocation_records(map)[entries@[i].0],
        forall|p: u64| allocation_records(map).contains_key(p) ==> exists|i: int|
            0 <= i < entries@.len() && #[trigger] entries@[i].0 == p,
        forall|i: int, j: int|
            0 <= i < j < entries@.len() ==> (#[trigger] entries@[i]).0 != (#[trigger] entries@[j]).0,
{
    map.into_iter().collect()
}

/// `AHashMap::remove`: drops the statistics of `backtrace`.
#[verifier::external_body]
pub fn stats_by_backtrace_remove(map: &mut AHashMap<u64, SqueezeStats>, backtrace: u64)
    ensures
        stats_by_backtrace(*final(map)) == stats_by_backtrace(*old(map)).remove(backtrace),
{
    map.remove(&backtrace);
}

/// `HashMap::is_empty` (through `AHashMap`'s `Deref`): whether no
/// statistics are left.
#[verifier::external_body]
pub fn stats_by_backtrace_is_empty(map: &AHashMap<u64, SqueezeStats>) -> (r: bool)
    ensures
        r == (stats_by_backtrace(*map) == stats_by_backtrace_none()),
{
    map.is_empty()
}

} // verus!
