//! The concurrent maps of the `dashmap` crate, each call behind an item of its own.
//!
//! What a map holds is given by a name per kind of map. Every call below goes through `&mut`
//! where it changes the map, so no other holder can change it in between.

use crate::layout::{MaskProfile, MaskView};
use crate::throttle::{still_counts, still_held, within};
use dashmap::DashMap;
use vstd::prelude::*;

verus! {

/// `dashmap::DashMap`, opaque: only the names below say what one holds.
#[verifier::external_type_specification]
#[verifier::external_body]
#[verifier::reject_recursive_types(K)]
#[verifier::reject_recursive_types(V)]
#[verifier::reject_recursive_types(S)]
pub struct ExDashMap<K, V, S>(dashmap::DashMap<K, V, S>);

/// The masks that a map of masks holds, by id.
pub uninterp spec fn held_masks(m: DashMap<String, MaskProfile>) -> Map<Seq<char>, MaskView>;

/// The times that a map of times holds, by id.
pub uninterp spec fn held_times(m: DashMap<String, u64>) -> Map<Seq<char>, u64>;

/// The times that a map of slots holds, by number.
pub uninterp spec fn held_slots(m: DashMap<u128, u64>) -> Map<u128, u64>;

/// The counters that a map of counters holds, by number: a count and when it was started.
pub uninterp spec fn held_counters(m: DashMap<u128, (u64, u64)>) -> Map<u128, (u64, u64)>;

/// `ids` has every key of a map, and each once.
pub open spec fn lists_keys(ids: Seq<String>, m: Map<Seq<char>, MaskView>) -> bool {
    &&& forall|i: int| 0 <= i < ids.len() ==> m.contains_key((#[trigger] ids[i])@)
    &&& forall|i: int, j: int|
        0 <= i < j < ids.len() ==> (#[trigger] ids[i])@ != (#[trigger] ids[j])@
    &&& forall|id: Seq<char>| #[trigger]
        m.contains_key(id) ==> exists|i: int| 0 <= i < ids.len() && (#[trigger] ids[i])@ == id
}

/// `DashMap::new` makes a map that holds nothing.
#[verifier::external_body]
pub(crate) fn new_masks() -> (m: DashMap<String, MaskProfile>)
    ensures
        (held_masks(m) == Map::<Seq<char>, MaskView>::empty()),
{
    DashMap::new()
}

/// `DashMap::get` finds what is held under a key. The result is a copy.
#[verifier::external_body]
pub(crate) fn get_mask(m: &DashMap<String, MaskProfile>, id: &String) -> (mask: Option<
    MaskProfile,
>)
    ensures
        match mask {
            Some(k) => held_masks(*m).contains_key(id@) && held_masks(*m)[id@] == k@,
            None => !held_masks(*m).contains_key(id@),
        },
{
    m.get(id).map(|entry| entry.value().copy())
}

/// `DashMap::insert` holds a value under a key from then on, in place of any other.
#[verifier::external_body]
pub(crate) fn insert_mask(m: &mut DashMap<String, MaskProfile>, id: String, mask: MaskProfile)
    ensures
        held_masks(*final(m)) == held_masks(*old(m)).insert(id@, mask@),
{
    m.insert(id, mask);
}

/// `DashMap::remove` holds nothing under the key from then on.
#[verifier::external_body]
pub(crate) fn remove_mask(m: &mut DashMap<String, MaskProfile>, id: &String)
    ensures
        held_masks(*final(m)) == held_masks(*old(m)).remove(id@),
{
    m.remove(id);
}

/// `DashMap::len` counts what is held.
#[verifier::external_body]
pub(crate) fn count_masks(m: &DashMap<String, MaskProfile>) -> (n: usize)
    ensures
        n == held_masks(*m).dom().len(),
{
    m.len()
}

/// `DashMap::iter` goes through everything that is held, once, in no particular order. Only
/// the keys are taken here.
#[verifier::external_body]
pub(crate) fn list_mask_ids(m: &DashMap<String, MaskProfile>) -> (ids: Vec<String>)
    ensures
        lists_keys(ids@, held_masks(*m)),
{
    m.iter().map(|entry| entry.key().clone()).collect()
}

/// `DashMap::new` makes a map that holds nothing.
#[verifier::external_body]
pub(crate) fn new_times() -> (m: DashMap<String, u64>)
    ensures
        (held_times(m) == Map::<Seq<char>, u64>::empty()),
{
    DashMap::new()
}

/// `DashMap::insert` holds a value under a key from then on, in place of any other.
#[verifier::external_body]
pub(crate) fn insert_time(m: &mut DashMap<String, u64>, id: String, at: u64)
    ensures
        held_times(*final(m)) == held_times(*old(m)).insert(id@, at),
{
    m.insert(id, at);
}

/// `DashMap::contains_key` tells whether anything is held under a key.
#[verifier::external_body]
pub(crate) fn has_time(m: &DashMap<String, u64>, id: &String) -> (held: bool)
    ensures
        held == held_times(*m).contains_key(id@),
{
    m.contains_key(id)
}

/// `DashMap::new` makes a map that holds nothing.
#[verifier::external_body]
pub(crate) fn new_slots() -> (m: DashMap<u128, u64>)
    ensures
        (held_slots(m) == Map::<u128, u64>::empty()),
{
    DashMap::new()
}

/// `DashMap::get` finds what is held under a key.
#[verifier::external_body]
pub(crate) fn get_slot(m: &DashMap<u128, u64>, key: u128) -> (at: Option<u64>)
    ensures
        match at {
            Some(t) => held_slots(*m).contains_key(key) && held_slots(*m)[key] == t,
            None => !held_slots(*m).contains_key(key),
        },
{
    m.get(&key).map(|entry| *entry.value())
}

/// `DashMap::insert` holds a value under a key from then on, in place of any other.
#[verifier::external_body]
pub(crate) fn insert_slot(m: &mut DashMap<u128, u64>, key: u128, at: u64)
    ensures
        held_slots(*final(m)) == held_slots(*old(m)).insert(key, at),
{
    m.insert(key, at);
}

/// `DashMap::retain` keeps exactly the entries for which the predicate says so; here it is
/// [`still_held`].
#[verifier::external_body]
pub(crate) fn retain_slots(m: &mut DashMap<u128, u64>, now: u64, window: u64)
    ensures
        held_slots(*final(m)) == Map::new(
            |key: u128| held_slots(*old(m)).contains_key(key) && within(held_slots(*old(m))[key], now, window),
            |key: u128| held_slots(*old(m))[key],
        ),
{
    m.retain(|_, at| still_held(*at, now, window));
}

/// `DashMap::new` makes a map that holds nothing.
#[verifier::external_body]
pub(crate) fn new_counters() -> (m: DashMap<u128, (u64, u64)>)
    ensures
        (held_counters(m) == Map::<u128, (u64, u64)>::empty()),
{
    DashMap::new()
}

/// `DashMap::get` finds what is held under a key.
#[verifier::external_body]
pub(crate) fn get_counter(m: &DashMap<u128, (u64, u64)>, key: u128) -> (counter: Option<(u64, u64)>)
    ensures
        match counter {
            Some(c) => held_counters(*m).contains_key(key) && held_counters(*m)[key] == c,
            None => !held_counters(*m).contains_key(key),
        },
{
    m.get(&key).map(|entry| *entry.value())
}

/// `DashMap::insert` holds a value under a key from then on, in place of any other.
#[verifier::external_body]
pub(crate) fn insert_counter(m: &mut DashMap<u128, (u64, u64)>, key: u128, counter: (u64, u64))
    ensures
        held_counters(*final(m)) == held_counters(*old(m)).insert(key, counter),
{
    m.insert(key, counter);
}

/// `DashMap::remove` holds nothing under the key from then on.
#[verifier::external_body]
pub(crate) fn remove_counter(m: &mut DashMap<u128, (u64, u64)>, key: u128)
    ensures
        held_counters(*final(m)) == held_counters(*old(m)).remove(key),
{
    m.remove(&key);
}

/// `DashMap::retain` keeps exactly the entries for which the predicate says so; here it is
/// [`still_counts`].
#[verifier::external_body]
pub(crate) fn retain_counters(m: &mut DashMap<u128, (u64, u64)>, now: u64, window: u64)
    ensures
        held_counters(*final(m)) == Map::new(
            |key: u128|
                held_counters(*old(m)).contains_key(key) && within(
                    held_counters(*old(m))[key].1,
                    now,
                    window,
                ),
            |key: u128| held_counters(*old(m))[key],
        ),
{
    m.retain(|_, counter| still_counts(*counter, now, window));
}

} // verus!
