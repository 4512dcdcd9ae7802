//! Trusted declarations over the outside crates the coordinator relies on:
//! the bounded LRU heartbeat cache, random identifiers, the clock, and the
//! uniform shuffle used for replica target selection.

use vstd::prelude::*;
use rand::seq::SliceRandom;
use crate::datanode_info::DatanodeInfo;

verus! {

/// The lru crate's cache type, declared so values of it can stand in fields.
#[verifier::external_type_specification]
#[verifier::external_body]
#[verifier::reject_recursive_types(K)]
#[verifier::reject_recursive_types(V)]
#[verifier::reject_recursive_types(S)]
pub struct ExLruCache<K, V, S>(lru::LruCache<K, V, S>);

/// The concrete heartbeat cache: server id → last-heartbeat timestamp.
pub type HeartbeatCache = lru::LruCache<u128, i64>;

/// What the heartbeat cache holds: server id → last-heartbeat timestamp.
pub uninterp spec fn lru_contents(c: lru::LruCache<u128, i64>) -> Map<u128, i64>;

/// Relies on lru::LruCache::new: a fresh cache is empty (the capacity must
/// not be zero, or the conversion to NonZeroUsize panics).
#[verifier::external_body]
pub fn lru_new(cap: usize) -> (r: HeartbeatCache)
    requires
        cap >= 1,
    ensures
        lru_contents(r) =~= Map::empty(),
{
    lru::LruCache::new(std::num::NonZeroUsize::new(cap).unwrap())
}


/// Relies on lru::LruCache::put: binds the key to the value and returns the
/// old value if the key was present; when the cache is full and the key is
/// new, one least-recently-used entry leaves.
#[verifier::external_body]
pub fn lru_put(c: &mut lru::LruCache<u128, i64>, k: u128, v: i64) -> (r: Option<i64>)
    ensures
        lru_contents(*final(c)).contains_pair(k, v),
        forall|k2: u128| #[trigger]
            lru_contents(*final(c)).contains_key(k2) ==> k2 == k || (lru_contents(
                *old(c),
            ).contains_key(k2) && lru_contents(*final(c))[k2] == lru_contents(*old(c))[k2]),
        lru_contents(*old(c)).contains_key(k) ==> lru_contents(*final(c)) == lru_contents(
            *old(c),
        ).insert(k, v),
        r == (if lru_contents(*old(c)).contains_key(k) {
            Some(lru_contents(*old(c))[k])
        } else {
            None::<i64>
        }),
{
    c.put(k, v)
}

/// Relies on lru::LruCache::pop: removes the key and returns its value.
#[verifier::external_body]
pub fn lru_pop(c: &mut lru::LruCache<u128, i64>, k: &u128) -> (r: Option<i64>)
    ensures
        lru_contents(*final(c)) == lru_contents(*old(c)).remove(*k),
        r == (if lru_contents(*old(c)).contains_key(*k) {
            Some(lru_contents(*old(c))[*k])
        } else {
            None::<i64>
        }),
{
    c.pop(k)
}

/// Relies on lru::LruCache::iter: hands out every entry exactly once.
#[verifier::external_body]
pub fn lru_entries(c: &lru::LruCache<u128, i64>) -> (r: Vec<(u128, i64)>)
    ensures
        forall|i: int|
            0 <= i < r@.len() ==> lru_contents(*c).contains_pair(
                (#[trigger] r@[i]).0,
                r@[i].1,
            ),
        forall|k: u128| #[trigger]
            lru_contents(*c).contains_key(k) ==> exists|i: int|
                0 <= i < r@.len() && (#[trigger] r@[i]).0 == k,
        forall|i: int, j: int| 0 <= i < j < r@.len() ==> r@[i].0 != r@[j].0,
{
    c.iter().map(|(k, v)| (*k, *v)).collect()
}

/// Relies on uuid::Uuid::new_v4: a randomly drawn 128-bit identifier;
/// nothing is promised of its value.
#[verifier::external_body]
pub fn fresh_id() -> u128 {
    uuid::Uuid::new_v4().as_u128()
}

/// Relies on chrono::Utc::now: the current wall-clock time as whole seconds
/// since the epoch; nothing is promised of its value.
#[verifier::external_body]
pub fn now_seconds() -> i64 {
    chrono::Utc::now().timestamp()
}

/// Relies on rand's SliceRandom::shuffle: permutes the servers in place,
/// uniformly at random; the collection of servers is unchanged.
#[verifier::external_body]
pub fn shuffle_datanodes(v: &mut Vec<DatanodeInfo>)
    ensures
        final(v)@.to_multiset() == old(v)@.to_multiset(),
{
    v.shuffle(&mut rand::rng())
}

} // verus!
