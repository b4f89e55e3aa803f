//! The bounded least-recently-used set of request keys that each server
//! keeps, held in a `LinkedHashMap`.

use linked_hash_map::LinkedHashMap;
use vstd::prelude::*;

verus! {

/// The number of request keys that a cache holds at most.
pub const CACHE_SIZE: usize = 1000;

#[verifier::external_type_specification]
#[verifier::external_body]
#[verifier::reject_recursive_types(Key)]
#[verifier::reject_recursive_types(Value)]
#[verifier::reject_recursive_types(State)]
pub struct ExLinkedHashMap<Key, Value, State>(LinkedHashMap<Key, Value, State>);

/// The keys of a linked hash map in the order of its list: the front, which
/// `pop_front` removes, comes first; the back, where `insert` and
/// `get_refresh` put an entry, comes last.
pub uninterp spec fn lru_keys(cache: LinkedHashMap<u64, ()>) -> Seq<u64>;

/// `LinkedHashMap::new`.
///
/// Trusted: the new map holds no key.
#[verifier::external_body]
pub(crate) fn lru_new() -> (cache: LinkedHashMap<u64, ()>)
    ensures
        lru_keys(cache) == Seq::<u64>::empty(),
{
    LinkedHashMap::new()
}

/// `LinkedHashMap::len`.
///
/// Trusted: the result is the number of keys held.
#[verifier::external_body]
pub(crate) fn lru_len(cache: &LinkedHashMap<u64, ()>) -> (n: usize)
    ensures
        n == lru_keys(*cache).len(),
{
    cache.len()
}

/// `LinkedHashMap::get_refresh`, with the value found copied out.
///
/// Trusted: a value comes back exactly when the map held `key`; if it did,
/// one entry with that key has moved to the back and the rest keep their
/// order; if not, the map is unchanged.
#[verifier::external_body]
pub(crate) fn lru_refresh(cache: &mut LinkedHashMap<u64, ()>, key: u64) -> (found: Option<()>)
    ensures
        found.is_some() == lru_keys(*old(cache)).contains(key),
        found.is_some() ==> exists|i: int|
            0 <= i < lru_keys(*old(cache)).len() && lru_keys(*old(cache))[i] == key
                && lru_keys(*final(cache)) == #[trigger] lru_keys(*old(cache)).remove(i).push(key),
        found.is_none() ==> lru_keys(*final(cache)) == lru_keys(*old(cache)),
{
    cache.get_refresh(&key).map(|value| *value)
}

/// `LinkedHashMap::pop_front`, with the removed entry dropped.
///
/// Trusted: the front key has left a map that held one, and the rest keep
/// their order; an empty map stays empty.
#[verifier::external_body]
pub(crate) fn lru_pop_front(cache: &mut LinkedHashMap<u64, ()>)
    ensures
        lru_keys(*old(cache)).len() > 0 ==> lru_keys(*final(cache)) == lru_keys(*old(cache)).drop_first(),
        lru_keys(*old(cache)).len() == 0 ==> lru_keys(*final(cache)) == lru_keys(*old(cache)),
{
    cache.pop_front();
}

/// `LinkedHashMap::insert` of a key that the map does not hold.
///
/// Trusted: the key stands at the back afterwards, behind the keys that
/// were there, which keep their order.
#[verifier::external_body]
pub(crate) fn lru_insert(cache: &mut LinkedHashMap<u64, ()>, key: u64)
    requires
        !lru_keys(*old(cache)).contains(key),
    ensures
        lru_keys(*final(cache)) == lru_keys(*old(cache)).push(key),
{
    cache.insert(key, ());
}

/// A cache's keys are valid when none occurs twice and there are at most
/// `CACHE_SIZE` of them.
pub open spec fn cache_wf(keys: Seq<u64>) -> bool {
    keys.no_duplicates() && keys.len() <= CACHE_SIZE
}

/// The keys of a cache after a request for `key`, least recently used
/// first: a key already held moves to the back; a new key is put at the
/// back, after the front key has been evicted from a full cache.
pub open spec fn touched(keys: Seq<u64>, key: u64) -> Seq<u64> {
    if keys.contains(key) {
        keys.remove(keys.index_of(key)).push(key)
    } else if keys.len() >= CACHE_SIZE {
        keys.drop_first().push(key)
    } else {
        keys.push(key)
    }
}

/// The keys of a cache after the requests `requests`, served in order.
pub open spec fn replayed(keys: Seq<u64>, requests: Seq<u64>) -> Seq<u64>
    decreases requests.len(),
{
    if requests.len() == 0 {
        keys
    } else {
        touched(replayed(keys, requests.drop_last()), requests.last())
    }
}

/// A request leaves a valid cache valid, with the requested key as the most
/// recently used one; a miss on a cache with room adds one key, and no
/// other request changes the number of keys.
pub proof fn lemma_touched_valid(keys: Seq<u64>, key: u64)
    requires
        cache_wf(keys),
    ensures
        cache_wf(touched(keys, key)),
        touched(keys, key).last() == key,
        touched(keys, key).len() == keys.len() + if !keys.contains(key) && keys.len() < CACHE_SIZE {
            1int
        } else {
            0int
        },
        forall|other: u64|
            keys.contains(other) && !touched(keys, key).contains(other) ==> other == keys[0]
                && !keys.contains(key) && keys.len() == CACHE_SIZE,
        forall|other: u64| touched(keys, key).contains(other) ==> other == key || keys.contains(other),
{
    let after = touched(keys, key);
    if keys.contains(key) {
        let i = keys.index_of(key);
        let rest = keys.remove(i);
        assert forall|a: int, b: int| 0 <= a < after.len() && 0 <= b < after.len() && a != b implies after[a]
            != after[b] by {
            let ka = if a < i { a } else { a + 1 };
            let kb = if b < i { b } else { b + 1 };
            if a < rest.len() && b < rest.len() {
                assert(after[a] == keys[ka] && after[b] == keys[kb]);
            } else if a < rest.len() {
                assert(after[a] == keys[ka] && after[b] == keys[i]);
            } else {
                assert(after[b] == keys[kb] && after[a] == keys[i]);
            }
        }
        assert forall|other: u64| keys.contains(other) implies after.contains(other) by {
            let j = keys.index_of(other);
            if j == i {
                assert(after[after.len() - 1] == other);
            } else if j < i {
                assert(after[j] == other);
            } else {
                assert(after[j - 1] == other);
            }
        }
        assert forall|other: u64| after.contains(other) implies other == key || keys.contains(other) by {
            let j = after.index_of(other);
            if j < rest.len() {
                let kj = if j < i { j } else { j + 1 };
                assert(keys[kj] == other);
            }
        }
    } else {
        let base = if keys.len() >= CACHE_SIZE { keys.drop_first() } else { keys };
        assert(after == base.push(key));
        assert forall|a: int, b: int| 0 <= a < after.len() && 0 <= b < after.len() && a != b implies after[a]
            != after[b] by {
            let off: int = if keys.len() >= CACHE_SIZE { 1 } else { 0 };
            if a < base.len() {
                assert(after[a] == keys[a + off]);
            }
            if b < base.len() {
                assert(after[b] == keys[b + off]);
            }
        }
        assert forall|other: u64| keys.contains(other) && !after.contains(other) implies other == keys[0]
            && keys.len() == CACHE_SIZE by {
            let j = keys.index_of(other);
            if keys.len() >= CACHE_SIZE {
                if j > 0 {
                    assert(after[j - 1] == other);
                }
            } else {
                assert(after[j] == other);
            }
        }
        assert forall|other: u64| after.contains(other) implies other == key || keys.contains(other) by {
            let j = after.index_of(other);
            let off: int = if keys.len() >= CACHE_SIZE { 1 } else { 0 };
            if j < base.len() {
                assert(keys[j + off] == other);
            }
        }
    }
}

/// Serves a request for `key`: tells whether the cache held it, and leaves
/// it as the most recently used key, evicting the least recently used one
/// where a full cache has to take a new key.
pub fn cache_touch(cache: &mut LinkedHashMap<u64, ()>, key: u64) -> (hit: bool)
    requires
        cache_wf(lru_keys(*old(cache))),
    ensures
        hit == lru_keys(*old(cache)).contains(key),
        lru_keys(*final(cache)) == touched(lru_keys(*old(cache)), key),
        cache_wf(lru_keys(*final(cache))),
{
    proof {
        lemma_touched_valid(lru_keys(*cache), key);
    }
    let ghost before = lru_keys(*cache);
    if lru_refresh(cache, key).is_some() {
        proof {
            let i = choose|i: int|
                0 <= i < before.len() && before[i] == key && lru_keys(*cache) == #[trigger] before.remove(
                    i,
                ).push(key);
            assert(i == before.index_of(key));
        }
        true
    } else {
        if lru_len(cache) >= CACHE_SIZE {
            lru_pop_front(cache);
            assert forall|i: int| 0 <= i < before.drop_first().len() implies before.drop_first()[i] != key by {
                assert(before.drop_first()[i] == before[i + 1]);
            }
        }
        lru_insert(cache, key);
        false
    }
}

/// The last `CACHE_SIZE` of `requests`, or all of them where there are
/// fewer.
pub open spec fn latest(requests: Seq<u64>) -> Seq<u64> {
    if requests.len() <= CACHE_SIZE {
        requests
    } else {
        requests.subrange(requests.len() - CACHE_SIZE, requests.len() as int)
    }
}

/// Requests for keys that all differ, served by an empty cache, leave the
/// last `CACHE_SIZE` of them in the cache, in the order of the requests:
/// after `CACHE_SIZE + 1` such requests exactly `CACHE_SIZE` keys are held,
/// and the one that has left is the first one requested.
pub proof fn lemma_distinct_requests_keep_latest(requests: Seq<u64>)
    requires
        requests.no_duplicates(),
    ensures
        replayed(Seq::empty(), requests) == latest(requests),
    decreases requests.len(),
{
    if requests.len() > 0 {
        let earlier = requests.drop_last();
        let key = requests.last();
        lemma_distinct_requests_keep_latest(earlier);
        let held = latest(earlier);
        assert forall|i: int| 0 <= i < held.len() implies held[i] != key by {
            let off: int = if earlier.len() <= CACHE_SIZE { 0 } else { earlier.len() - CACHE_SIZE };
            assert(held[i] == requests[i + off]);
        }
        assert(touched(held, key) =~= latest(requests));
    }
}

/// A request for a key that a full cache holds spares that key at the next
/// eviction: where no such request comes, a new key evicts the front key;
/// after a request for a held key, a new key leaves that key in the cache.
pub proof fn lemma_refresh_spares_key(keys: Seq<u64>, held: u64, fresh: u64)
    requires
        cache_wf(keys),
        keys.len() == CACHE_SIZE,
        keys.contains(held),
        !keys.contains(fresh),
    ensures
        !touched(keys, fresh).contains(keys[0]),
        touched(touched(keys, held), fresh).contains(held),
        touched(touched(keys, held), fresh).len() == CACHE_SIZE,
{
    lemma_touched_valid(keys, fresh);
    let after = touched(keys, fresh);
    assert forall|i: int| 0 <= i < after.len() implies after[i] != keys[0] by {
        if i < after.len() - 1 {
            assert(after[i] == keys[i + 1]);
        }
    }
    lemma_touched_valid(keys, held);
    let refreshed = touched(keys, held);
    lemma_touched_valid(refreshed, fresh);
    let last = touched(refreshed, fresh);
    assert(refreshed[refreshed.len() - 1] == held);
    assert(last[last.len() - 2] == held);
}

} // verus!
