//! Creating, removing and reading the servers of a pool, and the
//! per-request and per-tick bookkeeping on them.

use crate::pool::{
    pool_contains, pool_get, pool_get_mut, pool_insert, pool_len, pool_new, pool_remove, pool_seeds, Pool,
    PoolView, Routed, ServerKey,
};
use crate::server::{Load, Server, ServerView, LOAD_BUFFER};
use vstd::prelude::*;

verus! {

/// `rand::random`, for a `u64`.
///
/// Trusted: nothing is claimed of the number drawn.
#[verifier::external_body]
pub(crate) fn random_seed() -> u64 {
    rand::random()
}

/// A walk that gained `key` at place `i` visits what it visited before,
/// and `key`.
proof fn lemma_insert_contains(order: Seq<ServerKey>, i: int, key: ServerKey)
    requires
        0 <= i <= order.len(),
        order.no_duplicates(),
        !order.contains(key),
    ensures
        order.insert(i, key).no_duplicates(),
        forall|other: ServerKey| order.insert(i, key).contains(other) <==> other == key || order.contains(other),
{
    let grown = order.insert(i, key);
    assert forall|a: int, b: int| 0 <= a < grown.len() && 0 <= b < grown.len() && a != b implies grown[a]
        != grown[b] by {
        let ka = if a < i { a } else { a - 1 };
        let kb = if b < i { b } else { b - 1 };
        if a != i {
            assert(grown[a] == order[ka]);
        }
        if b != i {
            assert(grown[b] == order[kb]);
        }
    }
    assert forall|other: ServerKey| grown.contains(other) implies other == key || order.contains(other) by {
        let j = grown.index_of(other);
        if j != i {
            let kj = if j < i { j } else { j - 1 };
            assert(order[kj] == other);
        }
    }
    assert forall|other: ServerKey| other == key || order.contains(other) implies grown.contains(other) by {
        if other == key {
            assert(grown[i] == other);
        } else {
            let j = order.index_of(other);
            let gj = if j < i { j } else { j + 1 };
            assert(grown[gj] == other);
        }
    }
}

/// A walk that lost its entry at place `i` visits what it visited before,
/// but for that entry.
proof fn lemma_remove_contains(order: Seq<ServerKey>, i: int)
    requires
        0 <= i < order.len(),
        order.no_duplicates(),
    ensures
        order.remove(i).no_duplicates(),
        forall|other: ServerKey| order.remove(i).contains(other) <==> other != order[i] && order.contains(other),
{
    let rest = order.remove(i);
    assert forall|a: int, b: int| 0 <= a < rest.len() && 0 <= b < rest.len() && a != b implies rest[a]
        != rest[b] by {
        let ka = if a < i { a } else { a + 1 };
        let kb = if b < i { b } else { b + 1 };
        assert(rest[a] == order[ka] && rest[b] == order[kb]);
    }
    assert forall|other: ServerKey| rest.contains(other) implies other != order[i] && order.contains(other) by {
        let j = rest.index_of(other);
        let kj = if j < i { j } else { j + 1 };
        assert(order[kj] == other);
    }
    assert forall|other: ServerKey| other != order[i] && order.contains(other) implies rest.contains(other) by {
        let j = order.index_of(other);
        let rj = if j < i { j } else { j - 1 };
        assert(rest[rj] == other);
    }
}

impl Pool {
    /// A pool without servers.
    pub fn new() -> (pool: Pool)
        ensures
            pool@.wf(),
            pool@.order.len() == 0,
            pool@.servers.dom() == Set::<ServerKey>::empty(),
    {
        pool_new()
    }
}

/// The number of live servers.
pub fn server_count(pool: &Pool) -> (n: usize)
    ensures
        n == pool@.order.len(),
{
    pool_len(pool)
}

/// Whether `key` names a live server.
pub fn contains_server(pool: &Pool, key: &ServerKey) -> (live: bool)
    ensures
        live == pool@.servers.contains_key(*key),
{
    pool_contains(pool, *key)
}

/// Adds a fresh server with the given seed, with a cache where `caching`
/// is set, and returns its handle, which named no live server before. The
/// other servers are unchanged and keep their order in the walk.
pub fn add_server_with_seed(pool: &mut Pool, seed: u64, caching: bool) -> (key: ServerKey)
    requires
        old(pool)@.wf(),
        old(pool)@.order.len() + 1 < u32::MAX,
    ensures
        final(pool)@.wf(),
        !old(pool)@.servers.contains_key(key),
        final(pool)@.servers == old(pool)@.servers.insert(key, ServerView::fresh(seed, caching)),
        exists|i: int|
            0 <= i <= old(pool)@.order.len() && final(pool)@.order == #[trigger] old(pool)@.order.insert(i, key),
{
    let key = pool_insert(pool, Server::new(seed, caching));
    proof {
        let before = old(pool)@.order;
        let i = choose|i: int| 0 <= i <= before.len() && pool@.order == #[trigger] before.insert(i, key);
        lemma_insert_contains(before, i, key);
        assert forall|other: ServerKey| pool@.servers.contains_key(other) implies (#[trigger] pool@.servers[other]).wf() by {
            if other != key {
                assert(old(pool)@.servers.contains_key(other));
            }
        }
        assert forall|other: ServerKey| pool@.servers.contains_key(other) <==> pool@.order.contains(other) by {
            assert(old(pool)@.servers.contains_key(other) <==> before.contains(other));
        }
    }
    key
}

/// Adds a fresh server under a seed drawn at random and returns its
/// handle, as `add_server_with_seed` does for that seed.
pub fn add_server(pool: &mut Pool, caching: bool) -> (key: ServerKey)
    requires
        old(pool)@.wf(),
        old(pool)@.order.len() + 1 < u32::MAX,
    ensures
        final(pool)@.wf(),
        !old(pool)@.servers.contains_key(key),
        final(pool)@.servers.contains_key(key),
        final(pool)@.servers == old(pool)@.servers.insert(
            key,
            ServerView::fresh(final(pool)@.servers[key].seed, caching),
        ),
        exists|i: int|
            0 <= i <= old(pool)@.order.len() && final(pool)@.order == #[trigger] old(pool)@.order.insert(i, key),
{
    add_server_with_seed(pool, random_seed(), caching)
}

/// Removes the server under `key`, if there is one. The handle names no
/// server afterwards; the other servers are unchanged and keep their order
/// in the walk.
pub fn remove_server(pool: &mut Pool, key: ServerKey)
    requires
        old(pool)@.wf(),
    ensures
        final(pool)@.wf(),
        final(pool)@.servers == old(pool)@.servers.remove(key),
        final(pool)@.order == old(pool)@.order_without(key),
{
    let removed = pool_remove(pool, key);
    proof {
        let before = old(pool)@.order;
        if removed.is_some() {
            let i = choose|i: int|
                0 <= i < before.len() && before[i] == key && pool@.order == #[trigger] before.remove(i);
            assert(i == before.index_of(key));
            lemma_remove_contains(before, i);
        }
        assert forall|other: ServerKey| pool@.servers.contains_key(other) implies (#[trigger] pool@.servers[other]).wf() by {
            assert(old(pool)@.servers.contains_key(other));
        }
        assert forall|other: ServerKey| pool@.servers.contains_key(other) <==> pool@.order.contains(other) by {
            assert(old(pool)@.servers.contains_key(other) <==> before.contains(other));
        }
    }
}

/// The load history of the server under `key`, oldest tick first.
pub fn view_server_load(pool: &Pool, key: &ServerKey) -> (history: Vec<Load>)
    requires
        pool@.wf(),
        pool@.servers.contains_key(*key),
    ensures
        history@ == pool@.servers[*key].load,
        history@.len() == LOAD_BUFFER,
{
    let server = pool_get(pool, *key);
    let mut history: Vec<Load> = Vec::new();
    let mut i: usize = 0;
    while i < server.load.len()
        invariant
            i <= server.load@.len(),
            history@ == server.load@.subrange(0, i as int),
        decreases server.load@.len() - i,
    {
        history.push(server.load[i]);
        assert(history@ =~= server.load@.subrange(0, i + 1));
        i += 1;
    }
    assert(history@ =~= server.load@);
    history
}

/// Starts a tick: every server opens the slot of the new tick in its load
/// history. Tells whether there is a server at all, that is, whether the
/// tick has anything to route to.
pub fn roll_load(pool: &mut Pool) -> (live: bool)
    requires
        old(pool)@.wf(),
    ensures
        final(pool)@.wf(),
        live == (old(pool)@.order.len() > 0),
        final(pool)@.order == old(pool)@.order,
        final(pool)@.servers == old(pool)@.rolled().servers,
{
    let ghost before = pool@;
    let entries = pool_seeds(pool);
    let mut i: usize = 0;
    while i < entries.len()
        invariant
            i <= entries@.len(),
            before.wf(),
            entries@.len() == before.order.len(),
            forall|j: int| 0 <= j < entries@.len() ==> (#[trigger] entries@[j]).0 == before.order[j],
            pool@.order == before.order,
            pool@.servers.dom() == before.servers.dom(),
            forall|j: int|
                0 <= j < i ==> pool@.servers[#[trigger] before.order[j]] == before.servers[before.order[j]].rolled(),
            forall|j: int|
                i <= j < entries@.len() ==> pool@.servers[#[trigger] before.order[j]]
                    == before.servers[before.order[j]],
        decreases entries@.len() - i,
    {
        let key = entries[i].0;
        let ghost earlier = pool@;
        assert(before.order[i as int] == key && before.order.contains(key));
        assert(before.servers.contains_key(key) && before.servers[key].wf());
        let server = pool_get_mut(pool, key);
        server.roll();
        assert(pool@.servers.dom() =~= earlier.servers.dom());
        assert forall|j: int| 0 <= j < entries@.len() && j != i implies pool@.servers[#[trigger] before.order[j]]
            == earlier.servers[before.order[j]] by {
            assert(before.order[j] != before.order[i as int]);
        }
        i += 1;
    }
    proof {
        assert forall|key: ServerKey| pool@.servers.contains_key(key) implies #[trigger] pool@.servers[key]
            == before.servers[key].rolled() by {
            assert(before.servers.contains_key(key) && before.order.contains(key));
            let j = before.order.index_of(key);
            assert(before.order[j] == key);
        }
        assert(pool@.servers =~= before.rolled().servers);
        assert forall|key: ServerKey| pool@.servers.contains_key(key) implies (#[trigger] pool@.servers[key]).wf() by {
            assert(before.servers.contains_key(key));
            let view = before.servers[key];
            assert forall|s: int| 0 <= s < view.rolled().load.len() implies (#[trigger] view.rolled().load[s]).wf() by {
                if s < view.load.len() - 1 {
                    assert(view.rolled().load[s] == view.load[s + 1]);
                }
            }
        }
        assert forall|key: ServerKey| pool@.servers.contains_key(key) <==> pool@.order.contains(key) by {
            assert(before.servers.contains_key(key) <==> before.order.contains(key));
        }
    }
    entries.len() > 0
}

/// Books one routed request on the server under `key`: a request for
/// `request` that failed (`error`) or was answered. No other server
/// changes. Nothing is booked, and `false` returned, where `key` names no
/// live server or the counter of the current tick is at its limit.
pub fn record(pool: &mut Pool, key: ServerKey, error: bool, request: u64) -> (booked: bool)
    requires
        old(pool)@.wf(),
    ensures
        final(pool)@.wf(),
        booked == (old(pool)@.servers.contains_key(key) && old(pool)@.servers[key].current().total < u32::MAX),
        booked ==> final(pool)@.servers == old(pool)@.booked(key, error, request).servers,
        !booked ==> final(pool)@.servers == old(pool)@.servers,
        final(pool)@.order == old(pool)@.order,
{
    if !pool_contains(pool, key) {
        return false;
    }
    assert(old(pool)@.servers[key].wf());
    let server = pool_get_mut(pool, key);
    let current = server.load.len() - 1;
    if server.load[current].total == u32::MAX {
        assert(pool@.servers =~= old(pool)@.servers);
        return false;
    }
    server.run(error, request);
    proof {
        assert forall|other: ServerKey| pool@.servers.contains_key(other) implies (#[trigger] pool@.servers[other]).wf() by {
            if other != key {
                assert(old(pool)@.servers.contains_key(other));
            }
        }
        assert forall|other: ServerKey| pool@.servers.contains_key(other) <==> pool@.order.contains(other) by {
            assert(old(pool)@.servers.contains_key(other) <==> old(pool)@.order.contains(other));
        }
    }
    true
}

/// Runs one tick on requests that have been routed: every server opens
/// the slot of the new tick, then the requests are booked in order, each
/// on its server. Returns how many were booked; a request is passed over
/// where its server is not live or that server's counter is at its limit.
pub fn run_load_inner(pool: &mut Pool, routed: &Vec<Routed>) -> (booked: usize)
    requires
        old(pool)@.wf(),
    ensures
        final(pool)@.wf(),
        final(pool)@.order == old(pool)@.order,
        final(pool)@.servers == old(pool)@.rolled().after_all(routed@).servers,
        booked == old(pool)@.rolled().booked_count(routed@),
{
    roll_load(pool);
    let ghost start = pool@;
    assert(start =~= old(pool)@.rolled());
    let mut booked: usize = 0;
    let mut i: usize = 0;
    while i < routed.len()
        invariant
            i <= routed@.len(),
            booked <= i,
            pool@.wf(),
            pool@ == start.after_all(routed@.take(i as int)),
            booked == start.booked_count(routed@.take(i as int)),
            pool@.order == start.order,
        decreases routed@.len() - i,
    {
        let next = routed[i];
        let ghost earlier = pool@;
        let done = record(pool, next.server, next.error, next.request);
        if done {
            booked += 1;
        }
        proof {
            let upto = routed@.take(i + 1);
            assert(upto.drop_last() =~= routed@.take(i as int));
            assert(upto.last() == next);
            assert(done == earlier.books(next));
            assert(pool@ =~= earlier.after(next));
        }
        i += 1;
    }
    assert(routed@.take(routed@.len() as int) =~= routed@);
    booked
}

/// A tick leaves no server with more requests counted in its current slot
/// than were routed.
pub proof fn lemma_tick_counts_at_most_routed(pool: PoolView, routed: Seq<Routed>, key: ServerKey)
    requires
        pool.wf(),
        pool.servers.contains_key(key),
    ensures
        pool.rolled().after_all(routed).servers.contains_key(key),
        pool.rolled().after_all(routed).servers[key].load.len() == LOAD_BUFFER,
        pool.rolled().after_all(routed).servers[key].current().total <= routed.len(),
    decreases routed.len(),
{
    if routed.len() > 0 {
        lemma_tick_counts_at_most_routed(pool, routed.drop_last(), key);
    }
}

/// A tick books every request that it is given, where each names a live
/// server and there are no more of them than a counter holds.
pub proof fn lemma_tick_books_every_request(pool: PoolView, routed: Seq<Routed>)
    requires
        pool.wf(),
        routed.len() <= u32::MAX,
        forall|i: int| 0 <= i < routed.len() ==> pool.servers.contains_key((#[trigger] routed[i]).server),
    ensures
        pool.rolled().booked_count(routed) == routed.len(),
    decreases routed.len(),
{
    if routed.len() > 0 {
        let earlier = routed.drop_last();
        assert forall|i: int| 0 <= i < earlier.len() implies pool.servers.contains_key(
            (#[trigger] earlier[i]).server,
        ) by {
            assert(earlier[i] == routed[i]);
        }
        lemma_tick_books_every_request(pool, earlier);
        lemma_tick_counts_at_most_routed(pool, earlier, routed.last().server);
    }
}

/// How many of the routed requests name the server under `key`.
pub open spec fn routed_to(routed: Seq<Routed>, key: ServerKey) -> nat
    decreases routed.len(),
{
    if routed.len() == 0 {
        0
    } else if routed.last().server == key {
        routed_to(routed.drop_last(), key) + 1
    } else {
        routed_to(routed.drop_last(), key)
    }
}

/// How many of the routed requests failed on the server under `key`.
pub open spec fn failed_at(routed: Seq<Routed>, key: ServerKey) -> nat
    decreases routed.len(),
{
    if routed.len() == 0 {
        0
    } else if routed.last().server == key && routed.last().error {
        failed_at(routed.drop_last(), key) + 1
    } else {
        failed_at(routed.drop_last(), key)
    }
}

/// After a tick that books every request, the current slot of each server
/// counts the requests routed to it and, among them, those that failed.
pub proof fn lemma_tick_counts_exactly(pool: PoolView, routed: Seq<Routed>, key: ServerKey)
    requires
        pool.wf(),
        routed.len() <= u32::MAX,
        forall|i: int| 0 <= i < routed.len() ==> pool.servers.contains_key((#[trigger] routed[i]).server),
        pool.servers.contains_key(key),
    ensures
        pool.rolled().after_all(routed).servers.contains_key(key),
        pool.rolled().after_all(routed).servers[key].current().total == routed_to(routed, key),
        pool.rolled().after_all(routed).servers[key].current().errors == failed_at(routed, key),
        routed_to(routed, key) <= routed.len(),
        failed_at(routed, key) <= routed_to(routed, key),
    decreases routed.len(),
{
    if routed.len() > 0 {
        let earlier = routed.drop_last();
        assert forall|i: int| 0 <= i < earlier.len() implies pool.servers.contains_key(
            (#[trigger] earlier[i]).server,
        ) by {
            assert(earlier[i] == routed[i]);
        }
        lemma_tick_counts_exactly(pool, earlier, key);
        lemma_tick_counts_exactly(pool, earlier, routed.last().server);
        lemma_tick_counts_at_most_routed(pool, earlier, routed.last().server);
    } else {
        assert(pool.rolled().servers[key] == pool.servers[key].rolled());
    }
}

/// A tick on a pool without servers changes nothing and books nothing.
pub proof fn lemma_tick_on_empty_pool(pool: PoolView, routed: Seq<Routed>)
    requires
        pool.wf(),
        pool.order.len() == 0,
    ensures
        pool.rolled().after_all(routed).servers == pool.servers,
        pool.rolled().booked_count(routed) == 0,
    decreases routed.len(),
{
    assert forall|key: ServerKey| !pool.servers.contains_key(key) by {
        assert(!pool.order.contains(key));
    }
    assert(pool.rolled().servers =~= pool.servers);
    if routed.len() > 0 {
        lemma_tick_on_empty_pool(pool, routed.drop_last());
    }
}

} // verus!
