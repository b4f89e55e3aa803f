//! Rendezvous selection: the servers that hash a request key highest.

use crate::hashing::{fold_hash, seeded_hash};
use crate::pool::{pool_seeds, Pool, PoolView, ServerKey};
use itertools::Itertools;
use vstd::prelude::*;

verus! {

/// The number of candidates that selection returns for a request.
pub const K: usize = 3;

/// The positions that `k_largest_relaxed_by_key` picks from `hashes`, in the
/// order in which it returns them. Which of two equal hashes it prefers
/// is its own matter; the same hashes and the same `k` give the same
/// positions.
pub uninterp spec fn top_positions(hashes: Seq<u64>, k: usize) -> Seq<usize>;

/// `picks` are positions of the `k` largest of `hashes` (of all, where
/// there are fewer), the largest first: no position occurs twice, and no
/// hash at a position left out exceeds one at a position picked.
pub open spec fn is_top(hashes: Seq<u64>, k: usize, picks: Seq<usize>) -> bool {
    &&& picks.len() == if k <= hashes.len() {
        k as nat
    } else {
        hashes.len()
    }
    &&& forall|i: int| 0 <= i < picks.len() ==> #[trigger] picks[i] < hashes.len()
    &&& forall|i: int, j: int| 0 <= i < j < picks.len() ==> #[trigger] picks[i] != #[trigger] picks[j]
    &&& forall|i: int, j: int|
        #![trigger picks[i], picks[j]]
        0 <= i < j < picks.len() ==> hashes[picks[i] as int] >= hashes[picks[j] as int]
    &&& forall|p: int, i: int|
        #![trigger hashes[p], picks[i]]
        0 <= p < hashes.len() && 0 <= i < picks.len() && !picks.contains(p as usize) ==> hashes[p]
            <= hashes[picks[i] as int]
}

/// `Itertools::k_largest_relaxed_by_key`, on the hashes paired with their
/// positions and keyed by the hash, reduced to the positions.
///
/// Trusted: the result is what `top_positions` names, and it is a top
/// selection as `is_top` says. The call doubles `k`, so `k` is at most
/// half of `usize::MAX`.
#[verifier::external_body]
pub(crate) fn k_largest_positions(hashes: &Vec<u64>, k: usize) -> (picks: Vec<usize>)
    requires
        k <= usize::MAX / 2,
    ensures
        picks@ == top_positions(hashes@, k),
        is_top(hashes@, k, picks@),
{
    hashes.iter().copied().enumerate().k_largest_relaxed_by_key(k, |entry| entry.1).map(|entry| entry.0).collect()
}

/// The hashes of the entries, in their order.
pub open spec fn hashes_of(hashed: Seq<(ServerKey, u64)>) -> Seq<u64> {
    hashed.map_values(|entry: (ServerKey, u64)| entry.1)
}

/// The handles of the entries at the given positions, in the order of the
/// positions.
pub open spec fn keys_at(hashed: Seq<(ServerKey, u64)>, picks: Seq<usize>) -> Seq<ServerKey> {
    picks.map_values(|p: usize| hashed[p as int].0)
}

/// The handles of the entries at the given positions.
pub fn servers_at(hashed: &Vec<(ServerKey, u64)>, picks: &Vec<usize>) -> (chosen: Vec<ServerKey>)
    requires
        forall|i: int| 0 <= i < picks@.len() ==> #[trigger] picks@[i] < hashed@.len(),
    ensures
        chosen@ == keys_at(hashed@, picks@),
{
    let mut chosen: Vec<ServerKey> = Vec::new();
    let mut rank: usize = 0;
    while rank < picks.len()
        invariant
            rank <= picks@.len(),
            chosen@.len() == rank,
            forall|i: int| 0 <= i < picks@.len() ==> #[trigger] picks@[i] < hashed@.len(),
            forall|i: int| 0 <= i < rank ==> #[trigger] chosen@[i] == hashed@[picks@[i] as int].0,
        decreases picks@.len() - rank,
    {
        chosen.push(hashed[picks[rank]].0);
        rank += 1;
    }
    assert(chosen@ =~= keys_at(hashed@, picks@));
    chosen
}

/// The handles of the `k` entries with the largest hashes, the largest
/// first; of all entries, where there are fewer than `k`.
pub fn top_servers(hashed: &Vec<(ServerKey, u64)>, k: usize) -> (chosen: Vec<ServerKey>)
    requires
        k <= usize::MAX / 2,
    ensures
        chosen@ == keys_at(hashed@, top_positions(hashes_of(hashed@), k)),
        is_top(hashes_of(hashed@), k, top_positions(hashes_of(hashed@), k)),
{
    let mut hashes: Vec<u64> = Vec::new();
    let mut i: usize = 0;
    while i < hashed.len()
        invariant
            i <= hashed@.len(),
            hashes@.len() == i,
            forall|j: int| 0 <= j < i ==> #[trigger] hashes@[j] == hashed@[j].1,
        decreases hashed@.len() - i,
    {
        hashes.push(hashed[i].1);
        i += 1;
    }
    assert(hashes@ =~= hashes_of(hashed@));
    let picks = k_largest_positions(&hashes, k);
    servers_at(hashed, &picks)
}

impl PoolView {
    /// The hash of `request` under the seed of the server under `key`.
    pub open spec fn hash_of(self, key: ServerKey, request: u64) -> u64 {
        fold_hash(self.servers[key].seed, request)
    }

    /// The servers in walking order, each with its hash of `request`.
    pub open spec fn hashed(self, request: u64) -> Seq<(ServerKey, u64)> {
        Seq::new(self.order.len(), |i: int| (self.order[i], self.hash_of(self.order[i], request)))
    }

    /// The handles that selection returns for `request`, best first.
    pub open spec fn ranking(self, k: usize, request: u64) -> Seq<ServerKey> {
        keys_at(self.hashed(request), top_positions(hashes_of(self.hashed(request)), k))
    }

    /// `chosen` are the `k` live servers that hash `request` highest (all
    /// of them, where there are fewer), the highest first: no server occurs
    /// twice, and no live server left out hashes higher than a chosen one.
    pub open spec fn is_choice(self, k: usize, request: u64, chosen: Seq<ServerKey>) -> bool {
        &&& chosen.len() == if k <= self.order.len() {
            k as nat
        } else {
            self.order.len()
        }
        &&& chosen.no_duplicates()
        &&& forall|i: int| 0 <= i < chosen.len() ==> self.servers.contains_key(#[trigger] chosen[i])
        &&& forall|i: int, j: int|
            #![trigger chosen[i], chosen[j]]
            0 <= i < j < chosen.len() ==> self.hash_of(chosen[i], request) >= self.hash_of(chosen[j], request)
        &&& forall|key: ServerKey, i: int|
            #![trigger self.servers.contains_key(key), chosen[i]]
            self.servers.contains_key(key) && 0 <= i < chosen.len() && !chosen.contains(key) ==> self.hash_of(
                key,
                request,
            ) <= self.hash_of(chosen[i], request)
    }
}

/// The `k` servers with the largest hash of `request` under their seeds,
/// the largest first; all servers, where the pool has fewer than `k`.
pub fn rendezvous_hash(pool: &Pool, k: usize, request: u64) -> (chosen: Vec<ServerKey>)
    requires
        pool@.wf(),
        k <= usize::MAX / 2,
    ensures
        chosen@ == pool@.ranking(k, request),
        pool@.is_choice(k, request, chosen@),
{
    let entries = pool_seeds(pool);
    let mut hashed: Vec<(ServerKey, u64)> = Vec::new();
    let mut i: usize = 0;
    while i < entries.len()
        invariant
            i <= entries@.len(),
            hashed@.len() == i,
            forall|j: int|
                0 <= j < i ==> #[trigger] hashed@[j] == (entries@[j].0, fold_hash(entries@[j].1, request)),
        decreases entries@.len() - i,
    {
        hashed.push((entries[i].0, seeded_hash(entries[i].1, request)));
        i += 1;
    }
    assert(hashed@ =~= pool@.hashed(request));
    let chosen = top_servers(&hashed, k);
    proof {
        lemma_top_is_choice(pool@, k, request, top_positions(hashes_of(hashed@), k));
    }
    chosen
}

/// The servers at the positions of a top selection of the hashes are a
/// choice for the request.
proof fn lemma_top_is_choice(pool: PoolView, k: usize, request: u64, picks: Seq<usize>)
    requires
        pool.wf(),
        pool.order.len() <= usize::MAX,
        is_top(hashes_of(pool.hashed(request)), k, picks),
    ensures
        pool.is_choice(k, request, keys_at(pool.hashed(request), picks)),
{
    let hashes = hashes_of(pool.hashed(request));
    let chosen = keys_at(pool.hashed(request), picks);
    assert forall|i: int| 0 <= i < chosen.len() implies pool.servers.contains_key(#[trigger] chosen[i]) by {
        assert(picks[i] < hashes.len());
        assert(pool.order.contains(pool.order[picks[i] as int]));
    }
    assert forall|i: int, j: int| 0 <= i < chosen.len() && 0 <= j < chosen.len() && i != j implies chosen[i]
        != chosen[j] by {
        assert(picks[i] < hashes.len() && picks[j] < hashes.len());
        assert(picks[i] != picks[j]);
    }
    assert forall|i: int, j: int| 0 <= i < j < chosen.len() implies pool.hash_of(chosen[i], request)
        >= pool.hash_of(chosen[j], request) by {
        assert(picks[i] < hashes.len() && picks[j] < hashes.len());
        assert(hashes[picks[i] as int] >= hashes[picks[j] as int]);
    }
    assert forall|key: ServerKey, i: int|
        pool.servers.contains_key(key) && 0 <= i < chosen.len() && !chosen.contains(key) implies pool.hash_of(
        key,
        request,
    ) <= pool.hash_of(chosen[i], request) by {
        assert(pool.order.contains(key));
        let p = pool.order.index_of(key);
        assert(picks[i] < hashes.len());
        if picks.contains(p as usize) {
            let r = picks.index_of(p as usize);
            assert(picks[r] as int == p);
            assert(chosen[r] == key);
        }
        assert(hashes[p] <= hashes[picks[i] as int]);
    }
}

/// Where no two live servers hash the request alike, the request has one
/// choice and no other: only among equal hashes is anything left open.
pub proof fn lemma_choice_is_unique(
    pool: PoolView,
    k: usize,
    request: u64,
    first: Seq<ServerKey>,
    second: Seq<ServerKey>,
)
    requires
        pool.is_choice(k, request, first),
        pool.is_choice(k, request, second),
        forall|a: ServerKey, b: ServerKey|
            pool.servers.contains_key(a) && pool.servers.contains_key(b) && a != b ==> #[trigger] pool.hash_of(
                a,
                request,
            ) != #[trigger] pool.hash_of(b, request),
    ensures
        first == second,
{
    lemma_choice_contains(pool, k, request, first, second);
    lemma_choice_contains(pool, k, request, second, first);
    assert forall|i: int| 0 <= i < first.len() implies first[i] == second[i] by {
        lemma_choice_agrees_to(pool, k, request, first, second, i);
    }
    assert(first =~= second);
}

/// Two choices for a request, made where no two live servers hash it
/// alike, hold the same servers: every server of the second is in the
/// first.
proof fn lemma_choice_contains(
    pool: PoolView,
    k: usize,
    request: u64,
    first: Seq<ServerKey>,
    second: Seq<ServerKey>,
)
    requires
        pool.is_choice(k, request, first),
        pool.is_choice(k, request, second),
        forall|a: ServerKey, b: ServerKey|
            pool.servers.contains_key(a) && pool.servers.contains_key(b) && a != b ==> #[trigger] pool.hash_of(
                a,
                request,
            ) != #[trigger] pool.hash_of(b, request),
    ensures
        forall|key: ServerKey| second.contains(key) ==> first.contains(key),
{
    if exists|key: ServerKey| second.contains(key) && !first.contains(key) {
        let extra = choose|key: ServerKey| second.contains(key) && !first.contains(key);
        let at = second.index_of(extra);
        assert(pool.servers.contains_key(second[at]));
        // Every server of the first hashes higher than `extra`, so each is in the second.
        assert forall|key: ServerKey| first.contains(key) implies second.contains(key) by {
            let i = first.index_of(key);
            assert(pool.servers.contains_key(first[i]));
            assert(pool.hash_of(extra, request) <= pool.hash_of(first[i], request));
            if !second.contains(key) {
                assert(pool.hash_of(key, request) <= pool.hash_of(second[at], request));
            }
        }
        first.unique_seq_to_set();
        second.unique_seq_to_set();
        vstd::seq_lib::seq_to_set_is_finite(first);
        vstd::seq_lib::seq_to_set_is_finite(second);
        assert(first.to_set().subset_of(second.to_set())) by {
            assert forall|key: ServerKey| first.to_set().contains(key) implies second.to_set().contains(key) by {
                assert(first.contains(key));
            }
        }
        vstd::set_lib::lemma_subset_equality(first.to_set(), second.to_set());
        assert(second.to_set().contains(extra));
        assert(first.to_set().contains(extra));
    }
}

/// Two choices that hold the same servers, best first and without equal
/// hashes, agree at every place.
proof fn lemma_choice_agrees_to(
    pool: PoolView,
    k: usize,
    request: u64,
    first: Seq<ServerKey>,
    second: Seq<ServerKey>,
    place: int,
)
    requires
        pool.is_choice(k, request, first),
        pool.is_choice(k, request, second),
        forall|key: ServerKey| second.contains(key) ==> first.contains(key),
        forall|key: ServerKey| first.contains(key) ==> second.contains(key),
        forall|a: ServerKey, b: ServerKey|
            pool.servers.contains_key(a) && pool.servers.contains_key(b) && a != b ==> #[trigger] pool.hash_of(
                a,
                request,
            ) != #[trigger] pool.hash_of(b, request),
        0 <= place < first.len(),
    ensures
        first[place] == second[place],
    decreases place,
{
    assert forall|j: int| 0 <= j < place implies first[j] == second[j] by {
        lemma_choice_agrees_to(pool, k, request, first, second, j);
    }
    assert(first.contains(first[place]));
    assert(second.contains(second[place]));
    let there = second.index_of(first[place]);
    let here = first.index_of(second[place]);
    assert(pool.servers.contains_key(first[place]) && pool.servers.contains_key(second[place]));
    if there < place {
        assert(first[there] == second[there]);
    } else if here < place {
        assert(first[here] == second[here]);
    } else if there > place {
        assert(pool.hash_of(second[place], request) >= pool.hash_of(second[there], request));
        if here > place {
            assert(pool.hash_of(first[place], request) >= pool.hash_of(first[here], request));
        }
    }
}

/// Selection is a function of the handles in walking order, of the seeds
/// and of the request: two pools that agree on these give the same
/// ranking, whatever their servers have counted or cached, and so does
/// one pool asked twice.
pub proof fn lemma_ranking_deterministic(a: PoolView, b: PoolView, k: usize, request: u64)
    requires
        a.order == b.order,
        forall|i: int| 0 <= i < a.order.len() ==> a.servers[a.order[i]].seed == b.servers[a.order[i]].seed,
    ensures
        a.ranking(k, request) == b.ranking(k, request),
{
    assert(a.hashed(request) =~= b.hashed(request));
}

/// Where one server is live, every choice of at least one candidate is
/// that server, whatever the request.
pub proof fn lemma_single_server_is_chosen(pool: PoolView, k: usize, request: u64, chosen: Seq<ServerKey>)
    requires
        pool.wf(),
        pool.order.len() == 1,
        k >= 1,
        pool.is_choice(k, request, chosen),
    ensures
        chosen == seq![pool.order[0]],
{
    assert(pool.servers.contains_key(chosen[0]));
    assert(pool.order.contains(chosen[0]));
    assert(chosen =~= seq![pool.order[0]]);
}

/// A handle that names no live server is in no choice: a server that was
/// removed is not selected again.
pub proof fn lemma_removed_is_not_chosen(
    before: PoolView,
    after: PoolView,
    key: ServerKey,
    k: usize,
    request: u64,
    chosen: Seq<ServerKey>,
)
    requires
        after.servers == before.servers.remove(key),
        after.is_choice(k, request, chosen),
    ensures
        !chosen.contains(key),
{
    if chosen.contains(key) {
        let i = chosen.index_of(key);
        assert(after.servers.contains_key(chosen[i]));
    }
}

/// Removing a server moves only the requests that it won: a server that
/// alone hashes a request highest still wins it after another server has
/// been removed.
pub proof fn lemma_removal_keeps_other_winner(
    before: PoolView,
    after: PoolView,
    gone: ServerKey,
    request: u64,
    won: Seq<ServerKey>,
    wins: Seq<ServerKey>,
)
    requires
        before.wf(),
        after.wf(),
        after.servers == before.servers.remove(gone),
        before.is_choice(1, request, won),
        after.is_choice(1, request, wins),
        won.len() == 1,
        won[0] != gone,
        forall|other: ServerKey|
            before.servers.contains_key(other) && other != won[0] ==> #[trigger] before.hash_of(other, request)
                != before.hash_of(won[0], request),
    ensures
        wins == won,
{
    let winner = won[0];
    assert(before.servers.contains_key(winner));
    assert(after.servers.contains_key(winner));
    assert(after.order.contains(winner));
    assert(wins.len() == 1);
    let now = wins[0];
    assert(after.servers.contains_key(now));
    if now != winner {
        assert(!wins.contains(winner));
        assert(after.hash_of(winner, request) <= after.hash_of(wins[0], request));
        assert(!won.contains(now));
        assert(before.hash_of(now, request) <= before.hash_of(won[0], request));
        assert(before.hash_of(now, request) != before.hash_of(winner, request));
    }
    assert(wins =~= won);
}

/// Adding a server moves only the requests that it wins: a server that
/// alone hashes a request highest still wins it after another server has
/// been added, unless the new server wins it.
pub proof fn lemma_addition_keeps_other_winner(
    before: PoolView,
    after: PoolView,
    added: ServerKey,
    request: u64,
    won: Seq<ServerKey>,
    wins: Seq<ServerKey>,
)
    requires
        before.wf(),
        after.wf(),
        !before.servers.contains_key(added),
        after.servers.contains_key(added),
        after.servers.remove(added) == before.servers,
        before.is_choice(1, request, won),
        after.is_choice(1, request, wins),
        won.len() == 1,
        forall|other: ServerKey|
            before.servers.contains_key(other) && other != won[0] ==> #[trigger] before.hash_of(other, request)
                != before.hash_of(won[0], request),
    ensures
        wins == won || wins == seq![added],
{
    let winner = won[0];
    assert(before.servers.contains_key(winner));
    assert(after.servers.remove(added).contains_key(winner));
    assert(after.order.contains(added));
    assert(wins.len() == 1);
    let now = wins[0];
    assert(after.servers.contains_key(now));
    if now != winner && now != added {
        assert(after.servers.remove(added).contains_key(now));
        assert(after.servers.remove(added)[now] == after.servers[now]);
        assert(after.servers.remove(added)[winner] == after.servers[winner]);
        assert(!wins.contains(winner));
        assert(after.hash_of(winner, request) <= after.hash_of(wins[0], request));
        assert(!won.contains(now));
        assert(before.hash_of(now, request) <= before.hash_of(won[0], request));
        assert(before.hash_of(now, request) != before.hash_of(winner, request));
    }
    if now == winner {
        assert(wins =~= won);
    } else {
        assert(wins =~= seq![added]);
    }
}

} // verus!
