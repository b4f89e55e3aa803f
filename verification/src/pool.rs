//! The pool of live servers: a slot map that hands out a stable handle for
//! each server and walks its servers in the order of their slots.

use crate::server::{Server, ServerView};
use slotmap::{DefaultKey, SlotMap};
use vstd::prelude::*;

verus! {

#[verifier::external_type_specification]
#[verifier::external_body]
pub struct ExDefaultKey(DefaultKey);

/// The handle of a server. It stays valid, and names the same server,
/// until that server is removed.
pub type ServerKey = DefaultKey;

/// The live servers, in a `SlotMap`. The map is reached only through the
/// functions of this module.
#[verifier::external_body]
pub struct Pool {
    slots: SlotMap<DefaultKey, Server>,
}

/// The servers that a pool holds, each under its handle.
pub uninterp spec fn pool_servers(pool: Pool) -> Map<ServerKey, ServerView>;

/// The handles of a pool's servers in the order in which the slot map
/// walks them, which is the order of their slots.
pub uninterp spec fn pool_order(pool: Pool) -> Seq<ServerKey>;

/// A request that has been routed: the server picked for it, whether it
/// failed there, and its key.
#[derive(Debug, Clone, Copy)]
pub struct Routed {
    pub server: ServerKey,
    pub error: bool,
    pub request: u64,
}

/// What a pool holds, as plain values.
pub struct PoolView {
    /// The handles, in the order in which the pool is walked.
    pub order: Seq<ServerKey>,
    /// The server under each handle.
    pub servers: Map<ServerKey, ServerView>,
}

impl View for Pool {
    type V = PoolView;

    open spec fn view(&self) -> PoolView {
        PoolView { order: pool_order(*self), servers: pool_servers(*self) }
    }
}

impl PoolView {
    /// The walk visits each server once and nothing else, and every server
    /// is valid.
    pub open spec fn wf(self) -> bool {
        &&& self.order.no_duplicates()
        &&& forall|key: ServerKey|
            #![trigger self.servers.contains_key(key)]
            #![trigger self.order.contains(key)]
            self.servers.contains_key(key) <==> self.order.contains(key)
        &&& forall|key: ServerKey| self.servers.contains_key(key) ==> (#[trigger] self.servers[key]).wf()
    }

    /// The pool at the start of the next tick: every server has rolled its
    /// load history.
    pub open spec fn rolled(self) -> PoolView {
        PoolView { order: self.order, servers: self.servers.map_values(|server: ServerView| server.rolled()) }
    }

    /// The pool after the server under `key` has booked a request for
    /// `request` whose outcome was `error`.
    pub open spec fn booked(self, key: ServerKey, error: bool, request: u64) -> PoolView {
        PoolView { order: self.order, servers: self.servers.insert(key, self.servers[key].ran(error, request)) }
    }

    /// Whether the pool books a routed request: its server is live and
    /// the counter of that server's current tick is below its limit.
    pub open spec fn books(self, routed: Routed) -> bool {
        self.servers.contains_key(routed.server) && self.servers[routed.server].current().total < u32::MAX
    }

    /// The pool after a routed request, which is booked where the pool
    /// books it and changes nothing where not.
    pub open spec fn after(self, routed: Routed) -> PoolView {
        if self.books(routed) {
            self.booked(routed.server, routed.error, routed.request)
        } else {
            self
        }
    }

    /// The pool after the routed requests, taken in order.
    pub open spec fn after_all(self, routed: Seq<Routed>) -> PoolView
        decreases routed.len(),
    {
        if routed.len() == 0 {
            self
        } else {
            self.after_all(routed.drop_last()).after(routed.last())
        }
    }

    /// How many of the routed requests, taken in order, the pool books.
    pub open spec fn booked_count(self, routed: Seq<Routed>) -> nat
        decreases routed.len(),
    {
        if routed.len() == 0 {
            0
        } else if self.after_all(routed.drop_last()).books(routed.last()) {
            self.booked_count(routed.drop_last()) + 1
        } else {
            self.booked_count(routed.drop_last())
        }
    }

    /// The walk with `key` left out.
    pub open spec fn order_without(self, key: ServerKey) -> Seq<ServerKey> {
        if self.order.contains(key) {
            self.order.remove(self.order.index_of(key))
        } else {
            self.order
        }
    }
}

/// `SlotMap::new`.
///
/// Trusted: the new map holds no server.
#[verifier::external_body]
pub(crate) fn pool_new() -> (pool: Pool)
    ensures
        pool_order(pool) == Seq::<ServerKey>::empty(),
        pool_servers(pool).dom() == Set::<ServerKey>::empty(),
{
    Pool { slots: SlotMap::new() }
}

/// `SlotMap::len`.
///
/// Trusted: the result is the number of servers that a walk visits.
#[verifier::external_body]
pub(crate) fn pool_len(pool: &Pool) -> (n: usize)
    ensures
        n == pool_order(*pool).len(),
{
    pool.slots.len()
}

/// `SlotMap::contains_key`.
///
/// Trusted: the result tells whether a server stands under `key`.
#[verifier::external_body]
pub(crate) fn pool_contains(pool: &Pool, key: ServerKey) -> (live: bool)
    ensures
        live == pool_servers(*pool).contains_key(key),
{
    pool.slots.contains_key(key)
}

/// `SlotMap::insert`.
///
/// Trusted: the server stands under the handle returned, which named no
/// server before; the walk visits it at some place among the others, whose
/// order is unchanged. `insert` panics where it has to add a slot to
/// `u32::MAX` slots; a map whose slots were never detached adds one only
/// when all its slots are taken, so that fewer than `u32::MAX - 1` servers
/// rule the panic out.
#[verifier::external_body]
pub(crate) fn pool_insert(pool: &mut Pool, server: Server) -> (key: ServerKey)
    requires
        pool_order(*old(pool)).len() + 1 < u32::MAX,
    ensures
        !pool_servers(*old(pool)).contains_key(key),
        pool_servers(*final(pool)) == pool_servers(*old(pool)).insert(key, server@),
        exists|i: int|
            0 <= i <= pool_order(*old(pool)).len() && pool_order(*final(pool)) == #[trigger] pool_order(
                *old(pool),
            ).insert(i, key),
{
    pool.slots.insert(server)
}

/// `SlotMap::remove`.
///
/// Trusted: the result is the server that stood under `key`, if one did;
/// none does afterwards, and the others are unchanged, in the map and in
/// the order of the walk.
#[verifier::external_body]
pub(crate) fn pool_remove(pool: &mut Pool, key: ServerKey) -> (removed: Option<Server>)
    ensures
        removed.is_some() == pool_servers(*old(pool)).contains_key(key),
        removed matches Some(server) ==> server@ == pool_servers(*old(pool))[key],
        pool_servers(*final(pool)) == pool_servers(*old(pool)).remove(key),
        removed.is_some() ==> exists|i: int|
            0 <= i < pool_order(*old(pool)).len() && pool_order(*old(pool))[i] == key && pool_order(
                *final(pool),
            ) == #[trigger] pool_order(*old(pool)).remove(i),
        removed.is_none() ==> pool_order(*final(pool)) == pool_order(*old(pool)),
{
    pool.slots.remove(key)
}

/// Indexing a `SlotMap` by a key that it contains.
///
/// Trusted: the result is the server under `key`.
#[verifier::external_body]
pub(crate) fn pool_get(pool: &Pool, key: ServerKey) -> (server: &Server)
    requires
        pool_servers(*pool).contains_key(key),
    ensures
        server@ == pool_servers(*pool)[key],
{
    &pool.slots[key]
}

/// Indexing a `SlotMap` mutably by a key that it contains.
///
/// Trusted: the result is the server under `key`; what is written to it
/// is what the map holds under `key` afterwards, and nothing else in the
/// map changes.
#[verifier::external_body]
pub(crate) fn pool_get_mut(pool: &mut Pool, key: ServerKey) -> (server: &mut Server)
    requires
        pool_servers(*old(pool)).contains_key(key),
    ensures
        server@ == pool_servers(*old(pool))[key],
        pool_servers(*final(pool)) == pool_servers(*old(pool)).insert(key, final(server)@),
        pool_order(*final(pool)) == pool_order(*old(pool)),
{
    &mut pool.slots[key]
}

/// `SlotMap::iter`, with each server reduced to its seed.
///
/// Trusted: the result lists the handles in the order of the walk, each
/// with the seed of its server.
#[verifier::external_body]
pub(crate) fn pool_seeds(pool: &Pool) -> (entries: Vec<(ServerKey, u64)>)
    ensures
        entries@.len() == pool_order(*pool).len(),
        forall|i: int|
            0 <= i < entries@.len() ==> (#[trigger] entries@[i]).0 == pool_order(*pool)[i] && entries@[i].1
                == pool_servers(*pool)[pool_order(*pool)[i]].seed,
{
    pool.slots.iter().map(|(key, server)| (key, server.seed)).collect()
}

} // verus!
