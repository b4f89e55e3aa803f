//! One simulated backend: its hashing seed, the window of its recent load
//! and its cache of request keys.

use crate::cache::{cache_touch, cache_wf, lru_keys, lru_new, touched};
use linked_hash_map::LinkedHashMap;
use std::collections::VecDeque;
use vstd::prelude::*;

verus! {

/// The number of ticks that a server's load history covers.
pub const LOAD_BUFFER: usize = 100;

/// The counters of one tick: the requests routed to the server, those of
/// them that failed, and those of the others that its cache answered.
#[derive(Debug, Clone, Copy, PartialEq, Eq)]
pub struct Load {
    pub total: u32,
    pub errors: u32,
    pub cached: u32,
}

impl Load {
    /// Failed and cached requests are counted among the routed ones.
    pub open spec fn wf(self) -> bool {
        self.errors + self.cached <= self.total
    }

    /// The slot in which nothing has been counted.
    pub open spec fn zero() -> Load {
        Load { total: 0, errors: 0, cached: 0 }
    }

    /// The counters after one more request, which failed (`error`) or was
    /// answered, from the cache (`hit`) or not.
    pub open spec fn counted(self, error: bool, hit: bool) -> Load {
        Load {
            total: (self.total + 1) as u32,
            errors: if error {
                (self.errors + 1) as u32
            } else {
                self.errors
            },
            cached: if !error && hit {
                (self.cached + 1) as u32
            } else {
                self.cached
            },
        }
    }
}

/// A simulated backend.
#[derive(Debug)]
pub struct Server {
    /// The salt under which request keys are hashed for this server.
    pub seed: u64,
    /// One slot per tick, oldest first; the last one counts the current tick.
    pub load: VecDeque<Load>,
    /// The request keys answered last, least recently used first; `None`
    /// for a server that does not cache.
    pub cache: Option<LinkedHashMap<u64, ()>>,
}

/// What a server holds, as plain values.
pub struct ServerView {
    pub seed: u64,
    pub load: Seq<Load>,
    pub cache: Option<Seq<u64>>,
}

impl View for Server {
    type V = ServerView;

    open spec fn view(&self) -> ServerView {
        ServerView {
            seed: self.seed,
            load: self.load@,
            cache: match self.cache {
                Some(cache) => Some(lru_keys(cache)),
                None => None,
            },
        }
    }
}

impl ServerView {
    /// The history covers exactly `LOAD_BUFFER` ticks of valid counters, and
    /// the cache, where there is one, is valid.
    pub open spec fn wf(self) -> bool {
        &&& self.load.len() == LOAD_BUFFER
        &&& forall|i: int| 0 <= i < self.load.len() ==> (#[trigger] self.load[i]).wf()
        &&& self.cache matches Some(keys) ==> cache_wf(keys)
    }

    /// A server as it is created: no request counted in any slot, and an
    /// empty cache where the server is to cache at all.
    pub open spec fn fresh(seed: u64, caching: bool) -> ServerView {
        ServerView {
            seed,
            load: Seq::new(LOAD_BUFFER as nat, |i: int| Load::zero()),
            cache: if caching {
                Some(Seq::empty())
            } else {
                None
            },
        }
    }

    /// Whether the cache answers a request for `key`.
    pub open spec fn holds(self, key: u64) -> bool {
        self.cache matches Some(keys) && keys.contains(key)
    }

    /// The slot of the current tick.
    pub open spec fn current(self) -> Load {
        self.load.last()
    }

    /// The server at the start of the next tick: the oldest slot has left
    /// and an empty one counts the new tick.
    pub open spec fn rolled(self) -> ServerView {
        ServerView { load: self.load.drop_first().push(Load::zero()), ..self }
    }

    /// The server after a request for `key` whose outcome was `error`: the
    /// current slot counts it; an answered request also goes through the
    /// cache, where there is one, and a failed one leaves the cache alone.
    pub open spec fn ran(self, error: bool, key: u64) -> ServerView {
        ServerView {
            seed: self.seed,
            load: self.load.update(self.load.len() - 1, self.current().counted(error, self.holds(key))),
            cache: match self.cache {
                Some(keys) if !error => Some(touched(keys, key)),
                _ => self.cache,
            },
        }
    }
}

impl Server {
    /// A server with the given seed, an all-zero load history of
    /// `LOAD_BUFFER` slots and, where `caching` is set, an empty cache.
    pub fn new(seed: u64, caching: bool) -> (server: Server)
        ensures
            server@ == ServerView::fresh(seed, caching),
            server@.wf(),
    {
        let mut load: VecDeque<Load> = VecDeque::new();
        let mut filled: usize = 0;
        while filled < LOAD_BUFFER
            invariant
                filled <= LOAD_BUFFER,
                load@.len() == filled,
                forall|i: int| 0 <= i < filled ==> load@[i] == Load::zero(),
            decreases LOAD_BUFFER - filled,
        {
            load.push_back(Load { total: 0, errors: 0, cached: 0 });
            filled += 1;
        }
        let cache = if caching {
            Some(lru_new())
        } else {
            None
        };
        let server = Server { seed, load, cache };
        assert(server@.load =~= ServerView::fresh(seed, caching).load);
        server
    }

    /// Opens the slot of a new tick, dropping the oldest slot of a full
    /// history.
    pub fn roll(&mut self)
        requires
            old(self)@.wf(),
        ensures
            final(self)@ == old(self)@.rolled(),
            final(self)@.wf(),
            final(self)@.load.len() == LOAD_BUFFER,
    {
        if self.load.len() >= LOAD_BUFFER {
            self.load.pop_front();
        }
        self.load.push_back(Load { total: 0, errors: 0, cached: 0 });
        assert(self@.load =~= old(self)@.rolled().load);
    }

    /// Books one request for `key` that was routed here and failed
    /// (`error`) or was answered.
    pub fn run(&mut self, error: bool, key: u64)
        requires
            old(self)@.wf(),
            old(self)@.current().total < u32::MAX,
        ensures
            final(self)@ == old(self)@.ran(error, key),
            final(self)@.wf(),
            final(self)@.load.len() == LOAD_BUFFER,
    {
        let mut slot = self.load.pop_back().unwrap();
        assert(slot.wf());
        slot.total += 1;
        if error {
            slot.errors += 1;
        } else {
            let hit = match &mut self.cache {
                Some(cache) => cache_touch(cache, key),
                None => false,
            };
            if hit {
                slot.cached += 1;
            }
        }
        self.load.push_back(slot);
        assert(self@.load =~= old(self)@.ran(error, key).load);
    }
}

} // verus!
