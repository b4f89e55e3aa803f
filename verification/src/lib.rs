//! Request routing over a dynamic pool of servers by weighted rendezvous
//! hashing: top-K selection by a seeded hash, a cumulative-weight sampler,
//! and the per-server bookkeeping of recent load and cached request keys.
//!
//! Requests are routed from outside: for each, `rendezvous_hash` names the
//! candidates and a `Distr` over them picks one for a draw. A tick then
//! runs on the routed requests: `run_load_inner` opens a slot in every
//! load history and books each request on the server picked.

pub mod cache;
pub mod distr;
pub mod hashing;
pub mod pool;
pub mod registry;
pub mod select;
pub mod server;

pub use crate::distr::Distr;
pub use crate::pool::{Pool, Routed, ServerKey};
pub use crate::registry::{
    add_server, add_server_with_seed, contains_server, record, remove_server, roll_load, run_load_inner,
    server_count, view_server_load,
};
pub use crate::select::{rendezvous_hash, servers_at, top_servers, K};
pub use crate::server::{Load, Server, LOAD_BUFFER};
