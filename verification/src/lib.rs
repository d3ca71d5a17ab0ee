//! Verified core of a Redis-protocol proxy.
//!
//! Clients speak RESP to the proxy; each command (or pipeline of commands) is
//! routed to one or more backend Redis instances chosen by a hash/distributor
//! pair, and the replies are returned in the client's original request order.
//! This crate holds the decision logic of that proxy — message encoding,
//! routing-key extraction, key distribution, batch fragmentation and
//! reassembly, the per-client ordered reply queue, backend health and
//! cool-off, router policies, and shutdown accounting — all with proved
//! contracts.  The sockets, timers and task plumbing around it live in the
//! accompanying daemon.

pub mod ascii;
pub mod backend;
pub mod conf;
pub mod distributor;
pub mod errors;
pub mod listener;
pub mod hasher;
pub mod message;
pub mod pool;
pub mod queue;
pub mod resp;
pub mod router;
pub mod warden;
pub mod schema;
