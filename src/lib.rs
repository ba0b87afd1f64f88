//! A forwarding proxy core for a key-value store's request/response wire
//! protocol: the frame codec, the bounded pool of backend connections, the
//! per-client session that relays whole frames, and the acceptor's shutdown
//! decisions. Sockets, tasks and timers belong to the caller, which performs
//! the actions that these types decide and reports what it observed.
pub mod classify;
pub mod codec;
pub mod manager;
pub mod pool;
pub mod session;
