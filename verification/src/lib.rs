//! Verified decisions of four small network servers: a chat room driven by
//! io_uring completions (with the generational arena that tracks operations in
//! flight), a price store with range means, a primality test, and a key-value
//! store served over datagrams.
pub mod arena;
pub mod arena_history;
pub mod asset;
pub mod chat;
pub mod database;
pub mod prime;
pub mod text;
