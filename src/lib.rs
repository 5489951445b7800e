//! A verified core for streaming an accessibility tree to many clients:
//! a read-only view of tree nodes, a lazily built tree store, the hub that
//! fans tree payloads out to connections, and the relay of action requests.

pub mod action;
pub mod handle;
pub mod hub;
pub mod node;
pub mod store;
