//! Verified authentication and authorization state machine for an
//! etcd-compatible replicated key-value store.
//!
//! The crate models users, roles and per-role key-range permissions, the
//! revision-indexed store they persist in, the derived permission cache, and
//! the execute/sync split that a consensus layer drives.

pub mod backend;
pub mod bytes;
pub mod codec;
pub mod db;
pub mod index;
pub mod perms;
pub mod revision;
pub mod rpc;
pub mod token;
