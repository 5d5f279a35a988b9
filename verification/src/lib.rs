//! Core of a peer-to-peer group-chat relay service.
//!
//! The crate keeps three pieces of state for every group: the durable
//! relational tables (managers, groups, members, requests, messages and the
//! per-group consensus log), the blob store holding avatars, images, files
//! and voice records, and the in-memory presence roster of the members that
//! are currently online.  The layer coordinator drives admission, the
//! append-only consensus log and the presence-aware broadcasts from a single
//! entry point, and every rule it enforces is stated in its contracts.

use vstd::prelude::*;

pub mod ids;
pub mod text;
pub mod events;
pub mod blobs;
pub mod models;
pub mod message;
pub mod consensus;
pub mod layer;

verus! {

/// Name under which this provider announces itself.
pub const NAME: &'static str = "dao.esse";

/// Whether unknown identities may create groups on this server.
pub const PERMISSIONLESS: bool = true;

/// Number of groups a freshly admitted manager may create.
pub const DEFAULT_REMAIN: i32 = 10;

/// Largest number of packed events answered for one sync request.
pub const SYNC_WINDOW: i64 = 100;

/// Failures the layer surfaces to its dispatcher, which logs them and keeps
/// serving.  Everything a peer should learn about travels as an explicit
/// reply event instead.
#[derive(Clone, Copy, Debug, PartialEq, Eq, Structural)]
pub enum ServerError {
    /// A group, member, manager or request the message names is absent.
    NotFound,
    /// A group with the same group id already exists.
    UniqueViolation,
    /// Stored data could not be used; for images, the bytes do not decode.
    Storage,
}

} // verus!
