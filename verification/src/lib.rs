//! A minimal chat backend: an in-memory entity store of users,
//! conversations, messages and pairwise relationships, a flat-file
//! persistence codec that the store drains into at shutdown and reloads
//! from at startup, and a line-oriented command-protocol engine. Every
//! operation carries a contract: what it returns, when it fails, that
//! referential integrity is preserved, and that loading a saved store
//! reproduces it record for record.

pub mod clock;
pub mod codec;
pub mod entities;
pub mod ids;
pub mod protocol;
pub mod store;
pub mod text;

use vstd::prelude::*;

verus! {

/// Reserved command representation for a console interface; the network
/// protocol supersedes it, so nothing is dispatched on it yet.
pub enum Command {
    /// No console commands are defined yet; this placeholder keeps the
    /// extension point inhabited until one is.
    Reserved,
}

} // verus!
