//! Node layer of a content-addressed, versioned file system.
//!
//! A [`node::PublicNode`] is either a file or a directory. Every node carries
//! metadata, a set of content identifiers of its predecessor versions, and a
//! write-once cell remembering the address it was last persisted under.
//! Nodes are stored into and loaded from a content-addressable block store;
//! a directory persists its in-memory children before its own record.

pub mod cid;
pub mod codec;
pub mod error;
pub mod laws;
pub mod metadata;
pub mod node;
pub mod order;
pub mod store;
pub mod utils;
