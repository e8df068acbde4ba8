//! Node metadata: creation and modification timestamps.
//!
//! Timestamps are Unix times in whole seconds. How a calendar date maps to
//! such a number is the concern of the surrounding application; this layer
//! only records and upserts the values.

use vstd::prelude::*;

verus! {

/// Creation and modification times of a node, as Unix timestamps in seconds.
#[derive(Clone, Copy, Debug, PartialEq, Eq, Structural)]
pub struct Metadata {
    /// When the node was created, in seconds since the Unix epoch.
    pub created: i64,
    /// When the node was last modified, in seconds since the Unix epoch.
    pub modified: i64,
}

impl Metadata {
    /// Fresh metadata for a node created at `time`: both stamps equal `time`.
    pub fn new(time: i64) -> (r: Metadata)
        ensures
            r.created == time,
            r.modified == time,
    {
        Metadata { created: time, modified: time }
    }

    /// Sets the modification time, leaving the creation time alone.
    pub fn upsert_mtime(&mut self, time: i64)
        ensures
            final(self).created == old(self).created,
            final(self).modified == time,
    {
        self.modified = time;
    }
}

} // verus!
