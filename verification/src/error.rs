//! Recoverable failures of the node layer.

use vstd::prelude::*;

verus! {

/// Why a node operation could not be carried out.
///
/// Narrowing failures (`NotADirectory`, `NotAFile`) are purely local: no
/// I/O has happened and the caller may inspect the node and retry. The
/// remaining kinds surface from loading: the block store had no entry for
/// the requested address, or the stored bytes did not decode as a tagged
/// node record.
#[derive(Clone, Copy, Debug, PartialEq, Eq, Structural)]
pub enum FsError {
    /// A directory-narrowing operation was applied to a file node.
    NotADirectory,
    /// A file-narrowing operation was applied to a directory node.
    NotAFile,
    /// The block store holds nothing under the requested address.
    NotFound,
    /// The stored bytes do not match the tagged wire format.
    DecodeError,
    /// A path had no segments to split.
    InvalidPath,
}

} // verus!
