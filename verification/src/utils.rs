//! Small helpers shared across the crate.

use crate::error::FsError;
use vstd::prelude::*;

verus! {

/// Carries the observed content of a write-once cell so that it can be
/// inspected and printed alongside other node state.
#[derive(Debug)]
pub struct OnceCellDebug<T: core::fmt::Debug>(pub Option<T>);

/// Splits the last segment off a path, returning the leading segments and
/// the final one; an empty path is invalid.
pub fn split_last(path_segments: &[String]) -> (r: Result<(&[String], &String), FsError>)
    ensures
        path_segments@.len() == 0 <==> r is Err,
        r matches Err(e) ==> e == FsError::InvalidPath,
        r matches Ok(p) ==> {
            &&& p.0@ == path_segments@.take(path_segments@.len() - 1)
            &&& *p.1 == path_segments@.last()
        },
{
    let len = path_segments.len();
    if len == 0 {
        Err(FsError::InvalidPath)
    } else {
        let rest = &path_segments[0..len - 1];
        let last = &path_segments[len - 1];
        Ok((rest, last))
    }
}

} // verus!
