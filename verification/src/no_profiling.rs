//! The profiling hooks of a build without a profiler: they do nothing.

use crate::Error;
use vstd::prelude::*;

verus! {

/// The profiling state of a build without a profiler.
pub struct Empty;

/// Starts profiling: without a profiler there is nothing to start.
pub fn init() -> (r: Empty)
    ensures
        r == Empty,
{
    Empty {  }
}

/// Writes the profile that was gathered: without a profiler there is none,
/// and the call succeeds.
pub fn write_perf_file(_state: Empty) -> (r: Result<(), Error>)
    ensures
        r is Ok,
{
    Ok(())
}

} // verus!
