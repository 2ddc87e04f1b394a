//! The server's entry point.

use crate::error::KvsError;
use vstd::prelude::*;

verus! {

/// Runs the server. No transport is attached yet, so there is nothing to
/// serve and the run ends at once, successfully.
pub fn run() -> (r: Result<(), KvsError>)
    ensures
        r is Ok,
{
    Ok(())
}

} // verus!
