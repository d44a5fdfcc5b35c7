//! How a command ends.

use vstd::prelude::*;

verus! {

/// How a command ends. What could not be answered outranks what was found, so that a gate never
/// goes green on a report nobody could finish.
#[derive(Debug, Clone, Copy, PartialEq, Eq, Structural)]
pub enum Exit {
    /// Everything was answered and nothing was found.
    Clean,
    /// Everything was answered and something was found.
    Findings,
    /// Something could not be answered.
    Incomplete,
    /// The command was not understood.
    Usage,
}

} // verus!
