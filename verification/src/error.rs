//! What a counter can refuse.

use vstd::prelude::*;

verus! {

/// The ways in which a request to a counter can fail.
#[derive(Debug, Clone, Copy, PartialEq, Eq, Structural)]
pub enum CounterError {
    /// More entries were asked for than the counter has distinct keys.
    InsufficientDistinctKeys,
}

} // verus!
