//! What can go wrong at the library's boundary.

use vstd::prelude::*;

verus! {

/// The ways in which a request to the engine can fail.
#[derive(Clone, Copy, Debug, PartialEq, Eq, Structural)]
pub enum GameError {
    /// A symbol of a code string is not in the colour alphabet.
    UnknownSymbol,
    /// No code is consistent with all the feedback received so far.
    InconsistentFeedback,
    /// A line of feedback is not two counts separated by a comma.
    MalformedFeedback,
}

} // verus!
