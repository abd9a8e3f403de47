//! The ways in which a scorer or the finder can refuse its input.

use vstd::prelude::*;

verus! {

#[derive(Clone, Copy, Debug, PartialEq, Eq, Structural)]
pub enum MatchError {
    /// Hamming distance was asked of two strings of different lengths.
    LengthMismatch,
    /// The best match was asked of an empty list of candidates.
    EmptyInput,
    /// A scorer was selected by a name that is not one of the four known.
    InvalidScorerSelector,
}

} // verus!
