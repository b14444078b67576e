//! The ways in which rendering can fail inside the library.
use vstd::prelude::*;

verus! {

/// Why a picture could not be produced.
#[derive(Clone, Copy, Debug, PartialEq, Eq, Structural)]
pub enum RenderError {
    /// The avatar bytes are not a picture that can be decoded.
    Decode,
    /// A picture of the size asked for cannot be held in memory.
    TooLarge,
}

} // verus!
