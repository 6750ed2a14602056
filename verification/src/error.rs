use vstd::prelude::*;

verus! {

/// Why an operation refused its input.
#[derive(Clone, Copy, Debug, PartialEq, Eq, Structural)]
pub enum Error {
    /// A commit key with too few points, or a domain larger than the field
    /// has a subgroup for.
    Construction,
    /// Two sequences that must have one length have different lengths.
    LengthMismatch,
    /// A batch of openings that holds no opening.
    EmptyBatch,
}

} // verus!
