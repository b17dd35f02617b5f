use vstd::prelude::*;

verus! {

/// Every way an operation of this library can fail. All failures are final:
/// the operation that meets one returns it and leaves no partial result.
#[derive(Clone, Copy, Debug, PartialEq, Eq, Structural)]
pub enum Error {
    /// Two lengths that must agree do not, or a transcript is shorter than
    /// the protocol needs.
    LenMismatch,
    /// The requested subgroup size does not divide `p - 1`, or is not below `p`.
    BadSubgroup,
    /// A length that must be a power of two is not.
    NotAPowerOfTwo,
    /// The divisor is zero, or has no inverse in the field.
    DivByZero,
    /// An exact division left a remainder.
    NonZeroRemainder,
    /// The root of unity does not have the order the final domain needs.
    OmegaOrder,
    /// The interpolated polynomial does not reproduce the final codeword.
    InterpDisagreement,
    /// The final codeword is not of low enough degree.
    InterpDegreeTooHigh,
    /// A node of an authentication path is not the hash of the level below.
    PathMismatch,
    /// An authentication path ends in another root.
    RootMismatch,
    /// The final codeword does not hash to the last committed root.
    LastRootMismatch,
    /// Three opened points of a folding step are not on one line.
    ColinearityFailed,
    /// An opened value is not authenticated by its committed root.
    MerklePathFailed,
    /// More indices are asked for than twice the reduced domain can tell apart.
    NotEnoughEntropy,
    /// More indices are asked for than the reduced domain holds.
    TooManyIndices,
}

} // verus!
