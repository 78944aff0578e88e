//! The errors of the library.

use vstd::prelude::*;

verus! {

/// What is wrong with the sizes of a dealer's proof.
#[derive(Clone, Copy, Debug, PartialEq, Eq)]
pub enum ProofDefect {
    /// The proof polynomial has `len` coefficients where the threshold `t`
    /// asks for `t + 1`.
    PolynomialLength { len: usize, t: usize },
    /// There are `len` commitments where `expected` are due.
    CommitmentCount { len: usize, expected: usize },
    /// The challenge is zero.
    ZeroChallenge,
}

/// What an operation of the library can fail with.
#[derive(Clone, Copy, Debug, PartialEq, Eq)]
pub enum Error {
    /// The bytes are not the canonical encoding of a group element.
    PointDecompressionError([u8; 32]),
    /// Two sequences that should agree in length do not: the length expected
    /// and what it counts, the length found and what it counts.
    CountMismatch(usize, &'static str, usize, &'static str),
    /// Only `count` shares are validated where more than `t` are needed.
    InsufficientShares(usize, usize),
    /// An operation came before the one that sets the named field.
    UninitializedValue(&'static str),
    /// The triple `(n, t, index)` is no honest-majority parameter set.
    InvalidParameterSet(usize, usize, usize),
    /// The sizes of a dealer's proof do not fit the parameters.
    InvalidProof(ProofDefect),
    /// The challenge turns the second generator into the first, so that the
    /// commitments bind nothing: the dealing has to be made again.
    DegenerateChallenge,
}

} // verus!
