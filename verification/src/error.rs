//! Errors reported by the engines. Each variant carries the values its message is built from;
//! the command-line front end renders them as text.
use vstd::prelude::*;

verus! {

/// Which encoded object had the wrong length.
#[derive(Clone, Copy, Debug, PartialEq, Eq)]
pub enum Encoded {
    PublicKey,
    SecretKey,
    Ciphertext,
    Signature,
    Hint,
}

/// Which standardized family a variant name was parsed for.
#[derive(Clone, Copy, Debug, PartialEq, Eq)]
pub enum Family {
    MlKem,
    MlDsa,
}

#[derive(Clone, Debug, PartialEq, Eq)]
pub enum PqcError {
    /// `q - 1` is not a multiple of `2n`: no element of order `2n` exists mod q.
    NoElementOfOrder { q: i64, two_n: i64 },
    /// The bounded search found no primitive `2n`-th root of unity mod q.
    NoPrimitiveRoot { q: i64, two_n: i64 },
    /// The ring degree is not a power of two.
    NotPowerOfTwo { n: usize },
    /// The ring degree is outside `[32, 1024]`.
    DegreeOutOfRange { n: usize },
    QTooSmall { q: i32 },
    QNotPrime { q: i32 },
    /// `q` is not `1 (mod two_n)`; `rem` is `(q - 1) mod two_n`.
    QNotNttFriendly { q: i32, two_n: i32, rem: i32 },
    QTooLarge { q: i32 },
    /// `k` (KEM) must be at least 1.
    KZero,
    /// `k` and `l` (DSA) must both be at least 1.
    KOrLZero,
    Gamma1OutOfRange { gamma1: i32, q: i32 },
    TauOutOfRange { tau: u32 },
    /// `gamma1` is below `8 * 256`, so the heuristic eta would be 0.
    Gamma1TooSmall { gamma1: i32, minimum: i32, q: i32 },
    EtaZero,
    /// `beta = tau * eta` is not below `gamma1`.
    BetaTooLarge { beta: i32, gamma1: i32, tau: u32, eta: u32 },
    Gamma2OutOfRange { gamma2: i32, beta: i32, gamma1: i32 },
    /// `2 * gamma2` does not divide `q - 1`; `rem` is the remainder.
    Gamma2NotDivisor { gamma2: i32, q: i32, rem: i32 },
    /// No `(q - 1) / 2^e`, `e` in `1..=9`, lies in `(beta, gamma1 - beta]`.
    NoGamma2 { q: i32, gamma1: i32, beta: i32, tau: u32, eta: u32 },
    /// `gamma2^2 < 9 * tau * 4096^2`: the `c * t0` rejection check would almost never pass.
    Gamma2TooSmallForTau { gamma2: i32, tau: u32 },
    OmegaOutOfRange { omega: u32, maximum: i64 },
    LambdaZero,
    /// An encoded object had the wrong length.
    WrongLength { what: Encoded, expected: usize, got: usize },
    HintCutsNotMonotone,
    HintCutTooLarge { cut: usize, omega: usize },
    HintIndicesNotIncreasing { poly: usize },
    /// Signing found no acceptable candidate within the attempt budget.
    SignAttemptsExhausted { attempts: u32 },
    /// A variant name that is not one of the three standardized sets.
    UnknownVariant { family: Family, given: String },
    /// The outside implementation rejected an encoded public key.
    InvalidPublicKey { len: usize },
    /// The outside signer reported a failure.
    SigningFailed,
    /// An encoded signature of the right length that does not decode.
    SignatureMalformed,
    /// A hex argument had the wrong number of characters.
    HexWrongLength { field: String, len: usize },
    /// A hex argument held a character outside `[0-9a-fA-F]`.
    HexInvalid { field: String },
    /// A rejection sampler read its whole budget of XOF output without finishing.
    XofBudgetExhausted,
    /// The operating system's random source reported a failure.
    RandomSourceFailed,
    /// A stored parameter set belongs to the other family.
    ParamsWrongScheme { expected: Family },
    /// A stored DSA parameter set has a ring degree other than 256.
    ParamsWrongDegree { n: u32 },
    /// A stored parameter set has no knobs for its family.
    ParamsMissingKnobs { family: Family },
    /// A reference benchmark was asked for a set it does not know.
    UnknownReferenceSet { given: String },
}

} // verus!
