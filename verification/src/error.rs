//! Configuration errors, reported before any hashing begins.

use vstd::prelude::*;

verus! {

/// Why a pair of parameters `(k, w)` was rejected for a sequence.
#[derive(Clone, Copy, Debug, PartialEq, Eq, Structural)]
pub enum InvalidParameter {
    /// The k-mer length is zero.
    ZeroK,
    /// The k-mer length exceeds the width of the hash word.
    KTooLarge,
    /// The k-mer length exceeds the length of the sequence.
    KExceedsLength,
    /// The window length is zero.
    ZeroW,
    /// The number of lanes is zero.
    ZeroLanes,
}

/// The largest k-mer length supported: the width of the hash word in bits.
pub const MAX_K: usize = 64;

/// The verdict on `(k, n)` for hashing a sequence of length `n`.
pub open spec fn hash_verdict(k: int, n: int) -> Option<InvalidParameter> {
    if k == 0 {
        Some(InvalidParameter::ZeroK)
    } else if k > MAX_K {
        Some(InvalidParameter::KTooLarge)
    } else if k > n {
        Some(InvalidParameter::KExceedsLength)
    } else {
        None
    }
}

/// The verdict on `(k, w, n)` for selecting minimizers in a sequence of length `n`.
pub open spec fn minimizer_verdict(k: int, w: int, n: int) -> Option<InvalidParameter> {
    if w == 0 {
        Some(InvalidParameter::ZeroW)
    } else {
        hash_verdict(k, n)
    }
}

/// Validates the k-mer length against the sequence length.
pub fn check_hash_parameters(k: usize, n: usize) -> (r: Result<(), InvalidParameter>)
    ensures
        r == match hash_verdict(k as int, n as int) {
            Some(e) => Err::<(), InvalidParameter>(e),
            None => Ok(()),
        },
{
    if k == 0 {
        Err(InvalidParameter::ZeroK)
    } else if k > MAX_K {
        Err(InvalidParameter::KTooLarge)
    } else if k > n {
        Err(InvalidParameter::KExceedsLength)
    } else {
        Ok(())
    }
}

/// Validates the k-mer and window lengths against the sequence length.
pub fn check_minimizer_parameters(k: usize, w: usize, n: usize) -> (r: Result<
    (),
    InvalidParameter,
>)
    ensures
        r == match minimizer_verdict(k as int, w as int, n as int) {
            Some(e) => Err::<(), InvalidParameter>(e),
            None => Ok(()),
        },
{
    if w == 0 {
        Err(InvalidParameter::ZeroW)
    } else {
        check_hash_parameters(k, n)
    }
}

} // verus!
