//! Minimizer sketching.
//!
//! A sequence of bases is cut into k-mers, each k-mer is hashed by a rolling
//! hash, and from every window of `w` consecutive hashes the smallest is
//! kept, the leftmost among equals. The kept positions are the minimizers of
//! the sequence: a sparse set of anchors that two similar sequences share.
//!
//! - [`packed`]: bases packed two bits each.
//! - [`hash`]: the hash of a k-mer and the rolling recurrence.
//! - [`session`]: a hasher that is fed base by base and can be used again.
//! - [`window`]: the selectors of window minima, and the removal of repeats.
//! - [`lanes`]: the same work dealt out to lanes and merged.
//! - [`canonical`]: hashes that do not depend on the strand.
//! - [`error`]: what is wrong with a pair of parameters.

pub mod error;
pub mod packed;
pub mod hash;
pub mod session;
pub mod window;
pub mod lanes;
pub mod canonical;
