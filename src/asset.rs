//! The capability that lets a type of the caller's serve as an asset key.

use vstd::prelude::*;

verus! {

/// A kind of thing that an account holds, defined by the caller.
///
/// Two values are the same ledger line exactly when they compare equal, so
/// a variant that carries a unique field (an id, a time) makes every
/// instance a line of its own.
pub trait Asset: Copy + Eq + std::hash::Hash {}

} // verus!
