//! Keeps [`crate::UnitIntervalFloat`] closed to the two bit-pattern types
//! implemented by this crate.
use vstd::prelude::*;

verus! {

/// Implemented only for the bit patterns of `binary32` and `binary64`.
pub trait Sealed {}

impl Sealed for u32 {}

impl Sealed for u64 {}

} // verus!
