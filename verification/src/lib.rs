//! Small constrained float types for values in the closed intervals `[0, 1]`
//! and `[-1, 1]`.
//!
//! `UnitInterval` and `SignedUnitInterval` hold the IEEE-754 bit pattern of
//! an `f32` (as `u32`) or an `f64` (as `u64`). Constructors reject
//! out-of-range values and `NaN`, while saturating constructors clamp inputs
//! into the nearest valid value.

pub mod arith32;
pub mod arith64;
pub mod binary32;
pub mod binary64;
pub mod convert;
pub mod float;
pub mod ieee;
pub mod invariants;
pub mod laws;
pub mod random;
mod sealed;
pub mod signed_unit_interval;
pub mod unit_interval;

pub use float::UnitIntervalFloat;
pub use signed_unit_interval::{SignedUnitInterval, SignedUnitIntervalError};
pub use unit_interval::{UnitInterval, UnitIntervalError};
