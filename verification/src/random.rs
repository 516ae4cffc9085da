//! Adapters that turn samples of raw floats into interval values.
//!
//! A distribution over raw floats may produce values outside the target
//! interval. The checked adapters turn such samples into `None`; the
//! saturating adapters clamp them. Drawing the raw sample is the job of the
//! wrapped distribution; each adapter's `from_sample` does the rest.
use crate::float::{clamped_signed_unit, clamped_unit, is_in_signed_unit, is_in_unit, UnitIntervalFloat};
use crate::signed_unit_interval::SignedUnitInterval;
use crate::unit_interval::UnitInterval;
use vstd::prelude::*;

verus! {

/// Adapts an arbitrary distribution over raw floats into checked
/// [`UnitInterval`] samples.
#[derive(Debug, Clone, Copy, PartialEq, Eq)]
pub struct CheckedUnitIntervalDistribution<D> {
    distribution: D,
}

impl<D> CheckedUnitIntervalDistribution<D> {
    /// The wrapped distribution.
    pub closed spec fn inner(&self) -> D {
        self.distribution
    }

    /// Two adapters are equal exactly when they wrap equal distributions, so
    /// `new` of equal distributions gives equal adapters.
    pub proof fn law_equal_iff_inner_equal(a: Self, b: Self)
        ensures
            a == b <==> a.inner() == b.inner(),
    {
    }

    /// Creates a checked unit interval distribution adapter.
    pub fn new(distribution: D) -> (r: Self)
        ensures
            r.inner() == distribution,
    {
        Self { distribution }
    }

    /// Returns a shared reference to the wrapped distribution.
    pub fn as_inner(&self) -> (r: &D)
        ensures
            *r == self.inner(),
    {
        &self.distribution
    }

    /// Consumes the adapter and returns the wrapped distribution.
    pub fn into_inner(self) -> (r: D)
        ensures
            r == self.inner(),
    {
        self.distribution
    }

    /// The adapter's sample for a raw sample `raw` of the wrapped
    /// distribution: `None` when `raw` is outside `[0, 1]` or `NaN`.
    pub fn from_sample<T: UnitIntervalFloat>(&self, raw: T) -> (r: Option<UnitInterval<T>>)
        ensures
            r is Some <==> is_in_unit(raw),
            r matches Some(u) ==> u@ == raw,
    {
        UnitInterval::new(raw)
    }
}

/// Adapts an arbitrary distribution over raw floats into saturating
/// [`UnitInterval`] samples.
#[derive(Debug, Clone, Copy, PartialEq, Eq)]
pub struct SaturatingUnitIntervalDistribution<D> {
    distribution: D,
}

impl<D> SaturatingUnitIntervalDistribution<D> {
    /// The wrapped distribution.
    pub closed spec fn inner(&self) -> D {
        self.distribution
    }

    /// Two adapters are equal exactly when they wrap equal distributions, so
    /// `new` of equal distributions gives equal adapters.
    pub proof fn law_equal_iff_inner_equal(a: Self, b: Self)
        ensures
            a == b <==> a.inner() == b.inner(),
    {
    }

    /// Creates a saturating unit interval distribution adapter.
    pub fn new(distribution: D) -> (r: Self)
        ensures
            r.inner() == distribution,
    {
        Self { distribution }
    }

    /// Returns a shared reference to the wrapped distribution.
    pub fn as_inner(&self) -> (r: &D)
        ensures
            *r == self.inner(),
    {
        &self.distribution
    }

    /// Consumes the adapter and returns the wrapped distribution.
    pub fn into_inner(self) -> (r: D)
        ensures
            r == self.inner(),
    {
        self.distribution
    }

    /// The adapter's sample for a raw sample `raw` of the wrapped
    /// distribution: `raw` clamped into `[0, 1]`, with `NaN` as zero.
    pub fn from_sample<T: UnitIntervalFloat>(&self, raw: T) -> (r: UnitInterval<T>)
        ensures
            r@ == clamped_unit(raw),
    {
        UnitInterval::saturating(raw)
    }
}

/// Adapts an arbitrary distribution over raw floats into checked
/// [`SignedUnitInterval`] samples.
#[derive(Debug, Clone, Copy, PartialEq, Eq)]
pub struct CheckedSignedUnitIntervalDistribution<D> {
    distribution: D,
}

impl<D> CheckedSignedUnitIntervalDistribution<D> {
    /// The wrapped distribution.
    pub closed spec fn inner(&self) -> D {
        self.distribution
    }

    /// Two adapters are equal exactly when they wrap equal distributions, so
    /// `new` of equal distributions gives equal adapters.
    pub proof fn law_equal_iff_inner_equal(a: Self, b: Self)
        ensures
            a == b <==> a.inner() == b.inner(),
    {
    }

    /// Creates a checked signed unit interval distribution adapter.
    pub fn new(distribution: D) -> (r: Self)
        ensures
            r.inner() == distribution,
    {
        Self { distribution }
    }

    /// Returns a shared reference to the wrapped distribution.
    pub fn as_inner(&self) -> (r: &D)
        ensures
            *r == self.inner(),
    {
        &self.distribution
    }

    /// Consumes the adapter and returns the wrapped distribution.
    pub fn into_inner(self) -> (r: D)
        ensures
            r == self.inner(),
    {
        self.distribution
    }

    /// The adapter's sample for a raw sample `raw` of the wrapped
    /// distribution: `None` when `raw` is outside `[-1, 1]` or `NaN`.
    pub fn from_sample<T: UnitIntervalFloat>(&self, raw: T) -> (r: Option<SignedUnitInterval<T>>)
        ensures
            r is Some <==> is_in_signed_unit(raw),
            r matches Some(u) ==> u@ == raw,
    {
        SignedUnitInterval::new(raw)
    }
}

/// Adapts an arbitrary distribution over raw floats into saturating
/// [`SignedUnitInterval`] samples.
#[derive(Debug, Clone, Copy, PartialEq, Eq)]
pub struct SaturatingSignedUnitIntervalDistribution<D> {
    distribution: D,
}

impl<D> SaturatingSignedUnitIntervalDistribution<D> {
    /// The wrapped distribution.
    pub closed spec fn inner(&self) -> D {
        self.distribution
    }

    /// Two adapters are equal exactly when they wrap equal distributions, so
    /// `new` of equal distributions gives equal adapters.
    pub proof fn law_equal_iff_inner_equal(a: Self, b: Self)
        ensures
            a == b <==> a.inner() == b.inner(),
    {
    }

    /// Creates a saturating signed unit interval distribution adapter.
    pub fn new(distribution: D) -> (r: Self)
        ensures
            r.inner() == distribution,
    {
        Self { distribution }
    }

    /// Returns a shared reference to the wrapped distribution.
    pub fn as_inner(&self) -> (r: &D)
        ensures
            *r == self.inner(),
    {
        &self.distribution
    }

    /// Consumes the adapter and returns the wrapped distribution.
    pub fn into_inner(self) -> (r: D)
        ensures
            r == self.inner(),
    {
        self.distribution
    }

    /// The adapter's sample for a raw sample `raw` of the wrapped
    /// distribution: `raw` clamped into `[-1, 1]`, with `NaN` as zero.
    pub fn from_sample<T: UnitIntervalFloat>(&self, raw: T) -> (r: SignedUnitInterval<T>)
        ensures
            r@ == clamped_signed_unit(raw),
    {
        SignedUnitInterval::saturating(raw)
    }
}

} // verus!
