//! Complex samples.
use vstd::prelude::*;

use crate::sample::{functional, minus, plus, times, zero, Sample};

verus! {

/// A complex number.
#[derive(Clone, Copy, Debug, PartialEq, Eq)]
pub struct Complex<T> {
    pub re: T,
    pub im: T,
}

/// The complex zero.
pub open spec fn spec_complex_zero<T: Sample>() -> Complex<T> {
    Complex { re: zero(), im: zero() }
}

/// The complex zero.
#[verifier::when_used_as_spec(spec_complex_zero)]
pub fn complex_zero<T: Sample>() -> (z: Complex<T>)
    requires
        functional::<T>(),
    ensures
        z == spec_complex_zero::<T>(),
{
    Complex { re: zero(), im: zero() }
}

/// `z` times a real factor.
pub open spec fn spec_scaled<T: Sample>(z: Complex<T>, factor: T) -> Complex<T> {
    Complex { re: times(z.re, factor), im: times(z.im, factor) }
}

/// `z` times a real factor.
#[verifier::when_used_as_spec(spec_scaled)]
pub fn scaled<T: Sample>(z: Complex<T>, factor: T) -> (product: Complex<T>)
    requires
        functional::<T>(),
    ensures
        product == spec_scaled(z, factor),
{
    Complex { re: times(z.re, factor), im: times(z.im, factor) }
}

/// `z - w`.
pub open spec fn spec_complex_minus<T: Sample>(z: Complex<T>, w: Complex<T>) -> Complex<T> {
    Complex { re: minus(z.re, w.re), im: minus(z.im, w.im) }
}

/// `z - w`.
#[verifier::when_used_as_spec(spec_complex_minus)]
pub fn complex_minus<T: Sample>(z: Complex<T>, w: Complex<T>) -> (difference: Complex<T>)
    requires
        functional::<T>(),
    ensures
        difference == spec_complex_minus(z, w),
{
    Complex { re: minus(z.re, w.re), im: minus(z.im, w.im) }
}

/// `z + w`.
pub open spec fn spec_complex_plus<T: Sample>(z: Complex<T>, w: Complex<T>) -> Complex<T> {
    Complex { re: plus(z.re, w.re), im: plus(z.im, w.im) }
}

/// `z + w`.
#[verifier::when_used_as_spec(spec_complex_plus)]
pub fn complex_plus<T: Sample>(z: Complex<T>, w: Complex<T>) -> (sum: Complex<T>)
    requires
        functional::<T>(),
    ensures
        sum == spec_complex_plus(z, w),
{
    Complex { re: plus(z.re, w.re), im: plus(z.im, w.im) }
}

} // verus!
