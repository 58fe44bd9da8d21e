//! Sample arithmetic.
//!
//! The signal chain is written over any type that offers the handful of
//! operations a floating-point unit offers. What an operation answers is not
//! fixed here: a contract speaks of "the sum of `a` and `b`" as the value that
//! the type's own `add` returns for them, and so pins down which operations
//! are applied to which operands, in which order. [`functional`] is the one
//! thing asked of a sample type: that its operations are functions of their
//! operands. A type whose operations have contracts of their own proves it, and
//! what the library answers on its samples is then known.
//!
//! Laws that hold but for rounding are stated over [`exact`] arithmetic: some
//! reading of the samples as real numbers under which no operation rounds.
use vstd::prelude::*;

use crate::ieee::{INFINITY32, NEG_INFINITY32};

verus! {

/// The arithmetic of one sample type.
pub trait Sample: Copy {
    fn zero() -> Self;

    fn one() -> Self;

    fn add(self, other: Self) -> Self;

    fn sub(self, other: Self) -> Self;

    fn mul(self, other: Self) -> Self;

    fn div(self, other: Self) -> Self;

    fn neg(self) -> Self;

    /// `self * factor + term`, rounded once.
    fn mul_add(self, factor: Self, term: Self) -> Self;

    /// The place of the sample in the order of the numbers, or `None` for a
    /// value that compares with nothing. Both zeros are at place 0.
    fn rank(self) -> Option<i64>;
}

/// A sample type with a wider companion, in which filter designs are solved.
pub trait SosFloat: Sample {
    type Wide: Sample;

    fn widen(self) -> Self::Wide;

    fn narrow(wide: Self::Wide) -> Self;
}

/// A sample type laid out as an IEEE 754 binary32.
pub trait Single: Sample {
    fn from_bits(bits: u32) -> Self;

    fn to_bits(self) -> u32;

    fn from_count(count: usize) -> Self;

    fn from_i32(number: i32) -> Self;

    /// Truncation toward zero, saturating at the ends of the range.
    fn to_i32(self) -> i32;

    /// Truncation toward zero, saturating at the ends of the range.
    fn to_i64(self) -> i64;

    fn abs(self) -> Self;

    fn copysign(self, sign: Self) -> Self;

    fn sqrt(self) -> Self;

    fn floor(self) -> Self;

    /// Nearest integer, ties away from zero.
    fn round(self) -> Self;

    /// Angle of the point with ordinate `self` and abscissa `x`.
    fn atan2(self, x: Self) -> Self;
}

/// A sample type laid out as an IEEE 754 binary64, in which positions and
/// phases are computed.
pub trait Double: Sample {
    fn from_count(count: usize) -> Self;

    /// Degrees as radians.
    fn to_radians(self) -> Self;

    fn cos(self) -> Self;

    fn sin(self) -> Self;

    /// Nearest integer, ties away from zero.
    fn round(self) -> Self;

    /// Truncation toward zero, saturating at the ends of the range.
    fn to_isize(self) -> isize;
}

pub open spec fn spec_zero<T: Sample>() -> T {
    choose|r: T| call_ensures(T::zero, (), r)
}

pub open spec fn spec_one<T: Sample>() -> T {
    choose|r: T| call_ensures(T::one, (), r)
}

pub open spec fn spec_plus<T: Sample>(a: T, b: T) -> T {
    choose|r: T| call_ensures(T::add, (a, b), r)
}

pub open spec fn spec_minus<T: Sample>(a: T, b: T) -> T {
    choose|r: T| call_ensures(T::sub, (a, b), r)
}

pub open spec fn spec_times<T: Sample>(a: T, b: T) -> T {
    choose|r: T| call_ensures(T::mul, (a, b), r)
}

pub open spec fn spec_over<T: Sample>(a: T, b: T) -> T {
    choose|r: T| call_ensures(T::div, (a, b), r)
}

pub open spec fn spec_negated<T: Sample>(a: T) -> T {
    choose|r: T| call_ensures(T::neg, (a,), r)
}

pub open spec fn spec_fused<T: Sample>(a: T, b: T, c: T) -> T {
    choose|r: T| call_ensures(T::mul_add, (a, b, c), r)
}

pub open spec fn spec_rank<T: Sample>(a: T) -> Option<i64> {
    choose|r: Option<i64>| call_ensures(T::rank, (a,), r)
}

pub open spec fn spec_widened<T: SosFloat>(a: T) -> T::Wide {
    choose|r: T::Wide| call_ensures(T::widen, (a,), r)
}

pub open spec fn spec_narrowed<T: SosFloat>(a: T::Wide) -> T {
    choose|r: T| call_ensures(T::narrow, (a,), r)
}

pub open spec fn spec_from_bits<T: Single>(bits: u32) -> T {
    choose|r: T| call_ensures(T::from_bits, (bits,), r)
}

pub open spec fn spec_to_bits<T: Single>(a: T) -> u32 {
    choose|r: u32| call_ensures(T::to_bits, (a,), r)
}

pub open spec fn spec_from_count<T: Single>(count: usize) -> T {
    choose|r: T| call_ensures(T::from_count, (count,), r)
}

pub open spec fn spec_from_i32<T: Single>(number: i32) -> T {
    choose|r: T| call_ensures(T::from_i32, (number,), r)
}

pub open spec fn spec_to_i32<T: Single>(a: T) -> i32 {
    choose|r: i32| call_ensures(T::to_i32, (a,), r)
}

pub open spec fn spec_to_i64<T: Single>(a: T) -> i64 {
    choose|r: i64| call_ensures(T::to_i64, (a,), r)
}

pub open spec fn spec_absolute<T: Single>(a: T) -> T {
    choose|r: T| call_ensures(T::abs, (a,), r)
}

pub open spec fn spec_with_sign<T: Single>(a: T, b: T) -> T {
    choose|r: T| call_ensures(T::copysign, (a, b), r)
}

pub open spec fn spec_root<T: Single>(a: T) -> T {
    choose|r: T| call_ensures(T::sqrt, (a,), r)
}

pub open spec fn spec_floored<T: Single>(a: T) -> T {
    choose|r: T| call_ensures(T::floor, (a,), r)
}

pub open spec fn spec_rounded<T: Single>(a: T) -> T {
    choose|r: T| call_ensures(T::round, (a,), r)
}

pub open spec fn spec_angle<T: Single>(a: T, b: T) -> T {
    choose|r: T| call_ensures(T::atan2, (a, b), r)
}

pub open spec fn spec_double_count<T: Double>(count: usize) -> T {
    choose|r: T| call_ensures(T::from_count, (count,), r)
}

pub open spec fn spec_radians<T: Double>(a: T) -> T {
    choose|r: T| call_ensures(T::to_radians, (a,), r)
}

pub open spec fn spec_cosine<T: Double>(a: T) -> T {
    choose|r: T| call_ensures(T::cos, (a,), r)
}

pub open spec fn spec_sine<T: Double>(a: T) -> T {
    choose|r: T| call_ensures(T::sin, (a,), r)
}

pub open spec fn spec_double_rounded<T: Double>(a: T) -> T {
    choose|r: T| call_ensures(T::round, (a,), r)
}

pub open spec fn spec_to_isize<T: Double>(a: T) -> isize {
    choose|r: isize| call_ensures(T::to_isize, (a,), r)
}

/// Every operation of the sample type answers the same on the same operands.
#[verifier::opaque]
pub open spec fn functional<T: Sample>() -> bool {
    &&& forall|r: T, s: T|
        #![trigger call_ensures(T::zero, (), r), call_ensures(T::zero, (), s)]
        call_ensures(T::zero, (), r) && call_ensures(T::zero, (), s) ==> r == s
    &&& forall|r: T, s: T|
        #![trigger call_ensures(T::one, (), r), call_ensures(T::one, (), s)]
        call_ensures(T::one, (), r) && call_ensures(T::one, (), s) ==> r == s
    &&& forall|a: T, b: T, r: T, s: T|
        #![trigger call_ensures(T::add, (a, b), r), call_ensures(T::add, (a, b), s)]
        call_ensures(T::add, (a, b), r) && call_ensures(T::add, (a, b), s) ==> r == s
    &&& forall|a: T, b: T, r: T, s: T|
        #![trigger call_ensures(T::sub, (a, b), r), call_ensures(T::sub, (a, b), s)]
        call_ensures(T::sub, (a, b), r) && call_ensures(T::sub, (a, b), s) ==> r == s
    &&& forall|a: T, b: T, r: T, s: T|
        #![trigger call_ensures(T::mul, (a, b), r), call_ensures(T::mul, (a, b), s)]
        call_ensures(T::mul, (a, b), r) && call_ensures(T::mul, (a, b), s) ==> r == s
    &&& forall|a: T, b: T, r: T, s: T|
        #![trigger call_ensures(T::div, (a, b), r), call_ensures(T::div, (a, b), s)]
        call_ensures(T::div, (a, b), r) && call_ensures(T::div, (a, b), s) ==> r == s
    &&& forall|a: T, r: T, s: T|
        #![trigger call_ensures(T::neg, (a,), r), call_ensures(T::neg, (a,), s)]
        call_ensures(T::neg, (a,), r) && call_ensures(T::neg, (a,), s) ==> r == s
    &&& forall|a: T, b: T, c: T, r: T, s: T|
        #![trigger call_ensures(T::mul_add, (a, b, c), r), call_ensures(T::mul_add, (a, b, c), s)]
        call_ensures(T::mul_add, (a, b, c), r) && call_ensures(T::mul_add, (a, b, c), s) ==> r == s
    &&& forall|a: T, r: Option<i64>, s: Option<i64>|
        #![trigger call_ensures(T::rank, (a,), r), call_ensures(T::rank, (a,), s)]
        call_ensures(T::rank, (a,), r) && call_ensures(T::rank, (a,), s) ==> r == s
}

/// [`functional`], and so are the companion type's operations and the
/// conversions between the two.
#[verifier::opaque]
pub open spec fn functional_sos<T: SosFloat>() -> bool {
    &&& functional::<T>()
    &&& functional::<T::Wide>()
    &&& forall|a: T, r: T::Wide, s: T::Wide|
        #![trigger call_ensures(T::widen, (a,), r), call_ensures(T::widen, (a,), s)]
        call_ensures(T::widen, (a,), r) && call_ensures(T::widen, (a,), s) ==> r == s
    &&& forall|a: T::Wide, r: T, s: T|
        #![trigger call_ensures(T::narrow, (a,), r), call_ensures(T::narrow, (a,), s)]
        call_ensures(T::narrow, (a,), r) && call_ensures(T::narrow, (a,), s) ==> r == s
}

/// [`functional`], with the operations of [`Single`] among them.
#[verifier::opaque]
pub open spec fn functional_single<T: Single>() -> bool {
    &&& functional::<T>()
    &&& forall|bits: u32, r: T, s: T|
        #![trigger call_ensures(T::from_bits, (bits,), r), call_ensures(T::from_bits, (bits,), s)]
        call_ensures(T::from_bits, (bits,), r) && call_ensures(T::from_bits, (bits,), s) ==> r == s
    &&& forall|a: T, r: u32, s: u32|
        #![trigger call_ensures(T::to_bits, (a,), r), call_ensures(T::to_bits, (a,), s)]
        call_ensures(T::to_bits, (a,), r) && call_ensures(T::to_bits, (a,), s) ==> r == s
    &&& forall|count: usize, r: T, s: T|
        #![trigger call_ensures(T::from_count, (count,), r), call_ensures(T::from_count, (count,), s)]
        call_ensures(T::from_count, (count,), r) && call_ensures(T::from_count, (count,), s) ==> r == s
    &&& forall|number: i32, r: T, s: T|
        #![trigger call_ensures(T::from_i32, (number,), r), call_ensures(T::from_i32, (number,), s)]
        call_ensures(T::from_i32, (number,), r) && call_ensures(T::from_i32, (number,), s) ==> r
            == s
    &&& forall|a: T, r: i32, s: i32|
        #![trigger call_ensures(T::to_i32, (a,), r), call_ensures(T::to_i32, (a,), s)]
        call_ensures(T::to_i32, (a,), r) && call_ensures(T::to_i32, (a,), s) ==> r == s
    &&& forall|a: T, r: i64, s: i64|
        #![trigger call_ensures(T::to_i64, (a,), r), call_ensures(T::to_i64, (a,), s)]
        call_ensures(T::to_i64, (a,), r) && call_ensures(T::to_i64, (a,), s) ==> r == s
    &&& forall|a: T, r: T, s: T|
        #![trigger call_ensures(T::abs, (a,), r), call_ensures(T::abs, (a,), s)]
        call_ensures(T::abs, (a,), r) && call_ensures(T::abs, (a,), s) ==> r == s
    &&& forall|a: T, b: T, r: T, s: T|
        #![trigger call_ensures(T::copysign, (a, b), r), call_ensures(T::copysign, (a, b), s)]
        call_ensures(T::copysign, (a, b), r) && call_ensures(T::copysign, (a, b), s) ==> r == s
    &&& forall|a: T, r: T, s: T|
        #![trigger call_ensures(T::sqrt, (a,), r), call_ensures(T::sqrt, (a,), s)]
        call_ensures(T::sqrt, (a,), r) && call_ensures(T::sqrt, (a,), s) ==> r == s
    &&& forall|a: T, r: T, s: T|
        #![trigger call_ensures(T::floor, (a,), r), call_ensures(T::floor, (a,), s)]
        call_ensures(T::floor, (a,), r) && call_ensures(T::floor, (a,), s) ==> r == s
    &&& forall|a: T, r: T, s: T|
        #![trigger call_ensures(T::round, (a,), r), call_ensures(T::round, (a,), s)]
        call_ensures(T::round, (a,), r) && call_ensures(T::round, (a,), s) ==> r == s
    &&& forall|a: T, b: T, r: T, s: T|
        #![trigger call_ensures(T::atan2, (a, b), r), call_ensures(T::atan2, (a, b), s)]
        call_ensures(T::atan2, (a, b), r) && call_ensures(T::atan2, (a, b), s) ==> r == s
}

/// [`functional`], with the operations of [`Double`] among them.
#[verifier::opaque]
pub open spec fn functional_double<T: Double>() -> bool {
    &&& functional::<T>()
    &&& forall|count: usize, r: T, s: T|
        #![trigger call_ensures(T::from_count, (count,), r), call_ensures(T::from_count, (count,), s)]
        call_ensures(T::from_count, (count,), r) && call_ensures(T::from_count, (count,), s) ==> r == s
    &&& forall|a: T, r: T, s: T|
        #![trigger call_ensures(T::to_radians, (a,), r), call_ensures(T::to_radians, (a,), s)]
        call_ensures(T::to_radians, (a,), r) && call_ensures(T::to_radians, (a,), s) ==> r == s
    &&& forall|a: T, r: T, s: T|
        #![trigger call_ensures(T::cos, (a,), r), call_ensures(T::cos, (a,), s)]
        call_ensures(T::cos, (a,), r) && call_ensures(T::cos, (a,), s) ==> r == s
    &&& forall|a: T, r: T, s: T|
        #![trigger call_ensures(T::sin, (a,), r), call_ensures(T::sin, (a,), s)]
        call_ensures(T::sin, (a,), r) && call_ensures(T::sin, (a,), s) ==> r == s
    &&& forall|a: T, r: T, s: T|
        #![trigger call_ensures(T::round, (a,), r), call_ensures(T::round, (a,), s)]
        call_ensures(T::round, (a,), r) && call_ensures(T::round, (a,), s) ==> r == s
    &&& forall|a: T, r: isize, s: isize|
        #![trigger call_ensures(T::to_isize, (a,), r), call_ensures(T::to_isize, (a,), s)]
        call_ensures(T::to_isize, (a,), r) && call_ensures(T::to_isize, (a,), s) ==> r == s
}

/// Zero.
#[verifier::when_used_as_spec(spec_zero)]
pub fn zero<T: Sample>() -> (r: T)
    requires
        functional::<T>(),
    ensures
        r == spec_zero::<T>(),
        call_ensures(T::zero, (), r),
{
    reveal(functional);
    T::zero()
}

/// One.
#[verifier::when_used_as_spec(spec_one)]
pub fn one<T: Sample>() -> (r: T)
    requires
        functional::<T>(),
    ensures
        r == spec_one::<T>(),
        call_ensures(T::one, (), r),
{
    reveal(functional);
    T::one()
}

/// `a + b`.
#[verifier::when_used_as_spec(spec_plus)]
pub fn plus<T: Sample>(a: T, b: T) -> (r: T)
    requires
        functional::<T>(),
    ensures
        r == spec_plus::<T>(a, b),
        call_ensures(T::add, (a, b), r),
{
    reveal(functional);
    T::add(a, b)
}

/// `a - b`.
#[verifier::when_used_as_spec(spec_minus)]
pub fn minus<T: Sample>(a: T, b: T) -> (r: T)
    requires
        functional::<T>(),
    ensures
        r == spec_minus::<T>(a, b),
        call_ensures(T::sub, (a, b), r),
{
    reveal(functional);
    T::sub(a, b)
}

/// `a * b`.
#[verifier::when_used_as_spec(spec_times)]
pub fn times<T: Sample>(a: T, b: T) -> (r: T)
    requires
        functional::<T>(),
    ensures
        r == spec_times::<T>(a, b),
        call_ensures(T::mul, (a, b), r),
{
    reveal(functional);
    T::mul(a, b)
}

/// `a / b`.
#[verifier::when_used_as_spec(spec_over)]
pub fn over<T: Sample>(a: T, b: T) -> (r: T)
    requires
        functional::<T>(),
    ensures
        r == spec_over::<T>(a, b),
        call_ensures(T::div, (a, b), r),
{
    reveal(functional);
    T::div(a, b)
}

/// `-a`.
#[verifier::when_used_as_spec(spec_negated)]
pub fn negated<T: Sample>(a: T) -> (r: T)
    requires
        functional::<T>(),
    ensures
        r == spec_negated::<T>(a),
        call_ensures(T::neg, (a,), r),
{
    reveal(functional);
    T::neg(a)
}

/// `a * b + c`, rounded once.
#[verifier::when_used_as_spec(spec_fused)]
pub fn fused<T: Sample>(a: T, b: T, c: T) -> (r: T)
    requires
        functional::<T>(),
    ensures
        r == spec_fused::<T>(a, b, c),
        call_ensures(T::mul_add, (a, b, c), r),
{
    reveal(functional);
    T::mul_add(a, b, c)
}

/// The place of `a` in the order.
#[verifier::when_used_as_spec(spec_rank)]
pub fn rank<T: Sample>(a: T) -> (r: Option<i64>)
    requires
        functional::<T>(),
    ensures
        r == spec_rank::<T>(a),
        call_ensures(T::rank, (a,), r),
{
    reveal(functional);
    T::rank(a)
}

/// `a` in the wider companion type.
#[verifier::when_used_as_spec(spec_widened)]
pub fn widened<T: SosFloat>(a: T) -> (r: T::Wide)
    requires
        functional_sos::<T>(),
    ensures
        r == spec_widened::<T>(a),
        call_ensures(T::widen, (a,), r),
{
    reveal(functional_sos);
    T::widen(a)
}

/// `a` rounded to the sample type.
#[verifier::when_used_as_spec(spec_narrowed)]
pub fn narrowed<T: SosFloat>(a: T::Wide) -> (r: T)
    requires
        functional_sos::<T>(),
    ensures
        r == spec_narrowed::<T>(a),
        call_ensures(T::narrow, (a,), r),
{
    reveal(functional_sos);
    T::narrow(a)
}

/// The sample with the given bit pattern.
#[verifier::when_used_as_spec(spec_from_bits)]
pub fn from_bits<T: Single>(bits: u32) -> (r: T)
    requires
        functional_single::<T>(),
    ensures
        r == spec_from_bits::<T>(bits),
        call_ensures(T::from_bits, (bits,), r),
{
    reveal(functional_single);
    T::from_bits(bits)
}

/// The bit pattern of `a`.
#[verifier::when_used_as_spec(spec_to_bits)]
pub fn to_bits<T: Single>(a: T) -> (r: u32)
    requires
        functional_single::<T>(),
    ensures
        r == spec_to_bits::<T>(a),
        call_ensures(T::to_bits, (a,), r),
{
    reveal(functional_single);
    T::to_bits(a)
}

/// `count` as a sample.
#[verifier::when_used_as_spec(spec_from_count)]
pub fn from_count<T: Single>(count: usize) -> (r: T)
    requires
        functional_single::<T>(),
    ensures
        r == spec_from_count::<T>(count),
        call_ensures(T::from_count, (count,), r),
{
    reveal(functional_single);
    T::from_count(count)
}

/// `number` as a sample.
#[verifier::when_used_as_spec(spec_from_i32)]
pub fn from_i32<T: Single>(number: i32) -> (r: T)
    requires
        functional_single::<T>(),
    ensures
        r == spec_from_i32::<T>(number),
        call_ensures(T::from_i32, (number,), r),
{
    reveal(functional_single);
    T::from_i32(number)
}

/// `a` truncated to an `i32`.
#[verifier::when_used_as_spec(spec_to_i32)]
pub fn to_i32<T: Single>(a: T) -> (r: i32)
    requires
        functional_single::<T>(),
    ensures
        r == spec_to_i32::<T>(a),
        call_ensures(T::to_i32, (a,), r),
{
    reveal(functional_single);
    T::to_i32(a)
}

/// `a` truncated to an `i64`.
#[verifier::when_used_as_spec(spec_to_i64)]
pub fn to_i64<T: Single>(a: T) -> (r: i64)
    requires
        functional_single::<T>(),
    ensures
        r == spec_to_i64::<T>(a),
        call_ensures(T::to_i64, (a,), r),
{
    reveal(functional_single);
    T::to_i64(a)
}

/// `|a|`.
#[verifier::when_used_as_spec(spec_absolute)]
pub fn absolute<T: Single>(a: T) -> (r: T)
    requires
        functional_single::<T>(),
    ensures
        r == spec_absolute::<T>(a),
        call_ensures(T::abs, (a,), r),
{
    reveal(functional_single);
    T::abs(a)
}

/// `|a|` with the sign of `b`.
#[verifier::when_used_as_spec(spec_with_sign)]
pub fn with_sign<T: Single>(a: T, b: T) -> (r: T)
    requires
        functional_single::<T>(),
    ensures
        r == spec_with_sign::<T>(a, b),
        call_ensures(T::copysign, (a, b), r),
{
    reveal(functional_single);
    T::copysign(a, b)
}

/// The square root of `a`.
#[verifier::when_used_as_spec(spec_root)]
pub fn root<T: Single>(a: T) -> (r: T)
    requires
        functional_single::<T>(),
    ensures
        r == spec_root::<T>(a),
        call_ensures(T::sqrt, (a,), r),
{
    reveal(functional_single);
    T::sqrt(a)
}

/// The greatest integer not above `a`.
#[verifier::when_used_as_spec(spec_floored)]
pub fn floored<T: Single>(a: T) -> (r: T)
    requires
        functional_single::<T>(),
    ensures
        r == spec_floored::<T>(a),
        call_ensures(T::floor, (a,), r),
{
    reveal(functional_single);
    T::floor(a)
}

/// The integer nearest to `a`.
#[verifier::when_used_as_spec(spec_rounded)]
pub fn rounded<T: Single>(a: T) -> (r: T)
    requires
        functional_single::<T>(),
    ensures
        r == spec_rounded::<T>(a),
        call_ensures(T::round, (a,), r),
{
    reveal(functional_single);
    T::round(a)
}

/// The angle of the point with ordinate `a` and abscissa `b`.
#[verifier::when_used_as_spec(spec_angle)]
pub fn angle<T: Single>(a: T, b: T) -> (r: T)
    requires
        functional_single::<T>(),
    ensures
        r == spec_angle::<T>(a, b),
        call_ensures(T::atan2, (a, b), r),
{
    reveal(functional_single);
    T::atan2(a, b)
}

/// `count` as a sample of the wide type.
#[verifier::when_used_as_spec(spec_double_count)]
pub fn double_count<T: Double>(count: usize) -> (r: T)
    requires
        functional_double::<T>(),
    ensures
        r == spec_double_count::<T>(count),
        call_ensures(T::from_count, (count,), r),
{
    reveal(functional_double);
    T::from_count(count)
}

/// `a` degrees as radians.
#[verifier::when_used_as_spec(spec_radians)]
pub fn radians<T: Double>(a: T) -> (r: T)
    requires
        functional_double::<T>(),
    ensures
        r == spec_radians::<T>(a),
        call_ensures(T::to_radians, (a,), r),
{
    reveal(functional_double);
    T::to_radians(a)
}

/// The cosine of `a`.
#[verifier::when_used_as_spec(spec_cosine)]
pub fn cosine<T: Double>(a: T) -> (r: T)
    requires
        functional_double::<T>(),
    ensures
        r == spec_cosine::<T>(a),
        call_ensures(T::cos, (a,), r),
{
    reveal(functional_double);
    T::cos(a)
}

/// The sine of `a`.
#[verifier::when_used_as_spec(spec_sine)]
pub fn sine<T: Double>(a: T) -> (r: T)
    requires
        functional_double::<T>(),
    ensures
        r == spec_sine::<T>(a),
        call_ensures(T::sin, (a,), r),
{
    reveal(functional_double);
    T::sin(a)
}

/// `a` rounded to the nearest integer.
#[verifier::when_used_as_spec(spec_double_rounded)]
pub fn double_rounded<T: Double>(a: T) -> (r: T)
    requires
        functional_double::<T>(),
    ensures
        r == spec_double_rounded::<T>(a),
        call_ensures(T::round, (a,), r),
{
    reveal(functional_double);
    T::round(a)
}

/// `a` truncated to a place.
#[verifier::when_used_as_spec(spec_to_isize)]
pub fn to_isize<T: Double>(a: T) -> (r: isize)
    requires
        functional_double::<T>(),
    ensures
        r == spec_to_isize::<T>(a),
        call_ensures(T::to_isize, (a,), r),
{
    reveal(functional_double);
    T::to_isize(a)
}

/// What a [`SosFloat`] type promises of its own and of the wider arithmetic.
pub proof fn lemma_functional_sos<T: SosFloat>()
    requires
        functional_sos::<T>(),
    ensures
        functional::<T>(),
        functional::<T::Wide>(),
{
    reveal(functional_sos);
}

/// What a [`Single`] type promises of its plain arithmetic.
pub proof fn lemma_functional_single<T: Single>()
    requires
        functional_single::<T>(),
    ensures
        functional::<T>(),
{
    reveal(functional_single);
}

pub open spec fn spec_two<T: Sample>() -> T {
    plus(one::<T>(), one::<T>())
}

/// The number 2.
#[verifier::when_used_as_spec(spec_two)]
pub fn two<T: Sample>() -> (r: T)
    requires
        functional::<T>(),
    ensures
        r == spec_two::<T>(),
{
    plus(one::<T>(), one::<T>())
}

/// `a < b`: both are numbers, and `a` comes first.
pub open spec fn spec_below<T: Sample>(a: T, b: T) -> bool {
    match (rank(a), rank(b)) {
        (Some(p), Some(q)) => p < q,
        _ => false,
    }
}

/// `a < b`.
#[verifier::when_used_as_spec(spec_below)]
pub fn below<T: Sample>(a: T, b: T) -> (r: bool)
    requires
        functional::<T>(),
    ensures
        r == spec_below(a, b),
{
    match (rank(a), rank(b)) {
        (Some(p), Some(q)) => p < q,
        _ => false,
    }
}

/// `a <= b`: both are numbers, and `b` does not come before `a`.
pub open spec fn spec_at_most<T: Sample>(a: T, b: T) -> bool {
    match (rank(a), rank(b)) {
        (Some(p), Some(q)) => p <= q,
        _ => false,
    }
}

/// `a <= b`.
#[verifier::when_used_as_spec(spec_at_most)]
pub fn at_most<T: Sample>(a: T, b: T) -> (r: bool)
    requires
        functional::<T>(),
    ensures
        r == spec_at_most(a, b),
{
    match (rank(a), rank(b)) {
        (Some(p), Some(q)) => p <= q,
        _ => false,
    }
}

/// `a == 0`, which holds of both zeros.
pub open spec fn spec_is_zero<T: Sample>(a: T) -> bool {
    rank(a) == Some(0i64)
}

/// `a == 0`.
#[verifier::when_used_as_spec(spec_is_zero)]
pub fn is_zero<T: Sample>(a: T) -> (r: bool)
    requires
        functional::<T>(),
    ensures
        r == spec_is_zero(a),
{
    match rank(a) {
        Some(p) => p == 0,
        None => false,
    }
}

/// `a` lies between the infinities.
pub open spec fn spec_is_finite<T: Single>(a: T) -> bool {
    below(from_bits(NEG_INFINITY32), a) && below(a, from_bits(INFINITY32))
}

/// `a` lies between the infinities.
#[verifier::when_used_as_spec(spec_is_finite)]
pub fn is_finite<T: Single>(a: T) -> (r: bool)
    requires
        functional_single::<T>(),
    ensures
        r == spec_is_finite(a),
{
    proof {
        lemma_functional_single::<T>();
    }
    below(from_bits(NEG_INFINITY32), a) && below(a, from_bits(INFINITY32))
}

/// `value` is how the samples are read as real numbers, and the operations
/// compute on what they read without rounding.
pub open spec fn exact<T: Sample>(value: spec_fn(T) -> real) -> bool {
    &&& value(zero::<T>()) == 0real
    &&& value(one::<T>()) == 1real
    &&& forall|a: T, b: T| #[trigger] value(plus(a, b)) == value(a) + value(b)
    &&& forall|a: T, b: T| #[trigger] value(minus(a, b)) == value(a) - value(b)
    &&& forall|a: T, b: T| #[trigger] value(times(a, b)) == value(a) * value(b)
    &&& forall|a: T, b: T|
        value(b) != 0real ==> (#[trigger] value(over(a, b))) * value(b) == value(a)
    &&& forall|a: T| #[trigger] value(negated(a)) == -value(a)
    &&& forall|a: T, b: T, c: T|
        #[trigger] value(fused(a, b, c)) == value(a) * value(b) + value(c)
    &&& forall|a: T| #[trigger] is_zero(a) <==> value(a) == 0real
}

/// The comparisons go by the numbers that the samples stand for.
pub open spec fn ordered<T: Sample>(value: spec_fn(T) -> real) -> bool {
    &&& forall|a: T, b: T| #[trigger] below(a, b) <==> value(a) < value(b)
    &&& forall|a: T, b: T| #[trigger] at_most(a, b) <==> value(a) <= value(b)
}

/// The absolute value of a number.
pub open spec fn real_magnitude(number: real) -> real {
    if number < 0real {
        -number
    } else {
        number
    }
}

/// Both the sample type and its companion compute without rounding, and
/// converting between them changes no number.
pub open spec fn exact_wide<T: SosFloat>(
    value: spec_fn(T) -> real,
    wide: spec_fn(T::Wide) -> real,
) -> bool {
    &&& exact(value)
    &&& exact(wide)
    &&& forall|a: T| wide(#[trigger] widened(a)) == value(a)
    &&& forall|w: T::Wide| value(#[trigger] narrowed::<T>(w)) == wide(w)
}

} // verus!
