//! What the fast kernels compute: truncated power series. Rounding is left aside,
//! that of the constants too.
use vstd::prelude::*;

use crate::fast_math::{
    clamped, exp2_fast, exp_fast, exponential_series, horner, logarithm_series,
    mantissa_logarithm, powf_fast_nonneg, raised_exponent, scaled_logarithm, whole_part, HALF,
    INV_120, INV_24, INV_3, INV_5, INV_5040, INV_6, INV_7, INV_720, INV_9, LN_2, LOG2_E,
    MAX_EXPONENT, MIN_EXPONENT,
};
use crate::ieee::{law_split_is_unique, parts_of, power_of_two_bits, splits};
use crate::reals::{lemma_real_associates, lemma_real_distributes};
use crate::sample::{
    exact, from_bits, from_i32, minus, negated, one, ordered, over, plus, times, to_bits,
    to_i32, two, Sample, Single,
};
use crate::unwrap_angles::{atan_approx, ATAN_A1, ATAN_A11, ATAN_A3, ATAN_A5, ATAN_A7, ATAN_A9};

verus! {

/// `x` multiplied by itself, `k` times over.
pub open spec fn real_power(x: real, k: nat) -> real
    decreases k,
{
    if k == 0 {
        1real
    } else {
        real_power(x, (k - 1) as nat) * x
    }
}

/// The sum of the first `count` powers of `x`, each times its coefficient.
pub open spec fn polynomial(coefficients: Seq<real>, x: real, count: nat) -> real
    decreases count,
{
    if count == 0 {
        0real
    } else {
        polynomial(coefficients, x, (count - 1) as nat) + coefficients[count - 1] * real_power(
            x,
            (count - 1) as nat,
        )
    }
}

proof fn lemma_polynomial_shifts(coefficients: Seq<real>, x: real, count: nat)
    requires
        count < coefficients.len(),
    ensures
        polynomial(coefficients, x, count + 1) == coefficients[0] + polynomial(
            coefficients.skip(1),
            x,
            count,
        ) * x,
    decreases count,
{
    if count == 0 {
        assert(polynomial(coefficients, x, 0) == 0real);
        assert(polynomial(coefficients.skip(1), x, 0) == 0real);
        assert(real_power(x, 0) == 1real);
        let first = coefficients[0];
        assert(first * 1real == first) by (nonlinear_arith);
        assert(0real * x == 0real) by (nonlinear_arith);
    } else {
        let before = (count - 1) as nat;
        lemma_polynomial_shifts(coefficients, x, before);
        let last = coefficients[count as int];
        assert(coefficients.skip(1)[before as int] == last);
        let part = real_power(x, before);
        assert(real_power(x, count) == part * x);
        lemma_real_associates(last, part, x);
        lemma_real_distributes(x, polynomial(coefficients.skip(1), x, before), last * part);
    }
}

/// The numbers of the coefficients, lowest first.
pub open spec fn lowest_first<T>(value: spec_fn(T) -> real, coefficients: Seq<T>) -> Seq<real> {
    Seq::new(
        coefficients.len(),
        |k: int| value(coefficients[coefficients.len() - 1 - k]),
    )
}

/// The nested form computes the polynomial with the given coefficients, highest
/// first.
pub proof fn law_nested_form_is_the_polynomial<T: Sample>(
    value: spec_fn(T) -> real,
    coefficients: Seq<T>,
    x: T,
)
    requires
        exact(value),
        coefficients.len() > 0,
    ensures
        value(horner(coefficients, x)) == polynomial(
            lowest_first(value, coefficients),
            value(x),
            coefficients.len(),
        ),
    decreases coefficients.len(),
{
    let numbers = lowest_first(value, coefficients);
    let count = (coefficients.len() - 1) as nat;
    lemma_polynomial_shifts(numbers, value(x), count);
    if count == 0 {
        assert(polynomial(numbers.skip(1), value(x), 0) == 0real);
        assert(0real * value(x) == 0real) by (nonlinear_arith);
    } else {
        let higher = coefficients.drop_last();
        law_nested_form_is_the_polynomial(value, higher, x);
        assert(numbers.skip(1) =~= lowest_first(value, higher));
        lemma_real_distributes(value(x), value(horner(higher, x)), 0real);
    }
}

/// The product of the numbers from 1 to `k`.
pub open spec fn factorial(k: nat) -> nat
    decreases k,
{
    if k == 0 {
        1
    } else {
        k * factorial((k - 1) as nat)
    }
}

/// The constants stand for the reciprocals that they are named after.
pub open spec fn are_reciprocals<T: Single>(value: spec_fn(T) -> real) -> bool {
    &&& 2real * value(from_bits::<T>(HALF)) == 1real
    &&& 6real * value(from_bits::<T>(INV_6)) == 1real
    &&& 24real * value(from_bits::<T>(INV_24)) == 1real
    &&& 120real * value(from_bits::<T>(INV_120)) == 1real
    &&& 720real * value(from_bits::<T>(INV_720)) == 1real
    &&& 5040real * value(from_bits::<T>(INV_5040)) == 1real
    &&& 3real * value(from_bits::<T>(INV_3)) == 1real
    &&& 5real * value(from_bits::<T>(INV_5)) == 1real
    &&& 7real * value(from_bits::<T>(INV_7)) == 1real
    &&& 9real * value(from_bits::<T>(INV_9)) == 1real
}

/// The exponential series is taken to its seventh power: the coefficient of each
/// is the reciprocal of a factorial.
pub proof fn law_exponential_series_is_to_the_seventh<T: Single>(
    value: spec_fn(T) -> real,
    k: nat,
)
    requires
        exact(value),
        are_reciprocals(value),
        k <= 7,
    ensures
        exponential_series::<T>().len() == 8,
        (factorial(k) as real) * lowest_first(value, exponential_series::<T>())[k as int]
            == 1real,
{
    reveal_with_fuel(factorial, 8);
    assert(factorial(0) == 1);
    assert(factorial(1) == 1);
    assert(factorial(2) == 2);
    assert(factorial(3) == 6);
    assert(factorial(4) == 24);
    assert(factorial(5) == 120);
    assert(factorial(6) == 720);
    assert(factorial(7) == 5040);
}

/// The series of the logarithm is taken to the ninth power: the coefficient of
/// each odd power is its reciprocal.
pub proof fn law_logarithm_series_is_to_the_ninth<T: Single>(value: spec_fn(T) -> real, k: nat)
    requires
        exact(value),
        are_reciprocals(value),
        k <= 4,
    ensures
        logarithm_series::<T>().len() == 5,
        ((2 * k + 1) as real) * lowest_first(value, logarithm_series::<T>())[k as int] == 1real,
{
}

/// 2 to a power is the exponential series, at what the exponent is beyond its
/// integer, times the power of two of the integer.
pub proof fn law_power_of_two_is_the_series<T: Single>(value: spec_fn(T) -> real, y: T)
    requires
        exact(value),
    ensures
        ({
            let whole = whole_part(y);
            let rest = (value(y) - value(whole)) * value(from_bits::<T>(LN_2));
            value(exp2_fast(y)) == polynomial(
                lowest_first(value, exponential_series::<T>()),
                rest,
                8,
            ) * value(from_bits::<T>(power_of_two_bits(to_i32(whole))))
        }),
{
    let whole = whole_part(y);
    let rest = times(minus(y, whole), from_bits::<T>(LN_2));
    law_nested_form_is_the_polynomial(value, exponential_series::<T>(), rest);
}

/// The logarithm of a mantissa is twice the odd series at the number that is to 1
/// as the mantissa less 1 is to the mantissa and 1.
pub proof fn law_mantissa_logarithm_is_the_series<T: Single>(
    value: spec_fn(T) -> real,
    m: T,
    ratio: real,
)
    requires
        exact(value),
        value(m) + 1real != 0real,
        ratio * (value(m) + 1real) == value(m) - 1real,
    ensures
        value(mantissa_logarithm(m)) == (2real * ratio) * polynomial(
            lowest_first(value, logarithm_series::<T>()),
            ratio * ratio,
            5,
        ),
{
    let s = over(minus(m, one()), plus(m, one()));
    let divisor = value(m) + 1real;
    let quotient = value(s);
    assert(quotient == ratio) by (nonlinear_arith)
        requires
            quotient * divisor == ratio * divisor,
            divisor != 0real,
    ;
    law_nested_form_is_the_polynomial(value, logarithm_series::<T>(), times(s, s));
    assert(value(two::<T>()) == 2real);
}

/// A power is 2 to the exponent times the binary logarithm of the base: that of
/// its mantissa and its own exponent together.
pub proof fn law_power_is_made_from_the_logarithm<T: Single>(
    value: spec_fn(T) -> real,
    x: T,
    c: T,
    exponent: i32,
    mantissa: u32,
)
    requires
        exact(value),
        splits(to_bits(x), exponent, mantissa),
    ensures
        ({
            let logarithm = value(from_i32::<T>(exponent)) + value(
                mantissa_logarithm(from_bits::<T>(mantissa)),
            ) * value(from_bits::<T>(LOG2_E));
            &&& value(scaled_logarithm(x, c)) == value(c) * logarithm
            &&& powf_fast_nonneg(x, c) == exp2_fast(raised_exponent(scaled_logarithm(x, c)))
        }),
{
    let parts = parts_of(to_bits(x));
    assert(splits(to_bits(x), exponent, mantissa));
    assert(splits(to_bits(x), parts.0, parts.1)) by {
        let candidate = (exponent, mantissa);
        assert(splits(to_bits(x), candidate.0, candidate.1));
    }
    law_split_is_unique(to_bits(x), exponent, mantissa, parts.0, parts.1);
    lemma_real_distributes(
        value(c),
        value(from_i32::<T>(exponent)),
        value(mantissa_logarithm(from_bits::<T>(mantissa))) * value(from_bits::<T>(LOG2_E)),
    );
}

/// The exponential is 2 to the power of the argument times the binary logarithm
/// of e, kept within the exponents of normal numbers.
pub proof fn law_exponential_is_a_power_of_two<T: Single>(
    value: spec_fn(T) -> real,
    z: T,
)
    requires
        exact(value),
        ordered(value),
        value(from_bits::<T>(MIN_EXPONENT)) <= value(from_bits::<T>(MAX_EXPONENT)),
    ensures
        exists|y: T|
            {
                let wanted = value(z) * value(from_bits::<T>(LOG2_E));
                let low = value(from_bits::<T>(MIN_EXPONENT));
                let high = value(from_bits::<T>(MAX_EXPONENT));
                &&& exp_fast(z) == #[trigger] exp2_fast(y)
                &&& wanted < low ==> value(y) == low
                &&& wanted > high ==> value(y) == high
                &&& low <= wanted <= high ==> value(y) == wanted
            },
{
    let y = clamped(
        times(z, from_bits::<T>(LOG2_E)),
        from_bits::<T>(MIN_EXPONENT),
        from_bits::<T>(MAX_EXPONENT),
    );
    assert(exp_fast(z) == exp2_fast(y));
}

/// The coefficients of the arctangent, lowest first.
pub open spec fn arctangent_series<T: Single>(value: spec_fn(T) -> real) -> Seq<real> {
    seq![
        value(from_bits::<T>(ATAN_A1)),
        value(from_bits::<T>(ATAN_A3)),
        value(from_bits::<T>(ATAN_A5)),
        value(from_bits::<T>(ATAN_A7)),
        value(from_bits::<T>(ATAN_A9)),
        value(from_bits::<T>(ATAN_A11)),
    ]
}

/// The arctangent is an odd polynomial of the eleventh degree.
pub proof fn law_arctangent_is_the_series<T: Single>(value: spec_fn(T) -> real, x: T)
    requires
        exact(value),
    ensures
        value(atan_approx(x)) == value(x) * polynomial(
            arctangent_series::<T>(value),
            value(x) * value(x),
            6,
        ),
{
    let c = arctangent_series::<T>(value);
    let sq = value(x) * value(x);
    lemma_polynomial_shifts(c, sq, 5);
    lemma_polynomial_shifts(c.skip(1), sq, 4);
    lemma_polynomial_shifts(c.skip(1).skip(1), sq, 3);
    lemma_polynomial_shifts(c.skip(1).skip(1).skip(1), sq, 2);
    lemma_polynomial_shifts(c.skip(1).skip(1).skip(1).skip(1), sq, 1);
    let last = c.skip(1).skip(1).skip(1).skip(1).skip(1);
    lemma_polynomial_shifts(last, sq, 0);
    assert(polynomial(last.skip(1), sq, 0) == 0real);
    assert(0real * sq == 0real) by (nonlinear_arith);
    let p0 = polynomial(last, sq, 1);
    let p1 = polynomial(c.skip(1).skip(1).skip(1).skip(1), sq, 2);
    let p2 = polynomial(c.skip(1).skip(1).skip(1), sq, 3);
    let p3 = polynomial(c.skip(1).skip(1), sq, 4);
    let p4 = polynomial(c.skip(1), sq, 5);
    lemma_real_distributes(sq, p0, 0real);
    lemma_real_distributes(sq, p1, 0real);
    lemma_real_distributes(sq, p2, 0real);
    lemma_real_distributes(sq, p3, 0real);
    lemma_real_distributes(sq, p4, 0real);
}

/// Opposite slopes have opposite angles.
pub proof fn law_arctangent_is_odd<T: Single>(value: spec_fn(T) -> real, x: T)
    requires
        exact(value),
    ensures
        value(atan_approx(negated(x))) == -value(atan_approx(x)),
{
    law_arctangent_is_the_series(value, x);
    law_arctangent_is_the_series(value, negated(x));
    let number = value(x);
    assert((-number) * (-number) == number * number) by (nonlinear_arith);
    let p = polynomial(arctangent_series::<T>(value), number * number, 6);
    lemma_real_distributes(number, p, 0real);
}

} // verus!
