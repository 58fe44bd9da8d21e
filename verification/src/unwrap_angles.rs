//! Instantaneous frequency of an analytic signal.
use vstd::prelude::*;

use crate::complex::Complex;
use crate::sample::{
    absolute, at_most, below, exact, floored, from_bits, functional_single,
    lemma_functional_single, minus, negated, ordered, over, plus, real_magnitude, times,
    with_sign, zero, Single,
};

verus! {

/// Bit patterns of the coefficients of the arctangent polynomial: 0.99997726,
/// -0.33262347, 0.19354346, -0.11643287, 0.05265332 and -0.0117212.
pub const ATAN_A1: u32 = 0x3F7F_FE82;

pub const ATAN_A3: u32 = 0xBEAA_4DA0;

pub const ATAN_A5: u32 = 0x3E46_3042;

pub const ATAN_A7: u32 = 0xBDEE_745B;

pub const ATAN_A9: u32 = 0x3D57_AB02;

pub const ATAN_A11: u32 = 0xBC40_0A47;

/// Bit pattern of pi/2.
pub const FRAC_PI_2: u32 = 0x3FC9_0FDB;

/// Bit pattern of pi.
pub const PI: u32 = 0x4049_0FDB;

/// Bit pattern of 2*pi.
pub const TAU: u32 = 0x40C9_0FDB;

/// Bit pattern of the least positive normal number.
pub const MIN_POSITIVE: u32 = 0x0080_0000;

/// The arctangent of a number between -1 and 1, as an odd polynomial.
pub open spec fn spec_atan_approx<T: Single>(x: T) -> T {
    let sq = times(x, x);
    let p = plus(from_bits(ATAN_A9), times(sq, from_bits(ATAN_A11)));
    let p = plus(from_bits(ATAN_A7), times(sq, p));
    let p = plus(from_bits(ATAN_A5), times(sq, p));
    let p = plus(from_bits(ATAN_A3), times(sq, p));
    times(x, plus(from_bits(ATAN_A1), times(sq, p)))
}

/// The arctangent of a number between -1 and 1.
#[verifier::when_used_as_spec(spec_atan_approx)]
pub fn atan_approx<T: Single>(x: T) -> (angle: T)
    requires
        functional_single::<T>(),
    ensures
        angle == spec_atan_approx(x),
{
    proof {
        lemma_functional_single::<T>();
    }
    let sq: T = times(x, x);
    let p: T = plus(from_bits(ATAN_A9), times(sq, from_bits(ATAN_A11)));
    let p: T = plus(from_bits(ATAN_A7), times(sq, p));
    let p: T = plus(from_bits(ATAN_A5), times(sq, p));
    let p: T = plus(from_bits(ATAN_A3), times(sq, p));
    times(x, plus(from_bits(ATAN_A1), times(sq, p)))
}

/// The abscissa, moved off zero by the least normal number.
pub open spec fn off_zero<T: Single>(x: T) -> T {
    plus(x, with_sign(from_bits(MIN_POSITIVE), x))
}

/// The arctangent of `y / x`, taken through the reciprocal where the slope is
/// steeper than 1.
pub open spec fn slope_angle<T: Single>(y: T, x: T) -> T {
    if below(absolute(x), absolute(y)) {
        let slope = over(x, y);
        let right_angle = if at_most(zero(), slope) {
            from_bits(FRAC_PI_2)
        } else {
            negated(from_bits(FRAC_PI_2))
        };
        minus(right_angle, atan_approx(slope))
    } else {
        atan_approx(over(y, x))
    }
}

/// The angle of the point with ordinate `y` and abscissa `x`: the slope's angle
/// in the right half plane, turned by half a turn in the left.
pub open spec fn spec_atan2_fast<T: Single>(y: T, x: T) -> T {
    let x = off_zero(x);
    if at_most(zero(), x) {
        slope_angle(y, x)
    } else if at_most(zero(), y) {
        plus(from_bits(PI), slope_angle(y, x))
    } else {
        plus(negated(from_bits(PI)), slope_angle(y, x))
    }
}

/// The angle of the point with ordinate `y` and abscissa `x`.
#[verifier::when_used_as_spec(spec_atan2_fast)]
pub fn atan2_fast<T: Single>(y: T, x: T) -> (angle: T)
    requires
        functional_single::<T>(),
    ensures
        angle == spec_atan2_fast(y, x),
{
    proof {
        lemma_functional_single::<T>();
    }
    let x: T = plus(x, with_sign(from_bits(MIN_POSITIVE), x));
    let swap: bool = below(absolute(x), absolute(y));
    let atan_input: T = if swap {
        over(x, y)
    } else {
        over(y, x)
    };
    let res: T = atan_approx(atan_input);
    let tmp: T = if at_most(zero(), atan_input) {
        from_bits(FRAC_PI_2)
    } else {
        negated(from_bits(FRAC_PI_2))
    };
    let res: T = if swap {
        minus(tmp, res)
    } else {
        res
    };
    if at_most(zero(), x) {
        res
    } else if at_most(zero(), y) {
        plus(from_bits(PI), res)
    } else {
        plus(negated(from_bits(PI)), res)
    }
}

/// The turn from `a` to `b`, brought into one revolution, as a frequency at
/// sampling rate `freq`, less `offset`.
pub open spec fn spec_unwrap_two<T: Single>(
    a: Complex<T>,
    b: Complex<T>,
    freq: T,
    offset: T,
) -> T {
    let turn = minus(atan2_fast(b.im, b.re), atan2_fast(a.im, a.re));
    let tau = from_bits(TAU);
    let within = minus(turn, times(floored(over(turn, tau)), tau));
    minus(over(times(within, freq), tau), offset)
}

/// The frequency between two samples of an analytic signal.
#[verifier::when_used_as_spec(spec_unwrap_two)]
pub fn unwrap_two<T: Single>(a: Complex<T>, b: Complex<T>, freq: T, offset: T) -> (frequency: T)
    requires
        functional_single::<T>(),
    ensures
        frequency == spec_unwrap_two(a, b, freq, offset),
{
    proof {
        lemma_functional_single::<T>();
    }
    let a_angle: T = atan2_fast(a.im, a.re);
    let b_angle: T = atan2_fast(b.im, b.re);
    let diff: T = minus(b_angle, a_angle);
    let tau: T = from_bits(TAU);
    let diff: T = minus(diff, times(floored(over(diff, tau)), tau));
    minus(over(times(diff, freq), tau), offset)
}

/// Rounding to an integer below is what its name says.
pub open spec fn exact_floor<T: Single>(value: spec_fn(T) -> real) -> bool {
    forall|a: T|
        value(#[trigger] floored(a)) <= value(a) && value(a) < value(floored(a)) + 1real
}

proof fn lemma_part_of_a_turn(within: real, tau: real, freq: real, result: real)
    requires
        0real <= within < tau,
        0real < freq,
        result * tau == within * freq,
    ensures
        0real <= result < freq,
{
    if result < 0real {
        assert(result * tau < 0real) by (nonlinear_arith)
            requires
                result < 0real,
                0real < tau,
        ;
        assert(0real <= within * freq) by (nonlinear_arith)
            requires
                0real <= within,
                0real < freq,
        ;
    }
    if result >= freq {
        assert(freq * tau <= result * tau) by (nonlinear_arith)
            requires
                freq <= result,
                0real < tau,
        ;
        assert(within * freq < tau * freq) by (nonlinear_arith)
            requires
                within < tau,
                0real < freq,
        ;
        assert(tau * freq == freq * tau) by (nonlinear_arith);
    }
}

/// Rounding aside, frequencies lie within one turn for each sample, less the
/// offset: none is negative before it is taken away, and none reaches the
/// sampling rate.
pub proof fn law_frequency_within_one_turn<T: Single>(
    value: spec_fn(T) -> real,
    a: Complex<T>,
    b: Complex<T>,
    freq: T,
    offset: T,
)
    requires
        exact(value),
        exact_floor(value),
        0real < value(from_bits::<T>(TAU)),
        0real < value(freq),
    ensures
        -value(offset) <= value(unwrap_two(a, b, freq, offset)),
        value(unwrap_two(a, b, freq, offset)) < value(freq) - value(offset),
{
    let turn = minus(atan2_fast(b.im, b.re), atan2_fast(a.im, a.re));
    let tau = from_bits::<T>(TAU);
    let turns = over(turn, tau);
    let whole = floored(turns);
    let within = minus(turn, times(whole, tau));
    let result = over(times(within, freq), tau);
    let t = value(tau);
    let p = value(turns);
    let q = value(whole);
    assert(p * t == value(turn));
    assert(q <= p < q + 1real);
    assert(value(within) == p * t - q * t);
    assert(0real <= p * t - q * t && p * t - q * t < t) by {
        crate::reals::lemma_real_distributes(t, p, q);
        assert(0real <= (p - q) * t) by (nonlinear_arith)
            requires
                q <= p,
                0real < t,
        ;
        assert((p - q) * t < 1real * t) by (nonlinear_arith)
            requires
                p - q < 1real,
                0real < t,
        ;
    }
    assert(value(result) * t == value(within) * value(freq));
    lemma_part_of_a_turn(value(within), t, value(freq), value(result));
}

/// Rounding aside, the offset does nothing but shift the frequencies.
pub proof fn law_offset_recenters<T: Single>(
    value: spec_fn(T) -> real,
    a: Complex<T>,
    b: Complex<T>,
    freq: T,
    offset: T,
)
    requires
        exact(value),
    ensures
        value(unwrap_two(a, b, freq, offset)) == value(unwrap_two(a, b, freq, zero())) - value(
            offset,
        ),
{
}

/// Writes the frequency between each sample and the one before it to the
/// sample's own place; the first place is left as it is.
pub fn unwrap_angles<T: Single>(
    input_slice: &[Complex<T>],
    output_slice: &mut Vec<T>,
    freq: T,
    offset: T,
)
    requires
        functional_single::<T>(),
        0 < input_slice.len(),
        input_slice.len() == 1 || input_slice.len() <= old(output_slice).len(),
    ensures
        final(output_slice).len() == old(output_slice).len(),
        forall|i: int|
            0 < i < input_slice.len() ==> final(output_slice)[i] == unwrap_two(
                input_slice[i - 1],
                input_slice[i],
                freq,
                offset,
            ),
        forall|i: int|
            0 <= i < final(output_slice).len() && !(0 < i < input_slice.len())
                ==> final(output_slice)[i] == old(output_slice)[i],
{
    let len: usize = input_slice.len();
    let mut i: usize = 0;
    while i < len - 1
        invariant
            functional_single::<T>(),
            len == input_slice.len(),
            0 < len,
            len == 1 || len <= output_slice.len(),
            output_slice.len() == old(output_slice).len(),
            i <= len - 1,
            forall|k: int|
                0 < k <= i ==> output_slice[k] == unwrap_two(
                    input_slice[k - 1],
                    input_slice[k],
                    freq,
                    offset,
                ),
            forall|k: int|
                0 <= k < output_slice.len() && !(0 < k <= i) ==> output_slice[k] == old(
                    output_slice,
                )[k],
        decreases len - i,
    {
        let frequency: T = unwrap_two(input_slice[i], input_slice[i + 1], freq, offset);
        output_slice[i + 1] = frequency;
        i = i + 1;
    }
}

/// What [`unwrap_hilbert`] answers: the frequencies, with the first place at
/// the level that frequency 0 has.
pub open spec fn unwrapped<T: Single>(input: Seq<Complex<T>>, freq: T, offset: T) -> Seq<T> {
    Seq::new(
        input.len(),
        |i: int|
            if i == 0 {
                negated(offset)
            } else {
                unwrap_two(input[i - 1], input[i], freq, offset)
            },
    )
}

/// The instantaneous frequency of an analytic signal, less `offset`.
pub fn unwrap_hilbert<T: Single>(input: &[Complex<T>], freq: T, offset: T) -> (output: Vec<T>)
    requires
        functional_single::<T>(),
        input.len() > 0,
    ensures
        output@ == unwrapped(input@, freq, offset),
{
    proof {
        lemma_functional_single::<T>();
    }
    let rest: T = negated(offset);
    let mut output: Vec<T> = Vec::new();
    while output.len() < input.len()
        invariant
            output.len() <= input.len(),
            forall|k: int| 0 <= k < output.len() ==> output[k] == rest,
        decreases input.len() - output.len(),
    {
        output.push(rest);
    }
    unwrap_angles(input, &mut output, freq, offset);
    proof {
        assert(output@ =~= unwrapped(input@, freq, offset));
    }
    output
}

/// Rounding aside, the frequency is to the rate as the turn between the samples is
/// to a whole one, but for whole turns.
pub proof fn law_frequency_is_the_turn<T: Single>(
    value: spec_fn(T) -> real,
    a: Complex<T>,
    b: Complex<T>,
    freq: T,
    offset: T,
)
    requires
        exact(value),
        value(from_bits::<T>(TAU)) != 0real,
        forall|x: T| is_whole(value(#[trigger] floored(x))),
    ensures
        exists|turns: real| #[trigger]
            is_whole(turns) && (value(unwrap_two(a, b, freq, offset)) + value(offset)) * value(
                from_bits::<T>(TAU),
            ) == (value(atan2_fast(b.im, b.re)) - value(atan2_fast(a.im, a.re)) - turns * value(
                from_bits::<T>(TAU),
            )) * value(freq),
{
    let turn = minus(atan2_fast(b.im, b.re), atan2_fast(a.im, a.re));
    let tau = from_bits::<T>(TAU);
    let whole = floored(over(turn, tau));
    let within = minus(turn, times(whole, tau));
    assert(is_whole(value(whole)));
    assert(value(over(times(within, freq), tau)) * value(tau) == value(within) * value(freq));
}

/// An integer as a number.
pub open spec fn whole_number(n: int) -> real {
    n as real
}

/// The number is an integer.
pub open spec fn is_whole(number: real) -> bool {
    exists|n: int| number == #[trigger] whole_number(n)
}

/// Rounding aside, a point on the right half of the axis has the angle zero, and
/// so has the origin.
pub proof fn law_origin_has_the_angle_zero<T: Single>(value: spec_fn(T) -> real, y: T, x: T)
    requires
        exact(value),
        ordered(value),
        forall|a: T| value(#[trigger] absolute(a)) == real_magnitude(value(a)),
        forall|a: T, sign: T|
            0real <= value(a) && 0real <= value(sign) ==> value(#[trigger] with_sign(a, sign))
                == value(a),
        0real < value(from_bits::<T>(MIN_POSITIVE)),
        value(y) == 0real,
        0real <= value(x),
    ensures
        value(atan2_fast(y, x)) == 0real,
{
    let moved = off_zero(x);
    let m = value(moved);
    assert(0real < m);
    let slope = over(y, moved);
    let s = value(slope);
    assert(s == 0real) by (nonlinear_arith)
        requires
            s * m == 0real,
            0real < m,
    ;
    let sq = times(slope, slope);
    let p = plus(from_bits(ATAN_A9), times(sq, from_bits(ATAN_A11)));
    let p = plus(from_bits(ATAN_A7), times(sq, p));
    let p = plus(from_bits(ATAN_A5), times(sq, p));
    let p = plus(from_bits(ATAN_A3), times(sq, p));
    let rest = plus(from_bits(ATAN_A1), times(sq, p));
    assert(atan_approx(slope) == times(slope, rest));
    let r = value(rest);
    assert(s * r == 0real) by (nonlinear_arith)
        requires
            s == 0real,
    ;
}

} // verus!
