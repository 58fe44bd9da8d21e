//! What SECAM demodulation recovers of a line: the frequency from the turns of
//! the signal, and the colour difference from the frequency. Rounding is left
//! aside.
use vstd::prelude::*;

use crate::complex::Complex;
use crate::fast_math::real_sum;
use crate::field::{ChromaError, ChromaField, ChromaSpec};
use crate::filter::{filterable, filtered, DynamicFilter, FilterRuntime};
use crate::median::{
    all_numbers, in_order, is_median, law_middle_is_median, medians, middle_of, place_among,
    window_around, window_start,
};
use crate::reals::lemma_real_distributes;
use crate::request::{SecamMode, SecamParams};
use crate::sample::{
    angle, double_count, exact, exact_wide, from_bits, minus, narrowed, ordered, over, plus,
    rank, root, times, zero, Double, Sample, Single, SosFloat,
};
use crate::secam::{
    burst_sample, colour_of, deemphasized, discriminated, field_steps, hertz_per_radian,
    in_burst, in_picture, limited, modulated, reads_field, sample_at, secam_decoded,
    secam_ready, spec_descaled, sum_before, windows_of, FRAC_1_SQRT_2, LIMIT_FLOOR,
};
use crate::secam_laws::{
    is_written, law_blanking_is_silent, law_burst_is_written, law_discriminator_sums_its_window,
    law_measured_lines_on_grid, law_picture_is_the_colour, windows_fit,
};
use crate::secam_lines::{measured_lines, phasing_of, steps_of};
use crate::spectrum::analytic_of;
use crate::spectrum_laws::{number_of, product};
use crate::transforms::Transforms;
use crate::unwrap_angles::TAU;

verus! {

/// `sum` stands for the sum of the steps.
pub open spec fn sums_up<T>(
    value: spec_fn(T) -> real,
    steps: Seq<Complex<T>>,
    sum: Complex<T>,
) -> bool {
    &&& value(sum.re) == real_sum(value, steps.map_values(|z: Complex<T>| z.re))
    &&& value(sum.im) == real_sum(value, steps.map_values(|z: Complex<T>| z.im))
}

/// The steps at most `half` places from place `k`.
pub open spec fn steps_around<T>(steps: Seq<Complex<T>>, k: int, half: int) -> Seq<Complex<T>> {
    let lo = if k - half < 0 {
        0
    } else {
        k - half
    };
    let hi = if k + half >= steps.len() {
        steps.len() as int
    } else {
        k + half + 1
    };
    steps.subrange(lo, hi)
}

/// The frequency at a place is the angle of the sum of the steps at most `half`
/// places from it, times the scale.
pub proof fn law_frequency_is_the_mean_turn<T: Single>(
    value: spec_fn(T) -> real,
    steps: Seq<Complex<T>>,
    half: int,
    scale: T,
    k: int,
)
    requires
        exact(value),
        0 <= half,
        0 <= k < steps.len(),
    ensures
        discriminated(steps, half, scale).len() == steps.len(),
        exists|sum: Complex<T>| #[trigger]
            sums_up(value, steps_around(steps, k, half), sum) && value(
                discriminated(steps, half, scale)[k],
            ) == value(angle(sum.im, sum.re)) * value(scale),
{
    let lo = if k <= half {
        0
    } else {
        k - half
    };
    let hi = if k + half + 1 <= steps.len() {
        k + half + 1
    } else {
        steps.len() as int
    };
    law_discriminator_sums_its_window(value, steps, lo, hi);
    let before = sum_before(steps, lo);
    let behind = sum_before(steps, hi);
    let sum = Complex { re: minus(behind.re, before.re), im: minus(behind.im, before.im) };
    assert(steps_around(steps, k, half) == steps.subrange(lo, hi));
    assert(sums_up(value, steps_around(steps, k, half), sum));
}

/// `number` is a positive multiple of `turn`.
pub open spec fn is_stretched(turn: (real, real), power: real, number: (real, real)) -> bool {
    0real < power && number == (power * turn.0, power * turn.1)
}

/// All steps point the same way: each is a positive multiple of the same turn.
pub open spec fn turns_steadily<T>(
    value: spec_fn(T) -> real,
    steps: Seq<Complex<T>>,
    powers: Seq<real>,
    turn: (real, real),
) -> bool {
    powers.len() == steps.len() && forall|j: int|
        0 <= j < steps.len() ==> is_stretched(
            turn,
            #[trigger] powers[j],
            number_of(value, steps[j]),
        )
}

proof fn lemma_steady_sum<T>(
    value: spec_fn(T) -> real,
    steps: Seq<Complex<T>>,
    powers: Seq<real>,
    turn: (real, real),
) -> (total: real)
    requires
        turns_steadily(value, steps, powers, turn),
    ensures
        0real <= total,
        steps.len() > 0 ==> 0real < total,
        real_sum(value, steps.map_values(|z: Complex<T>| z.re)) == total * turn.0,
        real_sum(value, steps.map_values(|z: Complex<T>| z.im)) == total * turn.1,
    decreases steps.len(),
{
    let re = steps.map_values(|z: Complex<T>| z.re);
    let im = steps.map_values(|z: Complex<T>| z.im);
    if steps.len() == 0 {
        assert(0real * turn.0 == 0real) by (nonlinear_arith);
        assert(0real * turn.1 == 0real) by (nonlinear_arith);
        0real
    } else {
        let fewer = steps.drop_last();
        let last = steps.len() - 1;
        assert forall|j: int| 0 <= j < fewer.len() implies is_stretched(
            turn,
            #[trigger] powers.drop_last()[j],
            number_of(value, fewer[j]),
        ) by {
            assert(powers.drop_last()[j] == powers[j]);
        }
        let before = lemma_steady_sum(value, fewer, powers.drop_last(), turn);
        assert(re.drop_last() =~= fewer.map_values(|z: Complex<T>| z.re));
        assert(im.drop_last() =~= fewer.map_values(|z: Complex<T>| z.im));
        assert(is_stretched(turn, powers[last], number_of(value, steps[last])));
        lemma_real_distributes(turn.0, before, powers[last]);
        lemma_real_distributes(turn.1, before, powers[last]);
        before + powers[last]
    }
}

/// A carrier that turns by the same angle from each sample to the next is read
/// at that angle times the scale, whatever its power and the window.
pub proof fn law_steady_carrier_is_read<T: Single>(
    value: spec_fn(T) -> real,
    steps: Seq<Complex<T>>,
    powers: Seq<real>,
    turn: (real, real),
    radians: real,
    half: int,
    scale: T,
    k: int,
)
    requires
        exact(value),
        0 <= half,
        0 <= k < steps.len(),
        turns_steadily(value, steps, powers, turn),
        forall|y: T, x: T, power: real|
            #[trigger] is_stretched(turn, power, (value(x), value(y))) ==> value(
                #[trigger] angle(y, x),
            ) == radians,
    ensures
        value(discriminated(steps, half, scale)[k]) == radians * value(scale),
{
    law_frequency_is_the_mean_turn(value, steps, half, scale, k);
    let around = steps_around(steps, k, half);
    let sum = choose|sum: Complex<T>| #[trigger]
        sums_up(value, around, sum) && value(discriminated(steps, half, scale)[k]) == value(
            angle(sum.im, sum.re),
        ) * value(scale);
    let lo = if k - half < 0 {
        0
    } else {
        k - half
    };
    let hi = if k + half >= steps.len() {
        steps.len() as int
    } else {
        k + half + 1
    };
    let nearby = powers.subrange(lo, hi);
    assert forall|j: int| 0 <= j < around.len() implies is_stretched(
        turn,
        #[trigger] nearby[j],
        number_of(value, around[j]),
    ) by {
        assert(nearby[j] == powers[lo + j]);
        assert(around[j] == steps[lo + j]);
    }
    let total = lemma_steady_sum(value, around, nearby, turn);
    assert(is_stretched(turn, total, (value(sum.re), value(sum.im))));
}

/// The colour difference against the deviation of the frequency from rest: R-Y
/// goes down as the frequency goes up, B-Y goes up with it, each by its
/// sensitivity.
pub open spec fn is_deviation<F: SosFloat>(
    value: spec_fn(F) -> real,
    wide: spec_fn(F::Wide) -> real,
    colour: F,
    frequency: F,
    rest: F,
    is_ry: bool,
    params: SecamParams<F>,
) -> bool {
    if is_ry {
        value(colour) * wide(params.sens_ry_hz) == value(rest) - value(frequency)
    } else {
        value(colour) * wide(params.sens_by_hz) == value(frequency) - value(rest)
    }
}

/// The sensitivities of both kinds of lines are there.
pub open spec fn is_sensitive<F: SosFloat>(
    wide: spec_fn(F::Wide) -> real,
    params: SecamParams<F>,
) -> bool {
    wide(params.sens_ry_hz) != 0real && wide(params.sens_by_hz) != 0real
}

proof fn lemma_descaled<F: SosFloat>(
    value: spec_fn(F) -> real,
    wide: spec_fn(F::Wide) -> real,
    frequency: F,
    rest: F,
    is_ry: bool,
    params: SecamParams<F>,
)
    requires
        exact_wide(value, wide),
        is_sensitive(wide, params),
    ensures
        is_deviation(
            value,
            wide,
            spec_descaled(frequency, rest, is_ry, params),
            frequency,
            rest,
            is_ry,
            params,
        ),
{
    assert(value(narrowed::<F>(params.sens_ry_hz)) == wide(params.sens_ry_hz));
    assert(value(narrowed::<F>(params.sens_by_hz)) == wide(params.sens_by_hz));
}

/// Without de-emphasis and low-pass, the colour difference at each place is the
/// deviation, of either sign, of the median frequency around it.
pub proof fn law_colour_is_the_deviation<F: SosFloat + Single, D: DynamicFilter<F>>(
    value: spec_fn(F) -> real,
    wide: spec_fn(F::Wide) -> real,
    steps: Seq<Complex<F>>,
    rest: F,
    is_ry: bool,
    scale: F,
    params: SecamParams<F>,
    spec: ChromaSpec<F>,
    runtime: FilterRuntime<D>,
    k: int,
)
    requires
        exact_wide(value, wide),
        is_sensitive(wide, params),
        spec.secam_lf_deemphasis is None,
        spec.secam_baseband_lpf is None,
        0 <= k < steps.len(),
        spec.secam_median_window > 1 ==> all_numbers(
            discriminated(steps, spec.secam_disc_window as int / 2, scale),
        ),
    ensures
        ({
            let colour = colour_of(steps, rest, is_ry, scale, params, spec, runtime);
            let frequency = discriminated(steps, spec.secam_disc_window as int / 2, scale);
            &&& colour.len() == steps.len()
            &&& spec.secam_median_window <= 1 ==> is_deviation(
                value,
                wide,
                colour[k],
                frequency[k],
                rest,
                is_ry,
                params,
            )
            &&& spec.secam_median_window > 1 ==> exists|middle: F| #[trigger]
                is_median(
                    middle,
                    window_around(frequency, k, spec.secam_median_window as int / 2),
                ) && is_deviation(value, wide, colour[k], middle, rest, is_ry, params)
        }),
{
    let half = spec.secam_median_window as int / 2;
    let frequency = discriminated(steps, spec.secam_disc_window as int / 2, scale);
    let around = window_around(frequency, k, half);
    let middle = medians(frequency, spec.secam_median_window as int)[k];
    lemma_descaled(value, wide, middle, rest, is_ry, params);
    if spec.secam_median_window > 1 {
        assert forall|j: int| 0 <= j < around.len() implies rank(
            #[trigger] around[j],
        ) is Some by {
            let lo = window_start(k, half);
            assert(around[j] == frequency[lo + j]);
        }
        law_middle_is_median(around);
        if steps.len() < 2 {
            assert(around =~= frequency);
            assert(around == seq![frequency[0]]);
            assert(middle_of(around) == frequency[0]) by {
                reveal_with_fuel(in_order, 2);
                reveal_with_fuel(place_among, 2);
            }
        }
        assert(is_median(middle, around));
    }
}

/// Deviations of opposite sign stand for opposite colour differences, and none
/// for none.
pub proof fn law_colour_is_odd<F: SosFloat>(
    value: spec_fn(F) -> real,
    wide: spec_fn(F::Wide) -> real,
    frequency: F,
    mirrored: F,
    rest: F,
    is_ry: bool,
    params: SecamParams<F>,
)
    requires
        exact_wide(value, wide),
        is_sensitive(wide, params),
        value(frequency) - value(rest) == value(rest) - value(mirrored),
    ensures
        value(spec_descaled(mirrored, rest, is_ry, params)) == -value(
            spec_descaled(frequency, rest, is_ry, params),
        ),
        value(spec_descaled(rest, rest, is_ry, params)) == 0real,
{
    lemma_descaled(value, wide, frequency, rest, is_ry, params);
    lemma_descaled(value, wide, mirrored, rest, is_ry, params);
    lemma_descaled(value, wide, rest, rest, is_ry, params);
    let sens = if is_ry {
        wide(params.sens_ry_hz)
    } else {
        wide(params.sens_by_hz)
    };
    let a = value(spec_descaled(frequency, rest, is_ry, params));
    let b = value(spec_descaled(mirrored, rest, is_ry, params));
    let c = value(spec_descaled(rest, rest, is_ry, params));
    assert(b == -a) by (nonlinear_arith)
        requires
            a * sens == -(b * sens),
            sens != 0real,
    ;
    assert(c == 0real) by (nonlinear_arith)
        requires
            c * sens == 0real,
            sens != 0real,
    ;
}

/// With positive sensitivities a higher frequency stands for a smaller R-Y and
/// for a greater B-Y.
pub proof fn law_colour_is_monotone<F: SosFloat>(
    value: spec_fn(F) -> real,
    wide: spec_fn(F::Wide) -> real,
    frequency: F,
    higher: F,
    rest: F,
    params: SecamParams<F>,
)
    requires
        exact_wide(value, wide),
        0real < wide(params.sens_ry_hz),
        0real < wide(params.sens_by_hz),
        value(frequency) < value(higher),
    ensures
        value(spec_descaled(higher, rest, true, params)) < value(
            spec_descaled(frequency, rest, true, params),
        ),
        value(spec_descaled(frequency, rest, false, params)) < value(
            spec_descaled(higher, rest, false, params),
        ),
{
    lemma_descaled(value, wide, frequency, rest, true, params);
    lemma_descaled(value, wide, higher, rest, true, params);
    lemma_descaled(value, wide, frequency, rest, false, params);
    lemma_descaled(value, wide, higher, rest, false, params);
    lemma_order_divides(
        value(spec_descaled(higher, rest, true, params)),
        value(spec_descaled(frequency, rest, true, params)),
        wide(params.sens_ry_hz),
    );
    lemma_order_divides(
        value(spec_descaled(frequency, rest, false, params)),
        value(spec_descaled(higher, rest, false, params)),
        wide(params.sens_by_hz),
    );
}

proof fn lemma_order_divides(a: real, b: real, factor: real)
    requires
        0real < factor,
        a * factor < b * factor,
    ensures
        a < b,
{
    assert(a < b) by (nonlinear_arith)
        requires
            0real < factor,
            a * factor < b * factor,
    ;
}

/// De-emphasis and low-pass work on the colour difference as it is without them,
/// in this order.
pub proof fn law_colour_is_filtered<F: SosFloat + Single, D: DynamicFilter<F>>(
    steps: Seq<Complex<F>>,
    rest: F,
    is_ry: bool,
    scale: F,
    params: SecamParams<F>,
    spec: ChromaSpec<F>,
    runtime: FilterRuntime<D>,
)
    ensures
        ({
            let unlimited = ChromaSpec { secam_baseband_lpf: None, ..spec };
            let plain = ChromaSpec { secam_lf_deemphasis: None, ..unlimited };
            let flat = colour_of(steps, rest, is_ry, scale, params, plain, runtime);
            let shaped = colour_of(steps, rest, is_ry, scale, params, unlimited, runtime);
            let colour = colour_of(steps, rest, is_ry, scale, params, spec, runtime);
            &&& spec.secam_lf_deemphasis is None ==> shaped == flat
            &&& spec.secam_lf_deemphasis matches Some(sos) ==> shaped == deemphasized(sos@, flat)
            &&& spec.secam_baseband_lpf is None ==> colour == shaped
            &&& spec.secam_baseband_lpf matches Some(sos) ==> colour == filtered(
                runtime,
                sos@,
                shaped,
            )
        }),
{
}

/// The square root of a number that is not negative is not negative, and its
/// square is the number.
pub open spec fn takes_roots<T: Single>(value: spec_fn(T) -> real) -> bool {
    forall|a: T|
        0real <= value(a) ==> 0real <= value(#[trigger] root(a)) && value(root(a)) * value(
            root(a),
        ) == value(a)
}

/// A sample above the floor comes to unit magnitude and keeps its direction; any
/// other stays.
pub proof fn law_limited_samples_have_unit_magnitude<T: Single>(
    value: spec_fn(T) -> real,
    z: Complex<T>,
    magnitude: real,
)
    requires
        exact(value),
        ordered(value),
        takes_roots(value),
        0real <= value(from_bits::<T>(LIMIT_FLOOR)),
        0real <= magnitude,
        magnitude * magnitude == value(z.re) * value(z.re) + value(z.im) * value(z.im),
    ensures
        ({
            let limited = number_of(value, limited(z));
            let floor = value(from_bits::<T>(LIMIT_FLOOR));
            &&& magnitude <= floor ==> limited == number_of(value, z)
            &&& magnitude > floor ==> {
                &&& limited.0 * magnitude == value(z.re)
                &&& limited.1 * magnitude == value(z.im)
                &&& limited.0 * limited.0 + limited.1 * limited.1 == 1real
            }
        }),
{
    let re = value(z.re);
    let im = value(z.im);
    let square = plus(times(z.re, z.re), times(z.im, z.im));
    assert(0real <= re * re) by (nonlinear_arith);
    assert(0real <= im * im) by (nonlinear_arith);
    let size = value(root(square));
    assert(size * size == magnitude * magnitude);
    assert(size == magnitude) by (nonlinear_arith)
        requires
            0real <= size,
            0real <= magnitude,
            size * size == magnitude * magnitude,
    ;
    if magnitude > value(from_bits::<T>(LIMIT_FLOOR)) {
        let a = value(over(z.re, root(square)));
        let b = value(over(z.im, root(square)));
        assert(a * size == re && b * size == im);
        lemma_unit(a, b, size, re, im);
    }
}

proof fn lemma_unit(a: real, b: real, size: real, re: real, im: real)
    requires
        a * size == re,
        b * size == im,
        0real < size,
        size * size == re * re + im * im,
    ensures
        a * a + b * b == 1real,
{
    let whole = size * size;
    assert(0real < whole) by (nonlinear_arith)
        requires
            0real < size,
            whole == size * size,
    ;
    assert(re * re == (a * a) * whole) by (nonlinear_arith)
        requires
            a * size == re,
            whole == size * size,
    ;
    assert(im * im == (b * b) * whole) by (nonlinear_arith)
        requires
            b * size == im,
            whole == size * size,
    ;
    let sum = a * a + b * b;
    lemma_real_distributes(whole, a * a, b * b);
    assert(sum * whole == whole);
    assert(sum == 1real) by (nonlinear_arith)
        requires
            sum * whole == whole,
            0real < whole,
    ;
}

/// The conjugate of a complex number.
pub open spec fn conjugate(a: (real, real)) -> (real, real) {
    (a.0, -a.1)
}

/// Each step is a sample times the conjugate of the one before it; the first
/// place repeats the second.
pub proof fn law_steps_are_turns<T: Sample>(
    value: spec_fn(T) -> real,
    analytic: Seq<Complex<T>>,
    i: int,
)
    requires
        exact(value),
        0 < i < analytic.len(),
    ensures
        steps_of(analytic).len() == analytic.len(),
        number_of(value, steps_of(analytic)[i]) == product(
            number_of(value, analytic[i]),
            conjugate(number_of(value, analytic[i - 1])),
        ),
        steps_of(analytic)[0] == steps_of(analytic)[1],
{
    let z = number_of(value, analytic[i]);
    let w = number_of(value, analytic[i - 1]);
    lemma_real_distributes(-w.1, z.1, 0real);
    lemma_real_distributes(-w.1, z.0, 0real);
    lemma_real_distributes(w.1, z.1, 0real);
    lemma_real_distributes(w.1, z.0, 0real);
}

/// The steps of the field are those of its analytic signal, made with the
/// anti-bell gains where there are any. With de-emphasis each sample of the
/// signal is limited first, otherwise it stays.
pub proof fn law_deemphasis_limits_the_field<F: SosFloat + Single, X: Transforms<F>>(
    uphet: Seq<F>,
    spec: ChromaSpec<F>,
    transforms: X,
)
    ensures
        ({
            let analytic = match spec.secam_antibell_gain {
                Some(gains) => analytic_of(transforms, uphet, Some(gains@)),
                None => analytic_of(transforms, uphet, None),
            };
            &&& !spec.secam_deemphasis ==> field_steps(uphet, spec, transforms) == steps_of(
                analytic,
            )
            &&& spec.secam_deemphasis ==> exists|unit: Seq<Complex<F>>|
                {
                    &&& field_steps(uphet, spec, transforms) == #[trigger] steps_of(unit)
                    &&& unit.len() == analytic.len()
                    &&& forall|i: int|
                        0 <= i < unit.len() ==> #[trigger] unit[i] == limited(analytic[i])
                }
        }),
{
    let analytic = match spec.secam_antibell_gain {
        Some(gains) => analytic_of(transforms, uphet, Some(gains@)),
        None => analytic_of(transforms, uphet, None),
    };
    if spec.secam_deemphasis {
        let unit = analytic.map_values(|z: Complex<F>| limited(z));
        assert(field_steps(uphet, spec, transforms) == steps_of(unit));
    }
}

/// A whole turn for each sample is the sample rate in hertz.
pub proof fn law_whole_turn_is_the_sample_rate<F: SosFloat + Single>(
    value: spec_fn(F) -> real,
    wide: spec_fn(F::Wide) -> real,
    outfreq: F::Wide,
) where F::Wide: Double
    requires
        exact_wide(value, wide),
        wide(double_count::<F::Wide>(1_000_000)) == 1_000_000real,
        value(from_bits::<F>(TAU)) != 0real,
    ensures
        value(hertz_per_radian::<F>(outfreq)) * value(from_bits::<F>(TAU)) == 1_000_000real * wide(
            outfreq,
        ),
{
    lemma_real_distributes(wide(outfreq), wide(double_count::<F::Wide>(1_000_000)), 0real);
}

/// On the subcarrier R-Y stands against the sine and B-Y on the cosine, each
/// compressed.
pub proof fn law_colour_stands_on_its_axis<F: SosFloat>(
    value: spec_fn(F) -> real,
    colour: F,
    params: SecamParams<F>,
    wave: (F, F),
)
    requires
        exact(value),
    ensures
        value(modulated(colour, true, &params, wave)) == -((value(params.compress_v) * value(
            colour,
        )) * value(wave.0)),
        value(modulated(colour, false, &params, wave)) == (value(params.compress_u) * value(
            colour,
        )) * value(wave.1),
{
    let v = value(params.compress_v);
    let c = value(colour);
    let w = value(wave.0);
    assert((-1real) * v == -v) by (nonlinear_arith);
    lemma_real_distributes(v, c, 0real);
    lemma_real_distributes(v * c, w, 0real);
    assert((-v) * c == -(v * c)) by (nonlinear_arith);
    assert((-(v * c)) * w == -((v * c) * w)) by (nonlinear_arith);
}

/// The burst stands against the cosine on every line. On R-Y lines it stands
/// against the sine too, on B-Y lines with it: the bursts of two lines add up to
/// the cosine and differ by the sine.
pub proof fn law_burst_swings<F: SosFloat + Single>(
    value: spec_fn(F) -> real,
    params: SecamParams<F>,
    wave: (F, F),
)
    requires
        exact(value),
    ensures
        ({
            let part = value(from_bits::<F>(FRAC_1_SQRT_2)) * value(params.burst_amplitude);
            let ry = value(burst_sample(true, &params, wave));
            let by = value(burst_sample(false, &params, wave));
            &&& ry + by == -2real * (part * value(wave.1))
            &&& ry - by == -2real * (part * value(wave.0))
        }),
{
    let part = value(from_bits::<F>(FRAC_1_SQRT_2)) * value(params.burst_amplitude);
    let s = value(wave.0);
    let c = value(wave.1);
    assert(1real * s == s) by (nonlinear_arith);
    assert((-1real) * s == -s) by (nonlinear_arith);
    lemma_real_distributes(part, -c, s);
    lemma_real_distributes(part, c, s);
    assert(part * (-c) == -(part * c)) by (nonlinear_arith);
}

/// In a raw field, without filters of the line, each sample of the picture is the
/// deviation of the frequency there from where the lines of its kind rest. Those
/// that rest high carry R-Y. A field without a measured line stays.
pub proof fn law_raw_field_holds_the_deviations<
    F: SosFloat + Single,
    X: Transforms<F>,
    D: DynamicFilter<F>,
>(
    value: spec_fn(F) -> real,
    wide: spec_fn(F::Wide) -> real,
    uphet: Seq<F>,
    field: ChromaField<F::Wide>,
    spec: ChromaSpec<F>,
    transforms: X,
    runtime: FilterRuntime<D>,
    k: int,
    i: int,
) where F::Wide: Double
    requires
        exact_wide(value, wide),
        reads_field(field, spec),
        is_sensitive(wide, spec.secam_params->0),
        spec.secam_mode == Some(SecamMode::RawDemod),
        spec.secam_lf_deemphasis is None,
        spec.secam_baseband_lpf is None,
        spec.secam_median_window <= 1,
        field_steps(uphet, spec, transforms).len() <= usize::MAX,
    ensures
        ({
            let steps = field_steps(uphet, spec, transforms);
            let scale = hertz_per_radian::<F>(spec.outfreq);
            let windows = windows_of(spec, field.outlinelen);
            let sequence = field.phase_sequence->0@;
            let lines = measured_lines(steps, field, sequence, windows.porch, scale);
            let phasing = phasing_of(lines, field.outlinelen as nat);
            let base = lines[k].linestart as int;
            let is_ry = phasing.is_high(lines[k], field.outlinelen as nat);
            let decoded = secam_decoded(uphet, field, spec, transforms, runtime);
            &&& decoded is Ok
            &&& lines.len() == 0 ==> decoded->Ok_0 == uphet
            &&& 0 <= k < lines.len() && in_picture(i, base, windows, steps.len()) && !in_burst(
                i,
                base,
                windows,
                steps.len(),
            ) ==> is_deviation(
                value,
                wide,
                decoded->Ok_0[i],
                discriminated(
                    steps.subrange(base + windows.active_lo, base + windows.active_hi),
                    spec.secam_disc_window as int / 2,
                    scale,
                )[i - base - windows.active_lo],
                if is_ry {
                    phasing.high
                } else {
                    phasing.low
                },
                is_ry,
                spec.secam_params->0,
            )
        }),
{
    let steps = field_steps(uphet, spec, transforms);
    let scale = hertz_per_radian::<F>(spec.outfreq);
    let windows = windows_of(spec, field.outlinelen);
    let sequence = field.phase_sequence->0@;
    let lines = measured_lines(steps, field, sequence, windows.porch, scale);
    let len = field.outlinelen as nat;
    let phasing = phasing_of(lines, len);
    let params = spec.secam_params->0;
    if 0 <= k < lines.len() {
        let base = lines[k].linestart as int;
        if in_picture(i, base, windows, steps.len()) && !in_burst(i, base, windows, steps.len()) {
            let is_ry = phasing.is_high(lines[k], len);
            let rest = if is_ry {
                phasing.high
            } else {
                phasing.low
            };
            law_measured_lines_on_grid(steps, field, sequence, windows.porch, scale);
            assert(windows_fit(windows, len));
            law_picture_is_the_colour(
                steps,
                lines,
                phasing,
                len,
                windows,
                scale,
                params,
                spec,
                runtime,
                k,
                i,
            );
            law_colour_is_the_deviation(
                value,
                wide,
                steps.subrange(base + windows.active_lo, base + windows.active_hi),
                rest,
                is_ry,
                scale,
                params,
                spec,
                runtime,
                i - base - windows.active_lo,
            );
        }
    }
}

/// A field is decoded where there is a gain for each of its bins, where its lines
/// and their porches can be addressed, where the subcarrier is known all over it,
/// and where the windows of its lines fit.
pub proof fn law_suited_secam_fields_are_ready<F: SosFloat + Single, X: Transforms<F>>(
    uphet: Seq<F>,
    field: ChromaField<F::Wide>,
    spec: ChromaSpec<F>,
    transforms: X,
) where F::Wide: Double
    requires
        spec.secam_antibell_gain is Some ==> uphet.len() / 2 < spec.secam_antibell_gain->0.len(),
        0 <= spec.burst_area.0 <= isize::MAX - 8,
        0 <= spec.burst_area.1,
        field.phase_sequence is Some ==> forall|k: int|
            0 <= k < field.phase_sequence->0.len() ==> field.addressable(
                (#[trigger] field.phase_sequence->0@[k]).linenumber as int,
            ),
        ({
            let steps = field_steps(uphet, spec, transforms);
            let windows = windows_of(spec, field.outlinelen);
            let scale = hertz_per_radian::<F>(spec.outfreq);
            &&& field.phase_sequence is Some ==> measured_lines(
                steps,
                field,
                field.phase_sequence->0@,
                windows.porch,
                scale,
            ).len() <= i32::MAX
            &&& steps.len() <= spec.fsc_wave.len()
            &&& steps.len() + spec.secam_disc_window / 2 <= usize::MAX
            &&& steps.len() + spec.secam_median_window / 2 <= usize::MAX
            &&& steps.len() + 64 <= usize::MAX
            &&& windows.active_lo < windows.active_hi && spec.secam_baseband_lpf is Some
                ==> filterable(
                spec.secam_baseband_lpf->0@,
                (windows.active_hi - windows.active_lo) as nat,
            )
        }),
        spec.secam_median_window <= 1,
    ensures
        secam_ready(uphet, field, spec, transforms),
{
}

/// A field without lines or without samples on them stays, whatever else is known
/// of it.
pub proof fn law_field_without_lines_stays<
    F: SosFloat + Single,
    X: Transforms<F>,
    D: DynamicFilter<F>,
>(
    uphet: Seq<F>,
    field: ChromaField<F::Wide>,
    spec: ChromaSpec<F>,
    transforms: X,
    runtime: FilterRuntime<D>,
) where F::Wide: Double
    requires
        spec.secam_params is Some,
        field.outlinelen == 0 || field.outlinecount == 0,
    ensures
        secam_decoded(uphet, field, spec, transforms, runtime) == Ok::<Seq<F>, ChromaError>(
            uphet,
        ),
{
}

/// What stands in a decoded field on a measured line. On the burst stands the
/// synthesized burst of the line's kind. On the rest of the picture stands the
/// colour difference that the steps of the picture carry against where the lines
/// of the kind rest, as it is in raw mode and on the subcarrier otherwise. The
/// lines that rest high carry R-Y.
pub proof fn law_field_holds_the_colours<
    F: SosFloat + Single,
    X: Transforms<F>,
    D: DynamicFilter<F>,
>(
    uphet: Seq<F>,
    field: ChromaField<F::Wide>,
    spec: ChromaSpec<F>,
    transforms: X,
    runtime: FilterRuntime<D>,
    k: int,
    i: int,
) where F::Wide: Double
    requires
        reads_field(field, spec),
        field_steps(uphet, spec, transforms).len() <= usize::MAX,
        0 <= k < measured_lines(
            field_steps(uphet, spec, transforms),
            field,
            field.phase_sequence->0@,
            windows_of(spec, field.outlinelen).porch,
            hertz_per_radian::<F>(spec.outfreq),
        ).len(),
    ensures
        ({
            let steps = field_steps(uphet, spec, transforms);
            let scale = hertz_per_radian::<F>(spec.outfreq);
            let windows = windows_of(spec, field.outlinelen);
            let params = spec.secam_params->0;
            let lines = measured_lines(
                steps,
                field,
                field.phase_sequence->0@,
                windows.porch,
                scale,
            );
            let phasing = phasing_of(lines, field.outlinelen as nat);
            let base = lines[k].linestart as int;
            let is_ry = phasing.is_high(lines[k], field.outlinelen as nat);
            let rest = if is_ry {
                phasing.high
            } else {
                phasing.low
            };
            let colour = colour_of(
                steps.subrange(base + windows.active_lo, base + windows.active_hi),
                rest,
                is_ry,
                scale,
                params,
                spec,
                runtime,
            )[i - base - windows.active_lo];
            let decoded = secam_decoded(uphet, field, spec, transforms, runtime);
            let on_burst = base + windows.burst_lo <= i < base + windows.burst_hi && base
                + windows.burst_hi <= steps.len();
            let on_picture = base + windows.active_lo <= i < base + windows.active_hi && base
                + windows.active_hi <= steps.len();
            &&& decoded is Ok
            &&& on_burst ==> decoded->Ok_0[i] == burst_sample(is_ry, &params, spec.fsc_wave[i])
            &&& on_picture && !on_burst ==> decoded->Ok_0[i] == if spec.secam_mode == Some(
                SecamMode::RawDemod,
            ) {
                colour
            } else {
                modulated(colour, is_ry, &params, spec.fsc_wave[i])
            }
        }),
{
    let steps = field_steps(uphet, spec, transforms);
    let scale = hertz_per_radian::<F>(spec.outfreq);
    let windows = windows_of(spec, field.outlinelen);
    let sequence = field.phase_sequence->0@;
    let lines = measured_lines(steps, field, sequence, windows.porch, scale);
    let len = field.outlinelen as nat;
    let phasing = phasing_of(lines, len);
    let params = spec.secam_params->0;
    let base = lines[k].linestart as int;
    law_measured_lines_on_grid(steps, field, sequence, windows.porch, scale);
    assert(windows_fit(windows, len));
    if in_burst(i, base, windows, steps.len()) {
        law_burst_is_written(
            steps,
            lines,
            phasing,
            len,
            windows,
            scale,
            params,
            spec,
            runtime,
            k,
            i,
        );
    } else if in_picture(i, base, windows, steps.len()) {
        law_picture_is_the_colour(
            steps,
            lines,
            phasing,
            len,
            windows,
            scale,
            params,
            spec,
            runtime,
            k,
            i,
        );
    }
}

/// Where the parts of a line lie. The porch starts eight samples into the burst
/// and ends four before its end, but not before the burst starts. The burst and
/// the picture end with the line at the latest. Nothing lies before the line.
pub proof fn law_windows_lie_on_the_line<F: SosFloat>(
    spec: ChromaSpec<F>,
    outlinelen: usize,
) where F::Wide: Double
    requires
        spec.burst_area.0 + 8 <= isize::MAX,
        isize::MIN <= spec.burst_area.1 - 4,
    ensures
        ({
            let windows = windows_of(spec, outlinelen);
            let (start, end) = (spec.burst_area.0 as int, spec.burst_area.1 as int);
            &&& windows.porch.lo == later(0, start + 8)
            &&& windows.porch.hi == later(0, later(start, end - 4))
            &&& windows.burst_lo == later(0, start)
            &&& windows.burst_hi == earlier(later(0, end), outlinelen as int)
            &&& windows.active_lo == sample_at(
                spec.active_video_us[0],
                spec.outfreq,
                spec.place_adjust,
            )
            &&& windows.active_hi == earlier(
                sample_at(spec.active_video_us[1], spec.outfreq, spec.place_adjust),
                outlinelen as int,
            )
        }),
{
}

/// The later of two places.
pub open spec fn later(a: int, b: int) -> int {
    if a < b {
        b
    } else {
        a
    }
}

/// The earlier of two places.
pub open spec fn earlier(a: int, b: int) -> int {
    if a < b {
        a
    } else {
        b
    }
}

/// Off the burst and the picture of every measured line a decoded field is silent.
pub proof fn law_rest_of_the_field_is_silent<
    F: SosFloat + Single,
    X: Transforms<F>,
    D: DynamicFilter<F>,
>(
    uphet: Seq<F>,
    field: ChromaField<F::Wide>,
    spec: ChromaSpec<F>,
    transforms: X,
    runtime: FilterRuntime<D>,
    i: int,
) where F::Wide: Double
    requires
        reads_field(field, spec),
        0 <= i < field_steps(uphet, spec, transforms).len(),
        ({
            let steps = field_steps(uphet, spec, transforms);
            let windows = windows_of(spec, field.outlinelen);
            let lines = measured_lines(
                steps,
                field,
                field.phase_sequence->0@,
                windows.porch,
                hertz_per_radian::<F>(spec.outfreq),
            );
            &&& lines.len() > 0
            &&& forall|k: int|
                0 <= k < lines.len() ==> {
                    let base = (#[trigger] lines[k]).linestart as int;
                    &&& !(base + windows.burst_lo <= i < base + windows.burst_hi)
                    &&& !(base + windows.active_lo <= i < base + windows.active_hi)
                }
        }),
    ensures
        secam_decoded(uphet, field, spec, transforms, runtime) is Ok,
        secam_decoded(uphet, field, spec, transforms, runtime)->Ok_0[i] == zero::<F>(),
{
    let steps = field_steps(uphet, spec, transforms);
    let scale = hertz_per_radian::<F>(spec.outfreq);
    let windows = windows_of(spec, field.outlinelen);
    let lines = measured_lines(steps, field, field.phase_sequence->0@, windows.porch, scale);
    let len = field.outlinelen as nat;
    assert forall|k: int| 0 <= k < lines.len() implies !is_written(
        i,
        (#[trigger] lines[k]).linestart as int,
        windows,
        steps.len(),
    ) by {
        let base = lines[k].linestart as int;
        assert(!(base + windows.burst_lo <= i < base + windows.burst_hi));
    }
    law_blanking_is_silent(
        steps,
        lines,
        phasing_of(lines, len),
        len,
        windows,
        scale,
        spec.secam_params->0,
        spec,
        runtime,
        i,
    );
}

} // verus!
