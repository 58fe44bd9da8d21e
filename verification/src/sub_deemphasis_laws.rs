//! What non-linear de-emphasis takes away and what stays. Rounding is left aside,
//! but for that of the power, whose error may be given.
use vstd::prelude::*;

use crate::block::SubDeemphasis;
use crate::complex::Complex;
use crate::fast_math::{exp_fast, powf_fast_nonneg};
use crate::filter::{filtered, DynamicFilter, FilterRuntime};
use crate::reals::{lemma_real_associates, lemma_real_distributes};
use crate::sample::{
    exact, from_count, fused, is_zero, minus, negated, one, ordered, over, plus, real_magnitude,
    root, times, two, zero, Sample, Single, SosFloat,
};
use crate::spectrum::{filtered_spectrum, one_sided};
use crate::spectrum_laws::{
    bins_come_back, has_bins, law_filter_multiplies_bins, law_inverse_has_the_bins,
    law_one_sided_doubles_bins, number_of, numbers_of, products,
};
use crate::sub_deemphasis::{
    amplitude, analytic_of_half, curved, curved_amplitude, or_one, static_gain,
    sub_deemphasized,
};
use crate::transforms::{ifft_complex_of, irfft_of, without_residue, Transforms};

verus! {

/// The number that an optional factor stands for: 1 where there is none.
pub open spec fn factor_of<F>(value: spec_fn(F) -> real, factor: Option<F>) -> real {
    match factor {
        Some(factor) => value(factor),
        None => 1real,
    }
}

/// `power` raises numbers that are not negative to a power.
pub open spec fn is_power(power: spec_fn(real, real) -> real) -> bool {
    &&& forall|x: real| 0real <= x ==> #[trigger] power(x, 1real) == x
    &&& forall|x: real, c: real| 0real <= x ==> 0real <= #[trigger] power(x, c)
    &&& forall|x: real, c: real, d: real|
        0real <= x && 0real < c && 0real < d ==> #[trigger] power(x, c) * #[trigger] power(x, d)
            == power(x, c + d)
}

/// The power kernel gives `power` of the base `x` and the exponent `c`, but for
/// an error.
pub open spec fn raises<F: Single>(
    value: spec_fn(F) -> real,
    power: spec_fn(real, real) -> real,
    x: real,
    c: real,
    error: real,
) -> bool {
    forall|base: F, exponent: F|
        value(base) == x && value(exponent) == c ==> real_magnitude(
            value(#[trigger] powf_fast_nonneg(base, exponent)) - power(x, c),
        ) <= error
}

/// The logistic curve is left out, or has no positive rate.
pub open spec fn is_plain<F>(value: spec_fn(F) -> real, settings: SubDeemphasis<F>) -> bool {
    settings.logistic matches Some((mid, rate)) ==> value(rate) <= 0real
}

proof fn lemma_error_scales(p: real, q: real, error: real, factor: real)
    requires
        real_magnitude(p - q) <= error,
    ensures
        real_magnitude(p * factor - factor * q) <= real_magnitude(factor) * error,
{
    let size = real_magnitude(factor);
    let gap = real_magnitude(p - q);
    assert(p * factor - factor * q == factor * (p - q)) by (nonlinear_arith);
    lemma_magnitude_multiplies(factor, p - q);
    assert(size * gap <= size * error) by (nonlinear_arith)
        requires
            gap <= error,
            0real <= size,
    ;
}

proof fn lemma_magnitude_multiplies(a: real, b: real)
    ensures
        real_magnitude(a * b) == real_magnitude(a) * real_magnitude(b),
{
    let size = real_magnitude(a);
    let other = real_magnitude(b);
    let p = a * b;
    assert(size * other == p || size * other == -p) by (nonlinear_arith)
        requires
            size == a || size == -a,
            other == b || other == -b,
            p == a * b,
    ;
    assert(0real <= size * other) by (nonlinear_arith)
        requires
            0real <= size,
            0real <= other,
    ;
}

/// Without a logistic curve, what stays of a level that is not negative is the
/// second scale times the power of the first scale times the level, for every
/// exponent. The error of the power is scaled with it.
pub proof fn law_what_stays_is_a_power<F: Single>(
    value: spec_fn(F) -> real,
    power: spec_fn(real, real) -> real,
    error: real,
    level: F,
    settings: SubDeemphasis<F>,
)
    requires
        exact(value),
        ordered(value),
        is_plain(value, settings),
        0real <= value(level),
        raises(
            value,
            power,
            factor_of(value, settings.scaling_1) * value(level),
            value(settings.exp_scaling),
            error,
        ),
    ensures
        ({
            let second = factor_of(value, settings.scaling_2);
            let raised = power(
                factor_of(value, settings.scaling_1) * value(level),
                value(settings.exp_scaling),
            );
            real_magnitude(value(curved(level, &settings)) - second * raised) <= real_magnitude(
                second,
            ) * error
        }),
{
    let first = factor_of(value, settings.scaling_1);
    let second = factor_of(value, settings.scaling_2);
    let base = times(level, or_one(settings.scaling_1));
    lemma_real_distributes(first, value(level), 0real);
    assert(value(base) == first * value(level));
    let raised = powf_fast_nonneg(base, settings.exp_scaling);
    lemma_error_scales(
        value(raised),
        power(value(base), value(settings.exp_scaling)),
        error,
        second,
    );
    assert(value(curved(level, &settings)) == value(raised) * second);
}

/// Within the error of the power, what stays is with an exponent of 1 both scales
/// times the level, with an exponent of 2 the second scale times the square of
/// the scaled level, and with an exponent of a half the second scale times the
/// square root of the scaled level.
pub proof fn law_exponent_shapes_the_curve<F: Single>(
    value: spec_fn(F) -> real,
    power: spec_fn(real, real) -> real,
    error: real,
    level: F,
    settings: SubDeemphasis<F>,
    square_root: real,
)
    requires
        exact(value),
        ordered(value),
        is_power(power),
        is_plain(value, settings),
        0real <= value(level),
        0real <= factor_of(value, settings.scaling_1),
        raises(
            value,
            power,
            factor_of(value, settings.scaling_1) * value(level),
            value(settings.exp_scaling),
            error,
        ),
    ensures
        ({
            let x = factor_of(value, settings.scaling_1) * value(level);
            let second = factor_of(value, settings.scaling_2);
            let stays = value(curved(level, &settings));
            let exponent = value(settings.exp_scaling);
            let bound = real_magnitude(second) * error;
            &&& exponent == 1real ==> real_magnitude(stays - second * x) <= bound
            &&& exponent == 2real ==> real_magnitude(stays - second * (x * x)) <= bound
            &&& exponent == 1real / 2real && 0real <= square_root && square_root * square_root
                == x ==> real_magnitude(stays - second * square_root) <= bound
        }),
{
    let x = factor_of(value, settings.scaling_1) * value(level);
    let second = factor_of(value, settings.scaling_2);
    let stays = value(curved(level, &settings));
    let exponent = value(settings.exp_scaling);
    law_what_stays_is_a_power(value, power, error, level, settings);
    let raised = power(x, exponent);
    assert(0real <= x) by (nonlinear_arith)
        requires
            0real <= factor_of(value, settings.scaling_1),
            0real <= value(level),
            x == factor_of(value, settings.scaling_1) * value(level),
    ;
    if exponent == 2real {
        assert(power(x, 1real) * power(x, 1real) == power(x, 1real + 1real));
        assert(1real + 1real == 2real);
    }
    if exponent == 1real / 2real {
        let half = 1real / 2real;
        assert(power(x, half) * power(x, half) == power(x, half + half));
        assert(half + half == 1real);
        assert(raised * raised == x);
        if 0real <= square_root && square_root * square_root == x {
            assert(square_root == raised) by (nonlinear_arith)
                requires
                    0real <= square_root,
                    0real <= raised,
                    square_root * square_root == raised * raised,
            ;
        }
    }
}

/// A level below zero counts as zero.
pub proof fn law_negative_levels_count_as_zero<F: Single>(
    value: spec_fn(F) -> real,
    level: F,
    settings: SubDeemphasis<F>,
)
    requires
        exact(value),
        ordered(value),
        value(level) < 0real,
    ensures
        curved(level, &settings) == curved(zero(), &settings),
{
}

/// A logistic curve with a positive rate divides what would stay without it by 1
/// and the exponential of how far that lies below the middle, times the rate.
pub proof fn law_logistic_curve_divides<F: Single>(
    value: spec_fn(F) -> real,
    exponential: real,
    level: F,
    settings: SubDeemphasis<F>,
    mid: F,
    rate: F,
)
    requires
        exact(value),
        ordered(value),
        settings.logistic == Some((mid, rate)),
        0real < value(rate),
        0real <= exponential,
        ({
            let plain = value(curved(level, &(SubDeemphasis { logistic: None, ..settings })));
            forall|a: F|
                value(a) == value(rate) * (value(mid) - plain) ==> value(#[trigger] exp_fast(a))
                    == exponential
        }),
    ensures
        ({
            let plain = value(curved(level, &(SubDeemphasis { logistic: None, ..settings })));
            value(curved(level, &settings)) * (1real + exponential) == plain
        }),
{
    let without = SubDeemphasis { logistic: None, ..settings };
    let plain = curved(level, &without);
    let p = value(plain);
    let argument = times(negated(rate), minus(plain, mid));
    let r = value(rate);
    let m = value(mid);
    assert((-r) * (p - m) == r * (m - p)) by (nonlinear_arith);
    let whole = plus(one::<F>(), exp_fast(argument));
    assert(value(whole) == 1real + exponential);
    let part = over(one::<F>(), whole);
    assert(value(part) * value(whole) == 1real);
    let stays = curved(level, &settings);
    assert(stays == times(plain, part));
    lemma_real_associates(p, value(part), value(whole));
    assert(p * 1real == p) by (nonlinear_arith);
}

/// A logistic curve without a positive rate changes nothing.
pub proof fn law_idle_logistic_curve<F: Single>(
    value: spec_fn(F) -> real,
    level: F,
    settings: SubDeemphasis<F>,
)
    requires
        exact(value),
        ordered(value),
        is_plain(value, settings),
    ensures
        curved(level, &settings) == curved(
            level,
            &(SubDeemphasis { logistic: None, ..settings }),
        ),
{
}

/// The samples are the analytic signal of these bins: the inverse transform of
/// the spectrum in which those at frequency 0 and at the folding frequency stand
/// by their real parts, those between twice, and the negative frequencies not at
/// all.
pub open spec fn is_analytic_of<F: Sample, X: Transforms<F>>(
    value: spec_fn(F) -> real,
    transforms: X,
    samples: Seq<Complex<F>>,
    bins: Seq<(real, real)>,
    n: nat,
) -> bool {
    exists|whole: Seq<Complex<F>>|
        {
            &&& samples == #[trigger] ifft_complex_of(transforms, whole)
            &&& whole.len() == n
            &&& forall|k: int|
                0 <= k < n ==> {
                    let bin = number_of(value, #[trigger] whole[k]);
                    &&& k == 0 || 2 * k == n ==> bin == (bins[k].0, 0real)
                    &&& 0 < 2 * k < n ==> bin == (2real * bins[k].0, 2real * bins[k].1)
                    &&& 2 * k > n ==> bin == (0real, 0real)
                }
        }
}

/// Each amplitude is the magnitude of the sample over half the deviation.
pub open spec fn are_amplitudes<F>(
    value: spec_fn(F) -> real,
    samples: Seq<Complex<F>>,
    deviation: real,
    amplitudes: Seq<F>,
) -> bool {
    amplitudes.len() == samples.len() && forall|k: int|
        0 <= k < amplitudes.len() ==> {
            let z = number_of(value, samples[k]);
            let doubled = value(#[trigger] amplitudes[k]) * deviation;
            &&& doubled * doubled == 4real * (z.0 * z.0 + z.1 * z.1)
            &&& 0real <= doubled
        }
}

proof fn lemma_amplitude<F: Single>(
    value: spec_fn(F) -> real,
    z: Complex<F>,
    deviation: F,
)
    requires
        exact(value),
        value(deviation) != 0real,
        forall|a: F|
            0real <= value(a) ==> 0real <= value(#[trigger] root(a)) && value(root(a)) * value(
                root(a),
            ) == value(a),
    ensures
        ({
            let factor = over(one::<F>(), over(deviation, two()));
            let doubled = value(amplitude(z, factor)) * value(deviation);
            &&& doubled * doubled == 4real * (value(z.re) * value(z.re) + value(z.im) * value(
                z.im,
            ))
            &&& 0real <= doubled
        }),
{
    let d = value(deviation);
    let half = over(deviation, two());
    assert(value(two::<F>()) == 2real);
    let h = value(half);
    assert(h * 2real == d);
    let factor = value(over(one::<F>(), half));
    assert(factor * h == 1real);
    let re = value(z.re);
    let im = value(z.im);
    let square = fused(z.re, z.re, times(z.im, z.im));
    assert(value(square) == re * re + im * im);
    assert(0real <= re * re) by (nonlinear_arith);
    assert(0real <= im * im) by (nonlinear_arith);
    let size = value(root(square));
    assert(size * size == re * re + im * im);
    let a = value(amplitude(z, over(one::<F>(), half)));
    assert(a == size * factor);
    assert((size * factor) * d == 2real * size) by (nonlinear_arith)
        requires
            factor * h == 1real,
            h * 2real == d,
    ;
    assert((2real * size) * (2real * size) == 4real * (size * size)) by (nonlinear_arith);
}

/// The video loses its high frequencies as far as they are weak, and a part of
/// them always. The high frequencies are the video's bins through the high-pass
/// filter. Their magnitude over half the deviation, smoothed, is the level from
/// which the curve tells what stays.
pub proof fn law_weak_highs_are_taken_away<
    F: SosFloat + Single,
    X: Transforms<F>,
    D: DynamicFilter<F>,
>(
    value: spec_fn(F) -> real,
    high_pass: Seq<Complex<F>>,
    settings: SubDeemphasis<F>,
    video: Seq<F>,
    video_fft: Seq<Complex<F>>,
    transforms: X,
    runtime: FilterRuntime<D>,
)
    requires
        exact(value),
        2 <= video.len() <= usize::MAX,
        video_fft.len() == video.len() / 2 + 1,
        high_pass.len() == video_fft.len(),
        bins_come_back(value, transforms, video.len()),
        value(from_count::<F>(video.len() as usize)) != 0real,
        value(settings.deviation) != 0real,
        forall|a: F|
            0real <= value(a) ==> 0real <= value(#[trigger] root(a)) && value(root(a)) * value(
                root(a),
            ) == value(a),
        forall|spectrum: Seq<Complex<F>>|
            spectrum.len() == video.len() ==> (#[trigger] ifft_complex_of(
                transforms,
                spectrum,
            )).len() == video.len(),
        forall|signal: Seq<F>|
            signal.len() == video.len() ==> (#[trigger] filtered(
                runtime,
                settings.amplitude_lpf@,
                signal,
            )).len() == video.len(),
    ensures
        ({
            let result = sub_deemphasized(
                Some(high_pass),
                settings,
                video,
                video_fft,
                transforms,
                runtime,
            );
            let bins = products(numbers_of(value, video_fft), numbers_of(value, high_pass));
            &&& result is Ok
            &&& result->Ok_0.len() == video.len()
            &&& exists|high: Seq<F>, analytic: Seq<Complex<F>>, amplitudes: Seq<F>|
                {
                    &&& high.len() == video.len()
                    &&& #[trigger] has_bins(value, transforms, high, bins)
                    &&& #[trigger] is_analytic_of(value, transforms, analytic, bins, video.len())
                    &&& #[trigger] are_amplitudes(
                        value,
                        analytic,
                        value(settings.deviation),
                        amplitudes,
                    )
                    &&& forall|k: int|
                        0 <= k < video.len() ==> {
                            let level = filtered(runtime, settings.amplitude_lpf@, amplitudes)[k];
                            let stays = value(curved(level, &settings));
                            let always = match settings.static_factor {
                                Some(gain) => value(gain),
                                None => 0real,
                            };
                            value(#[trigger] result->Ok_0[k]) == value(video[k]) - value(high[k])
                                * (1real - stays) - value(high[k]) * always
                        }
                }
        }),
{
    let n = video.len();
    let half = filtered_spectrum(video_fft, high_pass);
    let bins = products(numbers_of(value, video_fft), numbers_of(value, high_pass));
    let result = sub_deemphasized(
        Some(high_pass),
        settings,
        video,
        video_fft,
        transforms,
        runtime,
    );
    let deviation = over(settings.deviation, two());
    assert(value(two::<F>()) == 2real);
    assert(value(deviation) * 2real == value(settings.deviation));
    assert(!is_zero(deviation));
    law_filter_multiplies_bins(value, video_fft, high_pass);
    law_inverse_has_the_bins(value, transforms, half, Some(n as usize));
    let high = irfft_of(transforms, half, Some(n as usize));
    let sided = one_sided(half, n);
    let whole = without_residue(sided, n);
    let analytic = analytic_of_half(transforms, half, n);
    assert(numbers_of(value, half) == bins);
    assert forall|k: int| 0 <= k < n implies {
        let bin = number_of(value, #[trigger] whole[k]);
        &&& k == 0 || 2 * k == n ==> bin == (bins[k].0, 0real)
        &&& 0 < 2 * k < n ==> bin == (2real * bins[k].0, 2real * bins[k].1)
        &&& 2 * k > n ==> bin == (0real, 0real)
    } by {
        law_one_sided_doubles_bins(value, half, n, k);
        if 2 * k <= n {
            assert(numbers_of(value, half)[k] == number_of(value, half[k]));
        }
    }
    assert(is_analytic_of(value, transforms, analytic, bins, n));
    let factor = over(one::<F>(), deviation);
    let amplitudes = analytic.map_values(|z: Complex<F>| amplitude(z, factor));
    assert(are_amplitudes(value, analytic, value(settings.deviation), amplitudes)) by {
        assert forall|k: int| 0 <= k < amplitudes.len() implies {
            let z = number_of(value, analytic[k]);
            let doubled = value(#[trigger] amplitudes[k]) * value(settings.deviation);
            &&& doubled * doubled == 4real * (z.0 * z.0 + z.1 * z.1)
            &&& 0real <= doubled
        } by {
            lemma_amplitude(value, analytic[k], settings.deviation);
        }
    }
    let smooth = filtered(runtime, settings.amplitude_lpf@, amplitudes);
    let stays = curved_amplitude(half, n, settings, transforms, runtime);
    let always = static_gain(settings.static_factor);
    assert forall|k: int| 0 <= k < n implies value(#[trigger] result->Ok_0[k]) == value(video[k])
        - value(high[k]) * (1real - value(curved(smooth[k], &settings))) - value(high[k]) * (
    match settings.static_factor {
        Some(gain) => value(gain),
        None => 0real,
    }) by {
        assert(stays[k] == curved(smooth[k], &settings));
    }
    assert(has_bins(value, transforms, high, bins));
}

} // verus!
