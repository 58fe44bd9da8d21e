//! Non-linear de-emphasis: high frequencies are reduced by how weak they are.
use vstd::prelude::*;

use crate::block::{BlockError, SubDeemphasis};
use crate::complex::Complex;
use crate::fast_math::{exp_fast, powf_fast_nonneg};
use crate::filter::{
    filterable, filtered, functional_dynamic, sosfiltfilt_f32, DynamicFilter, FilterRuntime,
};
use crate::sample::{
    below, functional, functional_single, functional_sos, fused, is_zero, lemma_functional_sos,
    minus, negated, one, over, plus, root, times, two, zero, Sample, Single, SosFloat,
};
use crate::spectrum::{analytic_spectrum, filtered_spectrum, one_sided, spectrum_times_filter};
use crate::transforms::{
    functional_transforms, ifft_complex_of, irfft_of, irfft_owned_f32, run_ifft_complex,
    without_residue, Transforms,
};

verus! {

/// The analytic signal of a half spectrum, without the residue that a real
/// signal cannot have.
pub open spec fn analytic_of_half<F: Sample, X: Transforms<F>>(
    transforms: X,
    half: Seq<Complex<F>>,
    n: nat,
) -> Seq<Complex<F>> {
    ifft_complex_of(transforms, without_residue(one_sided(half, n), n))
}

/// The magnitude of a sample times a factor.
pub open spec fn spec_amplitude<F: Single>(z: Complex<F>, factor: F) -> F {
    times(root(fused(z.re, z.re, times(z.im, z.im))), factor)
}

/// The magnitude of a sample times a factor.
#[verifier::when_used_as_spec(spec_amplitude)]
pub fn amplitude<F: Single>(z: Complex<F>, factor: F) -> (magnitude: F)
    requires
        functional_single::<F>(),
        functional::<F>(),
    ensures
        magnitude == spec_amplitude(z, factor),
{
    times(root(fused(z.re, z.re, times(z.im, z.im))), factor)
}

/// `factor`, or 1 where there is none.
pub open spec fn spec_or_one<F: Sample>(factor: Option<F>) -> F {
    match factor {
        Some(factor) => factor,
        None => one(),
    }
}

/// `factor`, or 1 where there is none.
#[verifier::when_used_as_spec(spec_or_one)]
pub fn or_one<F: Sample>(factor: Option<F>) -> (r: F)
    requires
        functional::<F>(),
    ensures
        r == spec_or_one(factor),
{
    match factor {
        Some(factor) => factor,
        None => one(),
    }
}

/// How much of the amplitude stays: the scaled amplitude, not below zero, to the
/// given power, weighted by the logistic curve where one with a positive rate is
/// given.
pub open spec fn spec_curved<F: Single>(level: F, settings: &SubDeemphasis<F>) -> F {
    let kept = if below(level, zero()) {
        zero()
    } else {
        level
    };
    let value = times(
        powf_fast_nonneg(times(kept, or_one(settings.scaling_1)), settings.exp_scaling),
        or_one(settings.scaling_2),
    );
    match settings.logistic {
        Some((mid, rate)) => if below(zero(), rate) {
            times(
                value,
                over(one(), plus(one(), exp_fast(times(negated(rate), minus(value, mid))))),
            )
        } else {
            value
        },
        None => value,
    }
}

/// How much of the amplitude stays.
#[verifier::when_used_as_spec(spec_curved)]
pub fn curved<F: Single>(level: F, settings: &SubDeemphasis<F>) -> (value: F)
    requires
        functional_single::<F>(),
        functional::<F>(),
    ensures
        value == spec_curved(level, settings),
{
    let kept: F = if below(level, zero()) {
        zero()
    } else {
        level
    };
    let value: F = times(
        powf_fast_nonneg(times(kept, or_one(settings.scaling_1)), settings.exp_scaling),
        or_one(settings.scaling_2),
    );
    match settings.logistic {
        Some((mid, rate)) => if below(zero(), rate) {
            times(
                value,
                over(one(), plus(one(), exp_fast(times(negated(rate), minus(value, mid))))),
            )
        } else {
            value
        },
        None => value,
    }
}

/// The gain that is always taken away: the static factor, unless it is zero or
/// there is none.
pub open spec fn spec_static_gain<F: Sample>(static_factor: Option<F>) -> F {
    match static_factor {
        Some(gain) => if is_zero(gain) {
            zero()
        } else {
            gain
        },
        None => zero(),
    }
}

/// The gain that is always taken away.
#[verifier::when_used_as_spec(spec_static_gain)]
pub fn static_gain<F: Sample>(static_factor: Option<F>) -> (gain: F)
    requires
        functional::<F>(),
    ensures
        gain == spec_static_gain(static_factor),
{
    match static_factor {
        Some(gain) => if is_zero(gain) {
            zero()
        } else {
            gain
        },
        None => zero(),
    }
}

/// The instantaneous amplitude of the high frequencies against the deviation,
/// smoothed and curved.
pub open spec fn curved_amplitude<F: SosFloat + Single, X: Transforms<F>, D: DynamicFilter<F>>(
    high_pass_fft: Seq<Complex<F>>,
    n: nat,
    settings: SubDeemphasis<F>,
    transforms: X,
    runtime: FilterRuntime<D>,
) -> Seq<F> {
    let factor = over(one(), over(settings.deviation, two()));
    let amplitude = analytic_of_half(transforms, high_pass_fft, n).map_values(
        |z: Complex<F>| amplitude(z, factor),
    );
    filtered(runtime, settings.amplitude_lpf@, amplitude).map_values(
        |level: F| curved(level, &settings),
    )
}

/// The video less its high frequencies, as far as they are weak, and less what
/// is always taken away.
pub open spec fn reduced_video<F: Sample>(
    video: Seq<F>,
    high: Seq<F>,
    amplitude: Seq<F>,
    static_gain: F,
) -> Seq<F> {
    Seq::new(
        video.len(),
        |k: int|
            minus(
                minus(video[k], times(high[k], minus(one(), amplitude[k]))),
                times(high[k], static_gain),
            ),
    )
}

/// What [`sub_deemphasis`] answers.
pub open spec fn sub_deemphasized<F: SosFloat + Single, X: Transforms<F>, D: DynamicFilter<F>>(
    nl_high_pass: Option<Seq<Complex<F>>>,
    settings: SubDeemphasis<F>,
    out_video: Seq<F>,
    out_video_fft: Seq<Complex<F>>,
    transforms: X,
    runtime: FilterRuntime<D>,
) -> Result<Seq<F>, BlockError> {
    match nl_high_pass {
        None => Err(BlockError::HighPass),
        Some(high_pass) => if out_video_fft.len() != high_pass.len() {
            Err(BlockError::UnequalLengths)
        } else if is_zero(over(settings.deviation, two())) {
            Err(BlockError::Deviation)
        } else {
            let high_pass_fft = filtered_spectrum(out_video_fft, high_pass);
            Ok(
                reduced_video(
                    out_video,
                    irfft_of(transforms, high_pass_fft, Some(out_video.len() as usize)),
                    curved_amplitude(
                        high_pass_fft,
                        out_video.len(),
                        settings,
                        transforms,
                        runtime,
                    ),
                    static_gain(settings.static_factor),
                ),
            )
        },
    }
}

/// The high-pass filter as a sequence.
pub open spec fn high_pass_view<F>(high_pass: Option<&Vec<Complex<F>>>) -> Option<
    Seq<Complex<F>>,
> {
    match high_pass {
        Some(high_pass) => Some(high_pass@),
        None => None,
    }
}

/// Takes the high frequencies of the video away as far as they are weak: their
/// instantaneous amplitude, compared with the deviation of the format, decides
/// how much stays.
pub fn sub_deemphasis<F: SosFloat + Single, X: Transforms<F>, D: DynamicFilter<F>>(
    nl_high_pass: Option<&Vec<Complex<F>>>,
    settings: &SubDeemphasis<F>,
    out_video: &[F],
    out_video_fft: &[Complex<F>],
    transforms: &X,
    runtime: &FilterRuntime<D>,
) -> (result: Result<Vec<F>, BlockError>)
    requires
        functional_sos::<F>(),
        functional_single::<F>(),
        functional_dynamic::<F, D>(runtime.dynamic),
        nl_high_pass is Some && nl_high_pass->0.len() == out_video_fft.len() && !is_zero(
            over(settings.deviation, two()),
        ) ==> {
            &&& out_video.len() >= 2
            &&& out_video_fft.len() == out_video.len() / 2 + 1
            &&& functional_transforms::<F, X>(*transforms, out_video@.len())
            &&& filterable(settings.amplitude_lpf@, out_video@.len())
        },
    ensures
        match result {
            Ok(output) => {
                &&& sub_deemphasized(
                    high_pass_view(nl_high_pass),
                    *settings,
                    out_video@,
                    out_video_fft@,
                    *transforms,
                    *runtime,
                ) == Ok::<Seq<F>, BlockError>(output@)
                &&& output.len() == out_video.len()
            },
            Err(error) => sub_deemphasized(
                high_pass_view(nl_high_pass),
                *settings,
                out_video@,
                out_video_fft@,
                *transforms,
                *runtime,
            ) == Err::<Seq<F>, BlockError>(error),
        },
{
    proof {
        lemma_functional_sos::<F>();
    }
    let high_pass: &Vec<Complex<F>> = match nl_high_pass {
        Some(high_pass) => high_pass,
        None => return Err(BlockError::HighPass),
    };
    if out_video_fft.len() != high_pass.len() {
        return Err(BlockError::UnequalLengths);
    }
    let high_pass_fft: Vec<Complex<F>> = spectrum_times_filter(
        out_video_fft,
        high_pass.as_slice(),
    );
    let deviation: F = over(settings.deviation, two());
    if is_zero(deviation) {
        return Err(BlockError::Deviation);
    }
    let n: usize = out_video.len();
    let mut spectrum: Vec<Complex<F>> = analytic_spectrum(high_pass_fft.as_slice(), n);
    let ghost one_side = spectrum@;
    let mut first: Complex<F> = spectrum[0];
    first.im = zero();
    spectrum[0] = first;
    if n % 2 == 0 {
        let mut middle: Complex<F> = spectrum[n / 2];
        middle.im = zero();
        spectrum[n / 2] = middle;
    }
    proof {
        assert(spectrum@ =~= without_residue(one_side, n as nat));
    }
    let analytic: Vec<Complex<F>> = run_ifft_complex(transforms, spectrum.as_slice());
    let factor: F = over(one(), deviation);
    let mut amplitudes: Vec<F> = Vec::new();
    while amplitudes.len() < analytic.len()
        invariant
            functional_single::<F>(),
            functional::<F>(),
            amplitudes.len() <= analytic.len(),
            forall|k: int|
                0 <= k < amplitudes.len() ==> amplitudes[k] == amplitude(analytic[k], factor),
        decreases analytic.len() - amplitudes.len(),
    {
        amplitudes.push(amplitude(analytic[amplitudes.len()], factor));
    }
    proof {
        assert(amplitudes@ =~= analytic@.map_values(|z: Complex<F>| amplitude(z, factor)));
    }
    let smooth: Vec<F> = sosfiltfilt_f32(
        runtime,
        settings.amplitude_lpf.as_slice(),
        amplitudes.as_slice(),
    );
    let ghost high_spectrum = high_pass_fft@;
    let high: Vec<F> = irfft_owned_f32(high_pass_fft, Some(n), transforms);
    let always: F = static_gain(settings.static_factor);
    let ghost curve = smooth@.map_values(|level: F| curved(level, settings));
    proof {
        assert(curve == curved_amplitude(
            high_spectrum,
            n as nat,
            *settings,
            *transforms,
            *runtime,
        ));
    }
    let mut output: Vec<F> = Vec::new();
    while output.len() < n
        invariant
            functional_single::<F>(),
            functional::<F>(),
            n == out_video.len(),
            high.len() == n,
            smooth.len() == n,
            curve == smooth@.map_values(|level: F| curved(level, settings)),
            output.len() <= n,
            forall|k: int|
                0 <= k < output.len() ==> output[k] == reduced_video(
                    out_video@,
                    high@,
                    curve,
                    always,
                )[k],
        decreases n - output.len(),
    {
        let k: usize = output.len();
        let hf: F = high[k];
        let scaled_hf: F = times(hf, minus(one(), curved(smooth[k], settings)));
        output.push(minus(minus(out_video[k], scaled_hf), times(hf, always)));
    }
    proof {
        assert(output@ =~= reduced_video(out_video@, high@, curve, always));
    }
    Ok(output)
}

/// Two settings that differ at most in what is neutral: a static factor of zero,
/// a scale of 1 and a logistic curve without a positive rate count as absent.
pub open spec fn same_effect<F: Sample>(one: SubDeemphasis<F>, other: SubDeemphasis<F>) -> bool {
    &&& one.deviation == other.deviation
    &&& one.amplitude_lpf@ == other.amplitude_lpf@
    &&& one.exp_scaling == other.exp_scaling
    &&& static_gain(one.static_factor) == static_gain(other.static_factor)
    &&& or_one(one.scaling_1) == or_one(other.scaling_1)
    &&& or_one(one.scaling_2) == or_one(other.scaling_2)
    &&& active_logistic(one.logistic) == active_logistic(other.logistic)
}

/// The logistic curve, if its rate is positive.
pub open spec fn active_logistic<F: Sample>(logistic: Option<(F, F)>) -> Option<(F, F)> {
    match logistic {
        Some((mid, rate)) => if below(zero(), rate) {
            Some((mid, rate))
        } else {
            None
        },
        None => None,
    }
}

/// A static factor of zero means none, a scale of 1 means none, and so does a
/// logistic curve whose rate is not positive.
pub proof fn law_neutral_settings_mean_absent<F: Sample>(zero_factor: F, mid: F, rate: F)
    requires
        is_zero(zero_factor),
        !below(zero(), rate),
    ensures
        static_gain(Some(zero_factor)) == static_gain::<F>(None),
        or_one(Some(one::<F>())) == or_one::<F>(None),
        active_logistic(Some((mid, rate))) == active_logistic::<F>(None),
{
}

/// Settings that differ only in what is neutral give the same result, errors
/// among them.
pub proof fn law_same_effect_same_result<
    F: SosFloat + Single,
    X: Transforms<F>,
    D: DynamicFilter<F>,
>(
    nl_high_pass: Option<Seq<Complex<F>>>,
    settings: SubDeemphasis<F>,
    other: SubDeemphasis<F>,
    out_video: Seq<F>,
    out_video_fft: Seq<Complex<F>>,
    transforms: X,
    runtime: FilterRuntime<D>,
)
    requires
        same_effect(settings, other),
    ensures
        sub_deemphasized(
            nl_high_pass,
            settings,
            out_video,
            out_video_fft,
            transforms,
            runtime,
        ) == sub_deemphasized(
            nl_high_pass,
            other,
            out_video,
            out_video_fft,
            transforms,
            runtime,
        ),
{
    assert forall|level: F| #[trigger] curved(level, &settings) == curved(level, &other) by {}
    assert((|level: F| curved(level, &settings)) =~= (|level: F| curved(level, &other)));
}

/// Rounding aside, a high-frequency sample at full amplitude stays, and one
/// without amplitude is taken away whole, where nothing is always taken away.
pub proof fn law_weak_highs_are_removed<F: Sample>(
    value: spec_fn(F) -> real,
    video: Seq<F>,
    high: Seq<F>,
    amplitude: Seq<F>,
    k: int,
)
    requires
        crate::sample::exact(value),
        0 <= k < video.len(),
    ensures
        value(amplitude[k]) == 1real ==> value(
            reduced_video(video, high, amplitude, static_gain(None))[k],
        ) == value(video[k]),
        value(amplitude[k]) == 0real ==> value(
            reduced_video(video, high, amplitude, static_gain(None))[k],
        ) == value(video[k]) - value(high[k]),
{
    let h = value(high[k]);
    let a = value(amplitude[k]);
    if a == 1real {
        assert(h * (1real - a) == 0real) by (nonlinear_arith)
            requires
                a == 1real,
        ;
    }
    if a == 0real {
        assert(h * (1real - a) == h) by (nonlinear_arith)
            requires
                a == 0real,
        ;
    }
    assert(h * 0real == 0real) by (nonlinear_arith);
}

} // verus!
