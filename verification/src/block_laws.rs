//! What the stages of block decoding do to the signal, as relations between the
//! spectra of what goes in and of what comes out. Rounding is left aside.
use vstd::prelude::*;

use crate::block::{BlockError, BlockSpec};
use crate::complex::Complex;
use crate::demodblock::{
    burst_of, high_pass_of, rolled, shifted_chroma, video05_of, video_of, BlockTools,
};
use crate::fast_math::clamped;
use crate::filter::{filtered, DynamicFilter, FilterRuntime};
use crate::reals::lemma_real_distributes;
use crate::request::ColorSystem;
use crate::sample::{exact, from_count, minus, ordered, Single, SosFloat};
use crate::spectrum::{filtered_spectrum, with_gains};
use crate::spectrum_laws::{
    bins_come_back, has_bins, law_filter_multiplies_bins, law_gains_multiply_bins,
    law_inverse_has_the_bins, multiples, number_of, numbers_of, products,
};
use crate::sub_deemphasis::sub_deemphasized;
use crate::transforms::{irfft_of, r2c_of, Transforms};

verus! {

/// The transforms of a block are Fourier transforms, its number of samples is
/// even, and that number does not vanish.
pub open spec fn transforms_block<F: SosFloat + Single, X: Transforms<F>>(
    value: spec_fn(F) -> real,
    spec: BlockSpec<F>,
    transforms: X,
) -> bool {
    &&& exact(value)
    &&& spec.blocksize >= 2
    &&& spec.blocksize % 2 == 0
    &&& bins_come_back(value, transforms, spec.blocksize as nat)
    &&& value(from_count::<F>(spec.blocksize)) != 0real
}

/// Neither the non-linear stages nor the notch are wanted.
pub open spec fn is_linear<F: SosFloat>(spec: BlockSpec<F>) -> bool {
    !spec.nldeemp_enabled && !spec.subdeemp_enabled && spec.fsc_notch is None
}

/// Without the non-linear stages and the notch, each bin of the video is the bin
/// of the demodulated signal times that of the video filter.
pub proof fn law_video_is_filtered<F: SosFloat + Single, X: Transforms<F>, D: DynamicFilter<F>>(
    value: spec_fn(F) -> real,
    demod_fft: Seq<Complex<F>>,
    spec: BlockSpec<F>,
    transforms: X,
    runtime: FilterRuntime<D>,
)
    requires
        transforms_block(value, spec, transforms),
        is_linear(spec),
        demod_fft.len() == spec.bins(),
        spec.video_filter.len() == spec.bins(),
    ensures
        match video_of(demod_fft, spec, transforms, runtime) {
            Ok(video) => video.len() == spec.blocksize && has_bins(
                value,
                transforms,
                video,
                products(numbers_of(value, demod_fft), numbers_of(value, spec.video_filter@)),
            ),
            Err(_) => false,
        },
{
    let video_fft = filtered_spectrum(demod_fft, spec.video_filter@);
    law_filter_multiplies_bins(value, demod_fft, spec.video_filter@);
    law_inverse_has_the_bins(value, transforms, video_fft, None);
}

/// A bin at which the video filter is zero is absent from the video.
pub proof fn law_stopped_bins_are_absent<
    F: SosFloat + Single,
    X: Transforms<F>,
    D: DynamicFilter<F>,
>(
    value: spec_fn(F) -> real,
    demod_fft: Seq<Complex<F>>,
    spec: BlockSpec<F>,
    transforms: X,
    runtime: FilterRuntime<D>,
    k: int,
)
    requires
        transforms_block(value, spec, transforms),
        is_linear(spec),
        demod_fft.len() == spec.bins(),
        spec.video_filter.len() == spec.bins(),
        0 <= k < spec.bins(),
        number_of(value, spec.video_filter[k]) == (0real, 0real),
    ensures
        number_of(
            value,
            r2c_of(transforms, video_of(demod_fft, spec, transforms, runtime)->Ok_0)[k],
        ) == (0real, 0real),
{
    law_video_is_filtered(value, demod_fft, spec, transforms, runtime);
    let a = number_of(value, demod_fft[k]);
    let b = numbers_of(value, spec.video_filter@)[k];
    assert(b == (0real, 0real));
    assert(a.0 * b.0 == 0real && a.1 * b.1 == 0real && a.0 * b.1 == 0real && a.1 * b.0 == 0real)
        by (nonlinear_arith)
        requires
            b.0 == 0real,
            b.1 == 0real,
    ;
    assert(numbers_of(value, demod_fft)[k] == a);
    let bin = r2c_of(transforms, video_of(demod_fft, spec, transforms, runtime)->Ok_0)[k];
    assert(value(bin.re) == 0real);
}

/// Scaling the video filter by a factor scales each bin of the video by it.
pub proof fn law_video_scales_with_its_filter<
    F: SosFloat + Single,
    X: Transforms<F>,
    D: DynamicFilter<F>,
>(
    value: spec_fn(F) -> real,
    demod_fft: Seq<Complex<F>>,
    spec: BlockSpec<F>,
    scaled: BlockSpec<F>,
    factor: real,
    transforms: X,
    runtime: FilterRuntime<D>,
    k: int,
)
    requires
        transforms_block(value, spec, transforms),
        is_linear(spec),
        is_linear(scaled),
        scaled.blocksize == spec.blocksize,
        demod_fft.len() == spec.bins(),
        spec.video_filter.len() == spec.bins(),
        scaled.video_filter.len() == spec.bins(),
        0 <= k < spec.bins(),
        value(scaled.video_filter[k].re) == factor * value(spec.video_filter[k].re),
        value(scaled.video_filter[k].im) == factor * value(spec.video_filter[k].im),
    ensures
        ({
            let bin = r2c_of(
                transforms,
                video_of(demod_fft, spec, transforms, runtime)->Ok_0,
            )[k];
            let other = r2c_of(
                transforms,
                video_of(demod_fft, scaled, transforms, runtime)->Ok_0,
            )[k];
            value(other.re) == factor * value(bin.re) && value(other.im) == factor * value(bin.im)
        }),
{
    law_video_is_filtered(value, demod_fft, spec, transforms, runtime);
    law_video_is_filtered(value, demod_fft, scaled, transforms, runtime);
    let a = numbers_of(value, demod_fft)[k];
    let b = numbers_of(value, spec.video_filter@)[k];
    let c = numbers_of(value, scaled.video_filter@)[k];
    assert(c.0 == factor * b.0 && c.1 == factor * b.1);
    lemma_factor_moves_out(factor, a.0, b.0);
    lemma_factor_moves_out(factor, a.1, b.1);
    lemma_factor_moves_out(factor, a.0, b.1);
    lemma_factor_moves_out(factor, a.1, b.0);
    lemma_real_distributes(factor, a.0 * b.0, a.1 * b.1);
    lemma_real_distributes(factor, a.0 * b.1, a.1 * b.0);
    lemma_real_distributes(factor, 0real, 0real);
    let bin = r2c_of(transforms, video_of(demod_fft, spec, transforms, runtime)->Ok_0)[k];
    let other = r2c_of(transforms, video_of(demod_fft, scaled, transforms, runtime)->Ok_0)[k];
    assert(value(bin.re) == a.0 * b.0 - a.1 * b.1);
    assert(value(other.re) == a.0 * c.0 - a.1 * c.1);
    assert(factor * 0real == 0real) by (nonlinear_arith);
}

proof fn lemma_factor_moves_out(factor: real, a: real, b: real)
    ensures
        a * (factor * b) == factor * (a * b),
{
    assert(a * (factor * b) == factor * (a * b)) by (nonlinear_arith);
}

/// `kept` is `number`, or the limit that it passes.
pub open spec fn is_limited(number: real, low: real, high: real, kept: real) -> bool {
    &&& number < low ==> kept == low
    &&& number > high ==> kept == high
    &&& low <= number <= high ==> kept == number
}

/// The first non-linear stage takes from the video its high frequencies, each
/// sample of them kept between the limits: with and without the stage the video
/// differs by that. The high frequencies are the video through the high-pass
/// filter.
pub proof fn law_limited_highs_are_taken_away<
    F: SosFloat + Single,
    X: Transforms<F>,
    D: DynamicFilter<F>,
>(
    value: spec_fn(F) -> real,
    demod_fft: Seq<Complex<F>>,
    spec: BlockSpec<F>,
    transforms: X,
    runtime: FilterRuntime<D>,
)
    requires
        transforms_block(value, spec, transforms),
        ordered(value),
        spec.nldeemp_enabled,
        !spec.subdeemp_enabled,
        spec.fsc_notch is None,
        demod_fft.len() == spec.bins(),
        spec.video_filter.len() == spec.bins(),
        spec.nl_high_pass is Some,
        spec.nl_high_pass->0.len() == spec.bins(),
        value(spec.highpass_limit_l) <= value(spec.highpass_limit_h),
    ensures
        ({
            let without = BlockSpec { nldeemp_enabled: false, ..spec };
            let plain = video_of(demod_fft, without, transforms, runtime)->Ok_0;
            let video = video_of(demod_fft, spec, transforms, runtime)->Ok_0;
            let low = value(spec.highpass_limit_l);
            let limit = value(spec.highpass_limit_h);
            &&& video_of(demod_fft, spec, transforms, runtime) is Ok
            &&& video.len() == spec.blocksize
            &&& exists|high: Seq<F>|
                {
                    &&& high.len() == spec.blocksize
                    &&& #[trigger] has_bins(
                        value,
                        transforms,
                        high,
                        products(
                            products(
                                numbers_of(value, demod_fft),
                                numbers_of(value, spec.video_filter@),
                            ),
                            numbers_of(value, spec.nl_high_pass->0@),
                        ),
                    )
                    &&& forall|k: int|
                        0 <= k < spec.blocksize ==> is_limited(
                            value(high[k]),
                            low,
                            limit,
                            value(plain[k]) - value(#[trigger] video[k]),
                        )
                }
        }),
{
    let without = BlockSpec { nldeemp_enabled: false, ..spec };
    let video_fft = filtered_spectrum(demod_fft, spec.video_filter@);
    let high_fft = filtered_spectrum(video_fft, spec.nl_high_pass->0@);
    law_filter_multiplies_bins(value, demod_fft, spec.video_filter@);
    law_filter_multiplies_bins(value, video_fft, spec.nl_high_pass->0@);
    law_inverse_has_the_bins(value, transforms, video_fft, None);
    law_inverse_has_the_bins(value, transforms, high_fft, None);
    law_video_is_filtered(value, demod_fft, without, transforms, runtime);
    let high = irfft_of(transforms, high_fft, None);
    let plain = video_of(demod_fft, without, transforms, runtime)->Ok_0;
    let video = video_of(demod_fft, spec, transforms, runtime)->Ok_0;
    assert(without.video_filter@ == spec.video_filter@);
    assert forall|k: int| 0 <= k < spec.blocksize implies is_limited(
        value(high[k]),
        value(spec.highpass_limit_l),
        value(spec.highpass_limit_h),
        value(plain[k]) - value(#[trigger] video[k]),
    ) by {
        assert(video[k] == minus(
            plain[k],
            clamped(high[k], spec.highpass_limit_l, spec.highpass_limit_h),
        ));
    }
}

/// The second non-linear stage works on the video as it is without it, and on
/// the spectrum of the demodulated signal through the video filter.
pub proof fn law_deemphasis_follows_the_limiter<
    F: SosFloat + Single,
    X: Transforms<F>,
    D: DynamicFilter<F>,
>(
    demod_fft: Seq<Complex<F>>,
    spec: BlockSpec<F>,
    transforms: X,
    runtime: FilterRuntime<D>,
)
    requires
        spec.subdeemp_enabled,
        spec.fsc_notch is None,
    ensures
        ({
            let without = BlockSpec { subdeemp_enabled: false, ..spec };
            match video_of(demod_fft, without, transforms, runtime) {
                Err(error) => video_of(demod_fft, spec, transforms, runtime) == Err::<
                    Seq<F>,
                    BlockError,
                >(error),
                Ok(video) => video_of(demod_fft, spec, transforms, runtime) == sub_deemphasized(
                    high_pass_of(spec),
                    spec.subdeemp,
                    video,
                    filtered_spectrum(demod_fft, spec.video_filter@),
                    transforms,
                    runtime,
                ),
            }
        }),
{
}

/// The notch filters, forward and backward, the video as it is without the notch.
pub proof fn law_notch_filters_the_video<
    F: SosFloat + Single,
    X: Transforms<F>,
    D: DynamicFilter<F>,
>(
    demod_fft: Seq<Complex<F>>,
    spec: BlockSpec<F>,
    transforms: X,
    runtime: FilterRuntime<D>,
)
    requires
        spec.fsc_notch is Some,
    ensures
        ({
            let without = BlockSpec { fsc_notch: None, ..spec };
            match video_of(demod_fft, without, transforms, runtime) {
                Err(error) => video_of(demod_fft, spec, transforms, runtime) == Err::<
                    Seq<F>,
                    BlockError,
                >(error),
                Ok(video) => video_of(demod_fft, spec, transforms, runtime) == Ok::<
                    Seq<F>,
                    BlockError,
                >(filtered(runtime, spec.fsc_notch->0@, video)),
            }
        }),
{
}

/// The low-passed video is the signal whose bins are those of the demodulated
/// signal times those of its filter, moved to earlier places by the filter's
/// delay.
pub proof fn law_low_video_is_filtered<F: SosFloat + Single, X: Transforms<F>, B: BlockTools<F>>(
    value: spec_fn(F) -> real,
    demod_fft: Seq<Complex<F>>,
    spec: BlockSpec<F>,
    transforms: X,
    tools: B,
)
    requires
        transforms_block(value, spec, transforms),
        demod_fft.len() == spec.bins(),
        spec.video05_filter.len() == spec.bins(),
    ensures
        exists|low: Seq<F>|
            {
                &&& low.len() == spec.blocksize
                &&& #[trigger] has_bins(
                    value,
                    transforms,
                    low,
                    products(
                        numbers_of(value, demod_fft),
                        numbers_of(value, spec.video05_filter@),
                    ),
                )
                &&& video05_of(demod_fft, spec, transforms, tools) == rolled(
                    tools,
                    low,
                    (-spec.video05_offset) as isize,
                )
            },
{
    let low_fft = filtered_spectrum(demod_fft, spec.video05_filter@);
    law_filter_multiplies_bins(value, demod_fft, spec.video05_filter@);
    law_inverse_has_the_bins(value, transforms, low_fft, None);
    let low = irfft_of(transforms, low_fft, None);
    assert(has_bins(
        value,
        transforms,
        low,
        products(numbers_of(value, demod_fft), numbers_of(value, spec.video05_filter@)),
    ));
}

/// The signal that holds the burst: the block's RF or, without colour, the video.
pub open spec fn burst_source<F: SosFloat>(
    rawdata: Seq<F>,
    video: Seq<F>,
    spec: BlockSpec<F>,
) -> Seq<F> {
    match spec.color_system {
        ColorSystem::Monochrome => video,
        _ => rawdata.take(spec.blocksize as int),
    }
}

/// Where the carrier is not followed, what is shifted to the burst channel has
/// the bins of its source times the burst gains. The source is the block's RF
/// or, without colour, the video. Where the carrier is followed, the channel is
/// the RF as it came.
pub proof fn law_burst_is_band_passed<F: SosFloat + Single, X: Transforms<F>, B: BlockTools<F>>(
    value: spec_fn(F) -> real,
    rawdata: Seq<F>,
    video: Seq<F>,
    spec: BlockSpec<F>,
    transforms: X,
    tools: B,
)
    requires
        transforms_block(value, spec, transforms),
        rawdata.len() >= spec.blocksize,
        video.len() == spec.blocksize,
        spec.burst_gain.len() == spec.bins(),
        forall|signal: Seq<F>|
            signal.len() == spec.blocksize ==> (#[trigger] r2c_of(transforms, signal)).len()
                == spec.bins(),
    ensures
        spec.chroma_afc ==> burst_of(rawdata, video, spec, transforms, tools) == rawdata,
        !spec.chroma_afc ==> {
            let source = burst_source(rawdata, video, spec);
            exists|band: Seq<F>|
                {
                    &&& band.len() == spec.blocksize
                    &&& #[trigger] has_bins(
                        value,
                        transforms,
                        band,
                        multiples(
                            value,
                            numbers_of(value, r2c_of(transforms, source)),
                            spec.burst_gain@,
                        ),
                    )
                    &&& burst_of(rawdata, video, spec, transforms, tools) == shifted_chroma(
                        tools,
                        band,
                    )
                }
        },
{
    if !spec.chroma_afc {
        let source = burst_source(rawdata, video, spec);
        let bins = r2c_of(transforms, source);
        let gained = with_gains(bins, spec.burst_gain@);
        law_gains_multiply_bins(value, bins, spec.burst_gain@);
        law_inverse_has_the_bins(value, transforms, gained, None);
        let band = irfft_of(transforms, gained, None);
        assert(has_bins(
            value,
            transforms,
            band,
            multiples(value, numbers_of(value, bins), spec.burst_gain@),
        ));
    }
}

} // verus!
