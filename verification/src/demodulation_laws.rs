//! What block decoding does to the RF and to the demodulated signal, and where
//! in the channels of a block the signals stand. Rounding is left aside.
use vstd::prelude::*;

use crate::block::{BlockError, BlockSpec};
use crate::block_laws::{
    burst_source, is_linear, law_burst_is_band_passed, law_low_video_is_filtered,
    law_video_is_filtered, transforms_block,
};
use crate::complex::Complex;
use crate::demodblock::{
    analytic_block, block_decoded, block_envelope, block_ready, burst_of, conditioned, cut,
    demodulated, demodulated_spectrum, envelope_of, equalized, raised_by, rolled,
    shifted_chroma, spike_level, trapped, video05_of, video_of, BlockTools, BOOST_AIM,
};
use crate::fast_math::{laned_sum, law_sum_algebraic_is_the_sum, real_sum};
use crate::filter::{filterable, filtered, DynamicFilter, FilterRuntime};
use crate::ieee::NEG_INFINITY32;
use crate::reals::{lemma_real_associates, lemma_real_distributes};
use crate::sample::{
    absolute, exact, exact_wide, from_bits, from_count, is_zero, narrowed, ordered, over,
    real_magnitude, times, two, Sample, Single, SosFloat,
};
use crate::spectrum::{differences, one_sided, with_gains};
use crate::spectrum_laws::{
    has_bins, law_gains_multiply_bins, law_inverse_has_the_bins, law_one_sided_doubles_bins,
    multiple, multiples, number_of, numbers_of, products,
};
use crate::spikes::{greatest_from, law_despiking_is_local, law_lone_spike_is_replaced};
use crate::transforms::{ifft_complex_of, irfft_of, r2c_of, Transforms};
use crate::unwrap_angles::unwrapped;

verus! {

/// Each bin of the block's RF is multiplied by its gain and, with a notch, by
/// that of the notch.
pub proof fn law_rf_bins_are_multiplied<F: SosFloat + Single, X: Transforms<F>>(
    value: spec_fn(F) -> real,
    rawdata: Seq<F>,
    spec: BlockSpec<F>,
    transforms: X,
    k: int,
)
    requires
        exact(value),
        spec.conditions_rf(),
        r2c_of(transforms, rawdata.take(spec.blocksize as int)).len() == spec.bins(),
        0 <= k < spec.bins(),
    ensures
        ({
            let bin = number_of(
                value,
                r2c_of(transforms, rawdata.take(spec.blocksize as int))[k],
            );
            let equalized = multiple(value(spec.rf_filter[k]), bin);
            let half = conditioned(rawdata, spec, transforms);
            &&& half.len() == spec.bins()
            &&& spec.notch_filter is None ==> number_of(value, half[k]) == equalized
            &&& spec.notch_filter matches Some(notch) ==> number_of(value, half[k]) == multiple(
                value(notch[k]),
                equalized,
            )
        }),
{
    let z = r2c_of(transforms, rawdata.take(spec.blocksize as int))[k];
    let gain = value(spec.rf_filter[k]);
    lemma_real_distributes(gain, value(z.re), 0real);
    lemma_real_distributes(gain, value(z.im), 0real);
    assert(spec.rf_filter@.take(spec.bins() as int)[k] == spec.rf_filter[k]);
    if let Some(notch) = spec.notch_filter {
        let other = value(notch[k]);
        assert(notch@.take(spec.bins() as int)[k] == notch[k]);
        lemma_two_gains(value(z.re), other, gain);
        lemma_two_gains(value(z.im), other, gain);
    }
}

proof fn lemma_two_gains(part: real, first: real, second: real)
    ensures
        (part * first) * second == first * (second * part),
{
    assert((part * first) * second == first * (second * part)) by (nonlinear_arith);
}

/// The envelope is the smoothed magnitude of the real part of the analytic
/// signal, four places later.
pub proof fn law_envelope_is_the_smoothed_magnitude<
    F: SosFloat + Single,
    D: DynamicFilter<F>,
    B: BlockTools<F>,
>(
    value: spec_fn(F) -> real,
    analytic: Seq<Complex<F>>,
    spec: BlockSpec<F>,
    runtime: FilterRuntime<D>,
    tools: B,
)
    requires
        forall|a: F| value(#[trigger] absolute(a)) == real_magnitude(value(a)),
    ensures
        exists|rectified: Seq<F>|
            {
                &&& rectified.len() == analytic.len()
                &&& forall|k: int|
                    0 <= k < rectified.len() ==> value(#[trigger] rectified[k])
                        == real_magnitude(value(analytic[k].re))
                &&& envelope_of(analytic, spec, runtime, tools) == filtered(
                    runtime,
                    spec.env_post_filter@,
                    #[trigger] rolled(tools, rectified, 4),
                )
            },
{
    let rectified = analytic.map_values(|z: Complex<F>| absolute(z.re));
    assert(envelope_of(analytic, spec, runtime, tools) == filtered(
        runtime,
        spec.env_post_filter@,
        rolled(tools, rectified, 4),
    ));
}

/// The spectrum is the half spectrum with that of `raised` added. The bins of
/// `high` are those of the upper band, and each sample of `raised` times the
/// envelope's is that of `high` times the mean of the envelope, the aim and the
/// boost.
pub open spec fn is_boosted_by<F: SosFloat + Single, X: Transforms<F>>(
    value: spec_fn(F) -> real,
    half: Seq<Complex<F>>,
    envelope: Seq<F>,
    rf_top: Seq<F>,
    high_boost: F,
    transforms: X,
    spectrum: Seq<Complex<F>>,
    high: Seq<F>,
    raised: Seq<F>,
) -> bool {
    let total = real_sum(value, envelope);
    let count = value(from_count::<F>(envelope.len() as usize));
    let aim = value(from_bits::<F>(BOOST_AIM));
    let added = r2c_of(transforms, raised);
    &&& high.len() == envelope.len()
    &&& raised.len() == envelope.len()
    &&& has_bins(value, transforms, high, multiples(value, numbers_of(value, half), rf_top))
    &&& forall|k: int|
        0 <= k < raised.len() ==> (value(#[trigger] raised[k]) * value(envelope[k])) * count
            == value(high[k]) * ((total * aim) * value(high_boost))
    &&& spectrum.len() == half.len()
    &&& forall|k: int|
        0 <= k < half.len() ==> {
            &&& value((#[trigger] spectrum[k]).re) == value(half[k].re) + value(added[k].re)
            &&& value(spectrum[k].im) == value(half[k].im) + value(added[k].im)
        }
}

proof fn lemma_raised(
    high: real,
    ratio: real,
    numerator: real,
    envelope: real,
    mean: real,
    count: real,
    total: real,
    aim: real,
    boost: real,
)
    requires
        ratio * envelope == numerator,
        numerator == (mean * aim) * boost,
        mean * count == total,
    ensures
        ((high * ratio) * envelope) * count == high * ((total * aim) * boost),
{
    assert((high * ratio) * envelope == high * numerator) by (nonlinear_arith)
        requires
            ratio * envelope == numerator,
    ;
    assert(((mean * aim) * boost) * count == (total * aim) * boost) by (nonlinear_arith)
        requires
            mean * count == total,
    ;
    lemma_real_associates(high, numerator, count);
}

/// The spectrum is boosted only where a boost is wanted and no sample of the
/// envelope vanishes. Then its upper band is added again, against the envelope.
pub proof fn law_weak_parts_are_boosted<F: SosFloat + Single, X: Transforms<F>>(
    value: spec_fn(F) -> real,
    half: Seq<Complex<F>>,
    envelope: Seq<F>,
    spec: BlockSpec<F>,
    transforms: X,
)
    requires
        transforms_block(value, spec, transforms),
        half.len() == spec.bins(),
        envelope.len() == spec.blocksize,
        spec.high_boost is Some ==> spec.rf_top_gain is Some,
        spec.rf_top_gain is Some ==> spec.rf_top_gain->0.len() == spec.bins(),
    ensures
        demodulated_spectrum(half, envelope, spec, transforms) is Ok,
        spec.high_boost is None || (exists|k: int|
            0 <= k < envelope.len() && value(#[trigger] envelope[k]) == 0real)
            ==> demodulated_spectrum(half, envelope, spec, transforms)->Ok_0 == half,
        spec.high_boost is Some && (forall|k: int|
            0 <= k < envelope.len() ==> value(#[trigger] envelope[k]) != 0real) ==> (exists|
            high: Seq<F>,
            raised: Seq<F>,
        | #[trigger]
            is_boosted_by(
                value,
                half,
                envelope,
                spec.rf_top_gain->0@,
                spec.high_boost->0,
                transforms,
                demodulated_spectrum(half, envelope, spec, transforms)->Ok_0,
                high,
                raised,
            )),
{
    if exists|k: int| 0 <= k < envelope.len() && value(#[trigger] envelope[k]) == 0real {
        let k = choose|k: int| 0 <= k < envelope.len() && value(#[trigger] envelope[k]) == 0real;
        assert(is_zero(envelope[k]));
    } else if spec.high_boost is Some {
        assert forall|k: int| 0 <= k < envelope.len() implies !is_zero(#[trigger] envelope[k]) by {
        }
        let rf_top = spec.rf_top_gain->0@;
        let boost = spec.high_boost->0;
        let spectrum = demodulated_spectrum(half, envelope, spec, transforms)->Ok_0;
        let total = laned_sum(envelope);
        let count = from_count::<F>(envelope.len() as usize);
        let mean = over(total, count);
        let aim = from_bits::<F>(BOOST_AIM);
        let numerator = times(times(mean, aim), boost);
        let gained = with_gains(half, rf_top);
        let high = irfft_of(transforms, gained, None);
        let raised = Seq::new(high.len(), |k: int| times(high[k], over(numerator, envelope[k])));
        law_sum_algebraic_is_the_sum(value, envelope);
        law_gains_multiply_bins(value, half, rf_top);
        law_inverse_has_the_bins(value, transforms, gained, None);
        assert(value(mean) * value(count) == value(total));
        assert forall|k: int| 0 <= k < raised.len() implies (value(#[trigger] raised[k]) * value(
            envelope[k],
        )) * value(count) == value(high[k]) * ((real_sum(value, envelope) * value(aim)) * value(
            boost,
        )) by {
            lemma_raised(
                value(high[k]),
                value(over(numerator, envelope[k])),
                value(numerator),
                value(envelope[k]),
                value(mean),
                value(count),
                value(total),
                value(aim),
                value(boost),
            );
        }
        assert(is_boosted_by(
            value,
            half,
            envelope,
            rf_top,
            boost,
            transforms,
            spectrum,
            high,
            raised,
        ));
    }
}

proof fn lemma_greatest_is_there<T: Sample>(start: T, values: Seq<T>)
    ensures
        greatest_from(start, values) == start || values.contains(greatest_from(start, values)),
    decreases values.len(),
{
    if values.len() > 0 {
        let shorter = values.drop_last();
        lemma_greatest_is_there(start, shorter);
        let before = greatest_from(start, shorter);
        if shorter.contains(before) {
            let at = choose|k: int| 0 <= k < shorter.len() && shorter[k] == before;
            assert(values[at] == before);
        }
        assert(values[values.len() - 1] == values.last());
    }
}

/// A frequency above twice that of white, less that of black, is a spike.
pub open spec fn is_spike<F: SosFloat>(
    value: spec_fn(F) -> real,
    wide: spec_fn(F::Wide) -> real,
    spec: BlockSpec<F>,
    frequency: F,
) -> bool {
    value(frequency) > 2real * wide(spec.white_hz) - value(spec.ire0)
}

/// Where spikes are not repaired, or where none is found away from the ends of
/// the block, the demodulated signal is the instantaneous frequency. Where they
/// are, each sample is that frequency or the one of the differences, and samples
/// more than eight places before each spike or thirty behind stay.
pub proof fn law_only_spikes_are_repaired<F: SosFloat + Single>(
    value: spec_fn(F) -> real,
    wide: spec_fn(F::Wide) -> real,
    analytic: Seq<Complex<F>>,
    spec: BlockSpec<F>,
    k: int,
)
    requires
        exact_wide(value, wide),
        ordered(value),
        ordered(wide),
        !is_spike(value, wide, spec, from_bits::<F>(NEG_INFINITY32)),
        0 <= k < analytic.len(),
    ensures
        ({
            let freq = narrowed::<F>(spec.freq_hz);
            let plain = unwrapped(analytic, freq, spec.ire0);
            let other = unwrapped(differences(analytic), freq, spec.ire0);
            let repaired = demodulated(analytic, spec);
            &&& repaired.len() == analytic.len()
            &&& repaired[k] == plain[k] || repaired[k] == other[k]
            &&& spec.disable_diff_demod ==> repaired == plain
            &&& (forall|i: int|
                20 <= i < analytic.len() - 20 ==> !is_spike(value, wide, spec, #[trigger] plain[i]))
                ==> repaired == plain
            &&& (forall|i: int|
                0 <= i < analytic.len() && is_spike(value, wide, spec, #[trigger] plain[i])
                    ==> k < i - 8 || k >= i + 30) ==> repaired[k] == plain[k]
        }),
{
    let freq = narrowed::<F>(spec.freq_hz);
    let plain = unwrapped(analytic, freq, spec.ire0);
    let other = unwrapped(differences(analytic), freq, spec.ire0);
    let level = spike_level(spec);
    lemma_spike_level(value, wide, spec);
    assert(wide(level) == 2real * wide(spec.white_hz) - value(spec.ire0));
    law_despiking_is_local(plain, other, narrowed::<F>(level), 8, 30, plain.len(), k);
    assert(value(narrowed::<F>(level)) == wide(level));
    if forall|i: int|
        20 <= i < analytic.len() - 20 ==> !is_spike(value, wide, spec, #[trigger] plain[i]) {
        if plain.len() > 40 {
            let inner = plain.subrange(20, plain.len() - 20);
            lemma_greatest_is_there(from_bits::<F>(NEG_INFINITY32), inner);
            let greatest = greatest_from(from_bits::<F>(NEG_INFINITY32), inner);
            if inner.contains(greatest) {
                let at = choose|i: int| 0 <= i < inner.len() && inner[i] == greatest;
                assert(plain[at + 20] == greatest);
            }
        }
    }
}

/// A lone spike away from the ends of the block, around which the frequency of
/// the differences is lower, is replaced by that frequency, from eight places
/// before it to thirty behind.
pub proof fn law_lone_spike_is_repaired<F: SosFloat + Single>(
    value: spec_fn(F) -> real,
    wide: spec_fn(F::Wide) -> real,
    analytic: Seq<Complex<F>>,
    spec: BlockSpec<F>,
    spike: int,
    k: int,
)
    requires
        exact_wide(value, wide),
        ordered(value),
        ordered(wide),
        !spec.disable_diff_demod,
        20 <= spike < analytic.len() - 20,
        0 <= k < analytic.len(),
        ({
            let freq = narrowed::<F>(spec.freq_hz);
            let plain = unwrapped(analytic, freq, spec.ire0);
            let other = unwrapped(differences(analytic), freq, spec.ire0);
            &&& forall|i: int|
                0 <= i < analytic.len() ==> (is_spike(value, wide, spec, #[trigger] plain[i])
                    <==> i == spike)
            &&& forall|j: int|
                spike - 8 <= j < spike + 30 && j < analytic.len() ==> value(#[trigger] other[j])
                    < value(plain[spike])
        }),
    ensures
        ({
            let freq = narrowed::<F>(spec.freq_hz);
            let plain = unwrapped(analytic, freq, spec.ire0);
            let other = unwrapped(differences(analytic), freq, spec.ire0);
            demodulated(analytic, spec)[k] == if spike - 8 <= k < spike + 30 && k
                < analytic.len() - 1 {
                other[k]
            } else {
                plain[k]
            }
        }),
{
    let freq = narrowed::<F>(spec.freq_hz);
    let plain = unwrapped(analytic, freq, spec.ire0);
    let other = unwrapped(differences(analytic), freq, spec.ire0);
    let level = spike_level(spec);
    lemma_spike_level(value, wide, spec);
    let inner = plain.subrange(20, plain.len() - 20);
    let floor = from_bits::<F>(NEG_INFINITY32);
    lemma_greatest_bounds(value, floor, inner, spike - 20);
    assert(inner[spike - 20] == plain[spike]);
    assert(value(narrowed::<F>(level)) == wide(level));
    assert forall|i: int| 0 <= i < plain.len() implies (value(narrowed::<F>(level)) < value(
        #[trigger] plain[i],
    ) <==> i == spike) by {
        assert(is_spike(value, wide, spec, plain[i]) <==> i == spike);
    }
    law_lone_spike_is_replaced(
        value,
        plain,
        other,
        narrowed::<F>(level),
        8,
        30,
        spike,
        plain.len(),
    );
}

proof fn lemma_spike_level<F: SosFloat>(
    value: spec_fn(F) -> real,
    wide: spec_fn(F::Wide) -> real,
    spec: BlockSpec<F>,
)
    requires
        exact_wide(value, wide),
    ensures
        wide(spike_level(spec)) == 2real * wide(spec.white_hz) - value(spec.ire0),
{
    assert(wide(two::<F::Wide>()) == 2real);
    assert(wide(spec.white_hz) * wide(two::<F::Wide>()) == 2real * wide(spec.white_hz))
        by (nonlinear_arith)
        requires
            wide(two::<F::Wide>()) == 2real,
    ;
}

proof fn lemma_greatest_bounds<T: Sample>(
    value: spec_fn(T) -> real,
    start: T,
    values: Seq<T>,
    k: int,
)
    requires
        ordered(value),
        0 <= k < values.len(),
    ensures
        value(values[k]) <= value(greatest_from(start, values)),
    decreases values.len(),
{
    let shorter = values.drop_last();
    if k < shorter.len() {
        lemma_greatest_bounds(value, start, shorter, k);
        assert(shorter[k] == values[k]);
    }
}

/// The equalizer multiplies the bins of the demodulated signal by its gains;
/// without one the signal stays. The trap takes what the equalizer gives.
pub proof fn law_demodulated_bins_are_equalized<
    F: SosFloat + Single,
    X: Transforms<F>,
    B: BlockTools<F>,
>(
    value: spec_fn(F) -> real,
    demod: Seq<F>,
    spec: BlockSpec<F>,
    transforms: X,
    tools: B,
)
    requires
        transforms_block(value, spec, transforms),
        r2c_of(transforms, demod).len() == spec.bins(),
        spec.eq_gain is Some ==> spec.eq_gain->0.len() == spec.bins(),
    ensures
        ({
            let sharp = equalized(
                demod,
                BlockSpec { chroma_trap: false, ..spec },
                transforms,
                tools,
            );
            &&& spec.eq_gain is None ==> sharp == demod
            &&& spec.eq_gain is Some ==> sharp.len() == spec.blocksize && has_bins(
                value,
                transforms,
                sharp,
                multiples(
                    value,
                    numbers_of(value, r2c_of(transforms, demod)),
                    spec.eq_gain->0@,
                ),
            )
            &&& equalized(demod, spec, transforms, tools) == if spec.chroma_trap {
                trapped(tools, sharp)
            } else {
                sharp
            }
        }),
{
    if let Some(gains) = spec.eq_gain {
        let half = r2c_of(transforms, demod);
        law_gains_multiply_bins(value, half, gains@);
        law_inverse_has_the_bins(value, transforms, with_gains(half, gains@), None);
    }
}

/// The outside operations on a block answer as many samples as they take.
pub open spec fn keeps_lengths<F, X: Transforms<F>, B: BlockTools<F>>(
    n: nat,
    transforms: X,
    tools: B,
) -> bool {
    &&& forall|signal: Seq<F>|
        signal.len() == n ==> (#[trigger] r2c_of(transforms, signal)).len() == n / 2 + 1
    &&& forall|spectrum: Seq<Complex<F>>|
        spectrum.len() == n ==> (#[trigger] ifft_complex_of(transforms, spectrum)).len() == n
    &&& forall|signal: Seq<F>, shift: isize|
        (#[trigger] rolled(tools, signal, shift)).len() == signal.len()
    &&& forall|signal: Seq<F>| (#[trigger] trapped(tools, signal)).len() == signal.len()
    &&& forall|signal: Seq<F>| (#[trigger] shifted_chroma(tools, signal)).len() == signal.len()
}

/// The samples of a channel are those of the signal from `start` on, each raised
/// by `offset`.
pub open spec fn stands_in<F>(
    value: spec_fn(F) -> real,
    signal: Seq<F>,
    start: int,
    offset: real,
    channel: Seq<F>,
) -> bool {
    forall|i: int|
        0 <= i < channel.len() ==> value(#[trigger] channel[i]) == value(signal[start + i]) + offset
}

/// The demodulated signal of a block.
pub open spec fn block_demod<
    F: SosFloat + Single,
    X: Transforms<F>,
    D: DynamicFilter<F>,
    B: BlockTools<F>,
>(
    rawdata: Seq<F>,
    spec: BlockSpec<F>,
    transforms: X,
    runtime: FilterRuntime<D>,
    tools: B,
) -> Seq<F> {
    let half = conditioned(rawdata, spec, transforms);
    let envelope = block_envelope(rawdata, spec, transforms, runtime, tools);
    let spectrum = demodulated_spectrum(half, envelope, spec, transforms)->Ok_0;
    equalized(
        demodulated(analytic_block(spectrum, spec, transforms), spec),
        spec,
        transforms,
        tools,
    )
}

/// A block that is long enough is decoded by settings that go together, and comes
/// to as many samples of video as it has itself.
pub open spec fn comes_to_video<
    F: SosFloat + Single,
    X: Transforms<F>,
    D: DynamicFilter<F>,
    B: BlockTools<F>,
>(
    value: spec_fn(F) -> real,
    rawdata: Seq<F>,
    spec: BlockSpec<F>,
    transforms: X,
    runtime: FilterRuntime<D>,
    tools: B,
) -> bool {
    let video = block_video(rawdata, spec, transforms, runtime, tools);
    &&& transforms_block(value, spec, transforms)
    &&& keeps_lengths(spec.blocksize as nat, transforms, tools)
    &&& spec.conditions_rf()
    &&& spec.boosts_high()
    &&& spec.demodulates()
    &&& rawdata.len() >= spec.blocksize
    &&& spec.high_boost is Some ==> spec.rf_top_gain is Some
    &&& spec.writes_channels()
    &&& block_envelope(rawdata, spec, transforms, runtime, tools).len() == spec.blocksize
    &&& is_linear(spec) || (video is Ok && video->Ok_0.len() == spec.blocksize)
}

/// The video of a block: that of the bins of its demodulated signal.
pub open spec fn block_video<
    F: SosFloat + Single,
    X: Transforms<F>,
    D: DynamicFilter<F>,
    B: BlockTools<F>,
>(
    rawdata: Seq<F>,
    spec: BlockSpec<F>,
    transforms: X,
    runtime: FilterRuntime<D>,
    tools: B,
) -> Result<Seq<F>, BlockError> {
    video_of(
        r2c_of(transforms, block_demod(rawdata, spec, transforms, runtime, tools)),
        spec,
        transforms,
        runtime,
    )
}

proof fn lemma_block_parts<
    F: SosFloat + Single,
    X: Transforms<F>,
    D: DynamicFilter<F>,
    B: BlockTools<F>,
>(
    value: spec_fn(F) -> real,
    rawdata: Seq<F>,
    spec: BlockSpec<F>,
    transforms: X,
    runtime: FilterRuntime<D>,
    tools: B,
)
    requires
        comes_to_video(value, rawdata, spec, transforms, runtime, tools),
    ensures
        ({
            let demod = block_demod(rawdata, spec, transforms, runtime, tools);
            let bins = r2c_of(transforms, demod);
            let decoded = block_decoded(rawdata, spec, transforms, runtime, tools);
            let start = spec.blockcut as int;
            let end = spec.blockcut_end as int;
            let video = video_of(bins, spec, transforms, runtime)->Ok_0;
            &&& demod.len() == spec.blocksize
            &&& bins.len() == spec.bins()
            &&& video_of(bins, spec, transforms, runtime) is Ok
            &&& video.len() == spec.blocksize
            &&& decoded is Ok
            &&& decoded->Ok_0.demod == raised_by(
                cut(
                    if spec.export_raw_tbc {
                        demod
                    } else {
                        video
                    },
                    start,
                    end,
                ),
                spec.ire0,
            )
            &&& decoded->Ok_0.demod_05 == raised_by(
                cut(video05_of(bins, spec, transforms, tools), start, end),
                spec.ire0,
            )
            &&& decoded->Ok_0.demod_burst == cut(
                burst_of(rawdata, video, spec, transforms, tools),
                start,
                end,
            )
            &&& decoded->Ok_0.envelope == cut(
                block_envelope(rawdata, spec, transforms, runtime, tools),
                start,
                end,
            )
        }),
{
    let half = conditioned(rawdata, spec, transforms);
    let envelope = block_envelope(rawdata, spec, transforms, runtime, tools);
    law_weak_parts_are_boosted(value, half, envelope, spec, transforms);
    let spectrum = demodulated_spectrum(half, envelope, spec, transforms)->Ok_0;
    let analytic = analytic_block(spectrum, spec, transforms);
    assert(one_sided(spectrum, spec.blocksize as nat).len() == spec.blocksize);
    assert(analytic.len() == spec.blocksize);
    let first = demodulated(analytic, spec);
    lemma_demodulated_len(analytic, spec);
    law_demodulated_bins_are_equalized(value, first, spec, transforms, tools);
    let demod = block_demod(rawdata, spec, transforms, runtime, tools);
    assert(demod == equalized(first, spec, transforms, tools));
    assert(demod.len() == spec.blocksize);
    let bins = r2c_of(transforms, demod);
    if is_linear(spec) {
        law_video_is_filtered(value, bins, spec, transforms, runtime);
    }
}

/// The first channel of a block holds, between the cuts and from 0 IRE up, the
/// demodulated signal where that is wanted raw, and otherwise the video. Without
/// the non-linear stages and the notch, the bins of the video are those of the
/// demodulated signal times the video filter.
pub proof fn law_first_channel_is_the_video<
    F: SosFloat + Single,
    X: Transforms<F>,
    D: DynamicFilter<F>,
    B: BlockTools<F>,
>(
    value: spec_fn(F) -> real,
    rawdata: Seq<F>,
    spec: BlockSpec<F>,
    transforms: X,
    runtime: FilterRuntime<D>,
    tools: B,
)
    requires
        comes_to_video(value, rawdata, spec, transforms, runtime, tools),
    ensures
        block_decoded(rawdata, spec, transforms, runtime, tools) is Ok,
        ({
            let channel = block_decoded(rawdata, spec, transforms, runtime, tools)->Ok_0.demod;
            let demod = block_demod(rawdata, spec, transforms, runtime, tools);
            let video = block_video(rawdata, spec, transforms, runtime, tools)->Ok_0;
            let start = spec.blockcut as int;
            &&& channel.len() == spec.blocksize - spec.blockcut - spec.blockcut_end
            &&& spec.export_raw_tbc ==> stands_in(value, demod, start, value(spec.ire0), channel)
            &&& !spec.export_raw_tbc ==> stands_in(
                value,
                video,
                start,
                value(spec.ire0),
                channel,
            )
            &&& is_linear(spec) ==> has_bins(
                value,
                transforms,
                video,
                products(
                    numbers_of(value, r2c_of(transforms, demod)),
                    numbers_of(value, spec.video_filter@),
                ),
            )
        }),
{
    lemma_block_parts(value, rawdata, spec, transforms, runtime, tools);
    let demod = block_demod(rawdata, spec, transforms, runtime, tools);
    if is_linear(spec) {
        law_video_is_filtered(value, r2c_of(transforms, demod), spec, transforms, runtime);
    }
}

/// The second channel of a block holds, between the cuts and from 0 IRE up, the
/// signal whose bins are those of the demodulated signal times the low-pass
/// filter, moved to earlier places by the filter's delay.
pub proof fn law_second_channel_is_the_low_video<
    F: SosFloat + Single,
    X: Transforms<F>,
    D: DynamicFilter<F>,
    B: BlockTools<F>,
>(
    value: spec_fn(F) -> real,
    rawdata: Seq<F>,
    spec: BlockSpec<F>,
    transforms: X,
    runtime: FilterRuntime<D>,
    tools: B,
)
    requires
        comes_to_video(value, rawdata, spec, transforms, runtime, tools),
    ensures
        ({
            let channel = block_decoded(
                rawdata,
                spec,
                transforms,
                runtime,
                tools,
            )->Ok_0.demod_05;
            let demod = block_demod(rawdata, spec, transforms, runtime, tools);
            &&& channel.len() == spec.blocksize - spec.blockcut - spec.blockcut_end
            &&& exists|low: Seq<F>|
                {
                    &&& low.len() == spec.blocksize
                    &&& #[trigger] has_bins(
                        value,
                        transforms,
                        low,
                        products(
                            numbers_of(value, r2c_of(transforms, demod)),
                            numbers_of(value, spec.video05_filter@),
                        ),
                    )
                    &&& stands_in(
                        value,
                        rolled(tools, low, (-spec.video05_offset) as isize),
                        spec.blockcut as int,
                        value(spec.ire0),
                        channel,
                    )
                }
        }),
{
    lemma_block_parts(value, rawdata, spec, transforms, runtime, tools);
    let demod = block_demod(rawdata, spec, transforms, runtime, tools);
    let bins = r2c_of(transforms, demod);
    law_low_video_is_filtered(value, bins, spec, transforms, tools);
    let low = choose|low: Seq<F>|
        {
            &&& low.len() == spec.blocksize
            &&& #[trigger] has_bins(
                value,
                transforms,
                low,
                products(numbers_of(value, bins), numbers_of(value, spec.video05_filter@)),
            )
            &&& video05_of(bins, spec, transforms, tools) == rolled(
                tools,
                low,
                (-spec.video05_offset) as isize,
            )
        };
    let channel = block_decoded(rawdata, spec, transforms, runtime, tools)->Ok_0.demod_05;
    let moved = rolled(tools, low, (-spec.video05_offset) as isize);
    assert(moved.len() == spec.blocksize);
    assert(stands_in(value, moved, spec.blockcut as int, value(spec.ire0), channel));
}

/// The third channel of a block holds, between the cuts, the RF as it came where
/// the carrier is followed. Otherwise it holds the shifted signal whose bins are
/// the burst gains times those of the RF or, without colour, those of the video.
pub proof fn law_third_channel_is_the_burst<
    F: SosFloat + Single,
    X: Transforms<F>,
    D: DynamicFilter<F>,
    B: BlockTools<F>,
>(
    value: spec_fn(F) -> real,
    rawdata: Seq<F>,
    spec: BlockSpec<F>,
    transforms: X,
    runtime: FilterRuntime<D>,
    tools: B,
)
    requires
        comes_to_video(value, rawdata, spec, transforms, runtime, tools),
    ensures
        ({
            let channel = block_decoded(
                rawdata,
                spec,
                transforms,
                runtime,
                tools,
            )->Ok_0.demod_burst;
            let video = block_video(rawdata, spec, transforms, runtime, tools)->Ok_0;
            let start = spec.blockcut as int;
            &&& spec.chroma_afc ==> {
                &&& channel.len() == rawdata.len() - spec.blockcut - spec.blockcut_end
                &&& stands_in(value, rawdata, start, 0real, channel)
            }
            &&& !spec.chroma_afc ==> {
                &&& channel.len() == spec.blocksize - spec.blockcut - spec.blockcut_end
                &&& exists|band: Seq<F>|
                    {
                        &&& #[trigger] has_bins(
                            value,
                            transforms,
                            band,
                            multiples(
                                value,
                                numbers_of(
                                    value,
                                    r2c_of(transforms, burst_source(rawdata, video, spec)),
                                ),
                                spec.burst_gain@,
                            ),
                        )
                        &&& stands_in(value, shifted_chroma(tools, band), start, 0real, channel)
                    }
            }
        }),
{
    lemma_block_parts(value, rawdata, spec, transforms, runtime, tools);
    let video = block_video(rawdata, spec, transforms, runtime, tools)->Ok_0;
    let channel = block_decoded(rawdata, spec, transforms, runtime, tools)->Ok_0.demod_burst;
    if !spec.chroma_afc {
        law_burst_is_band_passed(value, rawdata, video, spec, transforms, tools);
        let source = burst_source(rawdata, video, spec);
        let band = choose|band: Seq<F>|
            {
                &&& band.len() == spec.blocksize
                &&& #[trigger] has_bins(
                    value,
                    transforms,
                    band,
                    multiples(
                        value,
                        numbers_of(value, r2c_of(transforms, source)),
                        spec.burst_gain@,
                    ),
                )
                &&& burst_of(rawdata, video, spec, transforms, tools) == shifted_chroma(
                    tools,
                    band,
                )
            };
        assert(stands_in(
            value,
            shifted_chroma(tools, band),
            spec.blockcut as int,
            0real,
            channel,
        ));
    }
}

/// The fourth channel of a block holds the envelope between the cuts.
pub proof fn law_fourth_channel_is_the_envelope<
    F: SosFloat + Single,
    X: Transforms<F>,
    D: DynamicFilter<F>,
    B: BlockTools<F>,
>(
    value: spec_fn(F) -> real,
    rawdata: Seq<F>,
    spec: BlockSpec<F>,
    transforms: X,
    runtime: FilterRuntime<D>,
    tools: B,
)
    requires
        comes_to_video(value, rawdata, spec, transforms, runtime, tools),
    ensures
        ({
            let channel = block_decoded(
                rawdata,
                spec,
                transforms,
                runtime,
                tools,
            )->Ok_0.envelope;
            &&& channel.len() == spec.blocksize - spec.blockcut - spec.blockcut_end
            &&& stands_in(
                value,
                envelope_of(
                    analytic_block(conditioned(rawdata, spec, transforms), spec, transforms),
                    spec,
                    runtime,
                    tools,
                ),
                spec.blockcut as int,
                0real,
                channel,
            )
        }),
{
    lemma_block_parts(value, rawdata, spec, transforms, runtime, tools);
}

proof fn lemma_demodulated_len<F: SosFloat + Single>(
    analytic: Seq<Complex<F>>,
    spec: BlockSpec<F>,
)
    requires
        analytic.len() > 0,
    ensures
        demodulated(analytic, spec).len() == analytic.len(),
{
    let freq = narrowed::<F>(spec.freq_hz);
    let plain = unwrapped(analytic, freq, spec.ire0);
    law_despiking_is_local(
        plain,
        unwrapped(differences(analytic), freq, spec.ire0),
        narrowed::<F>(spike_level(spec)),
        8,
        30,
        plain.len(),
        0,
    );
}

/// A block is decoded where its number of samples is even and leaves room for the
/// repair of spikes, where there is a gain for each of its bins, where it is long
/// enough for its filters and its cuts, and where the limits of the high
/// frequencies are in order.
pub proof fn law_suited_settings_are_ready<
    F: SosFloat + Single,
    X: Transforms<F>,
    D: DynamicFilter<F>,
    B: BlockTools<F>,
>(
    value: spec_fn(F) -> real,
    rawdata: Seq<F>,
    spec: BlockSpec<F>,
    transforms: X,
    runtime: FilterRuntime<D>,
    tools: B,
)
    requires
        ordered(value),
        2 <= spec.blocksize <= usize::MAX - 30,
        spec.blocksize % 2 == 0,
        spec.blockcut + spec.blockcut_end <= spec.blocksize,
        spec.video05_offset <= isize::MAX,
        ({
            let bins = spec.blocksize as int / 2 + 1;
            let len = spec.blocksize as nat;
            &&& spec.notch_filter is Some ==> spec.notch_filter->0.len() >= bins
            &&& spec.rf_filter.len() >= bins
            &&& spec.rf_top_gain is Some ==> spec.rf_top_gain->0.len() == bins
            &&& spec.eq_gain is Some ==> spec.eq_gain->0.len() == bins
            &&& spec.video_filter.len() == bins
            &&& spec.video05_filter.len() == bins
            &&& spec.nl_high_pass is Some ==> spec.nl_high_pass->0.len() == bins
            &&& spec.chroma_afc || spec.burst_gain.len() == bins
            &&& filterable(spec.env_post_filter@, len)
            &&& filterable(spec.subdeemp.amplitude_lpf@, len)
            &&& spec.fsc_notch is Some ==> filterable(spec.fsc_notch->0@, len)
        }),
        value(spec.highpass_limit_l) <= value(spec.highpass_limit_h),
    ensures
        block_ready(rawdata, spec, transforms, runtime, tools),
{
}

/// The analytic signal of a block is the inverse transform of a spectrum in which
/// the bins of the half spectrum stand, those between frequency 0 and the folding
/// frequency twice, and the negative frequencies not at all.
pub proof fn law_block_is_made_analytic<F: SosFloat + Single, X: Transforms<F>>(
    value: spec_fn(F) -> real,
    half: Seq<Complex<F>>,
    spec: BlockSpec<F>,
    transforms: X,
)
    requires
        exact(value),
        half.len() == spec.bins(),
    ensures
        exists|whole: Seq<Complex<F>>|
            {
                let n = spec.blocksize as int;
                &&& analytic_block(half, spec, transforms) == #[trigger] ifft_complex_of(
                    transforms,
                    whole,
                )
                &&& whole.len() == n
                &&& forall|k: int|
                    0 <= k < n ==> {
                        let bin = number_of(value, #[trigger] whole[k]);
                        &&& k == 0 || 2 * k == n ==> bin == number_of(value, half[k])
                        &&& 0 < 2 * k < n ==> bin == multiple(2real, number_of(value, half[k]))
                        &&& 2 * k > n ==> bin == (0real, 0real)
                    }
            },
{
    let n = spec.blocksize as nat;
    let whole = one_sided(half, n);
    assert forall|k: int| 0 <= k < n implies {
        let bin = number_of(value, #[trigger] whole[k]);
        &&& k == 0 || 2 * k == n ==> bin == number_of(value, half[k])
        &&& 0 < 2 * k < n ==> bin == multiple(2real, number_of(value, half[k]))
        &&& 2 * k > n ==> bin == (0real, 0real)
    } by {
        law_one_sided_doubles_bins(value, half, n, k);
    }
    assert(analytic_block(half, spec, transforms) == ifft_complex_of(transforms, whole));
}

} // verus!
