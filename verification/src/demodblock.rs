//! Demodulation of one block of RF.
use vstd::prelude::*;

use crate::block::{BlockError, BlockSpec, VideoChannels};
use crate::complex::{complex_plus, Complex};
use crate::fast_math::{clamped, laned_sum, sum_algebraic};
use crate::filter::{
    filtered, functional_dynamic, sosfiltfilt_f32, DynamicFilter, FilterRuntime,
};
use crate::request::ColorSystem;
use crate::sample::{
    absolute, below, from_bits, from_count, functional, functional_single, functional_sos,
    is_zero, lemma_functional_sos, minus, narrowed, over, plus, times, two, widened, Sample,
    Single, SosFloat,
};
use crate::spectrum::{
    analytic_spectrum, differences, ediff1d_complex_to_begin_zero, filtered_spectrum,
    multiply_spectrum_real, one_sided, slice_vec, spectrum_times_filter, with_gains,
};
use crate::spikes::{despiked, inner_max, max_excluding_edges, replace_spikes};
use crate::sub_deemphasis::{high_pass_view, sub_deemphasis, sub_deemphasized};
use crate::transforms::{
    functional_transforms, ifft_complex_of, irfft_f32, irfft_of, irfft_owned_f32, r2c_of,
    rfft_f32, rfft_owned_f32, run_ifft_complex, Transforms,
};
use crate::unwrap_angles::{unwrap_hilbert, unwrapped};

verus! {

/// Bit pattern of the part of the envelope's mean that the boost aims at, 0.9.
pub const BOOST_AIM: u32 = 0x3F66_6666;

/// Samples by which the envelope is rolled.
pub const ENVELOPE_ROLL: isize = 4;

/// Samples at each end of a block that are not searched for spikes.
pub const SPIKE_EDGE: usize = 20;

/// Samples before a spike that are replaced with it.
pub const SPIKE_BEFORE: usize = 8;

/// Samples from a spike on that are replaced with it.
pub const SPIKE_AFTER: usize = 30;

/// Block operations that the decoder around this library supplies. Each answers
/// as many samples as it takes.
pub trait BlockTools<F> {
    /// The samples moved to later places, or to earlier ones if `shift` is
    /// negative, those that leave at one end coming in at the other.
    fn roll(&self, samples: &[F], shift: isize) -> Vec<F>;

    /// The demodulated signal without the chroma carrier.
    fn chroma_trap(&self, demod: &[F]) -> Vec<F>;

    /// The chroma moved by its offset, without its mean.
    fn shift_chroma_and_remove_dc(&self, filtered: &[F]) -> Vec<F>;
}

/// `output` is what rolling may answer.
pub open spec fn roll_answers<F, B: BlockTools<F>>(
    tools: B,
    samples: Seq<F>,
    shift: isize,
    output: Seq<F>,
) -> bool {
    exists|x: &[F], y: Vec<F>| #[trigger]
        call_ensures(B::roll, (&tools, x, shift), y) && x@ == samples && y@ == output
}

/// The samples rolled.
pub open spec fn rolled<F, B: BlockTools<F>>(tools: B, samples: Seq<F>, shift: isize) -> Seq<F> {
    choose|output: Seq<F>| roll_answers(tools, samples, shift, output)
}

/// `output` is what the trap may answer.
pub open spec fn trap_answers<F, B: BlockTools<F>>(
    tools: B,
    demod: Seq<F>,
    output: Seq<F>,
) -> bool {
    exists|x: &[F], y: Vec<F>| #[trigger]
        call_ensures(B::chroma_trap, (&tools, x), y) && x@ == demod && y@ == output
}

/// The demodulated signal without the chroma carrier.
pub open spec fn trapped<F, B: BlockTools<F>>(tools: B, demod: Seq<F>) -> Seq<F> {
    choose|output: Seq<F>| trap_answers(tools, demod, output)
}

/// `output` is what shifting may answer.
pub open spec fn shift_answers<F, B: BlockTools<F>>(
    tools: B,
    chroma: Seq<F>,
    output: Seq<F>,
) -> bool {
    exists|x: &[F], y: Vec<F>| #[trigger]
        call_ensures(B::shift_chroma_and_remove_dc, (&tools, x), y) && x@ == chroma && y@
            == output
}

/// The chroma moved by its offset, without its mean.
pub open spec fn shifted_chroma<F, B: BlockTools<F>>(tools: B, chroma: Seq<F>) -> Seq<F> {
    choose|output: Seq<F>| shift_answers(tools, chroma, output)
}

/// The tools answer the same for the same input, and as many samples as they
/// take.
#[verifier::opaque]
pub open spec fn functional_tools<F, B: BlockTools<F>>(tools: B) -> bool {
    &&& forall|x: Seq<F>, shift: isize, y: Seq<F>, z: Seq<F>|
        #![trigger roll_answers(tools, x, shift, y), roll_answers(tools, x, shift, z)]
        roll_answers(tools, x, shift, y) && roll_answers(tools, x, shift, z) ==> y == z
    &&& forall|x: Seq<F>, shift: isize, y: Seq<F>|
        #[trigger] roll_answers(tools, x, shift, y) ==> y.len() == x.len()
    &&& forall|x: Seq<F>, y: Seq<F>, z: Seq<F>|
        #![trigger trap_answers(tools, x, y), trap_answers(tools, x, z)]
        trap_answers(tools, x, y) && trap_answers(tools, x, z) ==> y == z
    &&& forall|x: Seq<F>, y: Seq<F>| #[trigger] trap_answers(tools, x, y) ==> y.len() == x.len()
    &&& forall|x: Seq<F>, y: Seq<F>, z: Seq<F>|
        #![trigger shift_answers(tools, x, y), shift_answers(tools, x, z)]
        shift_answers(tools, x, y) && shift_answers(tools, x, z) ==> y == z
    &&& forall|x: Seq<F>, y: Seq<F>| #[trigger] shift_answers(tools, x, y) ==> y.len() == x.len()
}

fn run_roll<F, B: BlockTools<F>>(tools: &B, samples: &[F], shift: isize) -> (output: Vec<F>)
    requires
        functional_tools::<F, B>(*tools),
    ensures
        output@ == rolled(*tools, samples@, shift),
        output.len() == samples.len(),
{
    reveal(functional_tools);
    let output: Vec<F> = tools.roll(samples, shift);
    proof {
        assert(roll_answers(*tools, samples@, shift, output@));
    }
    output
}

fn run_trap<F, B: BlockTools<F>>(tools: &B, demod: &[F]) -> (output: Vec<F>)
    requires
        functional_tools::<F, B>(*tools),
    ensures
        output@ == trapped(*tools, demod@),
        output.len() == demod.len(),
{
    reveal(functional_tools);
    let output: Vec<F> = tools.chroma_trap(demod);
    proof {
        assert(trap_answers(*tools, demod@, output@));
    }
    output
}

fn run_shift<F, B: BlockTools<F>>(tools: &B, chroma: &[F]) -> (output: Vec<F>)
    requires
        functional_tools::<F, B>(*tools),
    ensures
        output@ == shifted_chroma(*tools, chroma@),
        output.len() == chroma.len(),
{
    reveal(functional_tools);
    let output: Vec<F> = tools.shift_chroma_and_remove_dc(chroma);
    proof {
        assert(shift_answers(*tools, chroma@, output@));
    }
    output
}

/// The half spectrum of the block's RF, notched and equalized.
pub open spec fn conditioned<F: SosFloat, X: Transforms<F>>(
    rawdata: Seq<F>,
    spec: BlockSpec<F>,
    transforms: X,
) -> Seq<Complex<F>> {
    let spectrum = r2c_of(transforms, rawdata.take(spec.blocksize as int));
    let notched = match spec.notch_filter {
        Some(gains) => with_gains(spectrum, gains@.take(spec.bins() as int)),
        None => spectrum,
    };
    with_gains(notched, spec.rf_filter@.take(spec.bins() as int))
}

/// The analytic signal of a block, from its half spectrum.
pub open spec fn analytic_block<F: SosFloat, X: Transforms<F>>(
    half: Seq<Complex<F>>,
    spec: BlockSpec<F>,
    transforms: X,
) -> Seq<Complex<F>> {
    ifft_complex_of(transforms, one_sided(half, spec.blocksize as nat))
}

/// The envelope of the RF: its rectified samples, rolled and smoothed.
pub open spec fn envelope_of<F: SosFloat + Single, D: DynamicFilter<F>, B: BlockTools<F>>(
    analytic: Seq<Complex<F>>,
    spec: BlockSpec<F>,
    runtime: FilterRuntime<D>,
    tools: B,
) -> Seq<F> {
    filtered(
        runtime,
        spec.env_post_filter@,
        rolled(tools, analytic.map_values(|z: Complex<F>| absolute(z.re)), ENVELOPE_ROLL),
    )
}

/// No sample of the envelope is zero.
pub open spec fn is_strong<F: Sample>(envelope: Seq<F>) -> bool {
    forall|k: int| 0 <= k < envelope.len() ==> !is_zero(#[trigger] envelope[k])
}

/// The spectrum with its upper band added again, raised where the envelope is
/// low.
pub open spec fn boosted<F: SosFloat + Single, X: Transforms<F>>(
    half: Seq<Complex<F>>,
    envelope: Seq<F>,
    rf_top: Seq<F>,
    high_boost: F,
    transforms: X,
) -> Seq<Complex<F>> {
    let mean = over(laned_sum(envelope), from_count(envelope.len() as usize));
    let numerator = times(times(mean, from_bits(BOOST_AIM)), high_boost);
    let high = irfft_of(transforms, with_gains(half, rf_top), None);
    let raised = Seq::new(high.len(), |k: int| times(high[k], over(numerator, envelope[k])));
    let boost = r2c_of(transforms, raised);
    Seq::new(half.len(), |k: int| complex_plus(half[k], boost[k]))
}

/// The half spectrum that is demodulated: boosted, where that is wanted and the
/// signal is strong.
pub open spec fn demodulated_spectrum<
    F: SosFloat + Single,
    X: Transforms<F>,
>(
    half: Seq<Complex<F>>,
    envelope: Seq<F>,
    spec: BlockSpec<F>,
    transforms: X,
) -> Result<Seq<Complex<F>>, BlockError> {
    if is_strong(envelope) && spec.high_boost is Some {
        match spec.rf_top_gain {
            None => Err(BlockError::RfTop),
            Some(rf_top) => Ok(
                boosted(half, envelope, rf_top@, spec.high_boost->0, transforms),
            ),
        }
    } else {
        Ok(half)
    }
}

/// Frequency above which a sample counts as a spike, less that of 0 IRE: twice
/// that of 100 IRE.
pub open spec fn spike_level<F: SosFloat>(spec: BlockSpec<F>) -> F::Wide {
    minus(times(spec.white_hz, two()), widened(spec.ire0))
}

/// The instantaneous frequency of the block less that of 0 IRE, with the spikes
/// replaced from the frequency of the differences.
pub open spec fn demodulated<F: SosFloat + Single>(
    analytic: Seq<Complex<F>>,
    spec: BlockSpec<F>,
) -> Seq<F> {
    let freq = narrowed::<F>(spec.freq_hz);
    let demod = unwrapped(analytic, freq, spec.ire0);
    if !spec.disable_diff_demod && below(
        spike_level(spec),
        widened(inner_max(demod, SPIKE_EDGE as nat)),
    ) {
        despiked(
            demod,
            unwrapped(differences(analytic), freq, spec.ire0),
            narrowed::<F>(spike_level(spec)),
            SPIKE_BEFORE as int,
            SPIKE_AFTER as int,
            demod.len(),
        )
    } else {
        demod
    }
}

/// The demodulated signal equalized and trapped, as far as is wanted.
pub open spec fn equalized<F: SosFloat + Single, X: Transforms<F>, B: BlockTools<F>>(
    demod: Seq<F>,
    spec: BlockSpec<F>,
    transforms: X,
    tools: B,
) -> Seq<F> {
    let sharp = match spec.eq_gain {
        Some(gains) => irfft_of(transforms, with_gains(r2c_of(transforms, demod), gains@), None),
        None => demod,
    };
    if spec.chroma_trap {
        trapped(tools, sharp)
    } else {
        sharp
    }
}

/// The video less its high frequencies kept between the limits.
pub open spec fn less_clamped<F: Sample>(
    video: Seq<F>,
    high: Seq<F>,
    low_limit: F,
    high_limit: F,
) -> Seq<F> {
    Seq::new(video.len(), |k: int| minus(video[k], clamped(high[k], low_limit, high_limit)))
}

/// The high-pass filter of the non-linear stages, as a sequence.
pub open spec fn high_pass_of<F: SosFloat>(spec: BlockSpec<F>) -> Option<Seq<Complex<F>>> {
    match spec.nl_high_pass {
        Some(high_pass) => Some(high_pass@),
        None => None,
    }
}

/// The video of a block from the spectrum of the demodulated signal: filtered,
/// and de-emphasized and notched as far as is wanted.
pub open spec fn video_of<F: SosFloat + Single, X: Transforms<F>, D: DynamicFilter<F>>(
    demod_fft: Seq<Complex<F>>,
    spec: BlockSpec<F>,
    transforms: X,
    runtime: FilterRuntime<D>,
) -> Result<Seq<F>, BlockError> {
    let video_fft = filtered_spectrum(demod_fft, spec.video_filter@);
    let plain = irfft_of(transforms, video_fft, None);
    if spec.nldeemp_enabled && spec.nl_high_pass is None {
        Err(BlockError::HighPass)
    } else {
        let limited = if spec.nldeemp_enabled {
            less_clamped(
                plain,
                irfft_of(
                    transforms,
                    filtered_spectrum(video_fft, spec.nl_high_pass->0@),
                    None,
                ),
                spec.highpass_limit_l,
                spec.highpass_limit_h,
            )
        } else {
            plain
        };
        let deemphasized = if spec.subdeemp_enabled {
            sub_deemphasized(
                high_pass_of(spec),
                spec.subdeemp,
                limited,
                video_fft,
                transforms,
                runtime,
            )
        } else {
            Ok(limited)
        };
        match deemphasized {
            Err(error) => Err(error),
            Ok(video) => Ok(
                match spec.fsc_notch {
                    Some(sos) => filtered(runtime, sos@, video),
                    None => video,
                },
            ),
        }
    }
}

/// The low-passed video, its filter's delay taken back.
pub open spec fn video05_of<F: SosFloat + Single, X: Transforms<F>, B: BlockTools<F>>(
    demod_fft: Seq<Complex<F>>,
    spec: BlockSpec<F>,
    transforms: X,
    tools: B,
) -> Seq<F> {
    rolled(
        tools,
        irfft_of(transforms, filtered_spectrum(demod_fft, spec.video05_filter@), None),
        (-(spec.video05_offset as int)) as isize,
    )
}

/// The part of a block between its cuts.
pub open spec fn cut<T>(values: Seq<T>, blockcut: int, blockcut_end: int) -> Seq<T> {
    values.subrange(blockcut, values.len() - blockcut_end)
}

/// The burst channel of a block: the RF as it is where the carrier is tracked,
/// otherwise the band around the burst, of the RF or, without colour, of the
/// video.
pub open spec fn burst_of<F: SosFloat + Single, X: Transforms<F>, B: BlockTools<F>>(
    rawdata: Seq<F>,
    video: Seq<F>,
    spec: BlockSpec<F>,
    transforms: X,
    tools: B,
) -> Seq<F> {
    if spec.chroma_afc {
        rawdata
    } else {
        let source = if spec.color_system != ColorSystem::Monochrome {
            rawdata.take(spec.blocksize as int)
        } else {
            video
        };
        shifted_chroma(
            tools,
            irfft_of(transforms, with_gains(r2c_of(transforms, source), spec.burst_gain@), None),
        )
    }
}

/// The samples, each raised by `offset`.
pub open spec fn raised_by<F: Sample>(samples: Seq<F>, offset: F) -> Seq<F> {
    samples.map_values(|sample: F| plus(sample, offset))
}

/// What a block adds to each channel.
pub struct BlockOutput<F> {
    pub demod: Seq<F>,
    pub demod_05: Seq<F>,
    pub demod_burst: Seq<F>,
    pub envelope: Seq<F>,
}

/// The envelope of a block.
pub open spec fn block_envelope<
    F: SosFloat + Single,
    X: Transforms<F>,
    D: DynamicFilter<F>,
    B: BlockTools<F>,
>(
    rawdata: Seq<F>,
    spec: BlockSpec<F>,
    transforms: X,
    runtime: FilterRuntime<D>,
    tools: B,
) -> Seq<F> {
    envelope_of(
        analytic_block(conditioned(rawdata, spec, transforms), spec, transforms),
        spec,
        runtime,
        tools,
    )
}

/// What [`decode_video_block`] makes of a block.
pub open spec fn block_decoded<
    F: SosFloat + Single,
    X: Transforms<F>,
    D: DynamicFilter<F>,
    B: BlockTools<F>,
>(
    rawdata: Seq<F>,
    spec: BlockSpec<F>,
    transforms: X,
    runtime: FilterRuntime<D>,
    tools: B,
) -> Result<BlockOutput<F>, BlockError> {
    if rawdata.len() < spec.blocksize {
        Err(
            BlockError::ShortInput {
                len: rawdata.len() as usize,
                blocklen: spec.blocksize,
            },
        )
    } else {
        let half = conditioned(rawdata, spec, transforms);
        let envelope = block_envelope(rawdata, spec, transforms, runtime, tools);
        match demodulated_spectrum(half, envelope, spec, transforms) {
            Err(error) => Err(error),
            Ok(spectrum) => {
                let demod = equalized(
                    demodulated(analytic_block(spectrum, spec, transforms), spec),
                    spec,
                    transforms,
                    tools,
                );
                let demod_fft = r2c_of(transforms, demod);
                match video_of(demod_fft, spec, transforms, runtime) {
                    Err(error) => Err(error),
                    Ok(video) => {
                        let start = spec.blockcut as int;
                        let end = spec.blockcut_end as int;
                        let luma = if spec.export_raw_tbc {
                            demod
                        } else {
                            video
                        };
                        Ok(
                            BlockOutput {
                                demod: raised_by(cut(luma, start, end), spec.ire0),
                                demod_05: raised_by(
                                    cut(
                                        video05_of(demod_fft, spec, transforms, tools),
                                        start,
                                        end,
                                    ),
                                    spec.ire0,
                                ),
                                demod_burst: cut(
                                    burst_of(rawdata, video, spec, transforms, tools),
                                    start,
                                    end,
                                ),
                                envelope: cut(envelope, start, end),
                            },
                        )
                    },
                }
            },
        }
    }
}

/// The half spectrum of the block's RF, notched and equalized.
fn condition_rf<F: SosFloat, X: Transforms<F>>(
    rawdata: &[F],
    spec: &BlockSpec<F>,
    transforms: &X,
) -> (half: Vec<Complex<F>>)
    requires
        functional_sos::<F>(),
        functional_transforms::<F, X>(*transforms, spec.blocksize as nat),
        spec.conditions_rf(),
        rawdata.len() >= spec.blocksize,
    ensures
        half@ == conditioned(rawdata@, *spec, *transforms),
        half.len() == spec.bins(),
{
    proof {
        lemma_functional_sos::<F>();
    }
    let block: &[F] = vstd::slice::slice_subrange(rawdata, 0, spec.blocksize);
    proof {
        assert(block@ =~= rawdata@.take(spec.blocksize as int));
    }
    let mut half: Vec<Complex<F>> = rfft_f32(block, transforms);
    let bins: usize = half.len();
    if let Some(notch) = &spec.notch_filter {
        let gains: &[F] = vstd::slice::slice_subrange(notch.as_slice(), 0, bins);
        proof {
            assert(gains@ =~= notch@.take(bins as int));
        }
        multiply_spectrum_real(&mut half, gains);
    }
    let gains: &[F] = vstd::slice::slice_subrange(spec.rf_filter.as_slice(), 0, bins);
    proof {
        assert(gains@ =~= spec.rf_filter@.take(bins as int));
    }
    multiply_spectrum_real(&mut half, gains);
    half
}

/// The analytic signal of a block, from its half spectrum.
fn make_analytic<F: SosFloat, X: Transforms<F>>(
    half: &[Complex<F>],
    spec: &BlockSpec<F>,
    transforms: &X,
) -> (analytic: Vec<Complex<F>>)
    requires
        functional_sos::<F>(),
        functional_transforms::<F, X>(*transforms, spec.blocksize as nat),
        spec.blocksize >= 2,
        half.len() == spec.bins(),
    ensures
        analytic@ == analytic_block(half@, *spec, *transforms),
        analytic.len() == spec.blocksize,
{
    proof {
        lemma_functional_sos::<F>();
    }
    let spectrum: Vec<Complex<F>> = analytic_spectrum(half, spec.blocksize);
    run_ifft_complex(transforms, spectrum.as_slice())
}

/// The envelope of the RF.
fn measure_envelope<F: SosFloat + Single, D: DynamicFilter<F>, B: BlockTools<F>>(
    analytic: &[Complex<F>],
    spec: &BlockSpec<F>,
    runtime: &FilterRuntime<D>,
    tools: &B,
) -> (envelope: Vec<F>)
    requires
        functional_sos::<F>(),
        functional_single::<F>(),
        functional_dynamic::<F, D>(runtime.dynamic),
        functional_tools::<F, B>(*tools),
        spec.conditions_rf(),
        analytic.len() == spec.blocksize,
    ensures
        envelope@ == envelope_of(analytic@, *spec, *runtime, *tools),
        envelope.len() == spec.blocksize,
{
    let mut rectified: Vec<F> = Vec::new();
    while rectified.len() < analytic.len()
        invariant
            functional_single::<F>(),
            rectified.len() <= analytic.len(),
            forall|k: int| 0 <= k < rectified.len() ==> rectified[k] == absolute(analytic[k].re),
        decreases analytic.len() - rectified.len(),
    {
        rectified.push(absolute(analytic[rectified.len()].re));
    }
    proof {
        assert(rectified@ =~= analytic@.map_values(|z: Complex<F>| absolute(z.re)));
    }
    let raw_env: Vec<F> = run_roll(tools, rectified.as_slice(), ENVELOPE_ROLL);
    sosfiltfilt_f32(runtime, spec.env_post_filter.as_slice(), raw_env.as_slice())
}

/// Whether no sample of the envelope is zero.
fn measure_strength<F: Sample>(envelope: &[F]) -> (strong: bool)
    requires
        functional::<F>(),
    ensures
        strong == is_strong(envelope@),
{
    let mut index: usize = 0;
    while index < envelope.len()
        invariant
            functional::<F>(),
            index <= envelope.len(),
            forall|k: int| 0 <= k < index ==> !is_zero(#[trigger] envelope[k]),
        decreases envelope.len() - index,
    {
        if is_zero(envelope[index]) {
            proof {
                assert(is_zero(envelope@[index as int]));
            }
            return false;
        }
        index = index + 1;
    }
    true
}

/// Adds the upper band of the spectrum to it again, raised where the envelope is
/// low.
fn boost_high<F: SosFloat + Single, X: Transforms<F>>(
    half: &[Complex<F>],
    envelope: &[F],
    rf_top: &[F],
    high_boost: F,
    transforms: &X,
) -> (output: Vec<Complex<F>>)
    requires
        functional_sos::<F>(),
        functional_single::<F>(),
        functional_transforms::<F, X>(*transforms, envelope@.len()),
        envelope.len() >= 2,
        envelope.len() % 2 == 0,
        half.len() == envelope.len() / 2 + 1,
        rf_top.len() == half.len(),
    ensures
        output@ == boosted(half@, envelope@, rf_top@, high_boost, *transforms),
        output.len() == half.len(),
{
    proof {
        lemma_functional_sos::<F>();
    }
    let mean: F = over(sum_algebraic(envelope), from_count(envelope.len()));
    let numerator: F = times(times(mean, from_bits(BOOST_AIM)), high_boost);
    let mut high_spectrum: Vec<Complex<F>> = vstd::slice::slice_to_vec(half);
    multiply_spectrum_real(&mut high_spectrum, rf_top);
    let high: Vec<F> = irfft_owned_f32(high_spectrum, None, transforms);
    let ghost wanted = Seq::new(
        high@.len(),
        |k: int| times(high@[k], over(numerator, envelope@[k])),
    );
    let mut raised: Vec<F> = Vec::new();
    while raised.len() < high.len()
        invariant
            functional::<F>(),
            raised.len() <= high.len(),
            high.len() == envelope.len(),
            wanted.len() == high.len(),
            forall|k: int|
                0 <= k < high.len() ==> #[trigger] wanted[k] == times(
                    high@[k],
                    over(numerator, envelope@[k]),
                ),
            forall|k: int| 0 <= k < raised.len() ==> raised[k] == wanted[k],
        decreases high.len() - raised.len(),
    {
        let k: usize = raised.len();
        raised.push(times(high[k], over(numerator, envelope[k])));
    }
    proof {
        assert(raised@ =~= wanted);
    }
    let boost: Vec<Complex<F>> = rfft_f32(raised.as_slice(), transforms);
    let mut output: Vec<Complex<F>> = Vec::new();
    while output.len() < half.len()
        invariant
            functional::<F>(),
            output.len() <= half.len(),
            boost.len() == half.len(),
            forall|k: int| 0 <= k < output.len() ==> output[k] == complex_plus(half[k], boost[k]),
        decreases half.len() - output.len(),
    {
        let k: usize = output.len();
        output.push(complex_plus(half[k], boost[k]));
    }
    proof {
        assert(output@ =~= boosted(half@, envelope@, rf_top@, high_boost, *transforms));
    }
    output
}

/// The instantaneous frequency of the block less that of 0 IRE, with the spikes
/// replaced.
fn demodulate<F: SosFloat + Single>(
    analytic: &[Complex<F>],
    spec: &BlockSpec<F>,
) -> (demod: Vec<F>)
    requires
        functional_sos::<F>(),
        functional_single::<F>(),
        spec.blocksize >= 2,
        spec.demodulates(),
        analytic.len() == spec.blocksize,
    ensures
        demod@ == demodulated(analytic@, *spec),
        demod.len() == spec.blocksize,
{
    proof {
        lemma_functional_sos::<F>();
    }
    let freq: F = narrowed(spec.freq_hz);
    let mut demod: Vec<F> = unwrap_hilbert(analytic, freq, spec.ire0);
    let check: F::Wide = minus(times(spec.white_hz, two()), widened(spec.ire0));
    if !spec.disable_diff_demod && below(
        check,
        widened(max_excluding_edges(demod.as_slice(), SPIKE_EDGE)),
    ) {
        let diffed: Vec<Complex<F>> = ediff1d_complex_to_begin_zero(analytic);
        let demod_b: Vec<F> = unwrap_hilbert(diffed.as_slice(), freq, spec.ire0);
        replace_spikes(
            &mut demod,
            demod_b.as_slice(),
            narrowed(check),
            SPIKE_BEFORE,
            SPIKE_AFTER,
        );
    }
    demod
}

/// The demodulated signal equalized and trapped, as far as is wanted.
fn equalize<F: SosFloat + Single, X: Transforms<F>, B: BlockTools<F>>(
    demod: Vec<F>,
    spec: &BlockSpec<F>,
    transforms: &X,
    tools: &B,
) -> (output: Vec<F>)
    requires
        functional_sos::<F>(),
        functional_single::<F>(),
        functional_transforms::<F, X>(*transforms, spec.blocksize as nat),
        functional_tools::<F, B>(*tools),
        spec.blocksize >= 2,
        spec.demodulates(),
        demod.len() == spec.blocksize,
    ensures
        output@ == equalized(demod@, *spec, *transforms, *tools),
        output.len() == spec.blocksize,
{
    proof {
        lemma_functional_sos::<F>();
    }
    let sharp: Vec<F> = match &spec.eq_gain {
        Some(gains) => {
            let mut spectrum: Vec<Complex<F>> = rfft_owned_f32(demod, transforms);
            multiply_spectrum_real(&mut spectrum, gains.as_slice());
            irfft_owned_f32(spectrum, None, transforms)
        },
        None => demod,
    };
    if spec.chroma_trap {
        run_trap(tools, sharp.as_slice())
    } else {
        sharp
    }
}

/// The video of a block from the spectrum of the demodulated signal.
fn filter_video<F: SosFloat + Single, X: Transforms<F>, D: DynamicFilter<F>>(
    demod_fft: &[Complex<F>],
    spec: &BlockSpec<F>,
    transforms: &X,
    runtime: &FilterRuntime<D>,
) -> (result: Result<Vec<F>, BlockError>)
    requires
        functional_sos::<F>(),
        functional_single::<F>(),
        functional_dynamic::<F, D>(runtime.dynamic),
        functional_transforms::<F, X>(*transforms, spec.blocksize as nat),
        spec.blocksize >= 2,
        spec.demodulates(),
        demod_fft.len() == spec.bins(),
    ensures
        match result {
            Ok(video) => {
                &&& video_of(demod_fft@, *spec, *transforms, *runtime) == Ok::<
                    Seq<F>,
                    BlockError,
                >(video@)
                &&& video.len() == spec.blocksize
                &&& spec.yields_video()
            },
            Err(error) => video_of(demod_fft@, *spec, *transforms, *runtime) == Err::<
                Seq<F>,
                BlockError,
            >(error),
        },
{
    proof {
        lemma_functional_sos::<F>();
    }
    let video_fft: Vec<Complex<F>> = spectrum_times_filter(
        demod_fft,
        spec.video_filter.as_slice(),
    );
    let mut video: Vec<F> = irfft_f32(video_fft.as_slice(), None, transforms);
    if spec.nldeemp_enabled {
        let high_pass: &Vec<Complex<F>> = match &spec.nl_high_pass {
            Some(high_pass) => high_pass,
            None => return Err(BlockError::HighPass),
        };
        let high_spectrum: Vec<Complex<F>> = spectrum_times_filter(
            video_fft.as_slice(),
            high_pass.as_slice(),
        );
        let high: Vec<F> = irfft_owned_f32(high_spectrum, None, transforms);
        let ghost plain = video@;
        let ghost wanted = less_clamped(
            plain,
            high@,
            spec.highpass_limit_l,
            spec.highpass_limit_h,
        );
        let mut index: usize = 0;
        while index < video.len()
            invariant
                functional::<F>(),
                index <= video.len(),
                video.len() == plain.len(),
                high.len() == plain.len(),
                wanted == less_clamped(
                    plain,
                    high@,
                    spec.highpass_limit_l,
                    spec.highpass_limit_h,
                ),
                forall|k: int| 0 <= k < index ==> video[k] == wanted[k],
                forall|k: int| index <= k < plain.len() ==> video[k] == plain[k],
            decreases video.len() - index,
        {
            let kept: F = clamped(
                high[index],
                spec.highpass_limit_l,
                spec.highpass_limit_h,
            );
            let sample: F = minus(video[index], kept);
            video[index] = sample;
            index = index + 1;
        }
        proof {
            assert(video@ =~= wanted);
        }
    }
    if spec.subdeemp_enabled {
        let high_pass: Option<&Vec<Complex<F>>> = match &spec.nl_high_pass {
            Some(high_pass) => Some(high_pass),
            None => None,
        };
        proof {
            assert(high_pass_view(high_pass) == high_pass_of(*spec));
        }
        video = match sub_deemphasis(
            high_pass,
            &spec.subdeemp,
            video.as_slice(),
            video_fft.as_slice(),
            transforms,
            runtime,
        ) {
            Ok(video) => video,
            Err(error) => return Err(error),
        };
    }
    if let Some(sos) = &spec.fsc_notch {
        video = sosfiltfilt_f32(runtime, sos.as_slice(), video.as_slice());
    }
    Ok(video)
}

/// Appends samples to a channel.
fn append<F: Copy>(channel: &mut Vec<F>, samples: &[F])
    ensures
        final(channel)@ == old(channel)@ + samples@,
{
    let ghost before = channel@;
    let mut index: usize = 0;
    while index < samples.len()
        invariant
            index <= samples.len(),
            channel@ == before + samples@.take(index as int),
        decreases samples.len() - index,
    {
        channel.push(samples[index]);
        index = index + 1;
        proof {
            assert(channel@ =~= before + samples@.take(index as int));
        }
    }
    proof {
        assert(samples@.take(index as int) =~= samples@);
    }
}

/// Appends samples to a channel, each raised by `offset`.
fn append_raised<F: Sample>(channel: &mut Vec<F>, samples: &[F], offset: F)
    requires
        functional::<F>(),
    ensures
        final(channel)@ == old(channel)@ + raised_by(samples@, offset),
{
    let ghost before = channel@;
    let ghost raised = raised_by(samples@, offset);
    let mut index: usize = 0;
    proof {
        assert(channel@ =~= before + raised.take(0));
    }
    while index < samples.len()
        invariant
            functional::<F>(),
            index <= samples.len(),
            raised == raised_by(samples@, offset),
            channel@ == before + raised.take(index as int),
        decreases samples.len() - index,
    {
        channel.push(plus(samples[index], offset));
        index = index + 1;
        proof {
            assert(channel@ =~= before + raised.take(index as int));
        }
    }
    proof {
        assert(raised.take(index as int) =~= raised);
    }
}

/// Appends the burst channel of a block.
fn append_burst<F: SosFloat + Single, X: Transforms<F>, B: BlockTools<F>>(
    channel: &mut Vec<F>,
    rawdata: &[F],
    video: &[F],
    spec: &BlockSpec<F>,
    transforms: &X,
    tools: &B,
)
    requires
        functional_sos::<F>(),
        functional_single::<F>(),
        functional_transforms::<F, X>(*transforms, spec.blocksize as nat),
        functional_tools::<F, B>(*tools),
        spec.blocksize >= 2,
        spec.blocksize % 2 == 0,
        spec.writes_channels(),
        rawdata.len() >= spec.blocksize,
        video.len() == spec.blocksize,
    ensures
        final(channel)@ == old(channel)@ + cut(
            burst_of(rawdata@, video@, *spec, *transforms, *tools),
            spec.blockcut as int,
            spec.blockcut_end as int,
        ),
        final(channel).len() == old(channel).len() - spec.blockcut - spec.blockcut_end + if
            spec.chroma_afc {
            rawdata.len()
        } else {
            spec.blocksize
        },
{
    proof {
        lemma_functional_sos::<F>();
    }
    if spec.chroma_afc {
        append(channel, slice_vec(rawdata, spec.blockcut, spec.blockcut_end));
        return;
    }
    let block: &[F] = vstd::slice::slice_subrange(rawdata, 0, spec.blocksize);
    proof {
        assert(block@ =~= rawdata@.take(spec.blocksize as int));
    }
    let source: &[F] = if spec.color_system != ColorSystem::Monochrome {
        block
    } else {
        video
    };
    let mut spectrum: Vec<Complex<F>> = rfft_f32(source, transforms);
    multiply_spectrum_real(&mut spectrum, spec.burst_gain.as_slice());
    let filtered: Vec<F> = irfft_owned_f32(spectrum, None, transforms);
    let chroma: Vec<F> = run_shift(tools, filtered.as_slice());
    append(channel, slice_vec(chroma.as_slice(), spec.blockcut, spec.blockcut_end));
}

/// How a block fared: whether its signal was too weak to boost, and whether it
/// was decoded.
pub struct BlockOutcome {
    pub weak_signal: bool,
    pub result: Result<(), BlockError>,
}

/// The upper band of a block is to be boosted.
pub open spec fn wants_boost<F: SosFloat>(envelope: Seq<F>, spec: BlockSpec<F>) -> bool {
    is_strong(envelope) && spec.high_boost is Some
}

/// The settings that a block reads go together, stage by stage, as far as it
/// gets.
pub open spec fn block_ready<
    F: SosFloat + Single,
    X: Transforms<F>,
    D: DynamicFilter<F>,
    B: BlockTools<F>,
>(
    rawdata: Seq<F>,
    spec: BlockSpec<F>,
    transforms: X,
    runtime: FilterRuntime<D>,
    tools: B,
) -> bool {
    let boosts = wants_boost(
        block_envelope(rawdata, spec, transforms, runtime, tools),
        spec,
    );
    rawdata.len() >= spec.blocksize ==> {
        &&& spec.conditions_rf()
        &&& boosts && spec.rf_top_gain is Some ==> spec.boosts_high()
        &&& !boosts || spec.rf_top_gain is Some ==> spec.demodulates()
    }
}

/// What a decoded block did: the channels hold what they held and what the block
/// adds, or an error left them alone.
pub open spec fn block_done<F>(
    decoded: Result<BlockOutput<F>, BlockError>,
    before: VideoChannels<F>,
    after: VideoChannels<F>,
    result: Result<(), BlockError>,
) -> bool {
    match decoded {
        Ok(added) => {
            &&& result is Ok
            &&& after.demod@ == before.demod@ + added.demod
            &&& after.demod_05@ == before.demod_05@ + added.demod_05
            &&& after.demod_burst@ == before.demod_burst@ + added.demod_burst
            &&& after.envelope@ == before.envelope@ + added.envelope
        },
        Err(error) => {
            &&& result == Err::<(), BlockError>(error)
            &&& after == before
        },
    }
}

/// The channels have grown by what lies between the cuts of a block; the burst
/// channel takes in all of the RF where the carrier is followed.
pub open spec fn channels_grown<F: SosFloat>(
    rawdata: Seq<F>,
    spec: BlockSpec<F>,
    before: VideoChannels<F>,
    after: VideoChannels<F>,
) -> bool {
    let kept = spec.blocksize - spec.blockcut - spec.blockcut_end;
    &&& after.demod.len() == before.demod.len() + kept
    &&& after.demod_05.len() == before.demod_05.len() + kept
    &&& after.envelope.len() == before.envelope.len() + kept
    &&& after.demod_burst.len() == before.demod_burst.len() + if spec.chroma_afc {
        rawdata.len() - spec.blockcut - spec.blockcut_end
    } else {
        kept
    }
}

/// Decodes one block of RF, if the settings that it reads go together; otherwise
/// answers `None` and leaves the channels alone.
pub fn try_video_block<
    F: SosFloat + Single,
    X: Transforms<F>,
    D: DynamicFilter<F>,
    B: BlockTools<F>,
>(
    rawdata: &[F],
    spec: &BlockSpec<F>,
    transforms: &X,
    runtime: &FilterRuntime<D>,
    tools: &B,
    out: &mut VideoChannels<F>,
) -> (tried: Option<BlockOutcome>)
    requires
        functional_sos::<F>(),
        functional_single::<F>(),
        functional_dynamic::<F, D>(runtime.dynamic),
        functional_tools::<F, B>(*tools),
        rawdata.len() >= spec.blocksize ==> functional_transforms::<F, X>(
            *transforms,
            spec.blocksize as nat,
        ),
    ensures
        tried is Some <==> block_ready(rawdata@, *spec, *transforms, *runtime, *tools),
        match tried {
            Some(outcome) => {
                &&& outcome.weak_signal <==> rawdata.len() >= spec.blocksize && !is_strong(
                    block_envelope(rawdata@, *spec, *transforms, *runtime, *tools),
                )
                &&& block_done(
                    block_decoded(rawdata@, *spec, *transforms, *runtime, *tools),
                    *old(out),
                    *final(out),
                    outcome.result,
                )
                &&& outcome.result is Ok ==> channels_grown(
                    rawdata@,
                    *spec,
                    *old(out),
                    *final(out),
                )
            },
            None => *final(out) == *old(out),
        },
{
    proof {
        lemma_functional_sos::<F>();
    }
    if rawdata.len() < spec.blocksize {
        return Some(
            BlockOutcome {
                weak_signal: false,
                result: Err(
                    BlockError::ShortInput { len: rawdata.len(), blocklen: spec.blocksize },
                ),
            },
        );
    }
    if !spec.can_condition_rf() {
        return None;
    }
    let half: Vec<Complex<F>> = condition_rf(rawdata, spec, transforms);
    let mut analytic: Vec<Complex<F>> = make_analytic(half.as_slice(), spec, transforms);
    let envelope: Vec<F> = measure_envelope(analytic.as_slice(), spec, runtime, tools);
    let weak_signal: bool = !measure_strength(envelope.as_slice());
    let ghost spectrum = half@;
    proof {
        assert(envelope@ == block_envelope(rawdata@, *spec, *transforms, *runtime, *tools));
    }
    if !weak_signal {
        if let Some(high_boost) = spec.high_boost {
            let rf_top: &Vec<F> = match &spec.rf_top_gain {
                Some(rf_top) => rf_top,
                None => return Some(
                    BlockOutcome { weak_signal, result: Err(BlockError::RfTop) },
                ),
            };
            if !spec.can_boost_high() {
                return None;
            }
            let raised: Vec<Complex<F>> = boost_high(
                half.as_slice(),
                envelope.as_slice(),
                rf_top.as_slice(),
                high_boost,
                transforms,
            );
            proof {
                spectrum = raised@;
            }
            analytic = make_analytic(raised.as_slice(), spec, transforms);
        }
    }
    proof {
        assert(demodulated_spectrum(half@, envelope@, *spec, *transforms) == Ok::<
            Seq<Complex<F>>,
            BlockError,
        >(spectrum));
        assert(analytic@ == analytic_block(spectrum, *spec, *transforms));
    }
    if !spec.can_demodulate() {
        return None;
    }
    let demod: Vec<F> = equalize(
        demodulate(analytic.as_slice(), spec),
        spec,
        transforms,
        tools,
    );
    let demod_fft: Vec<Complex<F>> = rfft_f32(demod.as_slice(), transforms);
    let video: Vec<F> = match filter_video(demod_fft.as_slice(), spec, transforms, runtime) {
        Ok(video) => video,
        Err(error) => return Some(BlockOutcome { weak_signal, result: Err(error) }),
    };
    let video05_fft: Vec<Complex<F>> = spectrum_times_filter(
        demod_fft.as_slice(),
        spec.video05_filter.as_slice(),
    );
    let low: Vec<F> = irfft_owned_f32(video05_fft, None, transforms);
    let video05: Vec<F> = run_roll(tools, low.as_slice(), -(spec.video05_offset as isize));
    append_burst(&mut out.demod_burst, rawdata, video.as_slice(), spec, transforms, tools);
    let luma: &[F] = if spec.export_raw_tbc {
        demod.as_slice()
    } else {
        video.as_slice()
    };
    append_raised(
        &mut out.demod,
        slice_vec(luma, spec.blockcut, spec.blockcut_end),
        spec.ire0,
    );
    append_raised(
        &mut out.demod_05,
        slice_vec(video05.as_slice(), spec.blockcut, spec.blockcut_end),
        spec.ire0,
    );
    append(
        &mut out.envelope,
        slice_vec(envelope.as_slice(), spec.blockcut, spec.blockcut_end),
    );
    Some(BlockOutcome { weak_signal, result: Ok(()) })
}

/// Decodes one block of RF, and appends what lies between its cuts to the
/// channels. A block that is not decoded adds nothing.
pub fn decode_video_block<
    F: SosFloat + Single,
    X: Transforms<F>,
    D: DynamicFilter<F>,
    B: BlockTools<F>,
>(
    rawdata: &[F],
    spec: &BlockSpec<F>,
    transforms: &X,
    runtime: &FilterRuntime<D>,
    tools: &B,
    out: &mut VideoChannels<F>,
) -> (outcome: BlockOutcome)
    requires
        functional_sos::<F>(),
        functional_single::<F>(),
        functional_dynamic::<F, D>(runtime.dynamic),
        functional_tools::<F, B>(*tools),
        rawdata.len() >= spec.blocksize ==> functional_transforms::<F, X>(
            *transforms,
            spec.blocksize as nat,
        ),
        block_ready(rawdata@, *spec, *transforms, *runtime, *tools),
    ensures
        outcome.weak_signal <==> rawdata.len() >= spec.blocksize && !is_strong(
            block_envelope(rawdata@, *spec, *transforms, *runtime, *tools),
        ),
        block_done(
            block_decoded(rawdata@, *spec, *transforms, *runtime, *tools),
            *old(out),
            *final(out),
            outcome.result,
        ),
        outcome.result is Ok ==> channels_grown(rawdata@, *spec, *old(out), *final(out)),
{
    try_video_block(rawdata, spec, transforms, runtime, tools, out).unwrap()
}

} // verus!
