//! SECAM chroma: demodulation of the FM subcarrier, and modulation of what it
//! carried as a PAL-like signal.
use vstd::prelude::*;

use crate::complex::Complex;
use crate::fast_math::serial_sum;
use crate::field::{ChromaError, ChromaField, ChromaSpec, LinePhase};
use crate::filter::{
    can_filter, filterable, filtered, functional_dynamic, sosfiltfilt_f32, DynamicFilter,
    FilterRuntime,
};

use crate::median::{all_numbers, are_numbers, median_filter, medians, window_end, window_start};
use crate::request::{SecamMode, SecamParams};
use crate::sample::{
    angle, below, double_count, double_rounded, from_bits, functional, functional_double,
    functional_single, functional_sos, lemma_functional_single, lemma_functional_sos, minus,
    narrowed, negated, one, over, plus, root, times, to_isize, zero, Double, Sample, Single,
    SosFloat,
};
use crate::secam_lines::{
    all_addressable, are_addressable, choose_phasing, cross_products, lines_wf, measure_lines,
    measured_lines, phasing_of, steps_of, Phasing, Porch, SecamLine,
};
use crate::sos::{forward_filtered, sosfilt_f32, Sos};
use crate::spectrum::{analytic_antibell, analytic_of};
use crate::transforms::{functional_transforms, Transforms};
use crate::unwrap_angles::TAU;

verus! {

/// Bit pattern of the amplitude below which there is nothing to limit, 1e-12.
pub const LIMIT_FLOOR: u32 = 0x2B8C_BCCC;

/// Bit pattern of the square root of one half.
pub const FRAC_1_SQRT_2: u32 = 0x3F35_04F3;

/// Samples put in front of a line while the de-emphasis settles.
pub const DEEMPHASIS_PAD: usize = 64;

/// The sample at unit amplitude, unless there is nothing to limit.
pub open spec fn limited<T: Single>(z: Complex<T>) -> Complex<T> {
    let magnitude = root(plus(times(z.re, z.re), times(z.im, z.im)));
    if below(from_bits(LIMIT_FLOOR), magnitude) {
        Complex { re: over(z.re, magnitude), im: over(z.im, magnitude) }
    } else {
        z
    }
}

/// Brings each sample to unit amplitude.
pub fn hard_limit<T: Single>(analytic: &mut Vec<Complex<T>>)
    requires
        functional_single::<T>(),
    ensures
        final(analytic)@ == old(analytic)@.map_values(|z: Complex<T>| limited(z)),
{
    proof {
        lemma_functional_single::<T>();
    }
    let ghost before = analytic@;
    let mut index: usize = 0;
    while index < analytic.len()
        invariant
            functional_single::<T>(),
            functional::<T>(),
            index <= analytic.len(),
            analytic.len() == before.len(),
            forall|k: int| 0 <= k < index ==> analytic[k] == limited(before[k]),
            forall|k: int| index <= k < before.len() ==> analytic[k] == before[k],
        decreases analytic.len() - index,
    {
        let z: Complex<T> = analytic[index];
        let magnitude: T = root(plus(times(z.re, z.re), times(z.im, z.im)));
        if below(from_bits(LIMIT_FLOOR), magnitude) {
            analytic[index] = Complex { re: over(z.re, magnitude), im: over(z.im, magnitude) };
        }
        index = index + 1;
    }
    proof {
        assert(analytic@ =~= before.map_values(|z: Complex<T>| limited(z)));
    }
}

/// The places on each line: of the porch, of the burst and of the picture, each
/// as its first sample and the one behind its last.
#[derive(Clone, Copy, Debug, PartialEq, Eq)]
pub struct LineWindows {
    pub porch: Porch,
    pub burst_lo: usize,
    pub burst_hi: usize,
    pub active_lo: usize,
    pub active_hi: usize,
}

/// `place`, or 0 if it is negative.
pub open spec fn not_before_zero(place: int) -> int {
    if place < 0 {
        0
    } else {
        place
    }
}

/// `place`, or `end` if it is beyond.
pub open spec fn not_beyond(place: int, end: int) -> int {
    if place > end {
        end
    } else {
        place
    }
}

/// The sample of the line at a time in microseconds.
pub open spec fn sample_at<W: Double>(us: W, outfreq: W, adjust: W) -> int {
    not_before_zero(to_isize(double_rounded(plus(times(us, outfreq), adjust))) as int)
}

/// The end of the porch: four samples before the end of the burst, unless the
/// burst starts later.
pub open spec fn porch_end(burst_area: (isize, isize)) -> int {
    if burst_area.1 - 4 < burst_area.0 {
        burst_area.0 as int
    } else {
        burst_area.1 - 4
    }
}

/// What [`secam_windows`] answers.
pub open spec fn windows_of<F: SosFloat>(spec: ChromaSpec<F>, outlinelen: usize) -> LineWindows where
    F::Wide: Double,
 {
    LineWindows {
        porch: Porch {
            lo: not_before_zero(spec.burst_area.0 + 8) as usize,
            hi: not_before_zero(porch_end(spec.burst_area)) as usize,
        },
        burst_lo: not_before_zero(spec.burst_area.0 as int) as usize,
        burst_hi: not_beyond(
            not_before_zero(spec.burst_area.1 as int),
            outlinelen as int,
        ) as usize,
        active_lo: sample_at(spec.active_video_us[0], spec.outfreq, spec.place_adjust) as usize,
        active_hi: not_beyond(
            sample_at(spec.active_video_us[1], spec.outfreq, spec.place_adjust),
            outlinelen as int,
        ) as usize,
    }
}

/// The sample of the line at a time in microseconds.
fn place_of<W: Double>(us: W, outfreq: W, adjust: W) -> (place: usize)
    requires
        functional_double::<W>(),
        functional::<W>(),
    ensures
        place == sample_at(us, outfreq, adjust),
        place <= isize::MAX,
{
    let place: isize = to_isize(double_rounded(plus(times(us, outfreq), adjust)));
    if place < 0 {
        0
    } else {
        place as usize
    }
}

/// The bounds of the burst can be moved by a few samples.
pub open spec fn burst_area_fits(burst_area: (isize, isize)) -> bool {
    &&& burst_area.0 + 8 <= isize::MAX
    &&& isize::MIN <= burst_area.1 - 4
}

/// The porch ends on the line, or before the field on every line of the sequence:
/// no line then has a porch.
pub open spec fn porch_fits<W>(
    burst_area: (isize, isize),
    field: ChromaField<W>,
    sequence: Seq<LinePhase>,
) -> bool {
    0 <= porch_end(burst_area) || forall|k: int|
        0 <= k < sequence.len() ==> field.start_of((#[trigger] sequence[k]).linenumber as int)
            + porch_end(burst_area) < 0
}

/// The places on each line.
pub fn secam_windows<F: SosFloat>(spec: &ChromaSpec<F>, outlinelen: usize) -> (windows:
    LineWindows) where F::Wide: Double
    requires
        functional_sos::<F>(),
        functional_double::<F::Wide>(),
        burst_area_fits(spec.burst_area),
    ensures
        windows == windows_of(*spec, outlinelen),
        windows.porch.hi <= isize::MAX,
        windows.burst_hi <= outlinelen,
        windows.active_hi <= outlinelen,
{
    proof {
        lemma_functional_sos::<F>();
    }
    let (bstart, bend): (isize, isize) = spec.burst_area;
    let porch_lo: usize = if bstart + 8 < 0 {
        0
    } else {
        (bstart + 8) as usize
    };
    let porch_stop: isize = if bend - 4 < bstart {
        bstart
    } else {
        bend - 4
    };
    let porch_hi: usize = if porch_stop < 0 {
        0
    } else {
        porch_stop as usize
    };
    let burst_lo: usize = if bstart < 0 {
        0
    } else {
        bstart as usize
    };
    let burst_end: usize = if bend < 0 {
        0
    } else {
        bend as usize
    };
    let active_lo: usize = place_of(spec.active_video_us[0], spec.outfreq, spec.place_adjust);
    let active_end: usize = place_of(spec.active_video_us[1], spec.outfreq, spec.place_adjust);
    LineWindows {
        porch: Porch { lo: porch_lo, hi: porch_hi },
        burst_lo,
        burst_hi: if burst_end > outlinelen {
            outlinelen
        } else {
            burst_end
        },
        active_lo,
        active_hi: if active_end > outlinelen {
            outlinelen
        } else {
            active_end
        },
    }
}

/// Hertz for each radian of advance between samples.
pub open spec fn hertz_per_radian<F: SosFloat + Single>(outfreq: F::Wide) -> F where
    F::Wide: Double,
 {
    over(narrowed::<F>(times(outfreq, double_count(1_000_000))), from_bits(TAU))
}

/// The real parts of the steps summed up to place `k`, and the imaginary parts.
pub open spec fn sum_before<T: Sample>(steps: Seq<Complex<T>>, k: int) -> Complex<T> {
    Complex {
        re: serial_sum(steps.take(k).map_values(|z: Complex<T>| z.re)),
        im: serial_sum(steps.take(k).map_values(|z: Complex<T>| z.im)),
    }
}

/// The frequency at each place: the angle of the steps summed over the window
/// around it. The sum weighs each step by its power.
pub open spec fn discriminated<T: Single>(steps: Seq<Complex<T>>, half: int, scale: T) -> Seq<T> {
    Seq::new(
        steps.len(),
        |k: int|
            {
                let lo = sum_before(steps, window_start(k, half));
                let hi = sum_before(steps, window_end(k, half, steps.len() as int));
                times(angle(minus(hi.im, lo.im), minus(hi.re, lo.re)), scale)
            },
    )
}

/// The frequency at each place, by the power-weighted steps around it.
pub fn discriminate<T: Single>(steps: &[Complex<T>], disc_win: usize, scale: T) -> (freq: Vec<T>)
    requires
        functional_single::<T>(),
        steps.len() + disc_win / 2 <= usize::MAX,
        steps.len() < usize::MAX,
    ensures
        freq@ == discriminated(steps@, disc_win as int / 2, scale),
{
    proof {
        lemma_functional_single::<T>();
    }
    let n: usize = steps.len();
    let half: usize = disc_win / 2;
    let mut pre: Vec<Complex<T>> = Vec::new();
    pre.push(Complex { re: zero(), im: zero() });
    proof {
        assert(steps@.take(0).map_values(|z: Complex<T>| z.re) =~= Seq::<T>::empty());
        assert(steps@.take(0).map_values(|z: Complex<T>| z.im) =~= Seq::<T>::empty());
    }
    while pre.len() <= n
        invariant
            functional::<T>(),
            n == steps.len(),
            n < usize::MAX,
            1 <= pre.len() <= n + 1,
            forall|k: int| 0 <= k < pre.len() ==> #[trigger] pre[k] == sum_before(steps@, k),
        decreases n + 1 - pre.len(),
    {
        let k: usize = pre.len() - 1;
        proof {
            let re = |z: Complex<T>| z.re;
            let im = |z: Complex<T>| z.im;
            assert(steps@.take(k + 1).map_values(re).drop_last() =~= steps@.take(
                k as int,
            ).map_values(re));
            assert(steps@.take(k + 1).map_values(im).drop_last() =~= steps@.take(
                k as int,
            ).map_values(im));
        }
        let before: Complex<T> = pre[k];
        let step: Complex<T> = steps[k];
        pre.push(Complex { re: plus(before.re, step.re), im: plus(before.im, step.im) });
    }
    let mut freq: Vec<T> = Vec::new();
    while freq.len() < n
        invariant
            functional_single::<T>(),
            functional::<T>(),
            n == steps.len(),
            n + half <= usize::MAX,
            pre.len() == n + 1,
            freq.len() <= n,
            forall|k: int| 0 <= k < pre.len() ==> #[trigger] pre[k] == sum_before(steps@, k),
            forall|k: int|
                0 <= k < freq.len() ==> freq[k] == discriminated(steps@, half as int, scale)[k],
        decreases n - freq.len(),
    {
        let k: usize = freq.len();
        let lo: usize = k.saturating_sub(half);
        let hi: usize = if k + half + 1 <= n {
            k + half + 1
        } else {
            n
        };
        let before: Complex<T> = pre[lo];
        let until: Complex<T> = pre[hi];
        freq.push(
            times(angle(minus(until.im, before.im), minus(until.re, before.re)), scale),
        );
    }
    proof {
        assert(freq@ =~= discriminated(steps@, half as int, scale));
    }
    freq
}

/// What [`deemphasis_lf`] answers.
pub open spec fn deemphasized<F: Sample>(sos: Seq<Sos<F>>, baseband: Seq<F>) -> Seq<F> {
    if baseband.len() == 0 {
        Seq::empty()
    } else {
        let padded = Seq::new(DEEMPHASIS_PAD as nat, |k: int| baseband[0]) + baseband;
        forward_filtered(sos, padded).skip(DEEMPHASIS_PAD as int)
    }
}

/// Runs the LF de-emphasis over one recovered line, forward only. The first
/// sample is repeated in front while the filter settles.
pub fn deemphasis_lf<F: Sample>(sos: &[Sos<F>], baseband: &[F]) -> (output: Vec<F>)
    requires
        functional::<F>(),
        baseband.len() + DEEMPHASIS_PAD <= usize::MAX,
    ensures
        output@ == deemphasized(sos@, baseband@),
        output.len() == baseband.len(),
{
    if baseband.len() == 0 {
        return Vec::new();
    }
    let first: F = baseband[0];
    let mut padded: Vec<F> = Vec::new();
    while padded.len() < DEEMPHASIS_PAD
        invariant
            padded.len() <= DEEMPHASIS_PAD,
            forall|k: int| 0 <= k < padded.len() ==> padded[k] == first,
        decreases DEEMPHASIS_PAD - padded.len(),
    {
        padded.push(first);
    }
    let ghost wanted = Seq::new(DEEMPHASIS_PAD as nat, |k: int| baseband@[0]) + baseband@;
    let mut index: usize = 0;
    while index < baseband.len()
        invariant
            index <= baseband.len(),
            padded.len() == DEEMPHASIS_PAD + index,
            wanted.len() == DEEMPHASIS_PAD + baseband.len(),
            forall|k: int| DEEMPHASIS_PAD <= k < wanted.len() ==> wanted[k] == baseband@[k
                - DEEMPHASIS_PAD],
            forall|k: int| 0 <= k < padded.len() ==> padded[k] == wanted[k],
        decreases baseband.len() - index,
    {
        padded.push(baseband[index]);
        index = index + 1;
    }
    proof {
        assert(padded@ =~= wanted);
    }
    let filtered: Vec<F> = sosfilt_f32(sos, padded.as_slice());
    vstd::slice::slice_to_vec(
        vstd::slice::slice_subrange(filtered.as_slice(), DEEMPHASIS_PAD, filtered.len()),
    )
}

/// What the deviation of a line from its rest frequency stands for: R-Y lines
/// go down with rising signal, B-Y lines up.
pub open spec fn spec_descaled<F: SosFloat>(
    frequency: F,
    rest: F,
    is_ry: bool,
    params: SecamParams<F>,
) -> F {
    let dev = minus(frequency, rest);
    if is_ry {
        over(negated(dev), narrowed::<F>(params.sens_ry_hz))
    } else {
        over(dev, narrowed::<F>(params.sens_by_hz))
    }
}

/// The colour difference that a line carries, from its steps: discriminated,
/// freed of clicks, descaled, de-emphasized and band-limited.
pub open spec fn colour_of<F: SosFloat + Single, D: DynamicFilter<F>>(
    steps: Seq<Complex<F>>,
    rest: F,
    is_ry: bool,
    scale: F,
    params: SecamParams<F>,
    spec: ChromaSpec<F>,
    runtime: FilterRuntime<D>,
) -> Seq<F> {
    let frequency = medians(
        discriminated(steps, spec.secam_disc_window as int / 2, scale),
        spec.secam_median_window as int,
    );
    let baseband = frequency.map_values(|f: F| spec_descaled(f, rest, is_ry, params));
    let deemphasized = match spec.secam_lf_deemphasis {
        Some(sos) => deemphasized(sos@, baseband),
        None => baseband,
    };
    match spec.secam_baseband_lpf {
        Some(sos) => filtered(runtime, sos@, deemphasized),
        None => deemphasized,
    }
}

/// The line can be demodulated: its windows fit the machine, its frequencies
/// can be put in order, and it is long enough for its filters.
pub open spec fn demodulates<F: SosFloat + Single>(
    steps: Seq<Complex<F>>,
    scale: F,
    spec: ChromaSpec<F>,
) -> bool {
    &&& steps.len() + spec.secam_disc_window / 2 <= usize::MAX
    &&& steps.len() + spec.secam_median_window / 2 <= usize::MAX
    &&& steps.len() + DEEMPHASIS_PAD <= usize::MAX
    &&& spec.secam_median_window <= 1 || steps.len() < 2 || all_numbers(
        discriminated(steps, spec.secam_disc_window as int / 2, scale),
    )
    &&& spec.secam_baseband_lpf is Some ==> filterable(
        spec.secam_baseband_lpf->0@,
        steps.len(),
    )
}

/// Recovers the colour difference that a line carries, if it can be demodulated.
pub fn recover_colour<F: SosFloat + Single, D: DynamicFilter<F>>(
    steps: &[Complex<F>],
    rest: F,
    is_ry: bool,
    scale: F,
    params: &SecamParams<F>,
    spec: &ChromaSpec<F>,
    runtime: &FilterRuntime<D>,
) -> (recovered: Option<Vec<F>>)
    requires
        functional_sos::<F>(),
        functional_single::<F>(),
        functional_dynamic::<F, D>(runtime.dynamic),
    ensures
        match recovered {
            Some(colour) => {
                &&& demodulates(steps@, scale, *spec)
                &&& colour@ == colour_of(steps@, rest, is_ry, scale, *params, *spec, *runtime)
                &&& colour.len() == steps.len()
            },
            None => !demodulates(steps@, scale, *spec),
        },
{
    proof {
        lemma_functional_sos::<F>();
    }
    let room: usize = usize::MAX - steps.len();
    if spec.secam_disc_window / 2 > room || spec.secam_median_window / 2 > room || DEEMPHASIS_PAD
        > room {
        return None;
    }
    let freq: Vec<F> = discriminate(steps, spec.secam_disc_window, scale);
    if spec.secam_median_window > 1 && steps.len() >= 2 && !are_numbers(freq.as_slice()) {
        return None;
    }
    let freq_med: Vec<F> = median_filter(freq.as_slice(), spec.secam_median_window);
    let sens: F = if is_ry {
        narrowed(params.sens_ry_hz)
    } else {
        narrowed(params.sens_by_hz)
    };
    let mut baseband: Vec<F> = Vec::new();
    while baseband.len() < freq_med.len()
        invariant
            functional::<F>(),
            baseband.len() <= freq_med.len(),
            is_ry ==> sens == narrowed::<F>(params.sens_ry_hz),
            !is_ry ==> sens == narrowed::<F>(params.sens_by_hz),
            forall|k: int|
                0 <= k < baseband.len() ==> baseband[k] == spec_descaled(
                    freq_med[k],
                    rest,
                    is_ry,
                    *params,
                ),
        decreases freq_med.len() - baseband.len(),
    {
        let dev: F = minus(freq_med[baseband.len()], rest);
        baseband.push(
            if is_ry {
                over(negated(dev), sens)
            } else {
                over(dev, sens)
            },
        );
    }
    proof {
        assert(baseband@ =~= freq_med@.map_values(
            |f: F| spec_descaled(f, rest, is_ry, *params),
        ));
    }
    let deemphasized: Vec<F> = match &spec.secam_lf_deemphasis {
        Some(sos) => deemphasis_lf(sos.as_slice(), baseband.as_slice()),
        None => baseband,
    };
    match &spec.secam_baseband_lpf {
        Some(sos) => if can_filter(sos.as_slice(), deemphasized.len()) {
            Some(sosfiltfilt_f32(runtime, sos.as_slice(), deemphasized.as_slice()))
        } else {
            None
        },
        None => Some(deemphasized),
    }
}

/// The polarity of the PAL line switch on a line.
pub open spec fn spec_switch<F: Sample>(is_ry: bool) -> F {
    if is_ry {
        one()
    } else {
        negated(one())
    }
}

/// The polarity of the PAL line switch on a line.
#[verifier::when_used_as_spec(spec_switch)]
pub fn switch<F: Sample>(is_ry: bool) -> (g: F)
    requires
        functional::<F>(),
    ensures
        g == spec_switch::<F>(is_ry),
{
    if is_ry {
        one()
    } else {
        negated(one())
    }
}

/// A colour difference on the subcarrier: V on the sine, switched from line to
/// line, U on the cosine. In raw mode it stays as it is.
pub open spec fn spec_modulated<F: SosFloat>(
    colour: F,
    is_ry: bool,
    params: &SecamParams<F>,
    wave: (F, F),
) -> F {
    if is_ry {
        times(times(times(negated(switch(is_ry)), params.compress_v), colour), wave.0)
    } else {
        times(times(params.compress_u, colour), wave.1)
    }
}

/// A colour difference on the subcarrier.
#[verifier::when_used_as_spec(spec_modulated)]
pub fn modulated<F: SosFloat>(
    colour: F,
    is_ry: bool,
    params: &SecamParams<F>,
    wave: (F, F),
) -> (sample: F)
    requires
        functional::<F>(),
    ensures
        sample == spec_modulated(colour, is_ry, params, wave),
{
    if is_ry {
        times(times(times(negated(switch(is_ry)), params.compress_v), colour), wave.0)
    } else {
        times(times(params.compress_u, colour), wave.1)
    }
}

/// A sample of the synthesized burst, which swings with the line switch.
pub open spec fn spec_burst_sample<F: SosFloat + Single>(
    is_ry: bool,
    params: &SecamParams<F>,
    wave: (F, F),
) -> F {
    times(
        times(from_bits(FRAC_1_SQRT_2), params.burst_amplitude),
        minus(negated(wave.1), times(switch(is_ry), wave.0)),
    )
}

/// A sample of the synthesized burst.
#[verifier::when_used_as_spec(spec_burst_sample)]
pub fn burst_sample<F: SosFloat + Single>(
    is_ry: bool,
    params: &SecamParams<F>,
    wave: (F, F),
) -> (sample: F)
    requires
        functional::<F>(),
        functional_single::<F>(),
    ensures
        sample == spec_burst_sample(is_ry, params, wave),
{
    times(
        times(from_bits(FRAC_1_SQRT_2), params.burst_amplitude),
        minus(negated(wave.1), times(switch(is_ry), wave.0)),
    )
}

/// Raw colour differences are wanted.
pub open spec fn is_raw<F: SosFloat>(spec: ChromaSpec<F>) -> bool {
    spec.secam_mode == Some(SecamMode::RawDemod)
}

/// There is a picture on the line that starts at `base`, and it lies in a field
/// of `len` samples.
pub open spec fn shows_picture(base: int, windows: LineWindows, len: nat) -> bool {
    windows.active_lo < windows.active_hi && base + windows.active_hi <= len
}

/// Place `i` lies on the picture of the line that starts at `base`.
pub open spec fn in_picture(i: int, base: int, windows: LineWindows, len: nat) -> bool {
    shows_picture(base, windows, len) && base + windows.active_lo <= i < base + windows.active_hi
}

/// Place `i` lies on the burst of the line that starts at `base`.
pub open spec fn in_burst(i: int, base: int, windows: LineWindows, len: nat) -> bool {
    base + windows.burst_hi <= len && base + windows.burst_lo <= i < base + windows.burst_hi
}

/// The steps of the picture on the line that starts at `base`.
pub open spec fn picture_steps<T>(
    steps: Seq<Complex<T>>,
    base: int,
    windows: LineWindows,
) -> Seq<Complex<T>> {
    steps.subrange(base + windows.active_lo, base + windows.active_hi)
}

/// The field with one line written: its picture, and over it its burst.
pub open spec fn painted<F: SosFloat + Single>(
    samples: Seq<F>,
    base: int,
    is_ry: bool,
    colour: Seq<F>,
    windows: LineWindows,
    params: SecamParams<F>,
    spec: ChromaSpec<F>,
) -> Seq<F> {
    Seq::new(
        samples.len(),
        |i: int|
            if in_burst(i, base, windows, samples.len()) {
                burst_sample(is_ry, &params, spec.fsc_wave[i])
            } else if in_picture(i, base, windows, samples.len()) {
                let sample = colour[i - base - windows.active_lo];
                if is_raw(spec) {
                    sample
                } else {
                    modulated(sample, is_ry, &params, spec.fsc_wave[i])
                }
            } else {
                samples[i]
            },
    )
}

/// The colour difference of a line. The lines that rest high carry R-Y.
pub open spec fn line_colour<F: SosFloat + Single, D: DynamicFilter<F>>(
    steps: Seq<Complex<F>>,
    line: SecamLine<F>,
    phasing: Phasing<F>,
    outlinelen: nat,
    windows: LineWindows,
    scale: F,
    params: SecamParams<F>,
    spec: ChromaSpec<F>,
    runtime: FilterRuntime<D>,
) -> Seq<F> {
    let is_ry = phasing.is_high(line, outlinelen);
    let rest = if is_ry {
        phasing.high
    } else {
        phasing.low
    };
    colour_of(
        picture_steps(steps, line.linestart as int, windows),
        rest,
        is_ry,
        scale,
        params,
        spec,
        runtime,
    )
}

/// A silent field with the lines written one after the other.
pub open spec fn painted_lines<F: SosFloat + Single, D: DynamicFilter<F>>(
    steps: Seq<Complex<F>>,
    lines: Seq<SecamLine<F>>,
    phasing: Phasing<F>,
    outlinelen: nat,
    windows: LineWindows,
    scale: F,
    params: SecamParams<F>,
    spec: ChromaSpec<F>,
    runtime: FilterRuntime<D>,
) -> Seq<F>
    decreases lines.len(),
{
    if lines.len() == 0 {
        Seq::new(steps.len(), |i: int| zero())
    } else {
        let before = painted_lines(
            steps,
            lines.drop_last(),
            phasing,
            outlinelen,
            windows,
            scale,
            params,
            spec,
            runtime,
        );
        let line = lines.last();
        painted(
            before,
            line.linestart as int,
            phasing.is_high(line, outlinelen),
            line_colour(
                steps,
                line,
                phasing,
                outlinelen,
                windows,
                scale,
                params,
                spec,
                runtime,
            ),
            windows,
            params,
            spec,
        )
    }
}

/// The line can be demodulated and written: the subcarrier is known wherever it
/// is needed.
pub open spec fn line_ready<F: SosFloat + Single>(
    steps: Seq<Complex<F>>,
    base: int,
    windows: LineWindows,
    scale: F,
    spec: ChromaSpec<F>,
) -> bool {
    &&& shows_picture(base, windows, steps.len()) ==> {
        &&& demodulates(picture_steps(steps, base, windows), scale, spec)
        &&& is_raw(spec) || base + windows.active_hi <= spec.fsc_wave.len()
    }
    &&& windows.burst_lo < windows.burst_hi && base + windows.burst_hi <= steps.len() ==> base
        + windows.burst_hi <= spec.fsc_wave.len()
}

/// Writes one line: its picture, and over it its burst.
pub fn paint_line<F: SosFloat + Single>(
    samples: &mut Vec<F>,
    base: usize,
    is_ry: bool,
    colour: &[F],
    windows: LineWindows,
    params: &SecamParams<F>,
    spec: &ChromaSpec<F>,
)
    requires
        functional::<F>(),
        functional_single::<F>(),
        base + windows.active_hi <= usize::MAX,
        base + windows.burst_hi <= usize::MAX,
        shows_picture(base as int, windows, old(samples)@.len()) ==> {
            &&& colour.len() == windows.active_hi - windows.active_lo
            &&& is_raw(*spec) || base + windows.active_hi <= spec.fsc_wave.len()
        },
        windows.burst_lo < windows.burst_hi && base + windows.burst_hi <= old(samples).len()
            ==> base + windows.burst_hi <= spec.fsc_wave.len(),
    ensures
        final(samples)@ == painted(
            old(samples)@,
            base as int,
            is_ry,
            colour@,
            windows,
            *params,
            *spec,
        ),
        final(samples).len() == old(samples).len(),
{
    let ghost before = samples@;
    let ghost wanted = painted(
        before,
        base as int,
        is_ry,
        colour@,
        windows,
        *params,
        *spec,
    );
    let raw: bool = match spec.secam_mode {
        Some(SecamMode::RawDemod) => true,
        _ => false,
    };
    if windows.active_lo < windows.active_hi && base + windows.active_hi <= samples.len() {
        let mut col: usize = windows.active_lo;
        while col < windows.active_hi
            invariant
                functional::<F>(),
                functional_single::<F>(),
                raw == is_raw(*spec),
                windows.active_lo <= col <= windows.active_hi,
                base + windows.active_hi <= samples.len(),
                samples.len() == before.len(),
                colour.len() == windows.active_hi - windows.active_lo,
                raw || base + windows.active_hi <= spec.fsc_wave.len(),
                wanted == painted(
                    before,
                    base as int,
                    is_ry,
                    colour@,
                    windows,
                    *params,
                    *spec,
                ),
                shows_picture(base as int, windows, before.len()),
                forall|i: int|
                    base + windows.active_lo <= i < base + col && !in_burst(
                        i,
                        base as int,
                        windows,
                        before.len(),
                    ) ==> samples[i] == wanted[i],
                forall|i: int|
                    0 <= i < before.len() && !(base + windows.active_lo <= i < base + col)
                        ==> samples[i] == before[i],
            decreases windows.active_hi - col,
        {
            let i: usize = base + col;
            let sample: F = colour[col - windows.active_lo];
            let output: F = if raw {
                sample
            } else {
                modulated(sample, is_ry, params, spec.fsc_wave[i])
            };
            samples[i] = output;
            col = col + 1;
        }
    }
    let ghost between = samples@;
    if base + windows.burst_hi <= samples.len() {
        let mut col: usize = windows.burst_lo;
        while col < windows.burst_hi
            invariant
                functional::<F>(),
                functional_single::<F>(),
                windows.burst_lo <= col,
                col <= windows.burst_hi || col == windows.burst_lo,
                base + windows.burst_hi <= samples.len(),
                samples.len() == before.len(),
                windows.burst_lo < windows.burst_hi ==> base + windows.burst_hi
                    <= spec.fsc_wave.len(),
                wanted == painted(
                    before,
                    base as int,
                    is_ry,
                    colour@,
                    windows,
                    *params,
                    *spec,
                ),
                between.len() == before.len(),
                forall|i: int|
                    base + windows.burst_lo <= i < base + col ==> samples[i] == wanted[i],
                forall|i: int|
                    0 <= i < before.len() && !(base + windows.burst_lo <= i < base + col)
                        ==> samples[i] == between[i],
            decreases windows.burst_hi - col,
        {
            let i: usize = base + col;
            samples[i] = burst_sample(is_ry, params, spec.fsc_wave[i]);
            col = col + 1;
        }
    }
    proof {
        assert(samples@ =~= wanted);
    }
}

/// The steps between the samples of the field's analytic signal, at unit
/// amplitude where the de-emphasis has shaped it.
pub open spec fn field_steps<F: SosFloat + Single, X: Transforms<F>>(
    uphet: Seq<F>,
    spec: ChromaSpec<F>,
    transforms: X,
) -> Seq<Complex<F>> {
    let gain = match spec.secam_antibell_gain {
        Some(gains) => Some(gains@),
        None => None,
    };
    let analytic = analytic_of(transforms, uphet, gain);
    steps_of(
        if spec.secam_deemphasis {
            analytic.map_values(|z: Complex<F>| limited(z))
        } else {
            analytic
        },
    )
}

/// What [`process_secam_chroma`] makes of the field.
pub open spec fn secam_decoded<F: SosFloat + Single, X: Transforms<F>, D: DynamicFilter<F>>(
    uphet: Seq<F>,
    field: ChromaField<F::Wide>,
    spec: ChromaSpec<F>,
    transforms: X,
    runtime: FilterRuntime<D>,
) -> Result<Seq<F>, ChromaError> where F::Wide: Double {
    match spec.secam_params {
        None => Err(ChromaError::SecamParams),
        Some(params) => if field.outlinelen == 0 || field.outlinecount == 0 {
            Ok(uphet)
        } else {
            match field.phase_sequence {
                None => Err(ChromaError::SecamPhaseSequence),
                Some(sequence) => {
                    let steps = field_steps(uphet, spec, transforms);
                    let scale = hertz_per_radian::<F>(spec.outfreq);
                    let windows = windows_of(spec, field.outlinelen);
                    let lines = measured_lines(steps, field, sequence@, windows.porch, scale);
                    let len = field.outlinelen as nat;
                    if lines.len() == 0 {
                        Ok(uphet)
                    } else {
                        Ok(
                            painted_lines(
                                steps,
                                lines,
                                phasing_of(lines, len),
                                len,
                                windows,
                                scale,
                                params,
                                spec,
                                runtime,
                            ),
                        )
                    }
                },
            }
        },
    }
}

/// The decoder gets as far as reading the field.
pub open spec fn reads_field<F: SosFloat>(
    field: ChromaField<F::Wide>,
    spec: ChromaSpec<F>,
) -> bool {
    spec.secam_params is Some && field.outlinelen > 0 && field.outlinecount > 0
        && field.phase_sequence is Some
}

/// The field can be decoded: there is a gain for each bin, its lines and their
/// porches are within the machine's range, and each line that was measured can be
/// demodulated and written.
pub open spec fn secam_ready<F: SosFloat + Single, X: Transforms<F>>(
    uphet: Seq<F>,
    field: ChromaField<F::Wide>,
    spec: ChromaSpec<F>,
    transforms: X,
) -> bool where F::Wide: Double {
    reads_field(field, spec) ==> {
        let steps = field_steps(uphet, spec, transforms);
        let scale = hertz_per_radian::<F>(spec.outfreq);
        let windows = windows_of(spec, field.outlinelen);
        let sequence = field.phase_sequence->0@;
        let lines = measured_lines(steps, field, sequence, windows.porch, scale);
        &&& uphet.len() > 0 && spec.secam_antibell_gain is Some ==> uphet.len() / 2
            < spec.secam_antibell_gain->0.len()
        &&& burst_area_fits(spec.burst_area)
        &&& all_addressable(field, sequence)
        &&& porch_fits(spec.burst_area, field, sequence)
        &&& lines.len() <= i32::MAX
        &&& forall|k: int|
            0 <= k < lines.len() ==> line_ready(
                steps,
                (#[trigger] lines[k]).linestart as int,
                windows,
                scale,
                spec,
            )
    }
}

/// The settings and the lines suit the field, as far as can be told before it is
/// transformed.
fn settings_suit<F: SosFloat>(
    len: usize,
    field: &ChromaField<F::Wide>,
    spec: &ChromaSpec<F>,
    sequence: &[LinePhase],
) -> (suit: bool)
    ensures
        suit == ({
            &&& len > 0 && spec.secam_antibell_gain is Some ==> len / 2
                < spec.secam_antibell_gain->0.len()
            &&& burst_area_fits(spec.burst_area)
            &&& all_addressable(*field, sequence@)
            &&& porch_fits(spec.burst_area, *field, sequence@)
        }),
{
    let gains_fit: bool = match &spec.secam_antibell_gain {
        Some(gains) => len == 0 || len / 2 < gains.len(),
        None => true,
    };
    let (bstart, bend): (isize, isize) = spec.burst_area;
    let area_fits: bool = bstart <= isize::MAX - 8 && bend >= isize::MIN + 4;
    gains_fit && area_fits && are_addressable(field, sequence) && porch_suits(
        spec.burst_area,
        field,
        sequence,
    )
}

/// Whether the porch ends on the line, or before the field on every line of the
/// sequence.
fn porch_suits<W>(
    burst_area: (isize, isize),
    field: &ChromaField<W>,
    sequence: &[LinePhase],
) -> (suits: bool)
    requires
        burst_area_fits(burst_area),
        all_addressable(*field, sequence@),
    ensures
        suits == porch_fits(burst_area, *field, sequence@),
{
    let stop: isize = if burst_area.1 - 4 < burst_area.0 {
        burst_area.0
    } else {
        burst_area.1 - 4
    };
    if stop >= 0 {
        return true;
    }
    let mut index: usize = 0;
    while index < sequence.len()
        invariant
            all_addressable(*field, sequence@),
            stop < 0,
            stop == porch_end(burst_area),
            index <= sequence.len(),
            forall|k: int|
                0 <= k < index ==> field.start_of((#[trigger] sequence@[k]).linenumber as int)
                    + stop < 0,
        decreases sequence.len() - index,
    {
        proof {
            assert(field.addressable(sequence@[index as int].linenumber as int));
        }
        let start: isize = field.line_start(sequence[index].linenumber);
        if start >= 0 && start + stop >= 0 {
            proof {
                assert(field.start_of(sequence@[index as int].linenumber as int) + stop >= 0);
            }
            return false;
        }
        index = index + 1;
    }
    true
}

/// Whether the subcarrier is known wherever the line needs it.
fn wave_suits<F: SosFloat + Single>(
    len: usize,
    base: usize,
    windows: LineWindows,
    spec: &ChromaSpec<F>,
) -> (suits: bool)
    requires
        base + windows.active_hi <= usize::MAX,
        base + windows.burst_hi <= usize::MAX,
    ensures
        suits == ({
            &&& shows_picture(base as int, windows, len as nat) ==> is_raw(*spec) || base
                + windows.active_hi <= spec.fsc_wave.len()
            &&& windows.burst_lo < windows.burst_hi && base + windows.burst_hi <= len ==> base
                + windows.burst_hi <= spec.fsc_wave.len()
        }),
{
    let raw: bool = match spec.secam_mode {
        Some(SecamMode::RawDemod) => true,
        _ => false,
    };
    let shows: bool = windows.active_lo < windows.active_hi && base + windows.active_hi <= len;
    let bursts: bool = windows.burst_lo < windows.burst_hi && base + windows.burst_hi <= len;
    (!shows || raw || base + windows.active_hi <= spec.fsc_wave.len()) && (!bursts || base
        + windows.burst_hi <= spec.fsc_wave.len())
}

/// Decodes a SECAM chroma field in place, if it can be decoded; otherwise
/// answers `None` and leaves it alone.
pub fn try_secam_chroma<F: SosFloat + Single, X: Transforms<F>, D: DynamicFilter<F>>(
    uphet: &mut Vec<F>,
    field: &ChromaField<F::Wide>,
    spec: &ChromaSpec<F>,
    transforms: &X,
    runtime: &FilterRuntime<D>,
) -> (tried: Option<Result<(), ChromaError>>) where F::Wide: Double
    requires
        functional_sos::<F>(),
        functional_single::<F>(),
        functional_double::<F::Wide>(),
        functional_dynamic::<F, D>(runtime.dynamic),
        old(uphet).len() > 0 && reads_field(*field, *spec) ==> functional_transforms::<F, X>(
            *transforms,
            old(uphet)@.len(),
        ),
    ensures
        tried is Some <==> secam_ready(old(uphet)@, *field, *spec, *transforms),
        final(uphet).len() == old(uphet).len(),
        match tried {
            Some(Ok(())) => secam_decoded(old(uphet)@, *field, *spec, *transforms, *runtime)
                == Ok::<Seq<F>, ChromaError>(final(uphet)@),
            Some(Err(error)) => {
                &&& secam_decoded(old(uphet)@, *field, *spec, *transforms, *runtime) == Err::<
                    Seq<F>,
                    ChromaError,
                >(error)
                &&& final(uphet)@ == old(uphet)@
            },
            None => final(uphet)@ == old(uphet)@,
        },
{
    proof {
        lemma_functional_sos::<F>();
    }
    let params: &SecamParams<F> = match &spec.secam_params {
        Some(params) => params,
        None => return Some(Err(ChromaError::SecamParams)),
    };
    if field.outlinelen == 0 || field.outlinecount == 0 {
        return Some(Ok(()));
    }
    let sequence: &Vec<LinePhase> = match &field.phase_sequence {
        Some(sequence) => sequence,
        None => return Some(Err(ChromaError::SecamPhaseSequence)),
    };
    if !settings_suit(uphet.len(), field, spec, sequence.as_slice()) {
        return None;
    }
    let gain: Option<&[F]> = match &spec.secam_antibell_gain {
        Some(gains) => Some(gains.as_slice()),
        None => None,
    };
    let mut analytic: Vec<Complex<F>> = analytic_antibell(uphet.as_slice(), transforms, gain);
    if spec.secam_deemphasis {
        hard_limit(&mut analytic);
    }
    let scale: F = over(
        narrowed::<F>(times(spec.outfreq, double_count(1_000_000))),
        from_bits(TAU),
    );
    let steps: Vec<Complex<F>> = cross_products(analytic.as_slice());
    let ghost before = uphet@;
    proof {
        assert(steps@ == field_steps(before, *spec, *transforms));
    }
    let windows: LineWindows = secam_windows(spec, field.outlinelen);
    let lines: Vec<SecamLine<F>> = measure_lines(
        steps.as_slice(),
        field,
        sequence.as_slice(),
        windows.porch,
        scale,
    );
    if lines.is_empty() {
        return Some(Ok(()));
    }
    if lines.len() > i32::MAX as usize {
        return None;
    }
    let outlinelen: usize = field.outlinelen;
    let phasing: Phasing<F> = choose_phasing(lines.as_slice(), outlinelen);
    let len: usize = uphet.len();
    let mut output: Vec<F> = Vec::new();
    while output.len() < len
        invariant
            functional::<F>(),
            output.len() <= len,
            forall|k: int| 0 <= k < output.len() ==> output[k] == zero::<F>(),
        decreases len - output.len(),
    {
        output.push(zero());
    }
    let mut index: usize = 0;
    proof {
        assert(lines@.take(0) =~= Seq::<SecamLine<F>>::empty());
        assert(output@ =~= Seq::new(steps@.len(), |i: int| zero::<F>()));
    }
    while index < lines.len()
        invariant
            functional_sos::<F>(),
            functional_single::<F>(),
            functional::<F>(),
            functional_dynamic::<F, D>(runtime.dynamic),
            outlinelen > 0,
            index <= lines.len(),
            output.len() == steps.len(),
            uphet@ == before,
            old(uphet)@ == before,
            lines_wf(lines@, steps@.len()),
            lines.len() <= i32::MAX,
            windows.active_hi <= outlinelen,
            windows.burst_hi <= outlinelen,
            reads_field(*field, *spec),
            steps@ == field_steps(before, *spec, *transforms),
            scale == hertz_per_radian::<F>(spec.outfreq),
            windows == windows_of(*spec, field.outlinelen),
            lines@ == measured_lines(
                steps@,
                *field,
                field.phase_sequence->0@,
                windows.porch,
                scale,
            ),
            forall|k: int|
                0 <= k < lines.len() ==> (#[trigger] lines[k]).linestart + outlinelen <= isize::MAX,
            forall|k: int|
                0 <= k < index ==> line_ready(
                    steps@,
                    (#[trigger] lines[k]).linestart as int,
                    windows,
                    scale,
                    *spec,
                ),
            output@ == painted_lines(
                steps@,
                lines@.take(index as int),
                phasing,
                outlinelen as nat,
                windows,
                scale,
                *params,
                *spec,
                *runtime,
            ),
        decreases lines.len() - index,
    {
        let line: SecamLine<F> = lines[index];
        let base: usize = line.linestart;
        proof {
            assert(lines@.take(index + 1).drop_last() =~= lines@.take(index as int));
            assert(lines@[index as int].linestart + outlinelen <= isize::MAX);
        }
        let is_ry: bool = ((base / outlinelen) % 2 == 0) == phasing.even_is_high;
        let rest: F = if is_ry {
            phasing.high
        } else {
            phasing.low
        };
        let suits: bool = wave_suits(steps.len(), base, windows, spec);
        let shows: bool = windows.active_lo < windows.active_hi && base + windows.active_hi
            <= steps.len();
        let recovered: Option<Vec<F>> = if shows {
            recover_colour(
                vstd::slice::slice_subrange(
                    steps.as_slice(),
                    base + windows.active_lo,
                    base + windows.active_hi,
                ),
                rest,
                is_ry,
                scale,
                params,
                spec,
                runtime,
            )
        } else {
            Some(Vec::new())
        };
        let colour: Vec<F> = match recovered {
            Some(colour) => colour,
            None => {
                proof {
                    assert(!line_ready(
                        steps@,
                        lines@[index as int].linestart as int,
                        windows,
                        scale,
                        *spec,
                    ));
                }
                return None;
            },
        };
        if !suits {
            proof {
                assert(!line_ready(
                    steps@,
                    lines@[index as int].linestart as int,
                    windows,
                    scale,
                    *spec,
                ));
            }
            return None;
        }
        let ghost seen = line_colour(
            steps@,
            line,
            phasing,
            outlinelen as nat,
            windows,
            scale,
            *params,
            *spec,
            *runtime,
        );
        let ghost unpainted = output@;
        paint_line(&mut output, base, is_ry, colour.as_slice(), windows, params, spec);
        proof {
            assert(painted(unpainted, base as int, is_ry, colour@, windows, *params, *spec)
                =~= painted(unpainted, base as int, is_ry, seen, windows, *params, *spec));
            assert(line_ready(
                steps@,
                lines@[index as int].linestart as int,
                windows,
                scale,
                *spec,
            ));
        }
        index = index + 1;
    }
    proof {
        assert(lines@.take(index as int) =~= lines@);
    }
    *uphet = output;
    Some(Ok(()))
}

/// Decodes a SECAM chroma field in place. The subcarrier is demodulated line by
/// line, and what it carried is written as a PAL-like signal, or as it is in raw
/// mode, with a burst on each line. A field on which no line could be measured
/// is left alone.
pub fn process_secam_chroma<F: SosFloat + Single, X: Transforms<F>, D: DynamicFilter<F>>(
    uphet: &mut Vec<F>,
    field: &ChromaField<F::Wide>,
    spec: &ChromaSpec<F>,
    transforms: &X,
    runtime: &FilterRuntime<D>,
) -> (result: Result<(), ChromaError>) where F::Wide: Double
    requires
        functional_sos::<F>(),
        functional_single::<F>(),
        functional_double::<F::Wide>(),
        functional_dynamic::<F, D>(runtime.dynamic),
        old(uphet).len() > 0 && reads_field(*field, *spec) ==> functional_transforms::<F, X>(
            *transforms,
            old(uphet)@.len(),
        ),
        secam_ready(old(uphet)@, *field, *spec, *transforms),
    ensures
        final(uphet).len() == old(uphet).len(),
        match result {
            Ok(()) => secam_decoded(old(uphet)@, *field, *spec, *transforms, *runtime) == Ok::<
                Seq<F>,
                ChromaError,
            >(final(uphet)@),
            Err(error) => {
                &&& secam_decoded(old(uphet)@, *field, *spec, *transforms, *runtime) == Err::<
                    Seq<F>,
                    ChromaError,
                >(error)
                &&& final(uphet)@ == old(uphet)@
            },
        },
{
    try_secam_chroma(uphet, field, spec, transforms, runtime).unwrap()
}

} // verus!
