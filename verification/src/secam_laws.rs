//! Laws of the SECAM decoder.
use vstd::prelude::*;

use crate::complex::{scaled, Complex};
use crate::fast_math::{lemma_real_sum_splits, lemma_serial_sum_exact, real_sum};
use crate::field::{ChromaField, ChromaSpec, LinePhase};
use crate::filter::{DynamicFilter, FilterRuntime};
use crate::machine::{lemma_state_after_prefix, lemma_state_after_split, outputs, state_after};
use crate::reals::lemma_real_distributes;
use crate::request::{SecamMode, SecamParams};
use crate::sample::{
    double_rounded, exact, minus, plus, real_magnitude, times, to_isize, zero, Double, Sample,
    Single, SosFloat,
};
use crate::secam::{
    burst_sample, deemphasized, in_burst, in_picture, line_colour, modulated, painted_lines,
    sample_at, sum_before, LineWindows, DEEMPHASIS_PAD,
};
use crate::secam_lines::{cross, measured_lines, Phasing, Porch, SecamLine};
use crate::sos::{cascade_at_rest, sos_machine, Sos};

verus! {

/// Each line starts a whole number of lines into the field.
pub open spec fn on_line_grid<T>(lines: Seq<SecamLine<T>>, outlinelen: nat) -> bool {
    forall|k: int|
        0 <= k < lines.len() ==> (#[trigger] lines[k]).linestart as int % outlinelen as int == 0
}

/// The burst and the picture end on their line.
pub open spec fn windows_fit(windows: LineWindows, outlinelen: nat) -> bool {
    windows.burst_hi <= outlinelen && windows.active_hi <= outlinelen
}

/// Place `i` is written on the line that starts at `base`.
pub open spec fn is_written(i: int, base: int, windows: LineWindows, len: nat) -> bool {
    in_burst(i, base, windows, len) || in_picture(i, base, windows, len)
}

/// Measured lines start a whole number of lines into the field.
pub proof fn law_measured_lines_on_grid<T: Single, W>(
    steps: Seq<Complex<T>>,
    field: ChromaField<W>,
    sequence: Seq<LinePhase>,
    porch: Porch,
    scale: T,
)
    requires
        field.outlinelen > 0,
        steps.len() <= usize::MAX,
    ensures
        on_line_grid(
            measured_lines(steps, field, sequence, porch, scale),
            field.outlinelen as nat,
        ),
    decreases sequence.len(),
{
    if sequence.len() > 0 {
        law_measured_lines_on_grid(steps, field, sequence.drop_last(), porch, scale);
        let number = sequence.last().linenumber - (field.lineoffset + 1);
        let len = field.outlinelen as int;
        vstd::arithmetic::div_mod::lemma_mod_multiples_basic(number, len);
    }
}

proof fn lemma_one_line_covers(a: int, b: int, i: int, len: int)
    requires
        len > 0,
        a % len == 0,
        b % len == 0,
        a <= i < a + len,
        b <= i < b + len,
    ensures
        a == b,
{
    vstd::arithmetic::div_mod::lemma_fundamental_div_mod(a, len);
    vstd::arithmetic::div_mod::lemma_fundamental_div_mod(b, len);
    let p = a / len;
    let q = b / len;
    assert(p == q) by (nonlinear_arith)
        requires
            len > 0,
            len * p < len * q + len,
            len * q < len * p + len,
    ;
}

pub proof fn lemma_painted_len<F: SosFloat + Single, D: DynamicFilter<F>>(
    steps: Seq<Complex<F>>,
    lines: Seq<SecamLine<F>>,
    phasing: Phasing<F>,
    outlinelen: nat,
    windows: LineWindows,
    scale: F,
    params: SecamParams<F>,
    spec: ChromaSpec<F>,
    runtime: FilterRuntime<D>,
)
    ensures
        painted_lines(
            steps,
            lines,
            phasing,
            outlinelen,
            windows,
            scale,
            params,
            spec,
            runtime,
        ).len() == steps.len(),
    decreases lines.len(),
{
    if lines.len() > 0 {
        lemma_painted_len(
            steps,
            lines.drop_last(),
            phasing,
            outlinelen,
            windows,
            scale,
            params,
            spec,
            runtime,
        );
    }
}

/// Where no line is written the field is silent.
pub proof fn law_blanking_is_silent<F: SosFloat + Single, D: DynamicFilter<F>>(
    steps: Seq<Complex<F>>,
    lines: Seq<SecamLine<F>>,
    phasing: Phasing<F>,
    outlinelen: nat,
    windows: LineWindows,
    scale: F,
    params: SecamParams<F>,
    spec: ChromaSpec<F>,
    runtime: FilterRuntime<D>,
    i: int,
)
    requires
        0 <= i < steps.len(),
        forall|k: int|
            0 <= k < lines.len() ==> !is_written(
                i,
                (#[trigger] lines[k]).linestart as int,
                windows,
                steps.len(),
            ),
    ensures
        painted_lines(
            steps,
            lines,
            phasing,
            outlinelen,
            windows,
            scale,
            params,
            spec,
            runtime,
        )[i] == zero::<F>(),
    decreases lines.len(),
{
    if lines.len() > 0 {
        let fewer = lines.drop_last();
        assert forall|k: int| 0 <= k < fewer.len() implies !is_written(
            i,
            (#[trigger] fewer[k]).linestart as int,
            windows,
            steps.len(),
        ) by {
            assert(fewer[k] == lines[k]);
        }
        law_blanking_is_silent(
            steps,
            fewer,
            phasing,
            outlinelen,
            windows,
            scale,
            params,
            spec,
            runtime,
            i,
        );
        lemma_painted_len(
            steps,
            fewer,
            phasing,
            outlinelen,
            windows,
            scale,
            params,
            spec,
            runtime,
        );
        assert(!is_written(
            i,
            lines[lines.len() - 1].linestart as int,
            windows,
            steps.len(),
        ));
    }
}

/// No line disturbs another: what is written on a line is what that line alone
/// would have written.
pub proof fn law_lines_keep_apart<F: SosFloat + Single, D: DynamicFilter<F>>(
    steps: Seq<Complex<F>>,
    lines: Seq<SecamLine<F>>,
    phasing: Phasing<F>,
    outlinelen: nat,
    windows: LineWindows,
    scale: F,
    params: SecamParams<F>,
    spec: ChromaSpec<F>,
    runtime: FilterRuntime<D>,
    k: int,
    i: int,
)
    requires
        outlinelen > 0,
        on_line_grid(lines, outlinelen),
        windows_fit(windows, outlinelen),
        0 <= k < lines.len(),
        is_written(i, lines[k].linestart as int, windows, steps.len()),
    ensures
        painted_lines(
            steps,
            lines,
            phasing,
            outlinelen,
            windows,
            scale,
            params,
            spec,
            runtime,
        )[i] == painted_lines(
            steps,
            seq![lines[k]],
            phasing,
            outlinelen,
            windows,
            scale,
            params,
            spec,
            runtime,
        )[i],
    decreases lines.len(),
{
    let len = outlinelen as int;
    let last = lines.len() - 1;
    let fewer = lines.drop_last();
    let alone = seq![lines[k]];
    lemma_painted_len(
        steps,
        fewer,
        phasing,
        outlinelen,
        windows,
        scale,
        params,
        spec,
        runtime,
    );
    lemma_painted_len(
        steps,
        alone.drop_last(),
        phasing,
        outlinelen,
        windows,
        scale,
        params,
        spec,
        runtime,
    );
    assert(alone.last() == lines[k]);
    assert(lines[k].linestart as int % len == 0);
    assert(lines[last].linestart as int % len == 0);
    if is_written(i, lines[last].linestart as int, windows, steps.len()) {
        lemma_one_line_covers(
            lines[k].linestart as int,
            lines[last].linestart as int,
            i,
            len,
        );
        assert(line_colour(
            steps,
            lines[k],
            phasing,
            outlinelen,
            windows,
            scale,
            params,
            spec,
            runtime,
        ) == line_colour(
            steps,
            lines[last],
            phasing,
            outlinelen,
            windows,
            scale,
            params,
            spec,
            runtime,
        ));
    } else {
        assert(k < last);
        assert forall|j: int| 0 <= j < fewer.len() implies (#[trigger] fewer[j]).linestart as int
            % outlinelen as int == 0 by {
            assert(fewer[j] == lines[j]);
        }
        law_lines_keep_apart(
            steps,
            fewer,
            phasing,
            outlinelen,
            windows,
            scale,
            params,
            spec,
            runtime,
            k,
            i,
        );
    }
}

/// The burst is the same whether the colour difference is modulated or written
/// as it is.
pub proof fn law_burst_is_the_same_in_both_modes<F: SosFloat + Single, D: DynamicFilter<F>>(
    steps: Seq<Complex<F>>,
    lines: Seq<SecamLine<F>>,
    phasing: Phasing<F>,
    outlinelen: nat,
    windows: LineWindows,
    scale: F,
    params: SecamParams<F>,
    spec: ChromaSpec<F>,
    other: ChromaSpec<F>,
    runtime: FilterRuntime<D>,
    k: int,
    i: int,
)
    requires
        outlinelen > 0,
        on_line_grid(lines, outlinelen),
        windows_fit(windows, outlinelen),
        spec.fsc_wave@ == other.fsc_wave@,
        0 <= k < lines.len(),
        in_burst(i, lines[k].linestart as int, windows, steps.len()),
    ensures
        painted_lines(
            steps,
            lines,
            phasing,
            outlinelen,
            windows,
            scale,
            params,
            spec,
            runtime,
        )[i] == painted_lines(
            steps,
            lines,
            phasing,
            outlinelen,
            windows,
            scale,
            params,
            other,
            runtime,
        )[i],
{
    law_lines_keep_apart(
        steps,
        lines,
        phasing,
        outlinelen,
        windows,
        scale,
        params,
        spec,
        runtime,
        k,
        i,
    );
    law_lines_keep_apart(
        steps,
        lines,
        phasing,
        outlinelen,
        windows,
        scale,
        params,
        other,
        runtime,
        k,
        i,
    );
    let alone = seq![lines[k]];
    lemma_painted_len(
        steps,
        alone.drop_last(),
        phasing,
        outlinelen,
        windows,
        scale,
        params,
        spec,
        runtime,
    );
    lemma_painted_len(
        steps,
        alone.drop_last(),
        phasing,
        outlinelen,
        windows,
        scale,
        params,
        other,
        runtime,
    );
    assert(alone.last() == lines[k]);
}

/// In raw mode the picture of a line is the colour difference that it carried;
/// otherwise it is that colour difference on the subcarrier.
pub proof fn law_picture_is_the_colour<F: SosFloat + Single, D: DynamicFilter<F>>(
    steps: Seq<Complex<F>>,
    lines: Seq<SecamLine<F>>,
    phasing: Phasing<F>,
    outlinelen: nat,
    windows: LineWindows,
    scale: F,
    params: SecamParams<F>,
    spec: ChromaSpec<F>,
    runtime: FilterRuntime<D>,
    k: int,
    i: int,
)
    requires
        outlinelen > 0,
        on_line_grid(lines, outlinelen),
        windows_fit(windows, outlinelen),
        0 <= k < lines.len(),
        in_picture(i, lines[k].linestart as int, windows, steps.len()),
        !in_burst(i, lines[k].linestart as int, windows, steps.len()),
    ensures
        ({
            let colour = line_colour(
                steps,
                lines[k],
                phasing,
                outlinelen,
                windows,
                scale,
                params,
                spec,
                runtime,
            )[i - lines[k].linestart - windows.active_lo];
            painted_lines(
                steps,
                lines,
                phasing,
                outlinelen,
                windows,
                scale,
                params,
                spec,
                runtime,
            )[i] == if spec.secam_mode == Some(SecamMode::RawDemod) {
                colour
            } else {
                modulated(
                    colour,
                    phasing.is_high(lines[k], outlinelen),
                    &params,
                    spec.fsc_wave[i],
                )
            }
        }),
{
    law_lines_keep_apart(
        steps,
        lines,
        phasing,
        outlinelen,
        windows,
        scale,
        params,
        spec,
        runtime,
        k,
        i,
    );
    let alone = seq![lines[k]];
    lemma_painted_len(
        steps,
        alone.drop_last(),
        phasing,
        outlinelen,
        windows,
        scale,
        params,
        spec,
        runtime,
    );
    assert(alone.last() == lines[k]);
}

/// Rounding aside, the discriminator sums exactly the steps of its window: the
/// difference of two running sums is the sum of what lies between.
pub proof fn law_discriminator_sums_its_window<T: Sample>(
    value: spec_fn(T) -> real,
    steps: Seq<Complex<T>>,
    lo: int,
    hi: int,
)
    requires
        exact(value),
        0 <= lo <= hi <= steps.len(),
    ensures
        value(minus(sum_before(steps, hi).re, sum_before(steps, lo).re)) == real_sum(
            value,
            steps.subrange(lo, hi).map_values(|z: Complex<T>| z.re),
        ),
        value(minus(sum_before(steps, hi).im, sum_before(steps, lo).im)) == real_sum(
            value,
            steps.subrange(lo, hi).map_values(|z: Complex<T>| z.im),
        ),
{
    let re = |z: Complex<T>| z.re;
    let im = |z: Complex<T>| z.im;
    let all_re = steps.take(hi).map_values(re);
    let all_im = steps.take(hi).map_values(im);
    lemma_serial_sum_exact(value, all_re);
    lemma_serial_sum_exact(value, all_im);
    lemma_serial_sum_exact(value, steps.take(lo).map_values(re));
    lemma_serial_sum_exact(value, steps.take(lo).map_values(im));
    lemma_real_sum_splits(value, all_re, lo);
    lemma_real_sum_splits(value, all_im, lo);
    assert(all_re.take(lo) =~= steps.take(lo).map_values(re));
    assert(all_im.take(lo) =~= steps.take(lo).map_values(im));
    assert(all_re.skip(lo) =~= steps.subrange(lo, hi).map_values(re));
    assert(all_im.skip(lo) =~= steps.subrange(lo, hi).map_values(im));
}

/// The de-emphasis of a line starts in the state that the padding leaves: the
/// line runs on a filter that has seen its first sample long enough.
pub proof fn law_deemphasis_starts_behind_the_padding<F: Sample>(
    sos: Seq<Sos<F>>,
    baseband: Seq<F>,
)
    requires
        baseband.len() > 0,
    ensures
        ({
            let padding = Seq::new(64, |k: int| baseband[0]);
            deemphasized(sos, baseband) == outputs(
                sos_machine::<F>(),
                state_after(
                    sos_machine::<F>(),
                    cascade_at_rest(sos),
                    padding,
                    64,
                ),
                baseband,
            )
        }),
{
    let machine = sos_machine::<F>();
    let padding = Seq::new(DEEMPHASIS_PAD as nat, |k: int| baseband[0]);
    let padded = padding + baseband;
    let pad = DEEMPHASIS_PAD as nat;
    let start = cascade_at_rest(sos);
    let behind = outputs(machine, state_after(machine, start, padding, pad), baseband);
    lemma_state_after_prefix(machine, start, padding, padded, pad);
    assert(padded.skip(pad as int) =~= baseband);
    assert forall|k: int| 0 <= k < baseband.len() implies #[trigger] deemphasized(
        sos,
        baseband,
    )[k] == behind[k] by {
        lemma_state_after_split(machine, start, padded, pad, k as nat);
        assert(padded[pad + k] == baseband[k]);
    }
    assert(deemphasized(sos, baseband) =~= behind);
}

/// Rounding aside, a step weighs by power: samples `factor` times as strong give
/// a step `factor` squared times as long, in the same direction.
pub proof fn law_steps_weigh_by_power<T: Sample>(
    value: spec_fn(T) -> real,
    z: Complex<T>,
    w: Complex<T>,
    factor: T,
)
    requires
        exact(value),
    ensures
        value(cross(scaled(z, factor), scaled(w, factor)).re) == value(factor) * value(factor)
            * value(cross(z, w).re),
        value(cross(scaled(z, factor), scaled(w, factor)).im) == value(factor) * value(factor)
            * value(cross(z, w).im),
{
    let f = value(factor);
    let a = value(z.re);
    let b = value(z.im);
    let c = value(w.re);
    let d = value(w.im);
    lemma_both_scaled(a, c, f);
    lemma_both_scaled(b, d, f);
    lemma_both_scaled(b, c, f);
    lemma_both_scaled(a, d, f);
    lemma_real_distributes(f * f, a * c, b * d);
    lemma_real_distributes(f * f, b * c, a * d);
}

proof fn lemma_both_scaled(a: real, c: real, f: real)
    ensures
        (a * f) * (c * f) == (f * f) * (a * c),
{
    assert((a * f) * (c * f) == (f * f) * (a * c)) by (nonlinear_arith);
}

/// On the burst of a line stands the synthesized burst of its kind, on the
/// subcarrier as it is at that place of the field.
pub proof fn law_burst_is_written<F: SosFloat + Single, D: DynamicFilter<F>>(
    steps: Seq<Complex<F>>,
    lines: Seq<SecamLine<F>>,
    phasing: Phasing<F>,
    outlinelen: nat,
    windows: LineWindows,
    scale: F,
    params: SecamParams<F>,
    spec: ChromaSpec<F>,
    runtime: FilterRuntime<D>,
    k: int,
    i: int,
)
    requires
        outlinelen > 0,
        on_line_grid(lines, outlinelen),
        windows_fit(windows, outlinelen),
        0 <= k < lines.len(),
        in_burst(i, lines[k].linestart as int, windows, steps.len()),
    ensures
        painted_lines(
            steps,
            lines,
            phasing,
            outlinelen,
            windows,
            scale,
            params,
            spec,
            runtime,
        )[i] == burst_sample(
            phasing.is_high(lines[k], outlinelen),
            &params,
            spec.fsc_wave[i],
        ),
{
    law_lines_keep_apart(
        steps,
        lines,
        phasing,
        outlinelen,
        windows,
        scale,
        params,
        spec,
        runtime,
        k,
        i,
    );
    let alone = seq![lines[k]];
    lemma_painted_len(
        steps,
        alone.drop_last(),
        phasing,
        outlinelen,
        windows,
        scale,
        params,
        spec,
        runtime,
    );
    assert(alone.last() == lines[k]);
}

/// A time on the line stands for the sample nearest to it, and a time before the
/// line for its first.
pub proof fn law_nearest_sample_is_taken<W: Double>(
    wide: spec_fn(W) -> real,
    us: W,
    outfreq: W,
    adjust: W,
)
    requires
        exact(wide),
        forall|a: W|
            real_magnitude(
                (#[trigger] to_isize(double_rounded(a))) as int as real - wide(a),
            ) <= 1real / 2real,
    ensures
        ({
            let place = sample_at(us, outfreq, adjust);
            let time = wide(us) * wide(outfreq) + wide(adjust);
            &&& 0 <= place
            &&& 0real <= time ==> real_magnitude(place as real - time) <= 1real / 2real
            &&& time < -1real ==> place == 0
        }),
{
    let time = plus(times(us, outfreq), adjust);
    let nearest = to_isize(double_rounded(time));
    assert(real_magnitude(nearest as int as real - wide(time)) <= 1real / 2real);
}

} // verus!
