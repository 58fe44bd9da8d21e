//! What the stages of chroma decoding do to the samples of a field. Rounding is
//! left aside.
use vstd::prelude::*;

use crate::acquire::{
    law_followed_chroma_is_filtered, law_other_chroma_is_only_downscaled,
    law_shift_is_a_quarter_of_the_rate, tracking_shift, ChromaTape, TapeChroma,
};
use crate::chroma::{
    accumulated, burst_scale, line_has_carrier, line_of, line_stretch, place_of, rms_of,
    rotated, rotation, upconverted, FieldMeasures, SIGNED_SAMPLE_MAX,
};
use crate::comb::{combed, lemma_comb_sample_exact};
use crate::complex::Complex;
use crate::decode_chroma::{
    chroma_decoded, chroma_ready, cleaned, comb_distance, field_acquires, levelled, lifted,
    unscaled, wants_chroma,
};
use crate::field::{ChromaError, ChromaField, ChromaSpec, LinePhase};
use crate::filter::{filterable, filtered, DynamicFilter, FilterRuntime};
use crate::reals::{lemma_real_associates, lemma_real_distributes};
use crate::request::ColorSystem;
use crate::sample::{
    cosine, double_count, exact, exact_wide, from_bits, is_zero, minus, narrowed, plus, radians,
    sine, times, to_i64, to_isize, two, zero, Double, Single, SosFloat,
};
use crate::secam::secam_decoded;
use crate::sos::forward_filtered;
use crate::spectrum::analytic_of;
use crate::transform_laws::{law_analytic_signal_keeps_its_real_part, undo_each_other};
use crate::transforms::Transforms;

verus! {

/// Each combed sample is half itself less a quarter of each of those `reach`
/// places before and behind. The first sixteen lines and the last two are not
/// combed.
pub open spec fn is_combed_from<F>(
    value: spec_fn(F) -> real,
    plain: Seq<F>,
    line_len: int,
    reach: int,
    output: Seq<F>,
) -> bool {
    output.len() == plain.len() && forall|i: int|
        0 <= i < plain.len() ==> {
            let line = i / line_len;
            let lines = plain.len() as int / line_len;
            if 16 <= line < lines - 2 {
                4real * value(#[trigger] output[i]) == 2real * value(plain[i]) - value(
                    plain[i + reach],
                ) - value(plain[i - reach])
            } else {
                output[i] == plain[i]
            }
        }
}

/// With the comb, NTSC chroma is what remains of the cleaned chroma when the
/// lines next to each line are taken from it, and other chroma when the lines
/// two away are.
pub proof fn law_cleaning_combs_the_lines<F: SosFloat, D: DynamicFilter<F>>(
    value: spec_fn(F) -> real,
    uphet: Seq<F>,
    field: ChromaField<F::Wide>,
    spec: ChromaSpec<F>,
    runtime: FilterRuntime<D>,
)
    requires
        exact(value),
        !spec.disable_comb,
        field.outlinelen > 0,
    ensures
        ({
            let without = ChromaSpec { disable_comb: true, ..spec };
            let plain = cleaned(uphet, field, without, runtime);
            let output = cleaned(uphet, field, spec, runtime);
            let line_len = field.outlinelen as int;
            &&& spec.color_system == ColorSystem::Ntsc ==> is_combed_from(
                value,
                plain,
                line_len,
                line_len,
                output,
            )
            &&& spec.color_system != ColorSystem::Ntsc ==> is_combed_from(
                value,
                plain,
                line_len,
                2 * line_len,
                output,
            )
        }),
{
    let without = ChromaSpec { disable_comb: true, ..spec };
    let plain = cleaned(uphet, field, without, runtime);
    let output = cleaned(uphet, field, spec, runtime);
    let line_len = field.outlinelen as int;
    let reach = if spec.color_system == ColorSystem::Ntsc {
        line_len
    } else {
        2 * line_len
    };
    let distance = comb_distance(spec);
    assert(distance * field.outlinelen as nat == reach) by (nonlinear_arith)
        requires
            distance == 1 && reach == line_len || distance == 2 && reach == 2 * line_len,
            line_len == field.outlinelen,
    ;
    assert(output == combed(plain, field.outlinelen as nat, distance));
    assert forall|i: int| 0 <= i < plain.len() implies {
        let line = i / line_len;
        let lines = plain.len() as int / line_len;
        if 16 <= line < lines - 2 {
            4real * value(#[trigger] output[i]) == 2real * value(plain[i]) - value(
                plain[i + reach],
            ) - value(plain[i - reach])
        } else {
            output[i] == plain[i]
        }
    } by {
        lemma_comb_sample_exact(value, plain[i], plain[i + reach], plain[i - reach]);
    }
}

/// On combed lines, NTSC chroma that changes sign from each line to the next
/// passes the comb unchanged, and what repeats from each line to the next is
/// removed. For other chroma the same holds from each line to the second next.
pub proof fn law_comb_parts_chroma_from_luma<F: SosFloat, D: DynamicFilter<F>>(
    value: spec_fn(F) -> real,
    uphet: Seq<F>,
    field: ChromaField<F::Wide>,
    spec: ChromaSpec<F>,
    runtime: FilterRuntime<D>,
    i: int,
)
    requires
        exact(value),
        !spec.disable_comb,
        field.outlinelen > 0,
        ({
            let without = ChromaSpec { disable_comb: true, ..spec };
            let len = cleaned(uphet, field, without, runtime).len() as int;
            let line_len = field.outlinelen as int;
            &&& 0 <= i < len
            &&& 16 <= i / line_len < len / line_len - 2
        }),
    ensures
        ({
            let without = ChromaSpec { disable_comb: true, ..spec };
            let plain = cleaned(uphet, field, without, runtime);
            let output = cleaned(uphet, field, spec, runtime);
            let reach = if spec.color_system == ColorSystem::Ntsc {
                field.outlinelen as int
            } else {
                2 * field.outlinelen
            };
            let ahead = value(plain[i + reach]);
            let behind = value(plain[i - reach]);
            &&& ahead == -value(plain[i]) && behind == -value(plain[i]) ==> value(output[i])
                == value(plain[i])
            &&& ahead == value(plain[i]) && behind == value(plain[i]) ==> value(output[i])
                == 0real
        }),
{
    law_cleaning_combs_the_lines(value, uphet, field, spec, runtime);
    let output = cleaned(uphet, field, spec, runtime);
    assert(value(output[i]) == value(output[i]));
}

/// Whether the field is combed changes its chroma by the comb alone: the chroma
/// before normalization, without SECAM, is that of the same settings without the
/// comb, combed over one line for NTSC and over two otherwise.
pub proof fn law_comb_acts_on_the_lifted_chroma<
    F: SosFloat + Single,
    X: Transforms<F>,
    D: DynamicFilter<F>,
    M: FieldMeasures<F>,
>(
    value: spec_fn(F) -> real,
    chroma: TapeChroma<F>,
    field: ChromaField<F::Wide>,
    spec: ChromaSpec<F>,
    transforms: X,
    runtime: FilterRuntime<D>,
    measures: M,
) where F::Wide: Double
    requires
        exact(value),
        !spec.disable_comb,
        spec.secam_mode is None,
        field.outlinelen > 0,
    ensures
        ({
            let without = ChromaSpec { disable_comb: true, ..spec };
            let plain = unscaled(chroma, field, without, transforms, runtime, measures);
            let output = unscaled(chroma, field, spec, transforms, runtime, measures);
            let line_len = field.outlinelen as int;
            match plain {
                Err(error) => output == Err::<Seq<F>, ChromaError>(error),
                Ok(plain) => {
                    &&& output is Ok
                    &&& spec.color_system == ColorSystem::Ntsc ==> is_combed_from(
                        value,
                        plain,
                        line_len,
                        line_len,
                        output->Ok_0,
                    )
                    &&& spec.color_system != ColorSystem::Ntsc ==> is_combed_from(
                        value,
                        plain,
                        line_len,
                        2 * line_len,
                        output->Ok_0,
                    )
                },
            }
        }),
{
    let without = ChromaSpec { disable_comb: true, ..spec };
    assert(lifted(chroma, field, without, transforms, measures) == lifted(
        chroma,
        field,
        spec,
        transforms,
        measures,
    ));
    if let Ok(uphet) = lifted(chroma, field, spec, transforms, measures) {
        law_cleaning_combs_the_lines(value, uphet, field, spec, runtime);
    }
}

/// Without the comb and de-emphasis, cleaning is the final filter, forward and
/// backward. De-emphasis filters its result forward.
pub proof fn law_cleaning_filters_the_band<F: SosFloat, D: DynamicFilter<F>>(
    uphet: Seq<F>,
    field: ChromaField<F::Wide>,
    spec: ChromaSpec<F>,
    runtime: FilterRuntime<D>,
)
    requires
        spec.disable_comb,
    ensures
        ({
            let plain = cleaned(
                uphet,
                field,
                ChromaSpec { filter_deemphasis: None, ..spec },
                runtime,
            );
            &&& plain == filtered(runtime, spec.filter_final@, uphet)
            &&& cleaned(uphet, field, spec, runtime) == match spec.filter_deemphasis {
                Some(sos) => forward_filtered(sos@, plain),
                None => plain,
            }
        }),
{
}

/// Sine and cosine of sums of angles.
pub open spec fn adds_angles(cos: spec_fn(real) -> real, sin: spec_fn(real) -> real) -> bool {
    &&& cos(0real) == 1real
    &&& forall|a: real, b: real| #[trigger]
        cos(a + b) == cos(a) * cos(b) - sin(a) * sin(b)
}

/// The sample type's sine and cosine are those of the numbers.
pub open spec fn turns<W: Double>(
    wide: spec_fn(W) -> real,
    cos: spec_fn(real) -> real,
    sin: spec_fn(real) -> real,
) -> bool {
    &&& forall|a: W| wide(#[trigger] cosine(a)) == cos(wide(a))
    &&& forall|a: W| wide(#[trigger] sine(a)) == sin(wide(a))
}

/// A sample of any size and angle is turned by the way from the input phase to the
/// target phase: one at the input phase comes out as if at the target phase.
pub proof fn law_phase_turns_by_the_difference<F: SosFloat>(
    value: spec_fn(F) -> real,
    wide: spec_fn(F::Wide) -> real,
    cos: spec_fn(real) -> real,
    sin: spec_fn(real) -> real,
    input: Seq<Complex<F>>,
    input_phase: F::Wide,
    target_phase: F::Wide,
    size: real,
    angle: real,
    k: int,
) where F::Wide: Double
    requires
        exact_wide(value, wide),
        turns(wide, cos, sin),
        adds_angles(cos, sin),
        0 <= k < input.len(),
        value(input[k].re) == size * cos(angle),
        value(input[k].im) == size * sin(angle),
    ensures
        rotated(input, rotation::<F>(input_phase, target_phase)).len() == input.len(),
        value(rotated(input, rotation::<F>(input_phase, target_phase))[k]) == size * cos(
            angle + (wide(radians(target_phase)) - wide(radians(input_phase))),
        ),
{
    let turn = wide(minus(radians(target_phase), radians(input_phase)));
    assert(cos(angle + turn) == cos(angle) * cos(turn) - sin(angle) * sin(turn));
    let c = cos(angle);
    let s = sin(angle);
    let p = cos(turn);
    let q = sin(turn);
    lemma_real_associates(size, c, p);
    lemma_real_associates(size, s, q);
    lemma_real_distributes(size, c * p, s * q);
}

/// Correcting the phase of NTSC chroma turns it back by the measured burst phase:
/// where the uncorrected chroma and its quadrature stand for a sample of some size
/// and angle, the corrected sample is that of the angle less the burst phase. A
/// burst at the measured phase so comes to phase zero.
pub proof fn law_burst_phase_comes_to_zero<
    F: SosFloat + Single,
    X: Transforms<F>,
    M: FieldMeasures<F>,
>(
    value: spec_fn(F) -> real,
    wide: spec_fn(F::Wide) -> real,
    cos: spec_fn(real) -> real,
    sin: spec_fn(real) -> real,
    chroma: TapeChroma<F>,
    field: ChromaField<F::Wide>,
    spec: ChromaSpec<F>,
    transforms: X,
    measures: M,
    phase: F::Wide,
    size: real,
    angle: real,
    k: int,
) where F::Wide: Double
    requires
        exact_wide(value, wide),
        turns(wide, cos, sin),
        adds_angles(cos, sin),
        wide(radians(zero::<F::Wide>())) == 0real,
        spec.color_system == ColorSystem::Ntsc,
        !spec.disable_phase_correction,
        field.burst_phase_avg == Some(phase),
        field.phase_sequence is Some,
        ({
            let without = ChromaSpec { disable_phase_correction: true, ..spec };
            let plain = lifted(chroma, field, without, transforms, measures)->Ok_0;
            let quadrature = analytic_of(transforms, plain, None);
            &&& undo_each_other(value, transforms, plain.len())
            &&& 0 <= k < plain.len()
            &&& value(plain[k]) == size * cos(angle)
            &&& value(quadrature[k].im) == size * sin(angle)
        }),
    ensures
        lifted(chroma, field, spec, transforms, measures) is Ok,
        value(lifted(chroma, field, spec, transforms, measures)->Ok_0[k]) == size * cos(
            angle - wide(radians(phase)),
        ),
        angle == wide(radians(phase)) ==> value(
            lifted(chroma, field, spec, transforms, measures)->Ok_0[k],
        ) == size,
{
    let without = ChromaSpec { disable_phase_correction: true, ..spec };
    let plain = lifted(chroma, field, without, transforms, measures)->Ok_0;
    let analytic = analytic_of(transforms, plain, None);
    law_analytic_signal_keeps_its_real_part(value, transforms, plain);
    assert(levelled(chroma.samples@, field, without) == levelled(
        chroma.samples@,
        field,
        spec,
    ));
    assert(value(analytic[k].re) == value(plain[k]));
    law_phase_turns_by_the_difference(
        value,
        wide,
        cos,
        sin,
        analytic,
        phase,
        zero(),
        size,
        angle,
        k,
    );
    let turned = angle + (wide(radians(zero::<F::Wide>())) - wide(radians(phase)));
    assert(turned == angle - wide(radians(phase)));
    assert(size * 1real == size) by (nonlinear_arith);
}

/// NTSC chroma behind the burst and its margin of five samples is doubled on the
/// lines of the field; the burst, and all other chroma, stays.
pub proof fn law_only_the_picture_is_doubled<F: SosFloat>(
    value: spec_fn(F) -> real,
    chroma: Seq<F>,
    field: ChromaField<F::Wide>,
    spec: ChromaSpec<F>,
    line: int,
    column: int,
)
    requires
        exact(value),
        0 <= line < field.outlinecount,
        0 <= column < field.outlinelen,
        line * field.outlinelen + column < chroma.len(),
    ensures
        ({
            let i = line * field.outlinelen + column;
            let output = levelled(chroma, field, spec);
            &&& output.len() == chroma.len()
            &&& spec.color_system == ColorSystem::Ntsc && column >= spec.burst_area.1 + 5
                ==> value(output[i]) == 2real * value(chroma[i])
            &&& spec.color_system != ColorSystem::Ntsc || column < spec.burst_area.1 + 5
                ==> output[i] == chroma[i]
        }),
{
    let i = line * field.outlinelen + column;
    vstd::arithmetic::div_mod::lemma_fundamental_div_mod_converse(
        i,
        field.outlinelen as int,
        line,
        column,
    );
    assert(value(two::<F>()) == 2real);
    let sample = value(chroma[i]);
    let twice = value(two::<F>());
    assert(sample * twice == 2real * sample) by (nonlinear_arith)
        requires
            twice == 2real,
    ;
}

/// A sample is mixed with the carrier of the phase of its line: the last line of
/// the sequence that it lies on.
pub proof fn law_lines_take_their_own_carrier<F: SosFloat, M: FieldMeasures<F>>(
    value: spec_fn(F) -> real,
    chroma: Seq<F>,
    field: ChromaField<F::Wide>,
    sequence: Seq<LinePhase>,
    heterodyne: Seq<Vec<F>>,
    measures: M,
    line: int,
    i: int,
)
    requires
        exact(value),
        0 <= line < sequence.len(),
        0 <= i < chroma.len(),
        ({
            let (start, end) = line_stretch::<F, M>(
                measures,
                chroma.len(),
                field,
                sequence[line],
            );
            start <= i < end
        }),
        forall|k: int|
            line < k < sequence.len() ==> {
                let (start, end) = line_stretch::<F, M>(
                    measures,
                    chroma.len(),
                    field,
                    #[trigger] sequence[k],
                );
                !(start <= i < end)
            },
    ensures
        value(upconverted(chroma, field, sequence, heterodyne, measures)[i]) == value(chroma[i])
            * value(heterodyne[sequence[line].phase as int][i]),
    decreases sequence.len(),
{
    let last = sequence.len() - 1;
    let fewer = sequence.drop_last();
    assert(sequence[last] == sequence.last());
    lemma_upconverted_len(chroma, field, fewer, heterodyne, measures);
    if line < last {
        assert(fewer[line] == sequence[line]);
        assert forall|k: int| line < k < fewer.len() implies {
            let (start, end) = line_stretch::<F, M>(
                measures,
                chroma.len(),
                field,
                #[trigger] fewer[k],
            );
            !(start <= i < end)
        } by {
            assert(fewer[k] == sequence[k]);
        }
        law_lines_take_their_own_carrier(
            value,
            chroma,
            field,
            fewer,
            heterodyne,
            measures,
            line,
            i,
        );
    }
}

proof fn lemma_upconverted_len<F: SosFloat, M: FieldMeasures<F>>(
    chroma: Seq<F>,
    field: ChromaField<F::Wide>,
    sequence: Seq<LinePhase>,
    heterodyne: Seq<Vec<F>>,
    measures: M,
)
    ensures
        upconverted(chroma, field, sequence, heterodyne, measures).len() == chroma.len(),
    decreases sequence.len(),
{
    if sequence.len() > 0 {
        lemma_upconverted_len(chroma, field, sequence.drop_last(), heterodyne, measures);
    }
}

/// A line lies where its number says: lines are counted from 1 behind the offset
/// of the field, and each has the same number of samples.
pub proof fn law_lines_lie_one_after_the_other<F: SosFloat, M: FieldMeasures<F>>(
    field: ChromaField<F::Wide>,
    measures: M,
    len: nat,
    line: LinePhase,
    row: int,
)
    requires
        field.addressable(line.linenumber as int),
        line.linenumber == field.lineoffset + 1 + row,
        0 <= row,
        (row + 1) * field.outlinelen <= len <= isize::MAX,
        forall|n: usize, bound: isize|
            0 <= bound <= n ==> #[trigger] place_of::<F, M>(measures, n, bound) == bound,
    ensures
        line_stretch::<F, M>(measures, len, field, line) == (
            row * field.outlinelen,
            (row + 1) * field.outlinelen,
        ),
{
    let start = field.start_of(line.linenumber as int);
    assert(start == row * field.outlinelen);
    assert((row + 1) * field.outlinelen == row * field.outlinelen + field.outlinelen)
        by (nonlinear_arith);
    assert(0 <= row * field.outlinelen) by (nonlinear_arith)
        requires
            0 <= row,
            field.outlinelen >= 0,
    ;
}

/// A sample behind the lead-in is written as a level whose distance from the
/// silent level is to the sample as the reference is to the level of the line's
/// burst; without a burst it is the sample itself.
pub proof fn law_burst_comes_to_the_reference<F: SosFloat + Single, M: FieldMeasures<F>>(
    value: spec_fn(F) -> real,
    wide: spec_fn(F::Wide) -> real,
    chroma: Seq<F>,
    burst_abs_ref: F,
    burststart: int,
    burstend: int,
    linelength: nat,
    lines: nat,
    measures: M,
    line: int,
    column: int,
)
    requires
        exact_wide(value, wide),
        value(from_bits::<F>(SIGNED_SAMPLE_MAX)) == 32767real,
        16 <= line < lines,
        0 <= column < linelength,
        linelength * lines <= chroma.len(),
        0 <= burststart <= burstend <= linelength,
    ensures
        ({
            let i = linelength * line + column;
            let samples = chroma.subrange(linelength * line, linelength * line + linelength);
            let burst = wide(rms_of(measures, samples.subrange(burststart, burstend)));
            let written = accumulated(
                chroma,
                burst_abs_ref,
                burststart,
                burstend,
                linelength,
                lines,
                measures,
            )[i];
            exists|level: F|
                {
                    &&& written == #[trigger] to_i64(level) as u16
                    &&& burst != 0real ==> (value(level) - 32767real) * burst == value(chroma[i])
                        * value(burst_abs_ref)
                    &&& burst == 0real ==> value(level) - 32767real == value(chroma[i])
                }
        }),
{
    let i = linelength * line + column;
    assert(linelength * line == line * linelength) by (nonlinear_arith);
    vstd::arithmetic::div_mod::lemma_fundamental_div_mod_converse(
        i,
        linelength as int,
        line,
        column,
    );
    assert(0 <= i < linelength * lines) by (nonlinear_arith)
        requires
            i == linelength * line + column,
            0 <= line < lines,
            0 <= column < linelength,
    ;
    let samples = line_of(chroma, line, linelength);
    let mean = rms_of(measures, samples.subrange(burststart, burstend));
    let scale = burst_scale(samples, burst_abs_ref, burststart, burstend, measures);
    let level = plus(times(chroma[i], scale), from_bits::<F>(SIGNED_SAMPLE_MAX));
    let burst = wide(mean);
    let sample = value(chroma[i]);
    assert(is_zero(mean) <==> burst == 0real);
    if burst == 0real {
        assert(sample * 1real == sample) by (nonlinear_arith);
    } else {
        assert(value(narrowed::<F>(mean)) == burst);
        assert(value(scale) * burst == value(burst_abs_ref));
        lemma_real_associates(sample, value(scale), burst);
    }
    let written = accumulated(
        chroma,
        burst_abs_ref,
        burststart,
        burstend,
        linelength,
        lines,
        measures,
    )[i];
    assert(written == to_i64(level) as u16);
}

/// SECAM chroma is decoded from what the same field gives without SECAM: lifted
/// and cleaned.
pub proof fn law_secam_follows_cleaning<
    F: SosFloat + Single,
    X: Transforms<F>,
    D: DynamicFilter<F>,
    M: FieldMeasures<F>,
>(
    chroma: TapeChroma<F>,
    field: ChromaField<F::Wide>,
    spec: ChromaSpec<F>,
    transforms: X,
    runtime: FilterRuntime<D>,
    measures: M,
) where F::Wide: Double
    requires
        spec.secam_mode is Some,
    ensures
        ({
            let without = ChromaSpec { secam_mode: None, ..spec };
            let output = unscaled(chroma, field, spec, transforms, runtime, measures);
            match unscaled(chroma, field, without, transforms, runtime, measures) {
                Err(error) => output == Err::<Seq<F>, ChromaError>(error),
                Ok(clean) => output == secam_decoded(clean, field, spec, transforms, runtime),
            }
        }),
{
    let without = ChromaSpec { secam_mode: None, ..spec };
    assert(lifted(chroma, field, without, transforms, measures) == lifted(
        chroma,
        field,
        spec,
        transforms,
        measures,
    ));
    if let Ok(uphet) = lifted(chroma, field, spec, transforms, measures) {
        assert(cleaned(uphet, field, without, runtime) == cleaned(uphet, field, spec, runtime));
    }
}

/// The phase of the burst is not asked for unless NTSC chroma is corrected: any
/// other chroma comes out alike for every phase.
pub proof fn law_phase_matters_only_where_it_is_corrected<
    F: SosFloat,
    X: Transforms<F>,
    M: FieldMeasures<F>,
>(
    chroma: TapeChroma<F>,
    field: ChromaField<F::Wide>,
    phase: Option<F::Wide>,
    spec: ChromaSpec<F>,
    transforms: X,
    measures: M,
) where F::Wide: Double
    requires
        spec.color_system != ColorSystem::Ntsc || spec.disable_phase_correction,
    ensures
        lifted(chroma, field, spec, transforms, measures) == lifted(
            chroma,
            (ChromaField { burst_phase_avg: phase, ..field }),
            spec,
            transforms,
            measures,
        ),
{
    let other = ChromaField { burst_phase_avg: phase, ..field };
    if let Some(sequence) = field.phase_sequence {
        let raised = levelled(chroma.samples@, field, spec);
        assert(levelled(chroma.samples@, other, spec) == raised);
        lemma_phase_moves_no_line(raised, field, other, sequence@, chroma.heterodyne@, measures);
    }
}

proof fn lemma_phase_moves_no_line<F: SosFloat, M: FieldMeasures<F>>(
    chroma: Seq<F>,
    field: ChromaField<F::Wide>,
    other: ChromaField<F::Wide>,
    sequence: Seq<LinePhase>,
    heterodyne: Seq<Vec<F>>,
    measures: M,
)
    requires
        other.lineoffset == field.lineoffset,
        other.outlinelen == field.outlinelen,
    ensures
        upconverted(chroma, field, sequence, heterodyne, measures) == upconverted(
            chroma,
            other,
            sequence,
            heterodyne,
            measures,
        ),
    decreases sequence.len(),
{
    if sequence.len() > 0 {
        lemma_phase_moves_no_line(
            chroma,
            field,
            other,
            sequence.drop_last(),
            heterodyne,
            measures,
        );
    }
}

/// A field without SECAM is decoded where it has lines behind the lead-in and all
/// of them lie in it, where the burst and its margin lie on the line, where each
/// line of the sequence has a carrier, and where it is long enough for its filter.
pub proof fn law_suited_fields_are_ready<
    F: SosFloat + Single,
    X: Transforms<F>,
    D: DynamicFilter<F>,
    M: FieldMeasures<F>,
>(
    chroma: TapeChroma<F>,
    field: ChromaField<F::Wide>,
    spec: ChromaSpec<F>,
    transforms: X,
    runtime: FilterRuntime<D>,
    measures: M,
) where F::Wide: Double
    requires
        spec.secam_mode is None,
        field.outlinecount > 16,
        field.outlinelen > 0,
        field.outlinelen * field.outlinecount <= chroma.samples.len(),
        0 <= spec.burst_area.0 <= spec.burst_area.1,
        spec.burst_area.1 + 5 <= field.outlinelen,
        filterable(spec.filter_final@, chroma.samples@.len()),
        field.phase_sequence is Some ==> forall|k: int|
            0 <= k < field.phase_sequence->0.len() ==> {
                let line = #[trigger] field.phase_sequence->0[k];
                &&& field.addressable(line.linenumber as int)
                &&& line.phase < chroma.heterodyne.len()
            },
        forall|k: int|
            0 <= k < chroma.heterodyne.len() ==> (#[trigger] chroma.heterodyne[k]).len()
                >= chroma.samples.len(),
        forall|n: usize, bound: isize| #[trigger] place_of::<F, M>(measures, n, bound) <= n,
    ensures
        chroma_ready(chroma, field, spec, transforms, runtime, measures),
{
    assert(field.outlinelen * field.outlinecount == field.outlinecount * field.outlinelen)
        by (nonlinear_arith);
    if field.phase_sequence is Some {
        let sequence = field.phase_sequence->0@;
        let raised = levelled(chroma.samples@, field, spec);
        assert(raised.len() == chroma.samples.len());
        assert forall|k: int| 0 <= k < sequence.len() implies line_has_carrier(
            raised,
            field,
            #[trigger] sequence[k],
            chroma.heterodyne@,
            measures,
        ) by {
            assert(field.phase_sequence->0[k] == sequence[k]);
            assert(chroma.heterodyne[sequence[k].phase as int].len() >= chroma.samples.len());
        }
    }
}

/// Chroma of every colour system is decoded where it is to be written, and only
/// there.
pub proof fn law_every_colour_is_wanted<F: SosFloat>(spec: ChromaSpec<F>)
    ensures
        wants_chroma(spec) <==> {
            &&& spec.write_chroma
            &&& match spec.color_system {
                ColorSystem::Ntsc => true,
                ColorSystem::Pal => true,
                ColorSystem::Secam => true,
                ColorSystem::Monochrome => false,
            }
        },
{
}

/// Where the carrier of a field is followed, its chroma is what the tape answered
/// when it filtered its downscaled chroma, shifted by a quarter of the output rate
/// in MHz without the part behind the point. Where it is not, the chroma is the
/// downscaled chroma itself.
pub proof fn law_field_is_filtered_where_it_is_followed<F: SosFloat, C: ChromaTape<F>>(
    wide: spec_fn(F::Wide) -> real,
    tape: C,
    spec: ChromaSpec<F>,
    end: C,
    got: TapeChroma<F>,
) where F::Wide: Double
    requires
        exact(wide),
        wide(double_count::<F::Wide>(10)) == 10real,
        wide(double_count::<F::Wide>(40)) == 40real,
        0real <= wide(spec.outfreq),
        forall|a: F::Wide|
            0real <= wide(a) ==> (#[trigger] to_isize(a)) as int as real <= wide(a) && wide(a) < (
            to_isize(a) as int as real) + 1real,
        field_acquires(tape, spec, end, Ok::<TapeChroma<F>, C::Error>(got)),
    ensures
        !spec.chroma_afc ==> call_ensures(
            C::downscale,
            (tape,),
            (end, Ok::<Vec<F>, C::Error>(got.samples)),
        ),
        spec.chroma_afc ==> exists|
            scaled: C,
            chroma: Vec<F>,
            found: C,
            bandpass: C::Bandpass,
            shift: isize,
        |
            {
                &&& #[trigger] call_ensures(
                    C::downscale,
                    (tape,),
                    (scaled, Ok::<Vec<F>, C::Error>(chroma)),
                )
                &&& #[trigger] call_ensures(
                    C::filtered,
                    (&found, &chroma, &bandpass, shift),
                    got.samples,
                )
                &&& 4real * (shift as int as real) <= wide(spec.outfreq)
                &&& wide(spec.outfreq) < 4real * (shift as int as real) + 4real
            },
{
    let shift = tracking_shift(spec.outfreq);
    if spec.chroma_afc {
        law_followed_chroma_is_filtered(tape, shift, end, got);
        law_shift_is_a_quarter_of_the_rate(wide, spec.outfreq);
    } else {
        law_other_chroma_is_only_downscaled(tape, shift, end, got);
    }
}

/// A decoded field holds the chroma before normalization, each sample behind the
/// lead-in brought from the level of the burst of its line to the reference.
pub proof fn law_decoded_field_is_normalized<
    F: SosFloat + Single,
    X: Transforms<F>,
    D: DynamicFilter<F>,
    M: FieldMeasures<F>,
>(
    value: spec_fn(F) -> real,
    wide: spec_fn(F::Wide) -> real,
    chroma: TapeChroma<F>,
    field: ChromaField<F::Wide>,
    spec: ChromaSpec<F>,
    transforms: X,
    runtime: FilterRuntime<D>,
    measures: M,
    line: int,
    column: int,
) where F::Wide: Double
    requires
        exact_wide(value, wide),
        value(from_bits::<F>(SIGNED_SAMPLE_MAX)) == 32767real,
        unscaled(chroma, field, spec, transforms, runtime, measures) is Ok,
        spec.burst_abs_ref is Some,
        16 <= line < field.outlinecount,
        0 <= column < field.outlinelen,
        field.outlinelen * field.outlinecount <= unscaled(
            chroma,
            field,
            spec,
            transforms,
            runtime,
            measures,
        )->Ok_0.len(),
        0 <= spec.burst_area.0 <= spec.burst_area.1 <= field.outlinelen,
    ensures
        ({
            let uphet = unscaled(chroma, field, spec, transforms, runtime, measures)->Ok_0;
            let decoded = chroma_decoded(chroma, field, spec, transforms, runtime, measures);
            let base = field.outlinelen * line;
            let i = base + column;
            let burst = wide(
                rms_of(
                    measures,
                    uphet.subrange(base + spec.burst_area.0, base + spec.burst_area.1),
                ),
            );
            &&& decoded is Ok
            &&& decoded->Ok_0.len() == uphet.len()
            &&& exists|level: F|
                {
                    &&& decoded->Ok_0[i] == #[trigger] to_i64(level) as u16
                    &&& burst != 0real ==> (value(level) - 32767real) * burst == value(uphet[i])
                        * value(spec.burst_abs_ref->0)
                    &&& burst == 0real ==> value(level) - 32767real == value(uphet[i])
                }
        }),
{
    let uphet = unscaled(chroma, field, spec, transforms, runtime, measures)->Ok_0;
    let base = field.outlinelen * line;
    law_burst_comes_to_the_reference(
        value,
        wide,
        uphet,
        spec.burst_abs_ref->0,
        spec.burst_area.0 as int,
        spec.burst_area.1 as int,
        field.outlinelen as nat,
        field.outlinecount as nat,
        measures,
        line,
        column,
    );
    assert(base + field.outlinelen <= uphet.len() && 0 <= base) by (nonlinear_arith)
        requires
            base == field.outlinelen * line,
            0 <= line < field.outlinecount,
            field.outlinelen * field.outlinecount <= uphet.len(),
    ;
    assert(uphet.subrange(base, base + field.outlinelen).subrange(
        spec.burst_area.0 as int,
        spec.burst_area.1 as int,
    ) =~= uphet.subrange(base + spec.burst_area.0, base + spec.burst_area.1));
}

/// Where the phase is not corrected, each sample of a line is the chroma from the
/// tape times the carrier of the line's phase, doubled where NTSC chroma lies
/// behind the burst and its margin.
pub proof fn law_lifted_chroma_is_mixed<
    F: SosFloat,
    X: Transforms<F>,
    M: FieldMeasures<F>,
>(
    value: spec_fn(F) -> real,
    chroma: TapeChroma<F>,
    field: ChromaField<F::Wide>,
    spec: ChromaSpec<F>,
    transforms: X,
    measures: M,
    line: int,
    row: int,
    column: int,
) where F::Wide: Double
    requires
        exact(value),
        spec.color_system != ColorSystem::Ntsc || spec.disable_phase_correction,
        field.phase_sequence is Some,
        0 <= line < field.phase_sequence->0.len(),
        0 <= row < field.outlinecount,
        0 <= column < field.outlinelen,
        row * field.outlinelen + column < chroma.samples.len(),
        ({
            let i = row * field.outlinelen + column;
            let sequence = field.phase_sequence->0@;
            let len = chroma.samples@.len();
            let (start, end) = line_stretch::<F, M>(measures, len, field, sequence[line]);
            &&& start <= i < end
            &&& forall|k: int|
                line < k < sequence.len() ==> {
                    let (start, end) = line_stretch::<F, M>(
                        measures,
                        len,
                        field,
                        #[trigger] sequence[k],
                    );
                    !(start <= i < end)
                }
        }),
    ensures
        ({
            let i = row * field.outlinelen + column;
            let carrier = chroma.heterodyne[field.phase_sequence->0[line].phase as int];
            let product = value(chroma.samples[i]) * value(carrier[i]);
            let output = lifted(chroma, field, spec, transforms, measures);
            &&& output is Ok
            &&& value(output->Ok_0[i]) == if spec.color_system == ColorSystem::Ntsc && column
                >= spec.burst_area.1 + 5 {
                2real * product
            } else {
                product
            }
        }),
{
    let i = row * field.outlinelen + column;
    let sequence = field.phase_sequence->0@;
    let raised = levelled(chroma.samples@, field, spec);
    law_only_the_picture_is_doubled(value, chroma.samples@, field, spec, row, column);
    assert(0 <= i) by (nonlinear_arith)
        requires
            i == row * field.outlinelen + column,
            0 <= row,
            0 <= column,
    ;
    law_lines_take_their_own_carrier(
        value,
        raised,
        field,
        sequence,
        chroma.heterodyne@,
        measures,
        line,
        i,
    );
    let sample = value(chroma.samples[i]);
    let carrier = value(chroma.heterodyne[sequence[line].phase as int][i]);
    lemma_real_associates(2real, sample, carrier);
}

} // verus!
