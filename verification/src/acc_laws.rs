//! What burst normalization makes of a field's levels.
use vstd::prelude::*;

use crate::chroma::{
    accumulated, burst_scale, encoded, line_at, line_of, rms_of, FieldMeasures, STARTING_LINE,
    ZERO_LEVEL,
};
use crate::reals::lemma_real_associates;
use crate::sample::{
    exact_wide, from_bits, is_zero, narrowed, one, over, plus, times, to_i64, Single, SosFloat,
};

verus! {

/// The samples of the second signal are `factor` times those of the first.
pub open spec fn is_scaled<F>(
    value: spec_fn(F) -> real,
    factor: real,
    signal: Seq<F>,
    other: Seq<F>,
) -> bool {
    signal.len() == other.len() && forall|k: int|
        0 <= k < signal.len() ==> value(#[trigger] other[k]) == factor * value(signal[k])
}

/// The level of a signal that is `factor` times as strong is `factor` times the
/// level.
pub open spec fn level_scales<F: SosFloat, M: FieldMeasures<F>>(
    value: spec_fn(F) -> real,
    wide: spec_fn(F::Wide) -> real,
    measures: M,
) -> bool {
    forall|factor: real, signal: Seq<F>, other: Seq<F>|
        0real < factor && 0 < signal.len() && #[trigger] is_scaled(
            value,
            factor,
            signal,
            other,
        ) ==> wide(
            rms_of(measures, other),
        ) == factor * wide(rms_of(measures, signal))
}

/// Truncation depends only on the number that a sample stands for.
pub open spec fn truncates_numbers<F: Single>(value: spec_fn(F) -> real) -> bool {
    forall|a: F, b: F|
        value(a) == value(b) ==> #[trigger] to_i64(a) == #[trigger] to_i64(b)
}

/// The lead-in, and what lies behind the last line, is silent whatever the
/// samples are.
pub proof fn law_lead_in_is_silent<F: SosFloat + Single, M: FieldMeasures<F>>(
    chroma: Seq<F>,
    burst_abs_ref: F,
    burststart: int,
    burstend: int,
    linelength: nat,
    lines: nat,
    measures: M,
    i: int,
)
    requires
        0 <= i < chroma.len(),
        i < STARTING_LINE * linelength || lines * linelength <= i,
    ensures
        accumulated(
            chroma,
            burst_abs_ref,
            burststart,
            burstend,
            linelength,
            lines,
            measures,
        )[i] == ZERO_LEVEL,
{
    if linelength > 0 {
        let len = linelength as int;
        let count = lines as int;
        if i < STARTING_LINE * linelength {
            assert(i / len < 16) by (nonlinear_arith)
                requires
                    0 <= i < 16 * len,
                    len > 0,
            ;
        } else {
            assert(i / len >= count) by (nonlinear_arith)
                requires
                    count * len <= i,
                    len > 0,
            ;
        }
    }
}

proof fn lemma_level_cancels(
    factor: real,
    sample: real,
    reference: real,
    mean: real,
    scale: real,
    other_scale: real,
)
    requires
        0real < factor,
        mean != 0real,
        scale * mean == reference,
        other_scale * (factor * mean) == reference,
    ensures
        (factor * sample) * other_scale == sample * scale,
{
    lemma_real_associates(other_scale, factor, mean);
    let product = other_scale * factor;
    assert(product == scale) by (nonlinear_arith)
        requires
            product * mean == scale * mean,
            mean != 0real,
    ;
    assert((factor * sample) * other_scale == sample * (other_scale * factor)) by (nonlinear_arith);
}

proof fn lemma_sample_encodes_alike<F: SosFloat + Single, M: FieldMeasures<F>>(
    value: spec_fn(F) -> real,
    wide: spec_fn(F::Wide) -> real,
    line: Seq<F>,
    other: Seq<F>,
    factor: real,
    burst_abs_ref: F,
    burststart: int,
    burstend: int,
    measures: M,
    column: int,
)
    requires
        exact_wide(value, wide),
        truncates_numbers(value),
        level_scales(value, wide, measures),
        0real < factor,
        is_scaled(value, factor, line, other),
        0 <= burststart < burstend <= line.len(),
        0 <= column < line.len(),
        is_zero(rms_of(measures, line.subrange(burststart, burstend))) ==> factor == 1real,
    ensures
        encoded(
            line[column],
            burst_scale(line, burst_abs_ref, burststart, burstend, measures),
        ) == encoded(
            other[column],
            burst_scale(other, burst_abs_ref, burststart, burstend, measures),
        ),
{
    let burst = line.subrange(burststart, burstend);
    let other_burst = other.subrange(burststart, burstend);
    assert(is_scaled(value, factor, burst, other_burst)) by {
        assert forall|k: int| 0 <= k < burst.len() implies value(#[trigger] other_burst[k])
            == factor * value(burst[k]) by {
            assert(other_burst[k] == other[burststart + k]);
        }
    }
    let mean = rms_of(measures, burst);
    let other_mean = rms_of(measures, other_burst);
    assert(wide(other_mean) == factor * wide(mean));
    assert(value(other[column]) == factor * value(line[column]));
    let scale = burst_scale(line, burst_abs_ref, burststart, burstend, measures);
    let other_scale = burst_scale(other, burst_abs_ref, burststart, burstend, measures);
    let x = value(line[column]);
    if is_zero(mean) {
        assert(wide(mean) == 0real);
        assert(factor * 0real == 0real) by (nonlinear_arith);
        assert(is_zero(other_mean));
        assert(scale == one::<F>() && other_scale == one::<F>());
        assert(1real * x == x) by (nonlinear_arith);
    } else {
        let m = wide(mean);
        assert(m != 0real);
        assert(factor * m != 0real) by (nonlinear_arith)
            requires
                0real < factor,
                m != 0real,
        ;
        assert(!is_zero(other_mean));
        assert(value(narrowed::<F>(mean)) == m);
        assert(value(narrowed::<F>(other_mean)) == factor * m);
        assert(scale == over(burst_abs_ref, narrowed::<F>(mean)));
        assert(other_scale == over(burst_abs_ref, narrowed::<F>(other_mean)));
        lemma_level_cancels(
            factor,
            x,
            value(burst_abs_ref),
            m,
            value(scale),
            value(other_scale),
        );
    }
    let shift = from_bits::<F>(crate::chroma::SIGNED_SAMPLE_MAX);
    let level = plus(times(line[column], scale), shift);
    let other_level = plus(times(other[column], other_scale), shift);
    assert(value(level) == value(other_level));
    assert(to_i64(level) == to_i64(other_level));
}

/// Rounding aside, the level of a line does not matter, nor does the lead-in:
/// a field whose lines are each a positive multiple of another's is encoded
/// alike. Lines without a burst keep their level, so they must be the same.
pub proof fn law_line_levels_do_not_matter<F: SosFloat + Single, M: FieldMeasures<F>>(
    value: spec_fn(F) -> real,
    wide: spec_fn(F::Wide) -> real,
    chroma: Seq<F>,
    other: Seq<F>,
    factors: Seq<real>,
    burst_abs_ref: F,
    burststart: int,
    burstend: int,
    linelength: nat,
    lines: nat,
    measures: M,
)
    requires
        exact_wide(value, wide),
        truncates_numbers(value),
        level_scales(value, wide, measures),
        chroma.len() == other.len(),
        linelength * lines <= chroma.len(),
        0 <= burststart < burstend <= linelength,
        factors.len() == lines,
        forall|line: int|
            STARTING_LINE <= line < lines ==> {
                &&& 0real < #[trigger] factors[line]
                &&& is_scaled(
                    value,
                    factors[line],
                    line_of(chroma, line, linelength),
                    line_of(other, line, linelength),
                )
                &&& is_zero(
                    rms_of(
                        measures,
                        line_of(chroma, line, linelength).subrange(burststart, burstend),
                    ),
                ) ==> factors[line] == 1real
            },
    ensures
        accumulated(
            chroma,
            burst_abs_ref,
            burststart,
            burstend,
            linelength,
            lines,
            measures,
        ) == accumulated(
            other,
            burst_abs_ref,
            burststart,
            burstend,
            linelength,
            lines,
            measures,
        ),
{
    let output = accumulated(
        chroma,
        burst_abs_ref,
        burststart,
        burstend,
        linelength,
        lines,
        measures,
    );
    let other_output = accumulated(
        other,
        burst_abs_ref,
        burststart,
        burstend,
        linelength,
        lines,
        measures,
    );
    assert forall|i: int| 0 <= i < output.len() implies #[trigger] output[i]
        == other_output[i] by {
        let line = line_at(i, linelength);
        if linelength > 0 && STARTING_LINE <= line < lines {
            let len = linelength as int;
            vstd::arithmetic::div_mod::lemma_fundamental_div_mod(i, len);
            let column = i % len;
            assert(len * line + len <= len * lines) by (nonlinear_arith)
                requires
                    line < lines,
                    len > 0,
            ;
            assert(0 <= len * line) by (nonlinear_arith)
                requires
                    0 <= line,
                    len > 0,
            ;
            assert(0real < factors[line]);
            assert(line_of(chroma, line, linelength)[column] == chroma[i]);
            assert(line_of(other, line, linelength)[column] == other[i]);
            lemma_sample_encodes_alike(
                value,
                wide,
                line_of(chroma, line, linelength),
                line_of(other, line, linelength),
                factors[line],
                burst_abs_ref,
                burststart,
                burstend,
                measures,
                column,
            );
        }
    }
    assert(output =~= other_output);
}

/// Shifting both a sample and a level cancels, exactly: a sample brought from a
/// level to the reference does not depend on a shift of both. Multiplying by a
/// power of two is such a shift on machine numbers, as long as all that is
/// computed stays normal; `normal` says for which samples and levels it does.
pub open spec fn shift_cancels<F: Single>(
    shift: spec_fn(F) -> F,
    normal: spec_fn(F) -> bool,
    reference: F,
) -> bool {
    forall|a: F, b: F|
        normal(a) && normal(b) ==> #[trigger] times(shift(a), over(reference, shift(b))) == times(
            a,
            over(reference, b),
        )
}

/// The second line is the first, shifted, and so is the level of its burst. There
/// is a burst, and all is normal.
pub open spec fn is_shifted_line<F: SosFloat + Single, M: FieldMeasures<F>>(
    shift: spec_fn(F) -> F,
    normal: spec_fn(F) -> bool,
    line: Seq<F>,
    other: Seq<F>,
    burststart: int,
    burstend: int,
    measures: M,
) -> bool {
    let mean = rms_of(measures, line.subrange(burststart, burstend));
    let other_mean = rms_of(measures, other.subrange(burststart, burstend));
    &&& other == line.map_values(shift)
    &&& forall|k: int| 0 <= k < line.len() ==> normal(#[trigger] line[k])
    &&& !is_zero(mean)
    &&& !is_zero(other_mean)
    &&& normal(narrowed::<F>(mean))
    &&& narrowed::<F>(other_mean) == shift(narrowed::<F>(mean))
}

/// The level of a line does not matter, exactly, where it changes by a shift that
/// cancels, such as a power of two; nor does the lead-in. Each line has its own
/// shift, or is the same in both fields.
pub proof fn law_shifted_lines_encode_alike<F: SosFloat + Single, M: FieldMeasures<F>>(
    chroma: Seq<F>,
    other: Seq<F>,
    shifts: Seq<spec_fn(F) -> F>,
    normal: spec_fn(F) -> bool,
    burst_abs_ref: F,
    burststart: int,
    burstend: int,
    linelength: nat,
    lines: nat,
    measures: M,
)
    requires
        chroma.len() == other.len(),
        linelength * lines <= chroma.len(),
        shifts.len() == lines,
        forall|line: int|
            STARTING_LINE <= line < lines ==> line_of(other, line, linelength) == line_of(
                chroma,
                line,
                linelength,
            ) || (shift_cancels(#[trigger] shifts[line], normal, burst_abs_ref) && is_shifted_line(
                shifts[line],
                normal,
                line_of(chroma, line, linelength),
                line_of(other, line, linelength),
                burststart,
                burstend,
                measures,
            )),
    ensures
        accumulated(
            chroma,
            burst_abs_ref,
            burststart,
            burstend,
            linelength,
            lines,
            measures,
        ) == accumulated(
            other,
            burst_abs_ref,
            burststart,
            burstend,
            linelength,
            lines,
            measures,
        ),
{
    let output = accumulated(
        chroma,
        burst_abs_ref,
        burststart,
        burstend,
        linelength,
        lines,
        measures,
    );
    let other_output = accumulated(
        other,
        burst_abs_ref,
        burststart,
        burstend,
        linelength,
        lines,
        measures,
    );
    assert forall|i: int| 0 <= i < output.len() implies #[trigger] output[i]
        == other_output[i] by {
        let line = line_at(i, linelength);
        if linelength > 0 && STARTING_LINE <= line < lines {
            let len = linelength as int;
            vstd::arithmetic::div_mod::lemma_fundamental_div_mod(i, len);
            let column = i % len;
            assert(len * line + len <= len * lines) by (nonlinear_arith)
                requires
                    line < lines,
                    len > 0,
            ;
            assert(0 <= len * line) by (nonlinear_arith)
                requires
                    0 <= line,
                    len > 0,
            ;
            let shift = shifts[line];
            let here = line_of(chroma, line, linelength);
            let there = line_of(other, line, linelength);
            assert(here[column] == chroma[i]);
            assert(there[column] == other[i]);
            if there != here {
                let mean = rms_of(measures, here.subrange(burststart, burstend));
                let level = narrowed::<F>(mean);
                assert(normal(here[column]) && normal(level));
                assert(times(shift(here[column]), over(burst_abs_ref, shift(level))) == times(
                    here[column],
                    over(burst_abs_ref, level),
                ));
            }
        }
    }
    assert(output =~= other_output);
}

} // verus!
