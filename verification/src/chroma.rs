//! Chroma of a field, from the colour-under signal to encoded samples.
use vstd::arithmetic::div_mod::lemma_fundamental_div_mod_converse;
use vstd::prelude::*;

use crate::complex::Complex;
use crate::field::{ChromaError, ChromaField, LinePhase};
use crate::sample::{
    cosine, from_bits, functional, functional_double, functional_single, functional_sos, is_zero,
    lemma_functional_sos, minus, narrowed, one, over, plus, radians, sine, times, to_i64, two,
    zero, Double, Sample, Single, SosFloat,
};

verus! {

/// Lines before this one carry no burst to normalize by.
pub const STARTING_LINE: usize = 16;

/// Encoded level of a silent sample.
pub const ZERO_LEVEL: u16 = 32767;

/// Bit pattern of the silent level, 32767.
pub const SIGNED_SAMPLE_MAX: u32 = 0x46FF_FE00;

/// Samples kept as they are behind the burst.
pub const BURST_MARGIN: usize = 5;

/// The rotation between two phases in degrees, as a point on the unit circle.
pub open spec fn rotation<F: SosFloat>(input_phase: F::Wide, target_phase: F::Wide) -> Complex<
    F,
> where F::Wide: Double {
    let adjustment = minus(radians(target_phase), radians(input_phase));
    Complex { re: narrowed::<F>(cosine(adjustment)), im: narrowed::<F>(sine(adjustment)) }
}

/// The real part of each sample rotated.
pub open spec fn rotated<F: Sample>(input: Seq<Complex<F>>, rotation: Complex<F>) -> Seq<F> {
    input.map_values(
        |z: Complex<F>| minus(times(z.re, rotation.re), times(z.im, rotation.im)),
    )
}

/// Rotates an analytic signal so that `input_phase` becomes `target_phase`, both
/// in degrees, and keeps the real part.
pub fn adjust_phase<F: SosFloat>(
    input_data: &[Complex<F>],
    output_data: &mut Vec<F>,
    input_phase: F::Wide,
    target_phase: F::Wide,
) where F::Wide: Double
    requires
        functional_sos::<F>(),
        functional_double::<F::Wide>(),
        input_data.len() == old(output_data).len(),
    ensures
        final(output_data)@ == rotated(
            input_data@,
            rotation::<F>(input_phase, target_phase),
        ),
{
    proof {
        lemma_functional_sos::<F>();
    }
    let adjustment: F::Wide = minus(radians(target_phase), radians(input_phase));
    let rotation_re: F = narrowed(cosine(adjustment));
    let rotation_im: F = narrowed(sine(adjustment));
    let mut index: usize = 0;
    while index < input_data.len()
        invariant
            functional::<F>(),
            index <= input_data.len(),
            output_data.len() == input_data.len(),
            forall|k: int|
                0 <= k < index ==> output_data[k] == minus(
                    times(input_data[k].re, rotation_re),
                    times(input_data[k].im, rotation_im),
                ),
        decreases input_data.len() - index,
    {
        let z: Complex<F> = input_data[index];
        output_data[index] = minus(times(z.re, rotation_re), times(z.im, rotation_im));
        index = index + 1;
    }
    proof {
        assert(output_data@ =~= rotated(
            input_data@,
            rotation::<F>(input_phase, target_phase),
        ));
    }
}

/// Measures of the field that the decoder around this library supplies.
pub trait FieldMeasures<F: SosFloat> {
    /// Root mean square of the samples.
    fn rms(&self, samples: &[F]) -> F::Wide;

    /// The place in a sequence of `len` samples that a bound stands for, which
    /// may be negative or beyond the end.
    fn resolve_slice_bound(&self, len: usize, bound: isize) -> usize;
}

/// `level` is what the measure may answer.
pub open spec fn rms_answers<F: SosFloat, M: FieldMeasures<F>>(
    measures: M,
    samples: Seq<F>,
    level: F::Wide,
) -> bool {
    exists|x: &[F]| #[trigger] call_ensures(M::rms, (&measures, x), level) && x@ == samples
}

/// The level of the samples.
pub open spec fn rms_of<F: SosFloat, M: FieldMeasures<F>>(
    measures: M,
    samples: Seq<F>,
) -> F::Wide {
    choose|level: F::Wide| rms_answers(measures, samples, level)
}

/// The place that a bound stands for.
pub open spec fn place_of<F: SosFloat, M: FieldMeasures<F>>(
    measures: M,
    len: usize,
    bound: isize,
) -> usize {
    choose|place: usize| call_ensures(M::resolve_slice_bound, (&measures, len, bound), place)
}

/// The measures answer the same for the same input.
#[verifier::opaque]
pub open spec fn functional_measures<F: SosFloat, M: FieldMeasures<F>>(measures: M) -> bool {
    &&& forall|x: Seq<F>, y: F::Wide, z: F::Wide|
        #![trigger rms_answers(measures, x, y), rms_answers(measures, x, z)]
        rms_answers(measures, x, y) && rms_answers(measures, x, z) ==> y == z
    &&& forall|len: usize, bound: isize, y: usize, z: usize|
        #![trigger
            call_ensures(M::resolve_slice_bound, (&measures, len, bound), y),
            call_ensures(M::resolve_slice_bound, (&measures, len, bound), z)]
        call_ensures(M::resolve_slice_bound, (&measures, len, bound), y) && call_ensures(
            M::resolve_slice_bound,
            (&measures, len, bound),
            z,
        ) ==> y == z
}

/// The level of the samples.
fn measure_rms<F: SosFloat, M: FieldMeasures<F>>(measures: &M, samples: &[F]) -> (level: F::Wide)
    requires
        functional_measures::<F, M>(*measures),
    ensures
        level == rms_of(*measures, samples@),
{
    reveal(functional_measures);
    let level: F::Wide = measures.rms(samples);
    proof {
        assert(rms_answers(*measures, samples@, level));
    }
    level
}

/// The place that a bound stands for.
fn resolve_bound<F: SosFloat, M: FieldMeasures<F>>(
    measures: &M,
    len: usize,
    bound: isize,
) -> (place: usize)
    requires
        functional_measures::<F, M>(*measures),
    ensures
        place == place_of::<F, M>(*measures, len, bound),
{
    reveal(functional_measures);
    measures.resolve_slice_bound(len, bound)
}

/// The line that place `i` lies on.
pub open spec fn line_at(i: int, linelength: nat) -> int {
    i / linelength as int
}

/// The factor that brings a line's burst to the reference, or 1 where there is
/// no burst.
pub open spec fn burst_scale<F: SosFloat, M: FieldMeasures<F>>(
    line: Seq<F>,
    burst_abs_ref: F,
    burststart: int,
    burstend: int,
    measures: M,
) -> F {
    let mean = rms_of(measures, line.subrange(burststart, burstend));
    if is_zero(mean) {
        one()
    } else {
        over(burst_abs_ref, narrowed::<F>(mean))
    }
}

/// A sample as it is written out: scaled, shifted to the silent level, truncated
/// to an integer and cut to sixteen bits.
pub open spec fn spec_encoded<F: Single>(sample: F, scale: F) -> u16 {
    to_i64(plus(times(sample, scale), from_bits(SIGNED_SAMPLE_MAX))) as u16
}

/// A sample as it is written out.
#[verifier::when_used_as_spec(spec_encoded)]
pub fn encoded<F: Single>(sample: F, scale: F) -> (output: u16)
    requires
        functional_single::<F>(),
        functional::<F>(),
    ensures
        output == spec_encoded(sample, scale),
{
    #[verifier::truncate]
    (to_i64(plus(times(sample, scale), from_bits(SIGNED_SAMPLE_MAX))) as u16)
}

/// A level that sixteen bits can hold is written as it is; any other wraps.
pub proof fn law_encoding_wraps<F: Single>(sample: F, scale: F)
    ensures
        encoded(sample, scale) as int == to_i64(
            plus(times(sample, scale), from_bits(SIGNED_SAMPLE_MAX)),
        ) as int % 0x1_0000,
{
    let level: i64 = to_i64(plus(times(sample, scale), from_bits(SIGNED_SAMPLE_MAX)));
    assert(level as u16 as i64 == level % 0x1_0000) by (bit_vector);
}

/// One line of the field.
pub open spec fn line_of<F>(chroma: Seq<F>, line: int, linelength: nat) -> Seq<F> {
    chroma.subrange(linelength * line, linelength * line + linelength)
}

/// What [`acc`] answers.
pub open spec fn accumulated<F: SosFloat + Single, M: FieldMeasures<F>>(
    chroma: Seq<F>,
    burst_abs_ref: F,
    burststart: int,
    burstend: int,
    linelength: nat,
    lines: nat,
    measures: M,
) -> Seq<u16> {
    Seq::new(
        chroma.len(),
        |i: int|
            if linelength > 0 && STARTING_LINE <= line_at(i, linelength) < lines {
                encoded(
                    chroma[i],
                    burst_scale(
                        line_of(chroma, line_at(i, linelength), linelength),
                        burst_abs_ref,
                        burststart,
                        burstend,
                        measures,
                    ),
                )
            } else {
                ZERO_LEVEL
            },
    )
}

proof fn lemma_line_at(i: int, line: int, linelength: int)
    requires
        linelength > 0,
        linelength * line <= i < linelength * line + linelength,
    ensures
        i / linelength == line,
{
    assert(linelength * line == line * linelength) by (nonlinear_arith);
    lemma_fundamental_div_mod_converse(i, linelength, line, i - linelength * line);
}

/// Brings the burst of each line to the reference level and encodes the field.
/// The lead-in, and what lies beyond the lines, is silent.
pub fn acc<F: SosFloat + Single, M: FieldMeasures<F>>(
    chroma: &[F],
    burst_abs_ref: F,
    burststart: usize,
    burstend: usize,
    linelength: usize,
    lines: usize,
    measures: &M,
) -> (output: Vec<u16>)
    requires
        functional_sos::<F>(),
        functional_single::<F>(),
        functional_measures::<F, M>(*measures),
        lines > STARTING_LINE,
        linelength * lines <= chroma.len(),
        burststart <= burstend <= linelength,
    ensures
        output@ == accumulated(
            chroma@,
            burst_abs_ref,
            burststart as int,
            burstend as int,
            linelength as nat,
            lines as nat,
            *measures,
        ),
        output.len() == chroma.len(),
{
    proof {
        lemma_functional_sos::<F>();
    }
    let ghost wanted = accumulated(
        chroma@,
        burst_abs_ref,
        burststart as int,
        burstend as int,
        linelength as nat,
        lines as nat,
        *measures,
    );
    let mut output: Vec<u16> = Vec::new();
    while output.len() < chroma.len()
        invariant
            output.len() <= chroma.len(),
            forall|k: int| 0 <= k < output.len() ==> output[k] == ZERO_LEVEL,
        decreases chroma.len() - output.len(),
    {
        output.push(ZERO_LEVEL);
    }
    let mut linenumber: usize = STARTING_LINE;
    proof {
        assert(linelength * 16 <= linelength * lines) by (nonlinear_arith)
            requires
                lines > 16,
        ;
        assert forall|k: int| 0 <= k < linelength * 16 implies wanted[k] == ZERO_LEVEL by {
            assert(k / linelength as int <= 15) by (nonlinear_arith)
                requires
                    0 <= k < linelength * 16,
            ;
        }
    }
    while linenumber < lines
        invariant
            functional_sos::<F>(),
            functional_single::<F>(),
            functional::<F>(),
            functional::<F::Wide>(),
            functional_measures::<F, M>(*measures),
            STARTING_LINE <= linenumber <= lines,
            linelength * lines <= chroma.len(),
            linelength * linenumber <= chroma.len(),
            burststart <= burstend <= linelength,
            output.len() == chroma.len(),
            wanted == accumulated(
                chroma@,
                burst_abs_ref,
                burststart as int,
                burstend as int,
                linelength as nat,
                lines as nat,
                *measures,
            ),
            forall|k: int| 0 <= k < linelength * linenumber ==> output[k] == wanted[k],
            forall|k: int| linelength * linenumber <= k < chroma.len() ==> output[k] == ZERO_LEVEL,
        decreases lines - linenumber,
    {
        proof {
            assert(linelength * (linenumber + 1) == linelength * linenumber + linelength)
                by (nonlinear_arith);
            assert(linelength * (linenumber + 1) <= linelength * lines) by (nonlinear_arith)
                requires
                    linenumber < lines,
            ;
        }
        let linestart: usize = linelength * linenumber;
        let lineend: usize = linestart + linelength;
        let line: &[F] = vstd::slice::slice_subrange(chroma, linestart, lineend);
        let mean: F::Wide = measure_rms(
            measures,
            vstd::slice::slice_subrange(line, burststart, burstend),
        );
        let scale: F = if is_zero(mean) {
            one()
        } else {
            over(burst_abs_ref, narrowed(mean))
        };
        let mut i: usize = linestart;
        while i < lineend
            invariant
                functional_single::<F>(),
                functional::<F>(),
                linestart == linelength * linenumber,
                lineend == linestart + linelength,
                lineend <= chroma.len(),
                linestart <= i <= lineend,
                STARTING_LINE <= linenumber < lines,
                output.len() == chroma.len(),
                scale == burst_scale(
                    line_of(chroma@, linenumber as int, linelength as nat),
                    burst_abs_ref,
                    burststart as int,
                    burstend as int,
                    *measures,
                ),
                wanted == accumulated(
                    chroma@,
                    burst_abs_ref,
                    burststart as int,
                    burstend as int,
                    linelength as nat,
                    lines as nat,
                    *measures,
                ),
                forall|k: int| 0 <= k < i ==> output[k] == wanted[k],
                forall|k: int| i <= k < chroma.len() ==> output[k] == ZERO_LEVEL,
            decreases lineend - i,
        {
            proof {
                lemma_line_at(i as int, linenumber as int, linelength as int);
            }
            output[i] = encoded(chroma[i], scale);
            i = i + 1;
        }
        linenumber = linenumber + 1;
    }
    proof {
        assert forall|k: int| linelength * lines <= k < chroma.len() implies wanted[k]
            == ZERO_LEVEL by {
            if linelength > 0 {
                assert(k / linelength as int >= lines) by (nonlinear_arith)
                    requires
                        linelength * lines <= k,
                        linelength > 0,
                ;
            }
        }
        assert(output@ =~= wanted);
    }
    output
}

/// The field with the stretch from `start` to `end` multiplied by the carrier.
pub open spec fn mixed<F: Sample>(
    uphet: Seq<F>,
    chroma: Seq<F>,
    carrier: Seq<F>,
    start: int,
    end: int,
) -> Seq<F> {
    Seq::new(
        uphet.len(),
        |i: int|
            if start <= i < end {
                times(chroma[i], carrier[i])
            } else {
                uphet[i]
            },
    )
}

/// Where the line of a phase lies in the field.
pub open spec fn line_stretch<F: SosFloat, M: FieldMeasures<F>>(
    measures: M,
    len: nat,
    field: ChromaField<F::Wide>,
    line: LinePhase,
) -> (int, int) {
    let start = field.start_of(line.linenumber as int);
    (
        place_of::<F, M>(measures, len as usize, start as isize) as int,
        place_of::<F, M>(measures, len as usize, (start + field.outlinelen) as isize) as int,
    )
}

/// A silent field with the lines of the sequence mixed one after the other, each
/// with the carrier of its phase.
pub open spec fn upconverted<F: SosFloat, M: FieldMeasures<F>>(
    chroma: Seq<F>,
    field: ChromaField<F::Wide>,
    sequence: Seq<LinePhase>,
    heterodyne: Seq<Vec<F>>,
    measures: M,
) -> Seq<F>
    decreases sequence.len(),
{
    if sequence.len() == 0 {
        Seq::new(chroma.len(), |i: int| zero())
    } else {
        let before = upconverted(chroma, field, sequence.drop_last(), heterodyne, measures);
        let line = sequence.last();
        let (start, end) = line_stretch::<F, M>(measures, chroma.len(), field, line);
        mixed(before, chroma, heterodyne[line.phase as int]@, start, end)
    }
}

/// The line is within the machine's range, and where it has samples they lie in
/// the field and its phase has a carrier for them.
pub open spec fn line_has_carrier<F: SosFloat, M: FieldMeasures<F>>(
    chroma: Seq<F>,
    field: ChromaField<F::Wide>,
    line: LinePhase,
    heterodyne: Seq<Vec<F>>,
    measures: M,
) -> bool {
    let (start, end) = line_stretch::<F, M>(measures, chroma.len(), field, line);
    &&& field.addressable(line.linenumber as int)
    &&& start < end ==> {
        &&& end <= chroma.len()
        &&& line.phase < heterodyne.len()
        &&& end <= heterodyne[line.phase as int].len()
    }
}

/// Every line of the sequence can be mixed.
pub open spec fn lines_have_carriers<F: SosFloat, M: FieldMeasures<F>>(
    chroma: Seq<F>,
    field: ChromaField<F::Wide>,
    sequence: Seq<LinePhase>,
    heterodyne: Seq<Vec<F>>,
    measures: M,
) -> bool {
    forall|k: int|
        0 <= k < sequence.len() ==> line_has_carrier(
            chroma,
            field,
            #[trigger] sequence[k],
            heterodyne,
            measures,
        )
}

/// Every line of the sequence can be mixed.
pub fn have_carriers<F: SosFloat, M: FieldMeasures<F>>(
    chroma: &[F],
    field: &ChromaField<F::Wide>,
    sequence: &[LinePhase],
    heterodyne: &[Vec<F>],
    measures: &M,
) -> (have: bool)
    requires
        functional_measures::<F, M>(*measures),
    ensures
        have == lines_have_carriers(chroma@, *field, sequence@, heterodyne@, *measures),
{
    let mut index: usize = 0;
    while index < sequence.len()
        invariant
            functional_measures::<F, M>(*measures),
            index <= sequence.len(),
            forall|k: int|
                0 <= k < index ==> line_has_carrier(
                    chroma@,
                    *field,
                    #[trigger] sequence@[k],
                    heterodyne@,
                    *measures,
                ),
        decreases sequence.len() - index,
    {
        let line: LinePhase = sequence[index];
        let mut fits: bool = field.is_addressable(line.linenumber);
        if fits {
            let linestart: isize = field.line_start(line.linenumber);
            let lineend: isize = linestart + field.outlinelen as isize;
            let start: usize = resolve_bound(measures, chroma.len(), linestart);
            let end: usize = resolve_bound(measures, chroma.len(), lineend);
            if start < end {
                fits = end <= chroma.len() && line.phase < heterodyne.len() && end
                    <= heterodyne[line.phase].len();
            }
        }
        if !fits {
            proof {
                assert(!line_has_carrier(
                    chroma@,
                    *field,
                    sequence@[index as int],
                    heterodyne@,
                    *measures,
                ));
            }
            return false;
        }
        index = index + 1;
    }
    true
}

/// Brings the chroma up from its low carrier, each line by the carrier of its
/// phase. Samples on no line are silent.
pub fn upconvert_chroma<F: SosFloat, M: FieldMeasures<F>>(
    chroma: &[F],
    field: &ChromaField<F::Wide>,
    heterodyne: &[Vec<F>],
    measures: &M,
) -> (result: Result<Vec<F>, ChromaError>)
    requires
        functional_sos::<F>(),
        functional_measures::<F, M>(*measures),
        field.phase_sequence is Some ==> lines_have_carriers(
            chroma@,
            *field,
            field.phase_sequence->0@,
            heterodyne@,
            *measures,
        ),
    ensures
        match result {
            Ok(uphet) => {
                &&& field.phase_sequence is Some
                &&& uphet@ == upconverted(
                    chroma@,
                    *field,
                    field.phase_sequence->0@,
                    heterodyne@,
                    *measures,
                )
                &&& uphet.len() == chroma.len()
            },
            Err(error) => {
                &&& field.phase_sequence is None
                &&& error == ChromaError::PhaseSequence
            },
        },
{
    proof {
        lemma_functional_sos::<F>();
    }
    let sequence: &Vec<LinePhase> = match &field.phase_sequence {
        Some(sequence) => sequence,
        None => return Err(ChromaError::PhaseSequence),
    };
    let len: usize = chroma.len();
    let mut uphet: Vec<F> = Vec::new();
    while uphet.len() < len
        invariant
            functional::<F>(),
            uphet.len() <= len,
            forall|k: int| 0 <= k < uphet.len() ==> uphet[k] == zero::<F>(),
        decreases len - uphet.len(),
    {
        uphet.push(zero());
    }
    let mut index: usize = 0;
    proof {
        assert(sequence@.take(0) =~= Seq::<LinePhase>::empty());
        assert(uphet@ =~= Seq::new(chroma@.len(), |i: int| zero::<F>()));
    }
    while index < sequence.len()
        invariant
            functional::<F>(),
            functional_measures::<F, M>(*measures),
            lines_have_carriers(chroma@, *field, sequence@, heterodyne@, *measures),
            index <= sequence.len(),
            len == chroma.len(),
            uphet.len() == len,
            uphet@ == upconverted(
                chroma@,
                *field,
                sequence@.take(index as int),
                heterodyne@,
                *measures,
            ),
        decreases sequence.len() - index,
    {
        let line: LinePhase = sequence[index];
        proof {
            assert(sequence@.take(index + 1).drop_last() =~= sequence@.take(index as int));
            assert(line_has_carrier(
                chroma@,
                *field,
                sequence@[index as int],
                heterodyne@,
                *measures,
            ));
        }
        let linestart: isize = field.line_start(line.linenumber);
        let lineend: isize = linestart + field.outlinelen as isize;
        let start: usize = resolve_bound(measures, len, linestart);
        let end: usize = resolve_bound(measures, len, lineend);
        let ghost before = uphet@;
        let ghost carrier = heterodyne@[line.phase as int]@;
        if start < end {
            let row: &Vec<F> = &heterodyne[line.phase];
            let mut i: usize = start;
            while i < end
                invariant
                    functional::<F>(),
                    start <= i <= end,
                    end <= chroma.len(),
                    end <= row.len(),
                    row@ == carrier,
                    uphet.len() == chroma.len(),
                    before.len() == chroma.len(),
                    forall|k: int|
                        start <= k < i ==> uphet[k] == times(chroma[k], carrier[k]),
                    forall|k: int|
                        0 <= k < before.len() && !(start <= k < i) ==> uphet[k] == before[k],
                decreases end - i,
            {
                uphet[i] = times(chroma[i], row[i]);
                i = i + 1;
            }
        }
        proof {
            assert(uphet@ =~= mixed(before, chroma@, carrier, start as int, end as int));
        }
        index = index + 1;
    }
    proof {
        assert(sequence@.take(index as int) =~= sequence@);
    }
    Ok(uphet)
}

/// What [`burst_deemphasis`] makes of the field: on each line, what lies behind
/// the burst and its margin is doubled.
pub open spec fn chroma_raised<F: Sample>(
    chroma: Seq<F>,
    outlinelen: nat,
    outlinecount: nat,
    burstarea_end: int,
) -> Seq<F> {
    Seq::new(
        chroma.len(),
        |i: int|
            if outlinelen > 0 && line_at(i, outlinelen) < outlinecount && i % outlinelen as int
                >= burstarea_end + BURST_MARGIN {
                times(chroma[i], two())
            } else {
                chroma[i]
            },
    )
}

proof fn lemma_column(i: int, line: int, column: int, linelength: int)
    requires
        linelength > 0,
        0 <= column < linelength,
        i == line * linelength + column,
    ensures
        i / linelength == line,
        i % linelength == column,
{
    lemma_fundamental_div_mod_converse(i, linelength, line, column);
}

/// Doubles the chroma of each line behind the burst.
pub fn burst_deemphasis<F: Sample, W>(
    chroma: &mut Vec<F>,
    field: &ChromaField<W>,
    burstarea_end: usize,
)
    requires
        functional::<F>(),
        field.outlinecount * field.outlinelen <= old(chroma).len(),
        field.outlinecount > 0 ==> burstarea_end + BURST_MARGIN <= field.outlinelen,
    ensures
        final(chroma)@ == chroma_raised(
            old(chroma)@,
            field.outlinelen as nat,
            field.outlinecount as nat,
            burstarea_end as int,
        ),
        final(chroma).len() == old(chroma).len(),
{
    let ghost before = chroma@;
    let outlinelen: usize = field.outlinelen;
    let outlinecount: usize = field.outlinecount;
    let ghost wanted = chroma_raised(
        before,
        outlinelen as nat,
        outlinecount as nat,
        burstarea_end as int,
    );
    let mut line: usize = 0;
    while line < outlinecount
        invariant
            functional::<F>(),
            line <= outlinecount,
            outlinecount * outlinelen <= chroma.len(),
            0 <= line * outlinelen <= chroma.len(),
            burstarea_end + BURST_MARGIN <= outlinelen || outlinecount == 0,
            chroma.len() == before.len(),
            wanted == chroma_raised(
                before,
                outlinelen as nat,
                outlinecount as nat,
                burstarea_end as int,
            ),
            forall|k: int| 0 <= k < line * outlinelen ==> chroma[k] == wanted[k],
            forall|k: int| line * outlinelen <= k < chroma.len() ==> chroma[k] == before[k],
        decreases outlinecount - line,
    {
        proof {
            assert((line + 1) * outlinelen == line * outlinelen + outlinelen) by (nonlinear_arith);
            assert((line + 1) * outlinelen <= outlinecount * outlinelen) by (nonlinear_arith)
                requires
                    line < outlinecount,
            ;
        }
        let linestart: usize = line * outlinelen;
        let lineend: usize = linestart + outlinelen;
        let mut i: usize = linestart + burstarea_end + BURST_MARGIN;
        proof {
            assert forall|k: int| linestart <= k < i implies wanted[k] == before[k] by {
                lemma_column(k, line as int, k - linestart, outlinelen as int);
            }
        }
        while i < lineend
            invariant
                functional::<F>(),
                line < outlinecount,
                linestart == line * outlinelen,
                lineend == linestart + outlinelen,
                lineend <= chroma.len(),
                linestart + burstarea_end + BURST_MARGIN <= i <= lineend,
                chroma.len() == before.len(),
                wanted == chroma_raised(
                    before,
                    outlinelen as nat,
                    outlinecount as nat,
                    burstarea_end as int,
                ),
                forall|k: int| 0 <= k < i ==> chroma[k] == wanted[k],
                forall|k: int| i <= k < chroma.len() ==> chroma[k] == before[k],
            decreases lineend - i,
        {
            proof {
                lemma_column(i as int, line as int, i - linestart, outlinelen as int);
            }
            let raised: F = times(chroma[i], two());
            chroma[i] = raised;
            i = i + 1;
        }
        line = line + 1;
    }
    proof {
        assert forall|k: int| outlinecount * outlinelen <= k < before.len() implies wanted[k]
            == before[k] by {
            if outlinelen > 0 {
                assert(k / outlinelen as int >= outlinecount) by (nonlinear_arith)
                    requires
                        outlinecount * outlinelen <= k,
                        outlinelen > 0,
                ;
            }
        }
        assert(chroma@ =~= wanted);
    }
}

/// Samples on no line of the sequence are silent.
pub proof fn law_off_lines_is_silent<F: SosFloat, M: FieldMeasures<F>>(
    chroma: Seq<F>,
    field: ChromaField<F::Wide>,
    sequence: Seq<LinePhase>,
    heterodyne: Seq<Vec<F>>,
    measures: M,
    i: int,
)
    requires
        0 <= i < chroma.len(),
        forall|k: int|
            0 <= k < sequence.len() ==> {
                let (start, end) = line_stretch::<F, M>(
                    measures,
                    chroma.len(),
                    field,
                    #[trigger] sequence[k],
                );
                !(start <= i < end)
            },
    ensures
        upconverted(chroma, field, sequence, heterodyne, measures).len() == chroma.len(),
        upconverted(chroma, field, sequence, heterodyne, measures)[i] == zero::<F>(),
    decreases sequence.len(),
{
    if sequence.len() > 0 {
        let fewer = sequence.drop_last();
        assert forall|k: int| 0 <= k < fewer.len() implies {
            let (start, end) = line_stretch::<F, M>(
                measures,
                chroma.len(),
                field,
                #[trigger] fewer[k],
            );
            !(start <= i < end)
        } by {
            assert(fewer[k] == sequence[k]);
        }
        law_off_lines_is_silent(chroma, field, fewer, heterodyne, measures, i);
        assert(sequence.last() == sequence[sequence.len() - 1]);
    }
}

} // verus!
