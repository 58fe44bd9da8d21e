//! What SECAM lines show and how they are told apart. Rounding is left aside.
use vstd::prelude::*;

use crate::colour_laws::sums_up;
use crate::complex::Complex;
use crate::fast_math::real_sum;
use crate::field::{ChromaField, LinePhase};
use crate::median::{all_numbers, is_median, law_middle_is_median};
use crate::sample::{
    absolute, angle, exact, from_count, is_finite, ordered, rank, real_magnitude, Sample,
    Single,
};
use crate::secam_lines::{
    cluster, cluster_center, frequencies, measured_lines, parity_group, phasing_of,
    porch_frequency, seems_high, step_sum, Porch, SecamLine,
};

verus! {

proof fn lemma_step_sum_exact<T: Sample>(value: spec_fn(T) -> real, steps: Seq<Complex<T>>)
    requires
        exact(value),
    ensures
        sums_up(value, steps, step_sum(steps)),
    decreases steps.len(),
{
    let re = steps.map_values(|z: Complex<T>| z.re);
    let im = steps.map_values(|z: Complex<T>| z.im);
    if steps.len() > 0 {
        let fewer = steps.drop_last();
        lemma_step_sum_exact(value, fewer);
        assert(re.drop_last() =~= fewer.map_values(|z: Complex<T>| z.re));
        assert(im.drop_last() =~= fewer.map_values(|z: Complex<T>| z.im));
    }
}

/// The porch of the line that starts at `linestart` lies in the field, and
/// `frequency` is the angle of the sum of its steps, times the scale.
pub open spec fn shows<T: Single>(
    value: spec_fn(T) -> real,
    steps: Seq<Complex<T>>,
    linestart: int,
    porch: Porch,
    scale: T,
    frequency: T,
) -> bool {
    &&& 0 <= linestart
    &&& porch.lo < porch.hi
    &&& linestart + porch.hi <= steps.len()
    &&& exists|sum: Complex<T>| #[trigger]
        sums_up(value, steps.subrange(linestart + porch.lo, linestart + porch.hi), sum) && value(
            frequency,
        ) == value(angle(sum.im, sum.re)) * value(scale)
}

/// Each measured line is one of the sequence, and its frequency is what all of
/// its porch shows.
pub proof fn law_measured_lines_show_their_porch<T: Single, W>(
    value: spec_fn(T) -> real,
    steps: Seq<Complex<T>>,
    field: ChromaField<W>,
    sequence: Seq<LinePhase>,
    porch: Porch,
    scale: T,
    k: int,
)
    requires
        exact(value),
        steps.len() <= usize::MAX,
        0 <= k < measured_lines(steps, field, sequence, porch, scale).len(),
    ensures
        ({
            let line = measured_lines(steps, field, sequence, porch, scale)[k];
            &&& shows(value, steps, line.linestart as int, porch, scale, line.bp_freq)
            &&& exists|j: int|
                0 <= j < sequence.len() && line.linestart == field.start_of(
                    (#[trigger] sequence[j]).linenumber as int,
                )
        }),
    decreases sequence.len(),
{
    let lines = measured_lines(steps, field, sequence, porch, scale);
    let fewer = sequence.drop_last();
    let before = measured_lines(steps, field, fewer, porch, scale);
    if k < before.len() {
        law_measured_lines_show_their_porch(value, steps, field, fewer, porch, scale, k);
        assert(lines[k] == before[k]);
        let j = choose|j: int|
            0 <= j < fewer.len() && before[k].linestart == field.start_of(
                (#[trigger] fewer[j]).linenumber as int,
            );
        assert(sequence[j] == fewer[j]);
    } else {
        let linestart = field.start_of(sequence.last().linenumber as int);
        let part = steps.subrange(linestart + porch.lo, linestart + porch.hi);
        lemma_step_sum_exact(value, part);
        assert(sums_up(value, part, step_sum(part)));
        assert(lines[k].bp_freq == porch_frequency(steps, linestart, porch, scale));
        assert(sequence[sequence.len() - 1] == sequence.last());
    }
}

/// Every line of the sequence whose porch lies in the field and shows a finite
/// frequency is measured.
pub proof fn law_no_line_is_left_out<T: Single, W>(
    steps: Seq<Complex<T>>,
    field: ChromaField<W>,
    sequence: Seq<LinePhase>,
    porch: Porch,
    scale: T,
    j: int,
) -> (k: int)
    requires
        steps.len() <= usize::MAX,
        0 <= j < sequence.len(),
        porch.lo < porch.hi,
        ({
            let linestart = field.start_of(sequence[j].linenumber as int);
            &&& 0 <= linestart
            &&& linestart + porch.hi <= steps.len()
            &&& is_finite(porch_frequency(steps, linestart, porch, scale))
        }),
    ensures
        0 <= k < measured_lines(steps, field, sequence, porch, scale).len(),
        measured_lines(steps, field, sequence, porch, scale)[k].linestart == field.start_of(
            sequence[j].linenumber as int,
        ),
    decreases sequence.len(),
{
    let fewer = sequence.drop_last();
    let before = measured_lines(steps, field, fewer, porch, scale);
    if j < fewer.len() {
        assert(fewer[j] == sequence[j]);
        law_no_line_is_left_out(steps, field, fewer, porch, scale, j)
    } else {
        before.len() as int
    }
}

/// The frequencies above the median, or those that are not.
pub open spec fn on_side<T>(
    value: spec_fn(T) -> real,
    lines: Seq<SecamLine<T>>,
    median: T,
    high: bool,
) -> Seq<T> {
    frequencies(lines).filter(|f: T| (value(f) > value(median)) == high)
}

proof fn lemma_cluster_sums<T: Sample>(
    value: spec_fn(T) -> real,
    lines: Seq<SecamLine<T>>,
    median: T,
    high: bool,
)
    requires
        exact(value),
        ordered(value),
    ensures
        cluster(lines, median, high).1 == on_side(value, lines, median, high).len(),
        value(cluster(lines, median, high).0) == real_sum(
            value,
            on_side(value, lines, median, high),
        ),
    decreases lines.len(),
{
    let pred = |f: T| (value(f) > value(median)) == high;
    reveal(Seq::filter);
    if lines.len() > 0 {
        let fewer = lines.drop_last();
        lemma_cluster_sums(value, fewer, median, high);
        let all = frequencies(lines);
        assert(all.drop_last() =~= frequencies(fewer));
        assert(all.last() == lines.last().bp_freq);
        let before = frequencies(fewer).filter(pred);
        let chosen = all.filter(pred);
        if pred(lines.last().bp_freq) {
            assert(chosen == before.push(lines.last().bp_freq));
            assert(chosen.drop_last() =~= before);
        } else {
            assert(chosen == before);
        }
    }
}

/// The centre of a cluster is the mean of the frequencies on its side of the
/// median, or the median where there are none.
pub proof fn law_cluster_center_is_the_mean<T: Single>(
    value: spec_fn(T) -> real,
    lines: Seq<SecamLine<T>>,
    median: T,
    high: bool,
)
    requires
        exact(value),
        ordered(value),
        lines.len() <= usize::MAX,
        forall|n: usize| 0 < n ==> value(#[trigger] from_count::<T>(n)) != 0real,
    ensures
        ({
            let chosen = on_side(value, lines, median, high);
            let center = cluster_center(lines, median, high);
            &&& chosen.len() == 0 ==> center == median
            &&& chosen.len() > 0 ==> value(center) * value(
                from_count::<T>(chosen.len() as usize),
            ) == real_sum(value, chosen)
        }),
{
    lemma_cluster_sums(value, lines, median, high);
    lemma_cluster_len(lines, median, high);
}

proof fn lemma_cluster_len<T: Sample>(lines: Seq<SecamLine<T>>, median: T, high: bool)
    ensures
        cluster(lines, median, high).1 <= lines.len(),
    decreases lines.len(),
{
    if lines.len() > 0 {
        lemma_cluster_len(lines.drop_last(), median, high);
    }
}

/// A line seems high where its frequency is at most as far from the high centre as
/// from the low one.
pub proof fn law_nearest_center_decides<T: Single>(
    value: spec_fn(T) -> real,
    line: SecamLine<T>,
    high: T,
    low: T,
)
    requires
        exact(value),
        ordered(value),
        forall|a: T| value(#[trigger] absolute(a)) == real_magnitude(value(a)),
    ensures
        seems_high(line, high, low) <==> real_magnitude(value(line.bp_freq) - value(high))
            <= real_magnitude(value(line.bp_freq) - value(low)),
{
}

/// The frequencies of the lines of one kind.
pub open spec fn of_kind<T>(
    lines: Seq<SecamLine<T>>,
    outlinelen: nat,
    even: bool,
) -> Seq<T> {
    lines.filter(
        |line: SecamLine<T>| ((line.linestart as int / outlinelen as int) % 2 == 0) == even,
    ).map_values(|line: SecamLine<T>| line.bp_freq)
}

proof fn lemma_parity_group<T>(lines: Seq<SecamLine<T>>, outlinelen: nat, even: bool)
    ensures
        parity_group(lines, even, outlinelen) == of_kind(lines, outlinelen, even),
    decreases lines.len(),
{
    let pred = |line: SecamLine<T>|
        ((line.linestart as int / outlinelen as int) % 2 == 0) == even;
    let frequency = |line: SecamLine<T>| line.bp_freq;
    reveal(Seq::filter);
    if lines.len() > 0 {
        let fewer = lines.drop_last();
        lemma_parity_group(fewer, outlinelen, even);
        let before = fewer.filter(pred);
        if pred(lines.last()) {
            assert(lines.filter(pred) == before.push(lines.last()));
            assert(before.push(lines.last()).map_values(frequency) =~= before.map_values(
                frequency,
            ).push(lines.last().bp_freq));
        }
    } else {
        assert(of_kind(lines, outlinelen, even) =~= Seq::<T>::empty());
    }
}

proof fn lemma_of_kind_numbers<T: Sample>(lines: Seq<SecamLine<T>>, outlinelen: nat, even: bool)
    requires
        all_numbers(frequencies(lines)),
    ensures
        all_numbers(parity_group(lines, even, outlinelen)),
    decreases lines.len(),
{
    if lines.len() > 0 {
        let fewer = lines.drop_last();
        let all = frequencies(lines);
        assert forall|k: int| 0 <= k < fewer.len() implies rank(
            #[trigger] frequencies(fewer)[k],
        ) is Some by {
            assert(frequencies(fewer)[k] == all[k]);
        }
        lemma_of_kind_numbers(fewer, outlinelen, even);
        assert(rank(all[all.len() - 1]) is Some);
    }
}

/// Each kind of lines rests at the median of the frequencies of its lines.
pub proof fn law_kinds_rest_at_their_medians<T: Single>(
    lines: Seq<SecamLine<T>>,
    outlinelen: nat,
)
    requires
        all_numbers(frequencies(lines)),
    ensures
        ({
            let phasing = phasing_of(lines, outlinelen);
            let highs = of_kind(lines, outlinelen, phasing.even_is_high);
            let lows = of_kind(lines, outlinelen, !phasing.even_is_high);
            &&& highs.len() > 0 ==> is_median(phasing.high, highs)
            &&& lows.len() > 0 ==> is_median(phasing.low, lows)
        }),
{
    let phasing = phasing_of(lines, outlinelen);
    let even = phasing.even_is_high;
    lemma_parity_group(lines, outlinelen, even);
    lemma_parity_group(lines, outlinelen, !even);
    lemma_of_kind_numbers(lines, outlinelen, even);
    lemma_of_kind_numbers(lines, outlinelen, !even);
    if of_kind(lines, outlinelen, even).len() > 0 {
        law_middle_is_median(of_kind(lines, outlinelen, even));
    }
    if of_kind(lines, outlinelen, !even).len() > 0 {
        law_middle_is_median(of_kind(lines, outlinelen, !even));
    }
}

} // verus!
