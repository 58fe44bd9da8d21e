//! Which colour difference each SECAM line carries.
//!
//! R-Y and B-Y lines alternate strictly, and rest at different frequencies. The
//! back-porch burst of each line shows its rest frequency; what the lines show
//! together decides which parity is which.
use vstd::prelude::*;

use crate::complex::{complex_zero, Complex};
use crate::field::{ChromaField, LinePhase};
use crate::median::{all_numbers, median_of, middle_of, tally};
use crate::sample::{
    absolute, angle, at_most, below, from_count, functional, functional_single, is_finite,
    lemma_functional_single, minus, negated, over, plus, rank, times, zero, Sample, Single,
};

verus! {

/// `z` times the conjugate of `w`.
pub open spec fn spec_cross<T: Sample>(z: Complex<T>, w: Complex<T>) -> Complex<T> {
    Complex {
        re: plus(times(z.re, w.re), times(z.im, w.im)),
        im: minus(times(z.im, w.re), times(z.re, w.im)),
    }
}

/// `z` times the conjugate of `w`.
#[verifier::when_used_as_spec(spec_cross)]
pub fn cross<T: Sample>(z: Complex<T>, w: Complex<T>) -> (product: Complex<T>)
    requires
        functional::<T>(),
    ensures
        product == spec_cross(z, w),
{
    Complex {
        re: plus(times(z.re, w.re), times(z.im, w.im)),
        im: minus(times(z.im, w.re), times(z.re, w.im)),
    }
}

/// Each sample against the one before it; the first place repeats the second.
pub open spec fn steps_of<T: Sample>(analytic: Seq<Complex<T>>) -> Seq<Complex<T>> {
    Seq::new(
        analytic.len(),
        |i: int|
            if analytic.len() == 1 {
                complex_zero()
            } else if i == 0 {
                cross(analytic[1], analytic[0])
            } else {
                cross(analytic[i], analytic[i - 1])
            },
    )
}

/// Each sample against the one before it; the first place repeats the second.
/// The angle of a step is the phase the signal advanced by.
pub fn cross_products<T: Sample>(analytic: &[Complex<T>]) -> (steps: Vec<Complex<T>>)
    requires
        functional::<T>(),
    ensures
        steps@ == steps_of(analytic@),
{
    let mut steps: Vec<Complex<T>> = Vec::new();
    if analytic.len() == 1 {
        steps.push(complex_zero());
    } else if analytic.len() > 1 {
        steps.push(cross(analytic[1], analytic[0]));
        while steps.len() < analytic.len()
            invariant
                functional::<T>(),
                1 < analytic.len(),
                1 <= steps.len() <= analytic.len(),
                forall|k: int| 0 <= k < steps.len() ==> steps[k] == steps_of(analytic@)[k],
            decreases analytic.len() - steps.len(),
        {
            let i: usize = steps.len();
            steps.push(cross(analytic[i], analytic[i - 1]));
        }
    }
    proof {
        assert(steps@ =~= steps_of(analytic@));
    }
    steps
}

/// The steps summed one after the other, from the negative zero that changes
/// no summand.
pub open spec fn step_sum<T: Sample>(steps: Seq<Complex<T>>) -> Complex<T>
    decreases steps.len(),
{
    if steps.len() == 0 {
        Complex { re: negated(zero()), im: negated(zero()) }
    } else {
        let before = step_sum(steps.drop_last());
        Complex { re: plus(before.re, steps.last().re), im: plus(before.im, steps.last().im) }
    }
}

/// The steps summed one after the other.
pub fn sum_steps<T: Sample>(steps: &[Complex<T>]) -> (sum: Complex<T>)
    requires
        functional::<T>(),
    ensures
        sum == step_sum(steps@),
{
    let mut sum: Complex<T> = Complex { re: negated(zero()), im: negated(zero()) };
    let mut index: usize = 0;
    while index < steps.len()
        invariant
            functional::<T>(),
            index <= steps.len(),
            sum == step_sum(steps@.take(index as int)),
        decreases steps.len() - index,
    {
        proof {
            assert(steps@.take(index + 1).drop_last() =~= steps@.take(index as int));
        }
        let step: Complex<T> = steps[index];
        sum = Complex { re: plus(sum.re, step.re), im: plus(sum.im, step.im) };
        index = index + 1;
    }
    proof {
        assert(steps@.take(index as int) =~= steps@);
    }
    sum
}

/// A line whose rest frequency was measured.
#[derive(Clone, Copy, Debug, PartialEq, Eq)]
pub struct SecamLine<T> {
    /// First sample of the line.
    pub linestart: usize,
    /// Rest frequency shown by the back-porch burst.
    pub bp_freq: T,
}

/// The part of a line that shows its rest frequency: the first sample, and the
/// one behind the last.
#[derive(Clone, Copy, Debug, PartialEq, Eq)]
pub struct Porch {
    pub lo: usize,
    pub hi: usize,
}

/// The rest frequency that the porch of a line shows.
pub open spec fn porch_frequency<T: Single>(
    steps: Seq<Complex<T>>,
    linestart: int,
    porch: Porch,
    scale: T,
) -> T {
    let sum = step_sum(steps.subrange(linestart + porch.lo, linestart + porch.hi));
    times(angle(sum.im, sum.re), scale)
}

/// The line starts in the field, has a porch there, and shows a frequency.
pub open spec fn is_measured<T: Single>(
    steps: Seq<Complex<T>>,
    linestart: int,
    porch: Porch,
    scale: T,
) -> bool {
    &&& 0 <= linestart
    &&& porch.lo < porch.hi
    &&& linestart + porch.hi <= steps.len()
    &&& is_finite(porch_frequency(steps, linestart, porch, scale))
}

/// The lines of the sequence that could be measured, in its order.
pub open spec fn measured_lines<T: Single, W>(
    steps: Seq<Complex<T>>,
    field: ChromaField<W>,
    sequence: Seq<LinePhase>,
    porch: Porch,
    scale: T,
) -> Seq<SecamLine<T>>
    decreases sequence.len(),
{
    if sequence.len() == 0 {
        Seq::empty()
    } else {
        let before = measured_lines(steps, field, sequence.drop_last(), porch, scale);
        let linestart = field.start_of(sequence.last().linenumber as int);
        if is_measured(steps, linestart, porch, scale) {
            before.push(
                SecamLine {
                    linestart: linestart as usize,
                    bp_freq: porch_frequency(steps, linestart, porch, scale),
                },
            )
        } else {
            before
        }
    }
}

/// Every line of the sequence has places within the machine's range.
pub open spec fn all_addressable<W>(field: ChromaField<W>, sequence: Seq<LinePhase>) -> bool {
    forall|k: int|
        0 <= k < sequence.len() ==> field.addressable((#[trigger] sequence[k]).linenumber as int)
}

/// Every line of the sequence has places within the machine's range.
pub fn are_addressable<W>(field: &ChromaField<W>, sequence: &[LinePhase]) -> (addressable: bool)
    ensures
        addressable == all_addressable(*field, sequence@),
{
    let mut index: usize = 0;
    while index < sequence.len()
        invariant
            index <= sequence.len(),
            forall|k: int|
                0 <= k < index ==> field.addressable((#[trigger] sequence[k]).linenumber as int),
        decreases sequence.len() - index,
    {
        if !field.is_addressable(sequence[index].linenumber) {
            proof {
                assert(!field.addressable(sequence@[index as int].linenumber as int));
            }
            return false;
        }
        index = index + 1;
    }
    true
}

/// What measuring makes sure of: each line starts in the field and its
/// frequency is a number.
pub open spec fn lines_wf<T: Single>(lines: Seq<SecamLine<T>>, len: nat) -> bool {
    forall|k: int|
        0 <= k < lines.len() ==> (#[trigger] lines[k]).linestart < len && rank(lines[k].bp_freq)
            is Some
}

/// Measures the lines of the sequence. A line that starts before the field, has
/// no whole porch in it or shows no frequency is left out.
pub fn measure_lines<T: Single, W>(
    steps: &[Complex<T>],
    field: &ChromaField<W>,
    sequence: &[LinePhase],
    porch: Porch,
    scale: T,
) -> (lines: Vec<SecamLine<T>>)
    requires
        functional_single::<T>(),
        all_addressable(*field, sequence@),
        porch.lo < porch.hi ==> porch.hi + isize::MAX <= usize::MAX,
    ensures
        lines@ == measured_lines(steps@, *field, sequence@, porch, scale),
        lines.len() <= sequence.len(),
        lines_wf(lines@, steps@.len()),
        forall|k: int|
            0 <= k < lines.len() ==> (#[trigger] lines[k]).linestart + field.outlinelen
                <= isize::MAX,
{
    proof {
        lemma_functional_single::<T>();
    }
    let mut lines: Vec<SecamLine<T>> = Vec::new();
    let mut index: usize = 0;
    while index < sequence.len()
        invariant
            functional_single::<T>(),
            functional::<T>(),
            all_addressable(*field, sequence@),
            porch.lo < porch.hi ==> porch.hi + isize::MAX <= usize::MAX,
            index <= sequence.len(),
            lines.len() <= index,
            lines@ == measured_lines(
                steps@,
                *field,
                sequence@.take(index as int),
                porch,
                scale,
            ),
            lines_wf(lines@, steps@.len()),
            forall|k: int|
                0 <= k < lines.len() ==> (#[trigger] lines[k]).linestart + field.outlinelen
                    <= isize::MAX,
        decreases sequence.len() - index,
    {
        proof {
            assert(sequence@.take(index + 1).drop_last() =~= sequence@.take(index as int));
            assert(field.addressable(sequence@[index as int].linenumber as int));
        }
        let start: isize = field.line_start(sequence[index].linenumber);
        if start >= 0 && porch.lo < porch.hi && start as usize + porch.hi <= steps.len() {
            let linestart: usize = start as usize;
            let sum: Complex<T> = sum_steps(
                vstd::slice::slice_subrange(steps, linestart + porch.lo, linestart + porch.hi),
            );
            let bp_freq: T = times(angle(sum.im, sum.re), scale);
            if is_finite(bp_freq) {
                lines.push(SecamLine { linestart, bp_freq });
            }
        }
        index = index + 1;
    }
    proof {
        assert(sequence@.take(index as int) =~= sequence@);
    }
    lines
}

/// The rest frequencies of the lines.
pub open spec fn frequencies<T>(lines: Seq<SecamLine<T>>) -> Seq<T> {
    lines.map_values(|line: SecamLine<T>| line.bp_freq)
}

/// The frequencies that lie above the median, or those that do not, summed one
/// after the other from zero, and their number.
pub open spec fn cluster<T: Sample>(
    lines: Seq<SecamLine<T>>,
    median: T,
    high: bool,
) -> (T, nat)
    decreases lines.len(),
{
    if lines.len() == 0 {
        (zero(), 0)
    } else {
        let (sum, count) = cluster(lines.drop_last(), median, high);
        let frequency = lines.last().bp_freq;
        if below(median, frequency) == high {
            (plus(sum, frequency), count + 1)
        } else {
            (sum, count)
        }
    }
}

/// The mean frequency of the cluster, or the median where the cluster is empty.
pub open spec fn cluster_center<T: Single>(
    lines: Seq<SecamLine<T>>,
    median: T,
    high: bool,
) -> T {
    let (sum, count) = cluster(lines, median, high);
    if count > 0 {
        over(sum, from_count(count as usize))
    } else {
        median
    }
}

/// The line's place in the field is even.
pub open spec fn is_even<T>(line: SecamLine<T>, outlinelen: nat) -> bool {
    (line.linestart as int / outlinelen as int) % 2 == 0
}

/// The line rests at least as close to the high centre as to the low one.
pub open spec fn seems_high<T: Single>(line: SecamLine<T>, high: T, low: T) -> bool {
    at_most(absolute(minus(line.bp_freq, high)), absolute(minus(line.bp_freq, low)))
}

/// How many lines speak for the even lines being the high ones, less how many
/// speak against it.
pub open spec fn parity_score<T: Single>(
    lines: Seq<SecamLine<T>>,
    high: T,
    low: T,
    outlinelen: nat,
) -> int
    decreases lines.len(),
{
    if lines.len() == 0 {
        0
    } else {
        parity_score(lines.drop_last(), high, low, outlinelen) + if seems_high(
            lines.last(),
            high,
            low,
        ) == is_even(lines.last(), outlinelen) {
            1int
        } else {
            -1int
        }
    }
}

/// Which lines are the high ones, and where both kinds rest.
#[derive(Clone, Copy, Debug, PartialEq, Eq)]
pub struct Phasing<T> {
    pub even_is_high: bool,
    pub high: T,
    pub low: T,
}

impl<T> Phasing<T> {
    /// The line is of the kind that rests high.
    pub open spec fn is_high(&self, line: SecamLine<T>, outlinelen: nat) -> bool {
        is_even(line, outlinelen) == self.even_is_high
    }
}

/// The rest frequencies of the lines whose parity is `even`.
pub open spec fn parity_group<T>(
    lines: Seq<SecamLine<T>>,
    even: bool,
    outlinelen: nat,
) -> Seq<T>
    decreases lines.len(),
{
    if lines.len() == 0 {
        Seq::empty()
    } else {
        let before = parity_group(lines.drop_last(), even, outlinelen);
        if is_even(lines.last(), outlinelen) == even {
            before.push(lines.last().bp_freq)
        } else {
            before
        }
    }
}

/// The median of the group, or `fallback` where it is empty.
pub open spec fn group_center<T: Sample>(group: Seq<T>, fallback: T) -> T {
    if group.len() == 0 {
        fallback
    } else {
        middle_of(group)
    }
}

/// What [`choose_phasing`] answers. The means of the two clusters serve to
/// score the two phasings; the chosen one splits the lines by parity, and each
/// kind rests at the median of its lines.
pub open spec fn phasing_of<T: Single>(lines: Seq<SecamLine<T>>, outlinelen: nat) -> Phasing<T> {
    let median = middle_of(frequencies(lines));
    let high = cluster_center(lines, median, true);
    let low = cluster_center(lines, median, false);
    let even_is_high = parity_score(lines, high, low, outlinelen) >= 0;
    Phasing {
        even_is_high,
        high: group_center(parity_group(lines, even_is_high, outlinelen), high),
        low: group_center(parity_group(lines, !even_is_high, outlinelen), low),
    }
}

/// The mean frequency of the cluster, or the median where the cluster is empty.
fn center_of_cluster<T: Single>(lines: &[SecamLine<T>], median: T, high: bool) -> (center: T)
    requires
        functional_single::<T>(),
    ensures
        center == cluster_center(lines@, median, high),
{
    proof {
        lemma_functional_single::<T>();
    }
    let mut sum: T = zero();
    let mut count: usize = 0;
    let mut index: usize = 0;
    while index < lines.len()
        invariant
            functional::<T>(),
            index <= lines.len(),
            count <= index,
            (sum, count as nat) == cluster(lines@.take(index as int), median, high),
        decreases lines.len() - index,
    {
        proof {
            assert(lines@.take(index + 1).drop_last() =~= lines@.take(index as int));
        }
        let frequency: T = lines[index].bp_freq;
        if below(median, frequency) == high {
            sum = plus(sum, frequency);
            count = count + 1;
        }
        index = index + 1;
    }
    proof {
        assert(lines@.take(index as int) =~= lines@);
    }
    if count > 0 {
        over(sum, from_count(count))
    } else {
        median
    }
}

/// The line's place in the field is even.
fn has_even_place<T: Copy>(line: &SecamLine<T>, outlinelen: usize) -> (even: bool)
    requires
        outlinelen > 0,
    ensures
        even == is_even(*line, outlinelen as nat),
{
    (line.linestart / outlinelen) % 2 == 0
}

/// How many lines speak for the even lines being the high ones, less how many
/// speak against it.
fn score_parity<T: Single>(lines: &[SecamLine<T>], high: T, low: T, outlinelen: usize) -> (score:
    i32)
    requires
        functional_single::<T>(),
        outlinelen > 0,
        lines.len() <= i32::MAX,
    ensures
        score == parity_score(lines@, high, low, outlinelen as nat),
{
    proof {
        lemma_functional_single::<T>();
    }
    let mut score: i32 = 0;
    let mut index: usize = 0;
    while index < lines.len()
        invariant
            functional_single::<T>(),
            functional::<T>(),
            outlinelen > 0,
            index <= lines.len() <= i32::MAX,
            -index <= score <= index,
            score == parity_score(lines@.take(index as int), high, low, outlinelen as nat),
        decreases lines.len() - index,
    {
        proof {
            assert(lines@.take(index + 1).drop_last() =~= lines@.take(index as int));
        }
        let line: SecamLine<T> = lines[index];
        let measured_high: bool = at_most(
            absolute(minus(line.bp_freq, high)),
            absolute(minus(line.bp_freq, low)),
        );
        if measured_high == has_even_place(&line, outlinelen) {
            score = score + 1;
        } else {
            score = score - 1;
        }
        index = index + 1;
    }
    proof {
        assert(lines@.take(index as int) =~= lines@);
    }
    score
}

/// The median of the lines whose parity is `even`, or `fallback` where there are
/// none.
fn center_of_parity<T: Single>(
    lines: &[SecamLine<T>],
    even: bool,
    outlinelen: usize,
    fallback: T,
) -> (center: T)
    requires
        functional_single::<T>(),
        outlinelen > 0,
        forall|k: int| 0 <= k < lines.len() ==> rank((#[trigger] lines[k]).bp_freq) is Some,
    ensures
        center == group_center(parity_group(lines@, even, outlinelen as nat), fallback),
{
    proof {
        lemma_functional_single::<T>();
    }
    let mut group: Vec<T> = Vec::new();
    let mut index: usize = 0;
    while index < lines.len()
        invariant
            outlinelen > 0,
            index <= lines.len(),
            forall|k: int| 0 <= k < lines.len() ==> rank((#[trigger] lines[k]).bp_freq) is Some,
            all_numbers(group@),
            group@ == parity_group(lines@.take(index as int), even, outlinelen as nat),
        decreases lines.len() - index,
    {
        proof {
            assert(lines@.take(index + 1).drop_last() =~= lines@.take(index as int));
            assert(rank(lines@[index as int].bp_freq) is Some);
        }
        if has_even_place(&lines[index], outlinelen) == even {
            group.push(lines[index].bp_freq);
        }
        index = index + 1;
    }
    proof {
        assert(lines@.take(index as int) =~= lines@);
    }
    if group.is_empty() {
        fallback
    } else {
        median_of(group.as_slice())
    }
}

/// Decides which parity is the high one, and where both kinds rest.
pub fn choose_phasing<T: Single>(lines: &[SecamLine<T>], outlinelen: usize) -> (phasing: Phasing<T>)
    requires
        functional_single::<T>(),
        outlinelen > 0,
        0 < lines.len() <= i32::MAX,
        forall|k: int| 0 <= k < lines.len() ==> rank((#[trigger] lines[k]).bp_freq) is Some,
    ensures
        phasing == phasing_of(lines@, outlinelen as nat),
{
    proof {
        lemma_functional_single::<T>();
    }
    let mut freqs: Vec<T> = Vec::new();
    while freqs.len() < lines.len()
        invariant
            freqs.len() <= lines.len(),
            forall|k: int| 0 <= k < lines.len() ==> rank((#[trigger] lines[k]).bp_freq) is Some,
            forall|k: int| 0 <= k < freqs.len() ==> freqs[k] == lines[k].bp_freq,
            all_numbers(freqs@),
        decreases lines.len() - freqs.len(),
    {
        proof {
            assert(rank(lines@[freqs.len() as int].bp_freq) is Some);
        }
        freqs.push(lines[freqs.len()].bp_freq);
    }
    proof {
        assert(freqs@ =~= frequencies(lines@));
    }
    let median: T = median_of(freqs.as_slice());
    let high: T = center_of_cluster(lines, median, true);
    let low: T = center_of_cluster(lines, median, false);
    let even_is_high: bool = score_parity(lines, high, low, outlinelen) >= 0;
    Phasing {
        even_is_high,
        high: center_of_parity(lines, even_is_high, outlinelen, high),
        low: center_of_parity(lines, !even_is_high, outlinelen, low),
    }
}

/// Neighbouring lines are of different kinds, whatever was measured on them.
pub proof fn law_line_kinds_alternate<T>(
    phasing: Phasing<T>,
    line: SecamLine<T>,
    next: SecamLine<T>,
    outlinelen: nat,
)
    requires
        outlinelen > 0,
        next.linestart == line.linestart + outlinelen,
    ensures
        phasing.is_high(next, outlinelen) != phasing.is_high(line, outlinelen),
{
    let start = line.linestart as int;
    let len = outlinelen as int;
    assert((start + len) / len == start / len + 1) by (nonlinear_arith)
        requires
            len > 0,
    ;
}

proof fn lemma_score_counts_votes<T: Single>(
    lines: Seq<SecamLine<T>>,
    high: T,
    low: T,
    outlinelen: nat,
)
    ensures
        parity_score(lines, high, low, outlinelen) == 2 * tally(
            lines,
            |line: SecamLine<T>| seems_high(line, high, low) == is_even(line, outlinelen),
        ) - lines.len(),
    decreases lines.len(),
{
    if lines.len() > 0 {
        lemma_score_counts_votes(lines.drop_last(), high, low, outlinelen);
    }
}

/// The even lines are taken for the high ones exactly if at least half of the
/// lines speak for it: a minority of misread lines changes nothing.
pub proof fn law_majority_decides_phasing<T: Single>(lines: Seq<SecamLine<T>>, outlinelen: nat)
    ensures
        phasing_of(lines, outlinelen).even_is_high <==> 2 * tally(
            lines,
            |line: SecamLine<T>|
                {
                    let median = middle_of(frequencies(lines));
                    let high = cluster_center(lines, median, true);
                    let low = cluster_center(lines, median, false);
                    seems_high(line, high, low) == is_even(line, outlinelen)
                },
        ) >= lines.len(),
{
    let median = middle_of(frequencies(lines));
    let high = cluster_center(lines, median, true);
    let low = cluster_center(lines, median, false);
    lemma_score_counts_votes(lines, high, low, outlinelen);
    assert((|line: SecamLine<T>| seems_high(line, high, low) == is_even(line, outlinelen))
        =~= (|line: SecamLine<T>|
        {
            let median = middle_of(frequencies(lines));
            let high = cluster_center(lines, median, true);
            let low = cluster_center(lines, median, false);
            seems_high(line, high, low) == is_even(line, outlinelen)
        }));
}

} // verus!
