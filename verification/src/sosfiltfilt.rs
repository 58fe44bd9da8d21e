//! Zero-phase filtering with cascades of second-order sections.
use vstd::prelude::*;
use vstd::slice::slice_to_vec;

use crate::machine::{odd_extension, outputs, state_after, zero_phase};
use crate::sample::{
    functional, functional_sos, fused, lemma_functional_sos, minus, negated, times, two, Sample,
    SosFloat,
};
use crate::sos::{
    cascade_step, lemma_cascade_step_len, lemma_ntaps_bounds, ntaps, sosfiltfilt_ntaps, Sos,
};
use crate::steady::{cascade_settled, solvable, sosfilt_zi};

verus! {

/// A section rewritten for a shorter recurrence. With the output substituted
/// into the delay updates,
///
/// ```text
///   out  = b0*x + zi0
///   zi0' = (b1 - a1*b0)*x - a1*zi0 + zi1
///   zi1' = (b2 - a2*b0)*x - a2*zi0
/// ```
///
/// each new delay is one multiply-add past the one before it.
#[derive(Clone, Copy, Debug)]
pub struct ReducedBiquad<F> {
    pub b0: F,
    pub neg_a1: F,
    pub neg_a2: F,
    pub bff1: F,
    pub bff2: F,
    pub zi0: F,
    pub zi1: F,
}

/// The section in its reduced form.
pub open spec fn reduced<F: Sample>(section: Sos<F>) -> ReducedBiquad<F> {
    ReducedBiquad {
        b0: section.b0,
        neg_a1: negated(section.a1),
        neg_a2: negated(section.a2),
        bff1: minus(section.b1, times(section.a1, section.b0)),
        bff2: minus(section.b2, times(section.a2, section.b0)),
        zi0: section.zi0,
        zi1: section.zi1,
    }
}

impl<F: Sample> ReducedBiquad<F> {
    /// Brings a section into its reduced form.
    pub fn from_sos(section: &Sos<F>) -> (biquad: ReducedBiquad<F>)
        requires
            functional::<F>(),
        ensures
            biquad == reduced(*section),
    {
        ReducedBiquad {
            b0: section.b0,
            neg_a1: negated(section.a1),
            neg_a2: negated(section.a2),
            bff1: minus(section.b1, times(section.a1, section.b0)),
            bff2: minus(section.b2, times(section.a2, section.b0)),
            zi0: section.zi0,
            zi1: section.zi1,
        }
    }
}

/// One sample through one reduced section: the next state and the output.
pub open spec fn reduced_section_step<F: Sample>(
    section: ReducedBiquad<F>,
    sample: F,
) -> (ReducedBiquad<F>, F) {
    let feed = fused(section.bff1, sample, section.zi1);
    let next = ReducedBiquad {
        zi0: fused(section.neg_a1, section.zi0, feed),
        zi1: fused(section.neg_a2, section.zi0, times(section.bff2, sample)),
        ..section
    };
    (next, fused(section.b0, sample, section.zi0))
}

/// The machine that one reduced section is.
pub open spec fn reduced_section_machine<F: Sample>() -> spec_fn(ReducedBiquad<F>, F) -> (
    ReducedBiquad<F>,
    F,
) {
    |section: ReducedBiquad<F>, sample: F| reduced_section_step(section, sample)
}

/// The machine that a cascade of reduced sections is.
pub open spec fn reduced_machine<F: Sample>() -> spec_fn(Seq<ReducedBiquad<F>>, F) -> (
    Seq<ReducedBiquad<F>>,
    F,
) {
    |sections: Seq<ReducedBiquad<F>>, sample: F|
        cascade_step(reduced_section_machine::<F>(), sections, sample)
}

/// Advances a single reduced section by one sample, returning its output.
pub fn reduced_step<F: Sample>(section: &mut ReducedBiquad<F>, sample: F) -> (output: F)
    requires
        functional::<F>(),
    ensures
        (*final(section), output) == reduced_section_step(*old(section), sample),
{
    let zi0: F = section.zi0;
    let output: F = fused(section.b0, sample, zi0);
    let feed: F = fused(section.bff1, sample, section.zi1);
    section.zi0 = fused(section.neg_a1, zi0, feed);
    section.zi1 = fused(section.neg_a2, zi0, times(section.bff2, sample));
    output
}

/// Advances a reduced cascade by one sample, returning the output of its last
/// section.
pub fn reduced_sample_stack<F: Sample>(
    sample: F,
    sections: &mut Vec<ReducedBiquad<F>>,
) -> (output: F)
    requires
        functional::<F>(),
    ensures
        (final(sections)@, output) == cascade_step(
            reduced_section_machine::<F>(),
            old(sections)@,
            sample,
        ),
{
    let ghost before = sections@;
    let ghost step = reduced_section_machine::<F>();
    let mut passed: F = sample;
    let mut index: usize = 0;
    proof {
        assert(sections@ =~= cascade_step(step, before.take(0), sample).0 + before.skip(0));
    }
    while index < sections.len()
        invariant
            functional::<F>(),
            step == reduced_section_machine::<F>(),
            index <= sections.len(),
            sections.len() == before.len(),
            cascade_step(step, before.take(index as int), sample).1 == passed,
            sections@ == cascade_step(step, before.take(index as int), sample).0 + before.skip(
                index as int,
            ),
        decreases sections.len() - index,
    {
        proof {
            lemma_cascade_step_len(step, before.take(index as int), sample);
            assert(before.take(index + 1).drop_last() =~= before.take(index as int));
        }
        let mut section: ReducedBiquad<F> = sections[index];
        passed = reduced_step(&mut section, passed);
        sections[index] = section;
        index = index + 1;
        proof {
            assert(sections@ =~= cascade_step(step, before.take(index as int), sample).0
                + before.skip(index as int));
        }
    }
    proof {
        lemma_cascade_step_len(step, before, sample);
        assert(before.take(index as int) =~= before);
        assert(sections@ =~= cascade_step(step, before, sample).0);
    }
    passed
}

/// The section with its delays multiplied by `scale`.
pub open spec fn scaled_section<F: Sample>(section: ReducedBiquad<F>, scale: F) -> ReducedBiquad<
    F,
> {
    ReducedBiquad {
        zi0: times(section.zi0, scale),
        zi1: times(section.zi1, scale),
        ..section
    }
}

/// The cascade with all its delays multiplied by `scale`.
pub open spec fn scaled_cascade<F: Sample>(sections: Seq<ReducedBiquad<F>>, scale: F) -> Seq<
    ReducedBiquad<F>,
> {
    sections.map_values(|section: ReducedBiquad<F>| scaled_section(section, scale))
}

/// How a cascade is seeded: the state that it settles into for a constant, at
/// the level of the first sample.
pub open spec fn seeding<F: Sample>(settled: Seq<ReducedBiquad<F>>) -> spec_fn(F) -> Seq<
    ReducedBiquad<F>,
> {
    |level: F| scaled_cascade(settled, level)
}

/// Multiplies all delays of a cascade by `scale`.
pub fn scale_reduced_state<F: Sample>(sections: &mut Vec<ReducedBiquad<F>>, scale: F)
    requires
        functional::<F>(),
    ensures
        final(sections)@ == scaled_cascade(old(sections)@, scale),
{
    let ghost before = sections@;
    let mut index: usize = 0;
    while index < sections.len()
        invariant
            functional::<F>(),
            index <= sections.len(),
            sections.len() == before.len(),
            forall|k: int| 0 <= k < index ==> sections[k] == scaled_section(before[k], scale),
            forall|k: int| index <= k < before.len() ==> sections[k] == before[k],
        decreases sections.len() - index,
    {
        let section: ReducedBiquad<F> = sections[index];
        sections[index] = ReducedBiquad {
            zi0: times(section.zi0, scale),
            zi1: times(section.zi1, scale),
            ..section
        };
        index = index + 1;
    }
    proof {
        assert(sections@ =~= scaled_cascade(before, scale));
    }
}

/// The reduced cascade in the state that it settles into for a constant 1.
pub open spec fn settled_cascade<F: SosFloat>(sos: Seq<Sos<F>>) -> Seq<ReducedBiquad<F>> {
    cascade_settled(sos).map_values(|section: Sos<F>| reduced(section))
}

/// Samples by which the signal is continued at each end.
pub open spec fn edge_of<F: Sample>(sos: Seq<Sos<F>>) -> nat {
    (3 * ntaps(sos)) as nat
}

/// What [`sosfiltfilt_stack`] answers.
pub open spec fn stack_filtered<F: SosFloat>(sos: Seq<Sos<F>>, input: Seq<F>) -> Seq<F> {
    zero_phase(reduced_machine::<F>(), seeding(settled_cascade(sos)), input, edge_of(sos))
}

/// Zero-phase filter of up to twelve sections. The forward pass runs over the
/// left continuation only for the state it leaves, and the backward pass stops
/// at the first sample of the signal.
pub fn sosfiltfilt_stack<F: SosFloat>(sos: &[Sos<F>], input_array: &[F]) -> (output: Vec<F>)
    requires
        functional_sos::<F>(),
        1 <= sos.len() <= 12,
        forall|k: int| 0 <= k < sos.len() ==> solvable(#[trigger] sos[k]),
        input_array.len() > edge_of(sos@),
        input_array.len() + edge_of(sos@) <= usize::MAX,
    ensures
        output@ == stack_filtered(sos@, input_array@),
{
    proof {
        lemma_functional_sos::<F>();
        lemma_ntaps_bounds(sos@);
    }
    let taps: usize = sosfiltfilt_ntaps(sos);
    let edge: usize = taps * 3;

    let mut init_sections: Vec<Sos<F>> = slice_to_vec(sos);
    sosfilt_zi(&mut init_sections);
    let mut init_reduced: Vec<ReducedBiquad<F>> = Vec::new();
    let mut section_index: usize = 0;
    while section_index < init_sections.len()
        invariant
            functional::<F>(),
            section_index <= init_sections.len(),
            init_reduced.len() == section_index,
            forall|k: int|
                0 <= k < section_index ==> init_reduced[k] == reduced(init_sections[k]),
        decreases init_sections.len() - section_index,
    {
        init_reduced.push(ReducedBiquad::from_sos(&init_sections[section_index]));
        section_index = section_index + 1;
    }
    proof {
        assert(init_reduced@ =~= settled_cascade(sos@));
    }

    let ghost step = reduced_machine::<F>();
    let ghost seeded = seeding(init_reduced@);
    let ghost extended = odd_extension(input_array@, edge as nat);
    let ghost forward_start = seeded(extended[0]);
    let ghost forward = outputs(step, forward_start, extended);

    let n: usize = input_array.len();
    let left_end: F = input_array[0];
    let right_end: F = input_array[n - 1];

    let x0: F = minus(times(two(), left_end), input_array[edge]);
    let mut forward_sections: Vec<ReducedBiquad<F>> = slice_to_vec(init_reduced.as_slice());
    scale_reduced_state(&mut forward_sections, x0);

    let mut taken: usize = 0;
    while taken < edge
        invariant
            functional::<F>(),
            step == reduced_machine::<F>(),
            n == input_array.len(),
            edge < n,
            taken <= edge,
            left_end == input_array[0],
            extended == odd_extension(input_array@, edge as nat),
            forward_sections@ == state_after(step, forward_start, extended, taken as nat),
        decreases edge - taken,
    {
        let sample: F = minus(times(two(), left_end), input_array[edge - taken]);
        let _ignored: F = reduced_sample_stack(sample, &mut forward_sections);
        taken = taken + 1;
    }

    let total: usize = n + edge;
    let mut filtered: Vec<F> = Vec::new();
    while filtered.len() < n
        invariant
            functional::<F>(),
            step == reduced_machine::<F>(),
            n == input_array.len(),
            n + edge <= usize::MAX,
            filtered.len() <= n,
            extended == odd_extension(input_array@, edge as nat),
            forward == outputs(step, forward_start, extended),
            forward_sections@ == state_after(
                step,
                forward_start,
                extended,
                (edge + filtered.len()) as nat,
            ),
            forall|k: int| 0 <= k < filtered.len() ==> filtered[k] == forward[edge + k],
        decreases n - filtered.len(),
    {
        let sample: F = input_array[filtered.len()];
        let passed: F = reduced_sample_stack(sample, &mut forward_sections);
        filtered.push(passed);
    }
    while filtered.len() < total
        invariant
            functional::<F>(),
            step == reduced_machine::<F>(),
            n == input_array.len(),
            edge < n,
            total == n + edge,
            n <= filtered.len() <= total,
            right_end == input_array[n - 1],
            extended == odd_extension(input_array@, edge as nat),
            forward == outputs(step, forward_start, extended),
            forward_sections@ == state_after(
                step,
                forward_start,
                extended,
                (edge + filtered.len()) as nat,
            ),
            forall|k: int| 0 <= k < filtered.len() ==> filtered[k] == forward[edge + k],
        decreases total - filtered.len(),
    {
        let index: usize = filtered.len() - n + 1;
        let sample: F = minus(times(two(), right_end), input_array[n - 1 - index]);
        let passed: F = reduced_sample_stack(sample, &mut forward_sections);
        filtered.push(passed);
    }

    let y0: F = filtered[total - 1];
    let mut backward_sections: Vec<ReducedBiquad<F>> = slice_to_vec(init_reduced.as_slice());
    scale_reduced_state(&mut backward_sections, y0);
    let ghost reversed = forward.reverse();
    let ghost backward_start = seeded(forward.last());
    let ghost backward = outputs(step, backward_start, reversed);
    proof {
        assert(forward.last() == y0);
    }

    let mut index: usize = total;
    while index > n
        invariant
            functional::<F>(),
            step == reduced_machine::<F>(),
            total == n + edge,
            n <= index <= total,
            filtered.len() == total,
            forward.len() == total + edge,
            reversed == forward.reverse(),
            backward_sections@ == state_after(
                step,
                backward_start,
                reversed,
                (total - index) as nat,
            ),
            forall|k: int| 0 <= k < total ==> filtered[k] == forward[edge + k],
        decreases index,
    {
        index = index - 1;
        let sample: F = filtered[index];
        proof {
            assert(sample == reversed[total - 1 - index]);
        }
        let _ignored: F = reduced_sample_stack(sample, &mut backward_sections);
    }
    while index > 0
        invariant
            functional::<F>(),
            step == reduced_machine::<F>(),
            total == n + edge,
            index <= n,
            filtered.len() == total,
            forward.len() == total + edge,
            reversed == forward.reverse(),
            backward == outputs(step, backward_start, reversed),
            backward_sections@ == state_after(
                step,
                backward_start,
                reversed,
                (total - index) as nat,
            ),
            forall|k: int| 0 <= k < index ==> filtered[k] == forward[edge + k],
            forall|k: int| index <= k < n ==> filtered[k] == backward[total - 1 - k],
        decreases index,
    {
        index = index - 1;
        let sample: F = filtered[index];
        proof {
            assert(sample == reversed[total - 1 - index]);
        }
        let passed: F = reduced_sample_stack(sample, &mut backward_sections);
        filtered[index] = passed;
    }

    filtered.truncate(n);
    proof {
        assert(filtered@ =~= backward.reverse().subrange(edge as int, edge + n));
    }
    filtered
}

} // verus!
