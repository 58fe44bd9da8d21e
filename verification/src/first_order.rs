//! Zero-phase filtering with a single section of first order.
use vstd::prelude::*;

use crate::machine::{odd_extension, outputs, state_after, zero_phase};
use crate::sample::{
    functional, functional_sos, fused, lemma_functional_sos, minus, negated, times, two, Sample,
    SosFloat,
};
use crate::sos::Sos;
use crate::steady::{cascade_settled, solvable, sosfilt_zi};

verus! {

/// Samples by which a first-order filter continues the signal at each end:
/// three times its two taps.
pub const FIRST_ORDER_EDGE: usize = 6;

/// A first-order section in its reduced form. Its second delay is always zero
/// and is not carried.
#[derive(Clone, Copy, Debug)]
pub struct FirstOrder<F> {
    pub b0: F,
    pub neg_a1: F,
    pub bff: F,
}

/// The reduced form of a section of first order.
pub open spec fn first_order<F: Sample>(section: Sos<F>) -> FirstOrder<F> {
    FirstOrder {
        b0: section.b0,
        neg_a1: negated(section.a1),
        bff: minus(section.b1, times(section.a1, section.b0)),
    }
}

/// One sample through a first-order section with delay `zi0`: the next delay
/// and the output.
pub open spec fn first_order_step<F: Sample>(filter: FirstOrder<F>, zi0: F, sample: F) -> (F, F) {
    (fused(filter.neg_a1, zi0, times(filter.bff, sample)), fused(filter.b0, sample, zi0))
}

/// The machine that a first-order section is.
pub open spec fn first_order_machine<F: Sample>(filter: FirstOrder<F>) -> spec_fn(F, F) -> (F, F) {
    |zi0: F, sample: F| first_order_step(filter, zi0, sample)
}

/// How a delay that settles at `base` for a constant 1 is seeded.
pub open spec fn delay_seeding<F: Sample>(base: F) -> spec_fn(F) -> F {
    |level: F| times(base, level)
}

/// The delay that a section settles at for a constant 1.
pub open spec fn settled_delay<F: SosFloat>(section: Sos<F>) -> F {
    cascade_settled(seq![section])[0].zi0
}

/// What [`sosfiltfilt_order1`] answers.
pub open spec fn order1_filtered<F: SosFloat>(section: Sos<F>, input: Seq<F>) -> Seq<F> {
    zero_phase(
        first_order_machine(first_order(section)),
        delay_seeding(settled_delay(section)),
        input,
        FIRST_ORDER_EDGE as nat,
    )
}

impl<F: Sample> FirstOrder<F> {
    /// Brings a section of first order into its reduced form.
    pub fn from_sos(section: &Sos<F>) -> (filter: FirstOrder<F>)
        requires
            functional::<F>(),
        ensures
            filter == first_order(*section),
    {
        FirstOrder {
            b0: section.b0,
            neg_a1: negated(section.a1),
            bff: minus(section.b1, times(section.a1, section.b0)),
        }
    }

    /// Advances the delay `zi0` by one sample, returning the output.
    pub fn step(&self, zi0: &mut F, sample: F) -> (output: F)
        requires
            functional::<F>(),
        ensures
            (*final(zi0), output) == first_order_step(*self, *old(zi0), sample),
    {
        let output: F = fused(self.b0, sample, *zi0);
        *zi0 = fused(self.neg_a1, *zi0, times(self.bff, sample));
        output
    }
}

/// The delay that a section settles at for a constant 1.
pub fn settled_delay_of<F: SosFloat>(section: &Sos<F>) -> (base: F)
    requires
        functional_sos::<F>(),
        solvable(*section),
    ensures
        base == settled_delay(*section),
{
    let mut seed: Vec<Sos<F>> = Vec::new();
    seed.push(*section);
    proof {
        assert(seed@ =~= seq![*section]);
    }
    sosfilt_zi(&mut seed);
    seed[0].zi0
}

/// Zero-phase filter for a single section of first order.
pub fn sosfiltfilt_order1<F: SosFloat>(section: &Sos<F>, input_array: &[F]) -> (output: Vec<F>)
    requires
        functional_sos::<F>(),
        solvable(*section),
        input_array.len() > FIRST_ORDER_EDGE,
        input_array.len() + FIRST_ORDER_EDGE <= usize::MAX,
    ensures
        output@ == order1_filtered(*section, input_array@),
{
    proof {
        lemma_functional_sos::<F>();
    }
    let edge: usize = FIRST_ORDER_EDGE;
    let n: usize = input_array.len();
    let zi0_base: F = settled_delay_of(section);
    let filter: FirstOrder<F> = FirstOrder::from_sos(section);

    let ghost step = first_order_machine(filter);
    let ghost seeded = delay_seeding(zi0_base);
    let ghost extended = odd_extension(input_array@, edge as nat);
    let ghost forward_start = seeded(extended[0]);
    let ghost forward = outputs(step, forward_start, extended);

    let left_end: F = input_array[0];
    let right_end: F = input_array[n - 1];

    let x0: F = minus(times(two(), left_end), input_array[edge]);
    let mut zi0: F = times(zi0_base, x0);

    let mut taken: usize = 0;
    while taken < edge
        invariant
            functional::<F>(),
            step == first_order_machine(filter),
            n == input_array.len(),
            edge < n,
            taken <= edge,
            left_end == input_array[0],
            extended == odd_extension(input_array@, edge as nat),
            zi0 == state_after(step, forward_start, extended, taken as nat),
        decreases edge - taken,
    {
        let sample: F = minus(times(two(), left_end), input_array[edge - taken]);
        let _ignored: F = filter.step(&mut zi0, sample);
        taken = taken + 1;
    }

    let total: usize = n + edge;
    let mut filtered: Vec<F> = Vec::new();
    while filtered.len() < n
        invariant
            functional::<F>(),
            step == first_order_machine(filter),
            n == input_array.len(),
            n + edge <= usize::MAX,
            filtered.len() <= n,
            extended == odd_extension(input_array@, edge as nat),
            forward == outputs(step, forward_start, extended),
            zi0 == state_after(step, forward_start, extended, (edge + filtered.len()) as nat),
            forall|k: int| 0 <= k < filtered.len() ==> filtered[k] == forward[edge + k],
        decreases n - filtered.len(),
    {
        let sample: F = input_array[filtered.len()];
        let passed: F = filter.step(&mut zi0, sample);
        filtered.push(passed);
    }
    while filtered.len() < total
        invariant
            functional::<F>(),
            step == first_order_machine(filter),
            n == input_array.len(),
            edge < n,
            total == n + edge,
            n <= filtered.len() <= total,
            right_end == input_array[n - 1],
            extended == odd_extension(input_array@, edge as nat),
            forward == outputs(step, forward_start, extended),
            zi0 == state_after(step, forward_start, extended, (edge + filtered.len()) as nat),
            forall|k: int| 0 <= k < filtered.len() ==> filtered[k] == forward[edge + k],
        decreases total - filtered.len(),
    {
        let index: usize = filtered.len() - n + 1;
        let sample: F = minus(times(two(), right_end), input_array[n - 1 - index]);
        let passed: F = filter.step(&mut zi0, sample);
        filtered.push(passed);
    }

    let y0: F = filtered[total - 1];
    let mut zi0: F = times(zi0_base, y0);
    let ghost reversed = forward.reverse();
    let ghost backward_start = seeded(forward.last());
    let ghost backward = outputs(step, backward_start, reversed);
    proof {
        assert(forward.last() == y0);
    }

    let mut index: usize = total;
    while index > n
        invariant
            functional::<F>(),
            step == first_order_machine(filter),
            total == n + edge,
            n <= index <= total,
            filtered.len() == total,
            forward.len() == total + edge,
            reversed == forward.reverse(),
            zi0 == state_after(step, backward_start, reversed, (total - index) as nat),
            forall|k: int| 0 <= k < total ==> filtered[k] == forward[edge + k],
        decreases index,
    {
        index = index - 1;
        let sample: F = filtered[index];
        proof {
            assert(sample == reversed[total - 1 - index]);
        }
        let _ignored: F = filter.step(&mut zi0, sample);
    }
    while index > 0
        invariant
            functional::<F>(),
            step == first_order_machine(filter),
            total == n + edge,
            index <= n,
            filtered.len() == total,
            forward.len() == total + edge,
            reversed == forward.reverse(),
            backward == outputs(step, backward_start, reversed),
            zi0 == state_after(step, backward_start, reversed, (total - index) as nat),
            forall|k: int| 0 <= k < index ==> filtered[k] == forward[edge + k],
            forall|k: int| index <= k < n ==> filtered[k] == backward[total - 1 - k],
        decreases index,
    {
        index = index - 1;
        let sample: F = filtered[index];
        proof {
            assert(sample == reversed[total - 1 - index]);
        }
        let passed: F = filter.step(&mut zi0, sample);
        filtered[index] = passed;
    }

    filtered.truncate(n);
    proof {
        assert(filtered@ =~= backward.reverse().subrange(edge as int, edge + n));
    }
    filtered
}

} // verus!
