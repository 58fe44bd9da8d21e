//! Choice of the zero-phase filter that a cascade runs on.
use vstd::prelude::*;

use crate::first_order::{order1_filtered, sosfiltfilt_order1, FIRST_ORDER_EDGE};
use crate::sample::{
    functional, functional_sos, is_zero, lemma_functional_sos, widened, Sample, SosFloat,
};
use crate::scan::{scan_filtered, sosfiltfilt_order1_scan_f32};
use crate::sos::{lemma_ntaps_bounds, ntaps, sosfiltfilt_ntaps, zero_a2, zero_b2, Sos};
use crate::sosfiltfilt::{edge_of, sosfiltfilt_stack, stack_filtered};
use crate::steady::solvable;

verus! {

/// Longest cascade that runs on the section filters of this library.
pub const SOSFILTFILT_STACK_MAX_SECTIONS: usize = 12;

/// A zero-phase filter for cascades of any length.
pub trait DynamicFilter<F> {
    fn sosfiltfilt_dyn(&self, sos: &[Sos<F>], input: &[F]) -> Vec<F>;
}

/// `output` is what the filter may answer for the cascade and the signal.
pub open spec fn dynamic_answers<F, D: DynamicFilter<F>>(
    dynamic: D,
    sos: Seq<Sos<F>>,
    input: Seq<F>,
    output: Seq<F>,
) -> bool {
    exists|s: &[Sos<F>], x: &[F], y: Vec<F>|
        #[trigger] call_ensures(D::sosfiltfilt_dyn, (&dynamic, s, x), y) && s@ == sos && x@ == input
            && y@ == output
}

/// What the filter answers for the cascade and the signal.
pub open spec fn dynamic_filtered<F, D: DynamicFilter<F>>(
    dynamic: D,
    sos: Seq<Sos<F>>,
    input: Seq<F>,
) -> Seq<F> {
    choose|output: Seq<F>| dynamic_answers(dynamic, sos, input, output)
}

/// The filter answers the same for the same cascade and signal, and hands back
/// as many samples as it takes.
pub open spec fn functional_dynamic<F, D: DynamicFilter<F>>(dynamic: D) -> bool {
    &&& forall|sos: Seq<Sos<F>>, input: Seq<F>, y: Seq<F>, z: Seq<F>|
        #![trigger dynamic_answers(dynamic, sos, input, y), dynamic_answers(dynamic, sos, input, z)]
        dynamic_answers(dynamic, sos, input, y) && dynamic_answers(dynamic, sos, input, z) ==> y
            == z
    &&& forall|sos: Seq<Sos<F>>, input: Seq<F>, y: Seq<F>|
        #[trigger] dynamic_answers(dynamic, sos, input, y) ==> y.len() == input.len()
}

/// What zero-phase filtering runs on: the filter for long cascades, and whether
/// first-order sections run sixteen samples at a time.
pub struct FilterRuntime<D> {
    pub dynamic: D,
    pub vectorized: bool,
}

/// The cascade is a single section of first order.
pub open spec fn spec_is_first_order<F: Sample>(sos: Seq<Sos<F>>) -> bool {
    sos.len() == 1 && is_zero(sos[0].b2) && is_zero(sos[0].a2)
}

/// The cascade can filter a signal of `len` samples: each section has a
/// denominator, and the signal is longer than its continuation at an end.
pub open spec fn filterable<F: SosFloat>(sos: Seq<Sos<F>>, len: nat) -> bool {
    &&& forall|k: int| 0 <= k < sos.len() ==> solvable(#[trigger] sos[k])
    &&& edge_of(sos) < len
    &&& len + edge_of(sos) <= usize::MAX
}

/// What [`sosfiltfilt`] answers.
pub open spec fn zero_phase_filtered<F: SosFloat, D: DynamicFilter<F>>(
    dynamic: D,
    sos: Seq<Sos<F>>,
    input: Seq<F>,
) -> Seq<F> {
    if spec_is_first_order(sos) {
        order1_filtered(sos[0], input)
    } else if 1 <= sos.len() <= SOSFILTFILT_STACK_MAX_SECTIONS {
        stack_filtered(sos, input)
    } else {
        dynamic_filtered(dynamic, sos, input)
    }
}

/// What [`sosfiltfilt_f32`] answers.
pub open spec fn filtered<F: SosFloat, D: DynamicFilter<F>>(
    runtime: FilterRuntime<D>,
    sos: Seq<Sos<F>>,
    input: Seq<F>,
) -> Seq<F> {
    if runtime.vectorized && spec_is_first_order(sos) {
        scan_filtered(sos[0], input)
    } else {
        zero_phase_filtered(runtime.dynamic, sos, input)
    }
}

pub proof fn lemma_first_order_edge<F: Sample>(sos: Seq<Sos<F>>)
    requires
        spec_is_first_order(sos),
    ensures
        edge_of(sos) == FIRST_ORDER_EDGE,
{
    reveal_with_fuel(Seq::filter, 2);
    assert(sos.drop_last() =~= Seq::<Sos<F>>::empty());
    assert(zero_b2(sos) == 1);
    assert(zero_a2(sos) == 1);
    assert(ntaps(sos) == 2);
}

/// The cascade is a single section of first order.
fn is_first_order<F: SosFloat>(sos: &[Sos<F>]) -> (first: bool)
    requires
        functional_sos::<F>(),
    ensures
        first == spec_is_first_order(sos@),
{
    proof {
        lemma_functional_sos::<F>();
    }
    sos.len() == 1 && is_zero(sos[0].b2) && is_zero(sos[0].a2)
}

/// The cascade can filter a signal of `len` samples.
pub fn can_filter<F: SosFloat>(sos: &[Sos<F>], len: usize) -> (can: bool)
    requires
        functional_sos::<F>(),
    ensures
        can == filterable(sos@, len as nat),
{
    proof {
        lemma_functional_sos::<F>();
        lemma_ntaps_bounds(sos@);
    }
    if sos.len() >= usize::MAX / 6 {
        return false;
    }
    let edge: usize = 3 * sosfiltfilt_ntaps(sos);
    if edge >= len || len > usize::MAX - edge {
        return false;
    }
    let mut index: usize = 0;
    while index < sos.len()
        invariant
            functional_sos::<F>(),
            functional::<F::Wide>(),
            index <= sos.len(),
            forall|k: int| 0 <= k < index ==> solvable(#[trigger] sos[k]),
        decreases sos.len() - index,
    {
        let section: &Sos<F> = &sos[index];
        if is_zero(widened(section.a0)) && is_zero(widened(section.a1)) && is_zero(
            widened(section.a2),
        ) {
            proof {
                assert(!solvable(sos@[index as int]));
            }
            return false;
        }
        index = index + 1;
    }
    true
}

/// Zero-phase filter: a first-order recurrence for a single first-order
/// section, the section filters for up to twelve sections, `dynamic` otherwise.
pub fn sosfiltfilt<F: SosFloat, D: DynamicFilter<F>>(
    dynamic: &D,
    sos: &[Sos<F>],
    input_array: &[F],
) -> (output: Vec<F>)
    requires
        functional_sos::<F>(),
        functional_dynamic::<F, D>(*dynamic),
        filterable(sos@, input_array@.len()),
    ensures
        output@ == zero_phase_filtered(*dynamic, sos@, input_array@),
        output.len() == input_array.len(),
{
    if is_first_order(sos) {
        proof {
            lemma_first_order_edge(sos@);
            assert(solvable(sos@[0]));
        }
        sosfiltfilt_order1(&sos[0], input_array)
    } else if 1 <= sos.len() && sos.len() <= SOSFILTFILT_STACK_MAX_SECTIONS {
        sosfiltfilt_stack(sos, input_array)
    } else {
        let output: Vec<F> = dynamic.sosfiltfilt_dyn(sos, input_array);
        proof {
            assert(dynamic_answers(*dynamic, sos@, input_array@, output@));
        }
        output
    }
}

/// Zero-phase filter in the wide type, for timing that rounding would disturb.
pub fn sosfiltfilt_f64<F: SosFloat, D: DynamicFilter<F>>(
    dynamic: &D,
    sos: &[Sos<F>],
    input: &[F],
) -> (output: Vec<F>)
    requires
        functional_sos::<F>(),
        functional_dynamic::<F, D>(*dynamic),
        filterable(sos@, input@.len()),
    ensures
        output@ == zero_phase_filtered(*dynamic, sos@, input@),
        output.len() == input.len(),
{
    sosfiltfilt(dynamic, sos, input)
}

/// Zero-phase filter in the sample type of the signal chain.
pub fn sosfiltfilt_f32<F: SosFloat, D: DynamicFilter<F>>(
    runtime: &FilterRuntime<D>,
    sos: &[Sos<F>],
    input_array: &[F],
) -> (output: Vec<F>)
    requires
        functional_sos::<F>(),
        functional_dynamic::<F, D>(runtime.dynamic),
        filterable(sos@, input_array@.len()),
    ensures
        output@ == filtered(*runtime, sos@, input_array@),
        output.len() == input_array.len(),
{
    if runtime.vectorized && is_first_order(sos) {
        proof {
            lemma_first_order_edge(sos@);
            assert(solvable(sos@[0]));
        }
        sosfiltfilt_order1_scan_f32(&sos[0], input_array)
    } else {
        sosfiltfilt(&runtime.dynamic, sos, input_array)
    }
}

} // verus!
