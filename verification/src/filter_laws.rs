//! What the rewritten filter recurrences keep of the plain ones.
//!
//! Rounding aside, a cascade of reduced sections, the recurrence for a single
//! first-order section and its sixteen-lane scan all compute what the plain
//! sections compute. The laws here say so of every sample arithmetic that does
//! not round.
use vstd::prelude::*;

use crate::filter::{filterable, lemma_first_order_edge, spec_is_first_order};
use crate::first_order::{
    delay_seeding, first_order, first_order_machine, order1_filtered, settled_delay, FirstOrder,
    FIRST_ORDER_EDGE,
};
use crate::machine::{odd_extension, outputs, state_after, zero_phase};
use crate::reals::{lemma_real_associates, lemma_real_distributes};
use crate::sample::{exact, exact_wide, is_zero, minus, one, times, widened, Sample, SosFloat};
use crate::sos::{
    cascade_step, lemma_cascade_step_len, lemma_ntaps_bounds, ntaps, section_machine,
    section_step, sos_machine, Sos,
};
use crate::sosfiltfilt::{
    edge_of, reduced, reduced_machine, reduced_section_machine, reduced_section_step,
    scaled_section, seeding, settled_cascade, stack_filtered, ReducedBiquad,
};
use crate::steady::{
    cascade_gain, cascade_settled, constant_denominator, leading, normalized, section_settled,
    settled, solvable,
};

verus! {

/// Two samples that stand for the same number.
pub open spec fn same<F>(value: spec_fn(F) -> real) -> spec_fn(F, F) -> bool {
    |a: F, b: F| value(a) == value(b)
}

/// Two signals that stand for the same numbers, sample by sample.
pub open spec fn same_signal<F>(value: spec_fn(F) -> real, one: Seq<F>, other: Seq<F>) -> bool {
    one.len() == other.len() && forall|k: int|
        0 <= k < one.len() ==> value(#[trigger] one[k]) == value(other[k])
}

/// One step of the first machine answers what one step of the second answers,
/// and leaves the states related.
pub open spec fn simulates<S, R, F>(
    step: spec_fn(S, F) -> (S, F),
    other: spec_fn(R, F) -> (R, F),
    related: spec_fn(S, R) -> bool,
    value: spec_fn(F) -> real,
) -> bool {
    forall|s: S, r: R, x: F, y: F|
        #![trigger step(s, x), other(r, y)]
        related(s, r) && value(x) == value(y) ==> related(step(s, x).0, other(r, y).0) && value(
            step(s, x).1,
        ) == value(other(r, y).1)
}

pub proof fn lemma_states_related<S, R, F>(
    step: spec_fn(S, F) -> (S, F),
    other: spec_fn(R, F) -> (R, F),
    related: spec_fn(S, R) -> bool,
    value: spec_fn(F) -> real,
    s: S,
    r: R,
    x: Seq<F>,
    y: Seq<F>,
    count: nat,
)
    requires
        simulates(step, other, related, value),
        related(s, r),
        same_signal(value, x, y),
        count <= x.len(),
    ensures
        related(state_after(step, s, x, count), state_after(other, r, y, count)),
    decreases count,
{
    if count > 0 {
        let last = (count - 1) as nat;
        lemma_states_related(step, other, related, value, s, r, x, y, last);
        let _ = step(state_after(step, s, x, last), x[last as int]);
        let _ = other(state_after(other, r, y, last), y[last as int]);
        assert(value(x[last as int]) == value(y[last as int]));
    }
}

pub proof fn lemma_outputs_same<S, R, F>(
    step: spec_fn(S, F) -> (S, F),
    other: spec_fn(R, F) -> (R, F),
    related: spec_fn(S, R) -> bool,
    value: spec_fn(F) -> real,
    s: S,
    r: R,
    x: Seq<F>,
    y: Seq<F>,
)
    requires
        simulates(step, other, related, value),
        related(s, r),
        same_signal(value, x, y),
    ensures
        same_signal(value, outputs(step, s, x), outputs(other, r, y)),
{
    assert forall|k: int| 0 <= k < x.len() implies value(#[trigger] outputs(step, s, x)[k])
        == value(outputs(other, r, y)[k]) by {
        lemma_states_related(step, other, related, value, s, r, x, y, k as nat);
        let _ = step(state_after(step, s, x, k as nat), x[k]);
        let _ = other(state_after(other, r, y, k as nat), y[k]);
        assert(value(x[k]) == value(y[k]));
    }
}

proof fn lemma_zero_phase_same<S, R, F: Sample>(
    step: spec_fn(S, F) -> (S, F),
    other: spec_fn(R, F) -> (R, F),
    related: spec_fn(S, R) -> bool,
    value: spec_fn(F) -> real,
    seeded: spec_fn(F) -> S,
    other_seeded: spec_fn(F) -> R,
    signal: Seq<F>,
    edge: nat,
)
    requires
        simulates(step, other, related, value),
        signal.len() > 0,
        forall|x: F, y: F|
            #![trigger seeded(x), other_seeded(y)]
            value(x) == value(y) ==> related(seeded(x), other_seeded(y)),
    ensures
        same_signal(
            value,
            zero_phase(step, seeded, signal, edge),
            zero_phase(other, other_seeded, signal, edge),
        ),
{
    let extended = odd_extension(signal, edge);
    let s = seeded(extended[0]);
    let r = other_seeded(extended[0]);
    lemma_outputs_same(step, other, related, value, s, r, extended, extended);
    let forward = outputs(step, s, extended);
    let other_forward = outputs(other, r, extended);
    assert(value(forward[forward.len() - 1]) == value(other_forward[forward.len() - 1]));
    let turned = forward.reverse();
    let other_turned = other_forward.reverse();
    assert forall|k: int| 0 <= k < turned.len() implies value(#[trigger] turned[k]) == value(
        other_turned[k],
    ) by {
        assert(turned[k] == forward[forward.len() - 1 - k]);
    }
    lemma_outputs_same(
        step,
        other,
        related,
        value,
        seeded(forward.last()),
        other_seeded(other_forward.last()),
        turned,
        other_turned,
    );
    let backward = outputs(step, seeded(forward.last()), turned);
    let result = zero_phase(step, seeded, signal, edge);
    assert forall|k: int| 0 <= k < result.len() implies value(#[trigger] result[k]) == value(
        zero_phase(other, other_seeded, signal, edge)[k],
    ) by {
        assert(result[k] == backward[backward.len() - 1 - (edge + k)]);
    }
}

/// A reduced section that stands for the plain one.
pub open spec fn stands_for<F>(
    value: spec_fn(F) -> real,
    biquad: ReducedBiquad<F>,
    section: Sos<F>,
) -> bool {
    &&& value(biquad.b0) == value(section.b0)
    &&& value(biquad.neg_a1) == -value(section.a1)
    &&& value(biquad.neg_a2) == -value(section.a2)
    &&& value(biquad.bff1) == value(section.b1) - value(section.a1) * value(section.b0)
    &&& value(biquad.bff2) == value(section.b2) - value(section.a2) * value(section.b0)
    &&& value(biquad.zi0) == value(section.zi0)
    &&& value(biquad.zi1) == value(section.zi1)
}

/// A reduced cascade that stands for the plain one, section by section.
pub open spec fn cascade_stands_for<F>(value: spec_fn(F) -> real) -> spec_fn(
    Seq<ReducedBiquad<F>>,
    Seq<Sos<F>>,
) -> bool {
    |biquads: Seq<ReducedBiquad<F>>, sections: Seq<Sos<F>>|
        biquads.len() == sections.len() && forall|k: int|
            0 <= k < biquads.len() ==> stands_for(value, #[trigger] biquads[k], sections[k])
}

proof fn lemma_substituted(
    b0: real,
    b1: real,
    b2: real,
    a1: real,
    a2: real,
    x: real,
    zi0: real,
    zi1: real,
)
    ensures
        (-a1) * zi0 + ((b1 - a1 * b0) * x + zi1) == b1 * x + ((-a1) * (b0 * x + zi0) + zi1),
        (-a2) * zi0 + (b2 - a2 * b0) * x == b2 * x + (-(a2 * (b0 * x + zi0))),
{
    lemma_real_distributes(x, b1, a1 * b0);
    lemma_real_associates(a1, b0, x);
    lemma_real_distributes(-a1, b0 * x, zi0);
    lemma_real_distributes(a1, b0 * x, zi0);
    lemma_real_distributes(x, b2, a2 * b0);
    lemma_real_associates(a2, b0, x);
    lemma_real_distributes(a2, b0 * x, zi0);
    lemma_real_distributes(a2, zi0, zi0);
}

/// A section and its reduced form follow the same difference equation: from
/// states that stand for each other, the same input gives the same output and
/// states that again stand for each other.
pub proof fn law_reduced_section_same_equation<F: Sample>(
    value: spec_fn(F) -> real,
    biquad: ReducedBiquad<F>,
    section: Sos<F>,
    sample: F,
    other: F,
)
    requires
        exact(value),
        stands_for(value, biquad, section),
        value(sample) == value(other),
    ensures
        value(reduced_section_step(biquad, sample).1) == value(section_step(section, other).1),
        stands_for(
            value,
            reduced_section_step(biquad, sample).0,
            section_step(section, other).0,
        ),
{
    lemma_substituted(
        value(section.b0),
        value(section.b1),
        value(section.b2),
        value(section.a1),
        value(section.a2),
        value(sample),
        value(section.zi0),
        value(section.zi1),
    );
}

proof fn lemma_cascade_steps_same<F: Sample>(
    value: spec_fn(F) -> real,
    biquads: Seq<ReducedBiquad<F>>,
    sections: Seq<Sos<F>>,
    sample: F,
    other: F,
)
    requires
        exact(value),
        cascade_stands_for(value)(biquads, sections),
        value(sample) == value(other),
    ensures
        cascade_stands_for(value)(
            cascade_step(reduced_section_machine::<F>(), biquads, sample).0,
            cascade_step(section_machine::<F>(), sections, other).0,
        ),
        value(cascade_step(reduced_section_machine::<F>(), biquads, sample).1) == value(
            cascade_step(section_machine::<F>(), sections, other).1,
        ),
    decreases sections.len(),
{
    if sections.len() > 0 {
        let front = biquads.drop_last();
        let other_front = sections.drop_last();
        assert forall|k: int| 0 <= k < front.len() implies stands_for(
            value,
            #[trigger] front[k],
            other_front[k],
        ) by {
            assert(front[k] == biquads[k]);
        }
        lemma_cascade_steps_same(value, front, other_front, sample, other);
        let (next, passed) = cascade_step(reduced_section_machine::<F>(), front, sample);
        let (other_next, other_passed) = cascade_step(section_machine::<F>(), other_front, other);
        assert(stands_for(value, biquads[biquads.len() - 1], sections[sections.len() - 1]));
        law_reduced_section_same_equation(
            value,
            biquads.last(),
            sections.last(),
            passed,
            other_passed,
        );
        lemma_cascade_step_len(reduced_section_machine::<F>(), front, sample);
        lemma_cascade_step_len(section_machine::<F>(), other_front, other);
        let after = cascade_step(reduced_section_machine::<F>(), biquads, sample).0;
        let other_after = cascade_step(section_machine::<F>(), sections, other).0;
        assert forall|k: int| 0 <= k < after.len() implies stands_for(
            value,
            #[trigger] after[k],
            other_after[k],
        ) by {
            if k < front.len() {
                assert(after[k] == next[k]);
            }
        }
    }
}

proof fn lemma_reduced_simulates<F: Sample>(value: spec_fn(F) -> real)
    requires
        exact(value),
    ensures
        simulates(reduced_machine::<F>(), sos_machine::<F>(), cascade_stands_for(value), value),
{
    let step = reduced_machine::<F>();
    let other = sos_machine::<F>();
    let related = cascade_stands_for(value);
    assert forall|s: Seq<ReducedBiquad<F>>, r: Seq<Sos<F>>, x: F, y: F|
        #![trigger step(s, x), other(r, y)]
        related(s, r) && value(x) == value(y) implies related(step(s, x).0, other(r, y).0)
        && value(step(s, x).1) == value(other(r, y).1) by {
        lemma_cascade_steps_same(value, s, r, x, y);
    }
}

/// A cascade and its reduced form answer a signal alike.
pub proof fn law_reduced_cascade_filters_alike<F: Sample>(
    value: spec_fn(F) -> real,
    sections: Seq<Sos<F>>,
    signal: Seq<F>,
)
    requires
        exact(value),
    ensures
        same_signal(
            value,
            outputs(
                reduced_machine::<F>(),
                sections.map_values(|section: Sos<F>| reduced(section)),
                signal,
            ),
            outputs(sos_machine::<F>(), sections, signal),
        ),
{
    lemma_reduced_simulates(value);
    lemma_outputs_same(
        reduced_machine::<F>(),
        sos_machine::<F>(),
        cascade_stands_for(value),
        value,
        sections.map_values(|section: Sos<F>| reduced(section)),
        sections,
        signal,
        signal,
    );
}

/// The section with its delays multiplied by `level`.
pub open spec fn plain_scaled<F: Sample>(section: Sos<F>, level: F) -> Sos<F> {
    Sos { zi0: times(section.zi0, level), zi1: times(section.zi1, level), ..section }
}

/// How a cascade of plain sections is seeded.
pub open spec fn plain_seeding<F: Sample>(settled_sections: Seq<Sos<F>>) -> spec_fn(F) -> Seq<
    Sos<F>,
> {
    |level: F| settled_sections.map_values(|section: Sos<F>| plain_scaled(section, level))
}

/// The zero-phase section filter answers what running the plain sections
/// forward and backward over the continued signal answers.
pub proof fn law_stack_filters_as_plain_sections<F: SosFloat>(
    value: spec_fn(F) -> real,
    sos: Seq<Sos<F>>,
    signal: Seq<F>,
)
    requires
        exact(value),
        signal.len() > 0,
    ensures
        same_signal(
            value,
            stack_filtered(sos, signal),
            zero_phase(
                sos_machine::<F>(),
                plain_seeding(cascade_settled(sos)),
                signal,
                edge_of(sos),
            ),
        ),
{
    lemma_reduced_simulates(value);
    let related = cascade_stands_for(value);
    let seeded = seeding(settled_cascade(sos));
    let other_seeded = plain_seeding(cascade_settled(sos));
    assert forall|x: F, y: F|
        #![trigger seeded(x), other_seeded(y)]
        value(x) == value(y) implies related(seeded(x), other_seeded(y)) by {
        assert forall|k: int| 0 <= k < seeded(x).len() implies stands_for(
            value,
            #[trigger] seeded(x)[k],
            other_seeded(y)[k],
        ) by {
            let section = cascade_settled(sos)[k];
            assert(settled_cascade(sos)[k] == reduced(section));
            assert(seeded(x)[k] == scaled_section(reduced(section), x));
            assert(other_seeded(y)[k] == plain_scaled(section, y));
        }
    }
    lemma_zero_phase_same(
        reduced_machine::<F>(),
        sos_machine::<F>(),
        related,
        value,
        seeded,
        other_seeded,
        signal,
        edge_of(sos),
    );
}

/// A reduced cascade that is the given first-order filter with the given delay.
pub open spec fn is_first_order_state<F>(
    value: spec_fn(F) -> real,
    filter: FirstOrder<F>,
) -> spec_fn(Seq<ReducedBiquad<F>>, F) -> bool {
    |biquads: Seq<ReducedBiquad<F>>, zi0: F|
        {
            &&& biquads.len() == 1
            &&& value(biquads[0].b0) == value(filter.b0)
            &&& value(biquads[0].neg_a1) == value(filter.neg_a1)
            &&& value(biquads[0].neg_a2) == 0real
            &&& value(biquads[0].bff1) == value(filter.bff)
            &&& value(biquads[0].bff2) == 0real
            &&& value(biquads[0].zi0) == value(zi0)
            &&& value(biquads[0].zi1) == 0real
        }
}

proof fn lemma_first_order_simulates<F: Sample>(value: spec_fn(F) -> real, filter: FirstOrder<F>)
    requires
        exact(value),
    ensures
        simulates(
            reduced_machine::<F>(),
            first_order_machine(filter),
            is_first_order_state(value, filter),
            value,
        ),
{
    let step = reduced_machine::<F>();
    let other = first_order_machine(filter);
    let related = is_first_order_state(value, filter);
    assert forall|s: Seq<ReducedBiquad<F>>, r: F, x: F, y: F|
        #![trigger step(s, x), other(r, y)]
        related(s, r) && value(x) == value(y) implies related(step(s, x).0, other(r, y).0)
        && value(step(s, x).1) == value(other(r, y).1) by {
        reveal_with_fuel(cascade_step, 3);
        assert(s.drop_last() =~= Seq::<ReducedBiquad<F>>::empty());
        let next = reduced_section_step(s[0], x);
        assert(step(s, x).0 =~= seq![next.0]);
        assert(0real * value(s[0].zi0) == 0real) by (nonlinear_arith);
        assert(0real * value(x) == 0real) by (nonlinear_arith);
    }
}

proof fn lemma_zero_quotient(quotient: real, lead: real)
    requires
        quotient * lead == 0real,
        lead != 0real,
    ensures
        quotient == 0real,
{
    assert(quotient == 0real) by (nonlinear_arith)
        requires
            quotient * lead == 0real,
            lead != 0real,
    ;
}

/// A first-order section settles with nothing in its second delay.
proof fn lemma_second_delay_settles_at_zero<F: SosFloat>(
    value: spec_fn(F) -> real,
    wide: spec_fn(F::Wide) -> real,
    section: Sos<F>,
)
    requires
        exact_wide(value, wide),
        solvable(section),
        value(section.b2) == 0real,
        value(section.a2) == 0real,
        wide(constant_denominator(normalized(section))) != 0real,
    ensures
        wide(section_settled(section).1) == 0real,
{
    let n = normalized(section);
    let a0 = widened(section.a0);
    let a1 = widened(section.a1);
    let a2 = widened(section.a2);
    let start = leading(a0, a1, a2);
    let lead = if start == 0 {
        a0
    } else if start == 1 {
        a1
    } else {
        a2
    };
    assert(!is_zero(lead));
    assert(wide(lead) != 0real);
    assert(wide(n.b2) * wide(lead) == 0real);
    lemma_zero_quotient(wide(n.b2), wide(lead));
    if start == 0 {
        assert(wide(n.a2) * wide(lead) == 0real);
        lemma_zero_quotient(wide(n.a2), wide(lead));
    }
    assert(wide(n.a2) == 0real);
    let (zi0, zi1) = settled(n);
    let b1_term = minus(n.b1, times(n.a1, n.b0));
    assert(0real * wide(n.b0) == 0real) by (nonlinear_arith);
    assert(wide(zi0) * wide(constant_denominator(n)) == wide(b1_term));
    assert(wide(constant_denominator(n)) == 1real + wide(n.a1));
    lemma_real_distributes(wide(zi0), 1real, wide(n.a1));
}

/// The recurrence for a single first-order section filters as the cascade of
/// that one section does.
pub proof fn law_first_order_filters_alike<F: SosFloat>(
    value: spec_fn(F) -> real,
    wide: spec_fn(F::Wide) -> real,
    section: Sos<F>,
    signal: Seq<F>,
)
    requires
        exact_wide(value, wide),
        spec_is_first_order(seq![section]),
        solvable(section),
        wide(constant_denominator(normalized(section))) != 0real,
        signal.len() > 0,
    ensures
        same_signal(
            value,
            stack_filtered(seq![section], signal),
            order1_filtered(section, signal),
        ),
{
    let sos = seq![section];
    let filter = first_order(section);
    let settled_sections = settled_cascade(sos);
    let related = is_first_order_state(value, filter);
    lemma_first_order_simulates(value, filter);
    lemma_first_order_edge(sos);
    lemma_second_delay_settles_at_zero(value, wide, section);
    let seeded = seeding(settled_sections);
    let other_seeded = delay_seeding(settled_delay(section));
    let biquad = settled_sections[0];
    assert(0real * value(section.b0) == 0real) by (nonlinear_arith);
    assert(value(biquad.zi1) == 0real) by {
        assert(sos.take(0) =~= Seq::<Sos<F>>::empty());
        assert(cascade_gain(sos.take(0)) == one::<F::Wide>());
        assert(wide(one::<F::Wide>()) * 0real == 0real) by (nonlinear_arith);
    }
    assert forall|x: F, y: F|
        #![trigger seeded(x), other_seeded(y)]
        value(x) == value(y) implies related(seeded(x), other_seeded(y)) by {
        assert(0real * value(x) == 0real) by (nonlinear_arith);
        assert(seeded(x)[0] == scaled_section(biquad, x));
    }
    lemma_zero_phase_same(
        reduced_machine::<F>(),
        first_order_machine(filter),
        related,
        value,
        seeded,
        other_seeded,
        signal,
        FIRST_ORDER_EDGE as nat,
    );
}

/// A cascade can filter a signal that is longer than three times its taps, where
/// no denominator vanishes and both ends of the signal can be continued.
pub proof fn law_longer_signals_can_be_filtered<F: SosFloat>(
    value: spec_fn(F) -> real,
    wide: spec_fn(F::Wide) -> real,
    sos: Seq<Sos<F>>,
    len: nat,
)
    requires
        exact_wide(value, wide),
        forall|k: int|
            0 <= k < sos.len() ==> {
                ||| value((#[trigger] sos[k]).a0) != 0real
                ||| value(sos[k].a1) != 0real
                ||| value(sos[k].a2) != 0real
            },
        3 * ntaps(sos) < len,
        len + 3 * ntaps(sos) <= usize::MAX,
    ensures
        filterable(sos, len),
{
    lemma_ntaps_bounds(sos);
    assert forall|k: int| 0 <= k < sos.len() implies solvable(#[trigger] sos[k]) by {
        assert(wide(widened(sos[k].a0)) == value(sos[k].a0));
        assert(wide(widened(sos[k].a1)) == value(sos[k].a1));
        assert(wide(widened(sos[k].a2)) == value(sos[k].a2));
    }
}

} // verus!
