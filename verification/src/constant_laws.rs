//! A constant passes a zero-phase filter without transients.
use vstd::prelude::*;

use crate::filter_laws::{law_stack_filters_as_plain_sections, plain_scaled, plain_seeding};
use crate::machine::{odd_extension, outputs, state_after, zero_phase};
use crate::reals::lemma_real_distributes;
use crate::sample::{exact, exact_wide, minus, one, times, two, Sample, SosFloat};
use crate::sos::{
    cascade_step, lemma_cascade_step_len, section_machine, section_step, sos_machine, Sos,
};
use crate::sosfiltfilt::{edge_of, stack_filtered};
use crate::steady::{cascade_gain, cascade_settled};
use crate::steady_laws::{law_settled_cascade_holds_a_constant, settles};

verus! {

/// Two sections with the same coefficients, the delays of the first `factor`
/// times those of the second.
pub open spec fn is_multiple<F>(
    value: spec_fn(F) -> real,
    factor: real,
    section: Sos<F>,
    other: Sos<F>,
) -> bool {
    &&& other == Sos { zi0: other.zi0, zi1: other.zi1, ..section }
    &&& value(section.zi0) == factor * value(other.zi0)
    &&& value(section.zi1) == factor * value(other.zi1)
}

/// Two cascades, the delays of the first `factor` times those of the second.
pub open spec fn are_multiples<F>(
    value: spec_fn(F) -> real,
    factor: real,
    sections: Seq<Sos<F>>,
    others: Seq<Sos<F>>,
) -> bool {
    sections.len() == others.len() && forall|k: int|
        0 <= k < sections.len() ==> is_multiple(value, factor, #[trigger] sections[k], others[k])
}

proof fn lemma_factor_out(factor: real, coefficient: real, sample: real, rest: real)
    ensures
        coefficient * (factor * sample) + factor * rest == factor * (coefficient * sample + rest),
        -(coefficient * (factor * sample)) == factor * (-(coefficient * sample)),
{
    let product = coefficient * sample;
    assert(coefficient * (factor * sample) == factor * product) by (nonlinear_arith)
        requires
            product == coefficient * sample,
    ;
    lemma_real_distributes(factor, product, rest);
    assert(factor * (-product) == -(factor * product)) by (nonlinear_arith);
}

proof fn lemma_section_scales<F: Sample>(
    value: spec_fn(F) -> real,
    factor: real,
    section: Sos<F>,
    other: Sos<F>,
    x: F,
    y: F,
)
    requires
        exact(value),
        is_multiple(value, factor, section, other),
        value(x) == factor * value(y),
    ensures
        is_multiple(value, factor, section_step(section, x).0, section_step(other, y).0),
        value(section_step(section, x).1) == factor * value(section_step(other, y).1),
{
    let v = value(y);
    let output = value(section_step(other, y).1);
    lemma_factor_out(factor, value(section.b0), v, value(other.zi0));
    lemma_factor_out(factor, -value(section.a1), output, value(other.zi1));
    let inner = -value(section.a1) * output + value(other.zi1);
    lemma_factor_out(factor, value(section.b1), v, inner);
    lemma_factor_out(factor, value(section.a2), output, 0real);
    lemma_factor_out(factor, value(section.b2), v, -(value(section.a2) * output));
}

proof fn lemma_cascade_scales<F: Sample>(
    value: spec_fn(F) -> real,
    factor: real,
    sections: Seq<Sos<F>>,
    others: Seq<Sos<F>>,
    x: F,
    y: F,
)
    requires
        exact(value),
        are_multiples(value, factor, sections, others),
        value(x) == factor * value(y),
    ensures
        are_multiples(
            value,
            factor,
            cascade_step(section_machine::<F>(), sections, x).0,
            cascade_step(section_machine::<F>(), others, y).0,
        ),
        value(cascade_step(section_machine::<F>(), sections, x).1) == factor * value(
            cascade_step(section_machine::<F>(), others, y).1,
        ),
    decreases sections.len(),
{
    let step = section_machine::<F>();
    if sections.len() > 0 {
        let front = sections.drop_last();
        let other_front = others.drop_last();
        assert forall|k: int| 0 <= k < front.len() implies is_multiple(
            value,
            factor,
            #[trigger] front[k],
            other_front[k],
        ) by {
            assert(front[k] == sections[k]);
        }
        lemma_cascade_scales(value, factor, front, other_front, x, y);
        let passed = cascade_step(step, front, x).1;
        let other_passed = cascade_step(step, other_front, y).1;
        assert(is_multiple(
            value,
            factor,
            sections[sections.len() - 1],
            others[others.len() - 1],
        ));
        lemma_section_scales(value, factor, sections.last(), others.last(), passed, other_passed);
        lemma_cascade_step_len(step, front, x);
        lemma_cascade_step_len(step, other_front, y);
        let next = cascade_step(step, front, x).0;
        let after = cascade_step(step, sections, x).0;
        let other_after = cascade_step(step, others, y).0;
        assert forall|k: int| 0 <= k < after.len() implies is_multiple(
            value,
            factor,
            #[trigger] after[k],
            other_after[k],
        ) by {
            if k < front.len() {
                assert(after[k] == next[k]);
            }
        }
    }
}

proof fn lemma_run_scales<F: Sample>(
    value: spec_fn(F) -> real,
    factor: real,
    start: Seq<Sos<F>>,
    other_start: Seq<Sos<F>>,
    signal: Seq<F>,
    other: Seq<F>,
    count: nat,
)
    requires
        exact(value),
        are_multiples(value, factor, start, other_start),
        signal.len() == other.len(),
        forall|k: int|
            0 <= k < signal.len() ==> value(#[trigger] signal[k]) == factor * value(other[k]),
        count <= signal.len(),
    ensures
        are_multiples(
            value,
            factor,
            state_after(sos_machine::<F>(), start, signal, count),
            state_after(sos_machine::<F>(), other_start, other, count),
        ),
    decreases count,
{
    if count > 0 {
        let last = (count - 1) as nat;
        lemma_run_scales(value, factor, start, other_start, signal, other, last);
        assert(value(signal[last as int]) == factor * value(other[last as int]));
        lemma_cascade_scales(
            value,
            factor,
            state_after(sos_machine::<F>(), start, signal, last),
            state_after(sos_machine::<F>(), other_start, other, last),
            signal[last as int],
            other[last as int],
        );
    }
}

/// A cascade seeded for a level answers that level with the level times its
/// gain, for as long as the level lasts.
pub proof fn law_seeded_cascade_holds_a_level<F: SosFloat>(
    value: spec_fn(F) -> real,
    wide: spec_fn(F::Wide) -> real,
    sections: Seq<Sos<F>>,
    level: F,
    signal: Seq<F>,
    k: int,
)
    requires
        exact_wide(value, wide),
        forall|i: int| 0 <= i < sections.len() ==> settles(value, wide, #[trigger] sections[i]),
        forall|i: int| 0 <= i < signal.len() ==> value(#[trigger] signal[i]) == value(level),
        0 <= k < signal.len(),
    ensures
        value(
            outputs(sos_machine::<F>(), plain_seeding(cascade_settled(sections))(level), signal)[k],
        ) == value(level) * wide(cascade_gain(sections)),
{
    let factor = value(level);
    let settled_sections = cascade_settled(sections);
    let start = plain_seeding(settled_sections)(level);
    let ones = Seq::new(signal.len(), |i: int| one::<F>());
    assert forall|i: int| 0 <= i < signal.len() implies value(#[trigger] signal[i]) == factor
        * value(ones[i]) by {
        assert(factor * 1real == factor) by (nonlinear_arith);
    }
    assert forall|i: int| 0 <= i < start.len() implies is_multiple(
        value,
        factor,
        #[trigger] start[i],
        settled_sections[i],
    ) by {
        let section = settled_sections[i];
        assert(start[i] == plain_scaled(section, level));
        lemma_real_distributes(factor, value(section.zi0), 0real);
        lemma_real_distributes(factor, value(section.zi1), 0real);
    }
    lemma_run_scales(value, factor, start, settled_sections, signal, ones, k as nat);
    assert(value(signal[k]) == factor * value(ones[k]));
    lemma_cascade_scales(
        value,
        factor,
        state_after(sos_machine::<F>(), start, signal, k as nat),
        state_after(sos_machine::<F>(), settled_sections, ones, k as nat),
        signal[k],
        ones[k],
    );
    assert forall|i: int| 0 <= i < ones.len() implies value(#[trigger] ones[i]) == 1real by {}
    law_settled_cascade_holds_a_constant(value, wide, sections, ones, k);
}

proof fn lemma_extended_constant<F: Sample>(
    value: spec_fn(F) -> real,
    signal: Seq<F>,
    level: real,
    edge: nat,
)
    requires
        exact(value),
        edge < signal.len(),
        forall|i: int| 0 <= i < signal.len() ==> value(#[trigger] signal[i]) == level,
    ensures
        forall|i: int|
            0 <= i < signal.len() + 2 * edge ==> value(#[trigger] odd_extension(signal, edge)[i])
                == level,
{
    let n = signal.len();
    assert(value(two::<F>()) == 2real);
    assert forall|i: int| 0 <= i < n + 2 * edge implies value(
        #[trigger] odd_extension(signal, edge)[i],
    ) == level by {
        if i < edge {
            assert(value(signal[0]) == level && value(signal[edge - i]) == level);
            assert(odd_extension(signal, edge)[i] == minus(
                times(two::<F>(), signal[0]),
                signal[edge - i],
            ));
        } else if i >= edge + n {
            let mirrored = 2 * n + edge - 2 - i;
            assert(value(signal[n - 1]) == level && value(signal[mirrored]) == level);
            assert(odd_extension(signal, edge)[i] == minus(
                times(two::<F>(), signal[n - 1]),
                signal[mirrored],
            ));
        }
    }
}

/// Rounding aside, a constant comes out of the zero-phase section filter as the
/// constant times the gain squared, at every place: there are no transients.
pub proof fn law_constants_pass_without_transients<F: SosFloat>(
    value: spec_fn(F) -> real,
    wide: spec_fn(F::Wide) -> real,
    sections: Seq<Sos<F>>,
    signal: Seq<F>,
    level: real,
    k: int,
)
    requires
        exact_wide(value, wide),
        forall|i: int| 0 <= i < sections.len() ==> settles(value, wide, #[trigger] sections[i]),
        forall|i: int| 0 <= i < signal.len() ==> value(#[trigger] signal[i]) == level,
        edge_of(sections) < signal.len(),
        0 <= k < signal.len(),
    ensures
        value(stack_filtered(sections, signal)[k]) == level * wide(cascade_gain(sections)) * wide(
            cascade_gain(sections),
        ),
{
    let machine = sos_machine::<F>();
    let seeded = plain_seeding(cascade_settled(sections));
    let edge = edge_of(sections);
    let gain = wide(cascade_gain(sections));
    let extended = odd_extension(signal, edge);
    lemma_extended_constant(value, signal, level, edge);
    assert(value(extended[0]) == level);
    let forward = outputs(machine, seeded(extended[0]), extended);
    assert forall|i: int| 0 <= i < forward.len() implies value(#[trigger] forward[i]) == level
        * gain by {
        law_seeded_cascade_holds_a_level(value, wide, sections, extended[0], extended, i);
    }
    let turned = forward.reverse();
    assert(value(forward[forward.len() - 1]) == level * gain);
    let end = forward.last();
    assert forall|i: int| 0 <= i < turned.len() implies value(#[trigger] turned[i]) == value(
        end,
    ) by {
        assert(turned[i] == forward[forward.len() - 1 - i]);
    }
    let backward = outputs(machine, seeded(end), turned);
    let place = backward.len() - 1 - (edge + k);
    law_seeded_cascade_holds_a_level(value, wide, sections, end, turned, place);
    law_stack_filters_as_plain_sections(value, sections, signal);
    let plain = zero_phase(machine, seeded, signal, edge);
    assert(plain[k] == backward.reverse()[edge + k]);
    assert(backward.reverse()[edge + k] == backward[place]);
    assert(value(stack_filtered(sections, signal)[k]) == value(plain[k]));
}

} // verus!
