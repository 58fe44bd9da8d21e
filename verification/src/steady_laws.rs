//! The settled state is what its name says.
use vstd::prelude::*;

use crate::machine::{outputs, state_after};
use crate::reals::{lemma_real_associates, lemma_real_distributes};
use crate::sample::{exact, exact_wide, is_zero, times, widened, zero, Sample, SosFloat};
use crate::sos::{
    cascade_step, lemma_cascade_step_len, section_machine, section_step, sos_machine, Sos,
};
use crate::steady::{
    cascade_gain, cascade_settled, constant_denominator, normalized, section_gain,
    section_settled, sum3, with_settled,
};

verus! {

/// The section's denominator leads with 1 and does not vanish at a constant.
pub open spec fn settles<F: SosFloat>(
    value: spec_fn(F) -> real,
    wide: spec_fn(F::Wide) -> real,
    section: Sos<F>,
) -> bool {
    &&& value(section.a0) == 1real
    &&& wide(constant_denominator(normalized(section))) != 0real
}

/// Two sections with the same coefficients whose delays stand for the same
/// numbers.
pub open spec fn same_state<F>(
    value: spec_fn(F) -> real,
    section: Sos<F>,
    other: Sos<F>,
) -> bool {
    &&& other == Sos { zi0: other.zi0, zi1: other.zi1, ..section }
    &&& value(section.zi0) == value(other.zi0)
    &&& value(section.zi1) == value(other.zi1)
}

/// Two cascades in the same state, section by section.
pub open spec fn same_states<F>(value: spec_fn(F) -> real) -> spec_fn(
    Seq<Sos<F>>,
    Seq<Sos<F>>,
) -> bool {
    |sections: Seq<Sos<F>>, others: Seq<Sos<F>>|
        sections.len() == others.len() && forall|k: int|
            0 <= k < sections.len() ==> same_state(value, #[trigger] sections[k], others[k])
}

proof fn lemma_unit_quotient(quotient: real, dividend: real)
    requires
        quotient * 1real == dividend,
    ensures
        quotient == dividend,
{
    assert(quotient * 1real == quotient) by (nonlinear_arith);
}

proof fn lemma_equal_factors(a: real, b: real, c: real)
    requires
        a * c == b * c,
        c != 0real,
    ensures
        a == b,
{
    assert(a == b) by (nonlinear_arith)
        requires
            a * c == b * c,
            c != 0real,
    ;
}

/// The numbers behind a settled section that takes the constant `c`.
proof fn lemma_fixed_point(
    b0: real,
    b1: real,
    b2: real,
    a1: real,
    a2: real,
    z0: real,
    z1: real,
    c: real,
    gain: real,
)
    requires
        z0 * ((1real + a1) + a2) == (b1 - a1 * b0) + (b2 - a2 * b0),
        z1 == (1real + a1) * z0 - (b1 - a1 * b0),
        gain * ((1real + a1) + a2) == (b0 + b1) + b2,
        (1real + a1) + a2 != 0real,
    ensures
        b0 * c + c * z0 == c * gain,
        b1 * c + ((-a1) * (b0 * c + c * z0) + c * z1) == c * z0,
        b2 * c + (-(a2 * (b0 * c + c * z0))) == c * z1,
{
    let asum = (1real + a1) + a2;
    // (b0 + z0) * asum == (b0 + b1) + b2
    lemma_real_distributes(asum, b0, z0);
    lemma_real_distributes(b0, 1real + a1, a2);
    lemma_real_distributes(b0, 1real, a1);
    lemma_real_distributes(b0, a1, a2);
    lemma_real_distributes(b0, a2, a2);
    assert((b0 + z0) * asum == gain * asum);
    lemma_equal_factors(b0 + z0, gain, asum);
    lemma_real_distributes(c, b0, z0);
    assert(b0 * c + c * z0 == c * gain) by {
        lemma_real_distributes(b0, c, c);
    }

    // out == c * (b0 + z0)
    let out = b0 * c + c * z0;
    assert(out == c * (b0 + z0)) by {
        lemma_real_distributes(b0, c, c);
    }
    lemma_real_distributes(a1, out, out);
    lemma_real_distributes(a2, out, out);
    assert(a1 * out == c * (a1 * b0 + a1 * z0)) by {
        lemma_real_associates(a1, c, b0 + z0);
        lemma_real_associates(c, a1, b0 + z0);
        lemma_real_distributes(a1, c, c);
        lemma_real_distributes(a1, b0, z0);
    }
    assert(a2 * out == c * (a2 * b0 + a2 * z0)) by {
        lemma_real_associates(a2, c, b0 + z0);
        lemma_real_associates(c, a2, b0 + z0);
        lemma_real_distributes(a2, c, c);
        lemma_real_distributes(a2, b0, z0);
    }
    lemma_real_distributes(z0, 1real, a1);
    lemma_real_distributes(z0, 1real + a1, a2);
    lemma_real_distributes(z0, a1, a2);
    lemma_real_distributes(z0, a2, a2);
    lemma_real_distributes(b1, c, c);
    lemma_real_distributes(b2, c, c);
    // z1 == b2 - a2*b0 - a2*z0 and z1 == z0 + a1*z0 - b1 + a1*b0
    lemma_real_distributes(c, b1, a1 * b0 + a1 * z0);
    lemma_real_distributes(c, b1 - (a1 * b0 + a1 * z0), z1);
    assert(b1 - (a1 * b0 + a1 * z0) + z1 == z0);
    lemma_real_distributes(c, b2, a2 * b0 + a2 * z0);
    assert(b2 - (a2 * b0 + a2 * z0) == z1);
}

/// A settled section answers a constant with the constant times its gain and
/// stays as it is.
pub proof fn law_settled_section_stays<F: SosFloat>(
    value: spec_fn(F) -> real,
    wide: spec_fn(F::Wide) -> real,
    section: Sos<F>,
    scale: F::Wide,
    sample: F,
)
    requires
        exact_wide(value, wide),
        settles(value, wide, section),
        value(sample) == wide(scale),
    ensures
        value(section_step(with_settled(section, scale), sample).1) == wide(
            times(scale, section_gain(section)),
        ),
        same_state(
            value,
            section_step(with_settled(section, scale), sample).0,
            with_settled(section, scale),
        ),
{
    let n = normalized(section);
    let a0 = widened(section.a0);
    assert(wide(a0) == 1real);
    assert(!is_zero(a0));
    assert(wide(n.b0) * 1real == value(section.b0));
    assert(wide(n.b1) * 1real == value(section.b1));
    assert(wide(n.b2) * 1real == value(section.b2));
    assert(wide(n.a1) * 1real == value(section.a1));
    assert(wide(n.a2) * 1real == value(section.a2));
    lemma_unit_quotient(wide(n.b0), value(section.b0));
    lemma_unit_quotient(wide(n.b1), value(section.b1));
    lemma_unit_quotient(wide(n.b2), value(section.b2));
    lemma_unit_quotient(wide(n.a1), value(section.a1));
    lemma_unit_quotient(wide(n.a2), value(section.a2));
    let (zi0, zi1) = section_settled(section);
    let gain = section_gain(section);
    assert(wide(sum3(section.a0, section.a1, section.a2)) == wide(constant_denominator(n)));
    lemma_fixed_point(
        value(section.b0),
        value(section.b1),
        value(section.b2),
        value(section.a1),
        value(section.a2),
        wide(zi0),
        wide(zi1),
        wide(scale),
        wide(gain),
    );
}

proof fn lemma_settled_prefix<F: SosFloat>(sections: Seq<Sos<F>>)
    requires
        sections.len() > 0,
    ensures
        cascade_settled(sections).drop_last() == cascade_settled(sections.drop_last()),
        cascade_settled(sections).last() == with_settled(
            sections.last(),
            cascade_gain(sections.drop_last()),
        ),
{
    let last = sections.len() - 1;
    assert(sections.take(last) =~= sections.drop_last());
    assert forall|k: int| 0 <= k < last implies #[trigger] cascade_settled(
        sections,
    ).drop_last()[k] == cascade_settled(sections.drop_last())[k] by {
        assert(sections.drop_last().take(k) =~= sections.take(k));
    }
    assert(cascade_settled(sections).drop_last() =~= cascade_settled(sections.drop_last()));
}

/// A settled cascade answers a constant 1 with its gain and stays as it is.
pub proof fn law_settled_cascade_stays<F: SosFloat>(
    value: spec_fn(F) -> real,
    wide: spec_fn(F::Wide) -> real,
    sections: Seq<Sos<F>>,
    sample: F,
)
    requires
        exact_wide(value, wide),
        forall|k: int| 0 <= k < sections.len() ==> settles(value, wide, #[trigger] sections[k]),
        value(sample) == 1real,
    ensures
        value(cascade_step(section_machine::<F>(), cascade_settled(sections), sample).1) == wide(
            cascade_gain(sections),
        ),
        same_states(value)(
            cascade_step(section_machine::<F>(), cascade_settled(sections), sample).0,
            cascade_settled(sections),
        ),
    decreases sections.len(),
{
    let step = section_machine::<F>();
    let settled_sections = cascade_settled(sections);
    if sections.len() > 0 {
        let front = sections.drop_last();
        lemma_settled_prefix(sections);
        assert forall|k: int| 0 <= k < front.len() implies settles(
            value,
            wide,
            #[trigger] front[k],
        ) by {
            assert(front[k] == sections[k]);
        }
        law_settled_cascade_stays(value, wide, front, sample);
        let (next, passed) = cascade_step(step, cascade_settled(front), sample);
        assert(settles(value, wide, sections[sections.len() - 1]));
        law_settled_section_stays(value, wide, sections.last(), cascade_gain(front), passed);
        lemma_cascade_step_len(step, cascade_settled(front), sample);
        let after = cascade_step(step, settled_sections, sample).0;
        assert forall|k: int| 0 <= k < after.len() implies same_state(
            value,
            #[trigger] after[k],
            settled_sections[k],
        ) by {
            if k < front.len() {
                assert(after[k] == next[k]);
                assert(settled_sections[k] == settled_sections.drop_last()[k]);
            }
        }
    }
}

proof fn lemma_same_states_step<F: Sample>(
    value: spec_fn(F) -> real,
    sections: Seq<Sos<F>>,
    others: Seq<Sos<F>>,
    sample: F,
    other: F,
)
    requires
        exact(value),
        same_states(value)(sections, others),
        value(sample) == value(other),
    ensures
        same_states(value)(
            cascade_step(section_machine::<F>(), sections, sample).0,
            cascade_step(section_machine::<F>(), others, other).0,
        ),
        value(cascade_step(section_machine::<F>(), sections, sample).1) == value(
            cascade_step(section_machine::<F>(), others, other).1,
        ),
    decreases sections.len(),
{
    let step = section_machine::<F>();
    if sections.len() > 0 {
        let front = sections.drop_last();
        let other_front = others.drop_last();
        assert forall|k: int| 0 <= k < front.len() implies same_state(
            value,
            #[trigger] front[k],
            other_front[k],
        ) by {
            assert(front[k] == sections[k]);
        }
        lemma_same_states_step(value, front, other_front, sample, other);
        assert(same_state(value, sections[sections.len() - 1], others[others.len() - 1]));
        lemma_cascade_step_len(step, front, sample);
        lemma_cascade_step_len(step, other_front, other);
        let next = cascade_step(step, front, sample).0;
        let after = cascade_step(step, sections, sample).0;
        let other_after = cascade_step(step, others, other).0;
        assert forall|k: int| 0 <= k < after.len() implies same_state(
            value,
            #[trigger] after[k],
            other_after[k],
        ) by {
            if k < front.len() {
                assert(after[k] == next[k]);
            }
        }
    }
}

/// A settled cascade answers a constant 1 with its gain, for as long as the
/// constant lasts.
pub proof fn law_settled_cascade_holds_a_constant<F: SosFloat>(
    value: spec_fn(F) -> real,
    wide: spec_fn(F::Wide) -> real,
    sections: Seq<Sos<F>>,
    signal: Seq<F>,
    k: int,
)
    requires
        exact_wide(value, wide),
        forall|i: int| 0 <= i < sections.len() ==> settles(value, wide, #[trigger] sections[i]),
        forall|i: int| 0 <= i < signal.len() ==> value(#[trigger] signal[i]) == 1real,
        0 <= k < signal.len(),
    ensures
        value(outputs(sos_machine::<F>(), cascade_settled(sections), signal)[k]) == wide(
            cascade_gain(sections),
        ),
{
    lemma_settled_state_lasts(value, wide, sections, signal, k as nat);
    let held = state_after(sos_machine::<F>(), cascade_settled(sections), signal, k as nat);
    law_settled_cascade_stays(value, wide, sections, signal[k]);
    lemma_same_states_step(value, held, cascade_settled(sections), signal[k], signal[k]);
}

proof fn lemma_settled_state_lasts<F: SosFloat>(
    value: spec_fn(F) -> real,
    wide: spec_fn(F::Wide) -> real,
    sections: Seq<Sos<F>>,
    signal: Seq<F>,
    count: nat,
)
    requires
        exact_wide(value, wide),
        forall|i: int| 0 <= i < sections.len() ==> settles(value, wide, #[trigger] sections[i]),
        forall|i: int| 0 <= i < signal.len() ==> value(#[trigger] signal[i]) == 1real,
        count <= signal.len(),
    ensures
        same_states(value)(
            state_after(sos_machine::<F>(), cascade_settled(sections), signal, count),
            cascade_settled(sections),
        ),
    decreases count,
{
    if count > 0 {
        let last = (count - 1) as nat;
        let settled_sections = cascade_settled(sections);
        lemma_settled_state_lasts(value, wide, sections, signal, last);
        let held = state_after(sos_machine::<F>(), settled_sections, signal, last);
        let sample = signal[last as int];
        law_settled_cascade_stays(value, wide, sections, sample);
        lemma_same_states_step(value, held, settled_sections, sample, sample);
        let next = cascade_step(section_machine::<F>(), held, sample).0;
        let settled_next = cascade_step(section_machine::<F>(), settled_sections, sample).0;
        assert forall|i: int| 0 <= i < next.len() implies same_state(
            value,
            #[trigger] next[i],
            settled_sections[i],
        ) by {
            assert(same_state(value, next[i], settled_next[i]));
            assert(same_state(value, settled_next[i], settled_sections[i]));
        }
    }
}

/// Two cascades with the same coefficients, whatever their delays.
pub open spec fn same_coefficients<F>(sections: Seq<Sos<F>>, others: Seq<Sos<F>>) -> bool {
    sections.len() == others.len() && forall|k: int|
        0 <= k < sections.len() ==> #[trigger] others[k] == (Sos {
            zi0: others[k].zi0,
            zi1: others[k].zi1,
            ..sections[k]
        })
}

proof fn lemma_gain_of_coefficients<F: SosFloat>(sections: Seq<Sos<F>>, others: Seq<Sos<F>>)
    requires
        same_coefficients(sections, others),
    ensures
        cascade_gain(sections) == cascade_gain(others),
    decreases sections.len(),
{
    if sections.len() > 0 {
        let front = sections.drop_last();
        let other_front = others.drop_last();
        assert forall|k: int| 0 <= k < front.len() implies #[trigger] other_front[k] == (Sos {
            zi0: other_front[k].zi0,
            zi1: other_front[k].zi1,
            ..front[k]
        }) by {
            assert(other_front[k] == others[k]);
        }
        lemma_gain_of_coefficients(front, other_front);
        assert(others[others.len() - 1] == others.last());
    }
}

/// The delays that were there before do not matter to the settled state: it
/// follows from the coefficients alone.
pub proof fn law_settling_forgets_delays<F: SosFloat>(sections: Seq<Sos<F>>, others: Seq<Sos<F>>)
    requires
        same_coefficients(sections, others),
    ensures
        cascade_settled(sections) == cascade_settled(others),
        same_coefficients(sections, cascade_settled(sections)),
{
    assert forall|k: int| 0 <= k < sections.len() implies #[trigger] cascade_settled(sections)[k]
        == cascade_settled(others)[k] by {
        let front = sections.take(k);
        let other_front = others.take(k);
        assert forall|j: int| 0 <= j < k implies #[trigger] other_front[j] == (Sos {
            zi0: other_front[j].zi0,
            zi1: other_front[j].zi1,
            ..front[j]
        }) by {
            assert(other_front[j] == others[j]);
        }
        lemma_gain_of_coefficients(front, other_front);
        assert(others[k] == (Sos { zi0: others[k].zi0, zi1: others[k].zi1, ..sections[k] }));
    }
    assert(cascade_settled(sections) =~= cascade_settled(others));
}

/// The two settle into the same delay values.
pub open spec fn settle_alike<F: SosFloat>(
    wide: spec_fn(F::Wide) -> real,
    section: Sos<F>,
    other: Sos<F>,
) -> bool {
    let (zi0, zi1) = section_settled(section);
    let (other0, other1) = section_settled(other);
    wide(zi0) == wide(other0) && wide(zi1) == wide(other1)
}

/// A leading zero of the denominator is dropped: the section settles as the one
/// whose denominator starts with the next coefficient and ends in zero.
pub proof fn law_leading_zero_is_dropped<F: SosFloat>(
    value: spec_fn(F) -> real,
    wide: spec_fn(F::Wide) -> real,
    section: Sos<F>,
)
    requires
        exact_wide(value, wide),
        value(section.a0) == 0real,
        value(section.a1) + value(section.a2) != 0real,
    ensures
        settle_alike(
            wide,
            section,
            (Sos { a0: section.a1, a1: section.a2, a2: zero(), ..section }),
        ),
{
    let moved = Sos { a0: section.a1, a1: section.a2, a2: zero(), ..section };
    let n = normalized(section);
    let m = normalized(moved);
    let lead = if value(section.a1) != 0real {
        value(section.a1)
    } else {
        value(section.a2)
    };
    assert(wide(widened(section.a0)) == 0real);
    assert(wide(widened(section.a1)) == value(section.a1));
    assert(wide(widened(section.a2)) == value(section.a2));
    assert(wide(widened(moved.a2)) == 0real);
    lemma_same_quotient(wide(n.b0), wide(m.b0), lead);
    lemma_same_quotient(wide(n.b1), wide(m.b1), lead);
    lemma_same_quotient(wide(n.b2), wide(m.b2), lead);
    lemma_same_quotient(wide(n.a1), wide(m.a1), lead);
    if value(section.a1) != 0real {
        lemma_same_quotient(wide(m.a2), 0real, lead);
        assert(wide(n.a1) * lead == value(section.a2));
    }
    assert(wide(n.a1) == wide(m.a1));
    assert(wide(n.a2) == 0real && wide(m.a2) == 0real);
    let c = wide(constant_denominator(n));
    assert(c == wide(constant_denominator(m)));
    assert(c * lead == value(section.a1) + value(section.a2)) by {
        lemma_real_distributes(lead, 1real, wide(n.a1));
        assert(1real * lead == lead) by (nonlinear_arith);
        if value(section.a1) == 0real {
            assert(wide(n.a1) == 0real);
            assert(0real * lead == 0real) by (nonlinear_arith);
        }
    }
    assert(c != 0real) by (nonlinear_arith)
        requires
            c * lead == value(section.a1) + value(section.a2),
            value(section.a1) + value(section.a2) != 0real,
    ;
    let (zi0, zi1) = section_settled(section);
    let (other0, other1) = section_settled(moved);
    lemma_same_quotient(wide(zi0), wide(other0), c);
}

/// The coefficients of the second section are those of the first times `factor`.
pub open spec fn has_common_factor<F>(
    value: spec_fn(F) -> real,
    factor: real,
    section: Sos<F>,
    other: Sos<F>,
) -> bool {
    &&& value(other.b0) == factor * value(section.b0)
    &&& value(other.b1) == factor * value(section.b1)
    &&& value(other.b2) == factor * value(section.b2)
    &&& value(other.a0) == factor * value(section.a0)
    &&& value(other.a1) == factor * value(section.a1)
    &&& value(other.a2) == factor * value(section.a2)
}

/// A common factor of all coefficients does not change what a section settles
/// into.
pub proof fn law_common_factor_does_not_matter<F: SosFloat>(
    value: spec_fn(F) -> real,
    wide: spec_fn(F::Wide) -> real,
    factor: real,
    section: Sos<F>,
    other: Sos<F>,
)
    requires
        exact_wide(value, wide),
        factor != 0real,
        has_common_factor(value, factor, section, other),
        value(section.a0) != 0real,
        value(section.a0) + value(section.a1) + value(section.a2) != 0real,
    ensures
        settle_alike(wide, section, other),
{
    let n = normalized(section);
    let m = normalized(other);
    let lead = value(section.a0);
    let scaled_lead = value(other.a0);
    assert(scaled_lead != 0real) by (nonlinear_arith)
        requires
            scaled_lead == factor * lead,
            factor != 0real,
            lead != 0real,
    ;
    assert(wide(widened(section.a0)) == lead);
    assert(wide(widened(other.a0)) == scaled_lead);
    lemma_scaled_quotient(wide(n.b0), wide(m.b0), lead, factor, value(section.b0));
    lemma_scaled_quotient(wide(n.b1), wide(m.b1), lead, factor, value(section.b1));
    lemma_scaled_quotient(wide(n.b2), wide(m.b2), lead, factor, value(section.b2));
    lemma_scaled_quotient(wide(n.a1), wide(m.a1), lead, factor, value(section.a1));
    lemma_scaled_quotient(wide(n.a2), wide(m.a2), lead, factor, value(section.a2));
    let c = wide(constant_denominator(n));
    assert(c == wide(constant_denominator(m)));
    assert(c * lead == value(section.a0) + value(section.a1) + value(section.a2)) by {
        lemma_real_distributes(lead, 1real + wide(n.a1), wide(n.a2));
        lemma_real_distributes(lead, 1real, wide(n.a1));
        assert(1real * lead == lead) by (nonlinear_arith);
    }
    assert(c != 0real) by (nonlinear_arith)
        requires
            c * lead == value(section.a0) + value(section.a1) + value(section.a2),
            value(section.a0) + value(section.a1) + value(section.a2) != 0real,
    ;
    let (zi0, zi1) = section_settled(section);
    let (other0, other1) = section_settled(other);
    lemma_same_quotient(wide(zi0), wide(other0), c);
}

proof fn lemma_scaled_quotient(one: real, other: real, divisor: real, factor: real, top: real)
    requires
        divisor != 0real,
        factor != 0real,
        one * divisor == top,
        other * (factor * divisor) == factor * top,
    ensures
        one == other,
{
    assert(other * (factor * divisor) == factor * (other * divisor)) by (nonlinear_arith);
    let a = other * divisor;
    assert(a == top) by (nonlinear_arith)
        requires
            factor * a == factor * top,
            factor != 0real,
    ;
    lemma_same_quotient(one, other, divisor);
}

proof fn lemma_same_quotient(one: real, other: real, divisor: real)
    ensures
        divisor != 0real && one * divisor == other * divisor ==> one == other,
{
    if divisor != 0real && one * divisor == other * divisor {
        assert(one == other) by (nonlinear_arith)
            requires
                divisor != 0real,
                one * divisor == other * divisor,
        ;
    }
}

} // verus!
