//! Steady states: the delay values a filter settles into when a constant is
//! applied to it forever.
use vstd::prelude::*;

use crate::sample::{
    functional, functional_sos, is_zero, lemma_functional_sos, minus, narrowed, one, over, plus,
    times, widened, zero, Sample, SosFloat,
};
use crate::sos::Sos;

verus! {

/// The sum of three coefficients, taken from the left.
pub open spec fn spec_sum3<F: SosFloat>(first: F, second: F, third: F) -> F::Wide {
    plus(plus(widened(first), widened(second)), widened(third))
}

/// The sum of three coefficients in the wider type.
#[verifier::when_used_as_spec(spec_sum3)]
pub fn sum3<F: SosFloat>(first: F, second: F, third: F) -> (sum: F::Wide)
    requires
        functional_sos::<F>(),
    ensures
        sum == spec_sum3(first, second, third),
{
    proof {
        lemma_functional_sos::<F>();
    }
    plus(plus(widened(first), widened(second)), widened(third))
}

/// Place of the first denominator coefficient that is not zero; 3 if all are.
pub open spec fn leading<W: Sample>(a0: W, a1: W, a2: W) -> nat {
    if !is_zero(a0) {
        0
    } else if !is_zero(a1) {
        1
    } else if !is_zero(a2) {
        2
    } else {
        3
    }
}

/// The section has a denominator coefficient that is not zero.
pub open spec fn solvable<F: SosFloat>(section: Sos<F>) -> bool {
    leading(widened(section.a0), widened(section.a1), widened(section.a2)) < 3
}

/// Coefficients of a section whose denominator leads with 1.
pub struct Normalized<W> {
    pub b0: W,
    pub b1: W,
    pub b2: W,
    pub a1: W,
    pub a2: W,
}

/// The section's coefficients, leading zeros of the denominator dropped and all
/// divided by the one that then leads.
pub open spec fn normalized<F: SosFloat>(section: Sos<F>) -> Normalized<F::Wide> {
    let a0 = widened(section.a0);
    let a1 = widened(section.a1);
    let a2 = widened(section.a2);
    let start = leading(a0, a1, a2);
    let lead = if start == 0 {
        a0
    } else if start == 1 {
        a1
    } else {
        a2
    };
    Normalized {
        b0: over(widened(section.b0), lead),
        b1: over(widened(section.b1), lead),
        b2: over(widened(section.b2), lead),
        a1: if start == 0 {
            over(a1, lead)
        } else if start == 1 {
            over(a2, lead)
        } else {
            zero()
        },
        a2: if start == 0 {
            over(a2, lead)
        } else {
            zero()
        },
    }
}

/// The denominator at a constant.
pub open spec fn constant_denominator<W: Sample>(n: Normalized<W>) -> W {
    plus(plus(one(), n.a1), n.a2)
}

/// The delay values that a constant input of 1 leaves as they are.
pub open spec fn settled<W: Sample>(n: Normalized<W>) -> (W, W) {
    let b1_term = minus(n.b1, times(n.a1, n.b0));
    let zi0 = over(
        plus(b1_term, minus(n.b2, times(n.a2, n.b0))),
        constant_denominator(n),
    );
    (zi0, minus(times(plus(one(), n.a1), zi0), b1_term))
}

/// The settled delay values of a section.
pub open spec fn section_settled<F: SosFloat>(section: Sos<F>) -> (F::Wide, F::Wide) {
    settled(normalized(section))
}

/// The settled delay values of one section for a constant input of 1, solved in
/// the wider type.
pub fn sos_section_lfilter_zi<F: SosFloat>(section: &Sos<F>) -> (zi: (F::Wide, F::Wide))
    requires
        functional_sos::<F>(),
        solvable(*section),
    ensures
        zi == section_settled(*section),
{
    proof {
        lemma_functional_sos::<F>();
    }
    let a_in0: F::Wide = widened(section.a0);
    let a_in1: F::Wide = widened(section.a1);
    let a_in2: F::Wide = widened(section.a2);
    let first: bool = !is_zero(a_in0);
    let second: bool = !is_zero(a_in1);
    let lead: F::Wide = if first {
        a_in0
    } else if second {
        a_in1
    } else {
        a_in2
    };
    let b0: F::Wide = over(widened(section.b0), lead);
    let b1: F::Wide = over(widened(section.b1), lead);
    let b2: F::Wide = over(widened(section.b2), lead);
    let a1: F::Wide = if first {
        over(a_in1, lead)
    } else if second {
        over(a_in2, lead)
    } else {
        zero()
    };
    let a2: F::Wide = if first {
        over(a_in2, lead)
    } else {
        zero()
    };
    let b1_term: F::Wide = minus(b1, times(a1, b0));
    let asum: F::Wide = plus(plus(one(), a1), a2);
    let zi0: F::Wide = over(plus(b1_term, minus(b2, times(a2, b0))), asum);
    let zi1: F::Wide = minus(times(plus(one(), a1), zi0), b1_term);
    (zi0, zi1)
}

/// The factor by which a section scales a constant.
pub open spec fn section_gain<F: SosFloat>(section: Sos<F>) -> F::Wide {
    over(
        sum3(section.b0, section.b1, section.b2),
        sum3(section.a0, section.a1, section.a2),
    )
}

/// The factor by which a cascade scales a constant.
pub open spec fn cascade_gain<F: SosFloat>(sections: Seq<Sos<F>>) -> F::Wide
    decreases sections.len(),
{
    if sections.len() == 0 {
        one()
    } else {
        times(cascade_gain(sections.drop_last()), section_gain(sections.last()))
    }
}

/// The section with the delay values it settles into when the sections before
/// it hand it the constant `scale`.
pub open spec fn with_settled<F: SosFloat>(section: Sos<F>, scale: F::Wide) -> Sos<F> {
    let (zi0, zi1) = section_settled(section);
    Sos { zi0: narrowed(times(scale, zi0)), zi1: narrowed(times(scale, zi1)), ..section }
}

/// The cascade with the delay values it settles into for a constant input of 1.
pub open spec fn cascade_settled<F: SosFloat>(sections: Seq<Sos<F>>) -> Seq<Sos<F>> {
    Seq::new(
        sections.len(),
        |k: int| with_settled(sections[k], cascade_gain(sections.take(k))),
    )
}

/// Sets each section's delays to the state that the cascade settles into for a
/// constant input of 1.
pub fn sosfilt_zi<F: SosFloat>(sections: &mut Vec<Sos<F>>)
    requires
        functional_sos::<F>(),
        forall|k: int| 0 <= k < old(sections).len() ==> solvable(#[trigger] old(sections)[k]),
    ensures
        final(sections)@ == cascade_settled(old(sections)@),
        final(sections).len() == old(sections).len(),
        forall|k: int|
            0 <= k < old(sections).len() ==> #[trigger] final(sections)[k] == (Sos {
                zi0: final(sections)[k].zi0,
                zi1: final(sections)[k].zi1,
                ..old(sections)[k]
            }),
{
    proof {
        lemma_functional_sos::<F>();
    }
    let ghost before = sections@;
    let mut scale: F::Wide = one();
    let mut index: usize = 0;
    while index < sections.len()
        invariant
            functional_sos::<F>(),
            functional::<F::Wide>(),
            forall|k: int| 0 <= k < before.len() ==> solvable(#[trigger] before[k]),
            index <= sections.len(),
            sections.len() == before.len(),
            scale == cascade_gain(before.take(index as int)),
            forall|k: int|
                0 <= k < index ==> sections[k] == with_settled(
                    before[k],
                    cascade_gain(before.take(k)),
                ),
            forall|k: int| index <= k < before.len() ==> sections[k] == before[k],
        decreases sections.len() - index,
    {
        let section: Sos<F> = sections[index];
        proof {
            assert(solvable(before[index as int]));
            assert(before.take(index + 1).drop_last() =~= before.take(index as int));
        }
        let (zi0, zi1) = sos_section_lfilter_zi(&section);
        let settled_section: Sos<F> = Sos {
            zi0: narrowed(times(scale, zi0)),
            zi1: narrowed(times(scale, zi1)),
            ..section
        };
        sections[index] = settled_section;
        scale = times(
            scale,
            over(
                sum3(section.b0, section.b1, section.b2),
                sum3(section.a0, section.a1, section.a2),
            ),
        );
        index = index + 1;
    }
    proof {
        assert(sections@ =~= cascade_settled(before));
    }
}

} // verus!
