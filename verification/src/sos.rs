//! Second-order filter sections and their cascades.
use vstd::prelude::*;

use crate::machine::{outputs, state_after};
use crate::sample::{
    exact, exact_wide, functional, functional_sos, fused, is_zero, lemma_functional_sos, narrowed,
    negated, times, zero, Sample, SosFloat,
};

verus! {

/// A second-order section of a digital filter, with its delay values:
/// numerator `b0 + b1/z + b2/z²`, denominator `a0 + a1/z + a2/z²`.
#[derive(Clone, Copy, Debug)]
pub struct Sos<F> {
    pub b0: F,
    pub b1: F,
    pub b2: F,
    pub a0: F,
    pub a1: F,
    pub a2: F,
    pub zi0: F,
    pub zi1: F,
}

impl<F: Sample> Sos<F> {
    pub open spec fn at_rest(b: [F; 3], a: [F; 3]) -> Sos<F> {
        Sos {
            b0: b[0],
            b1: b[1],
            b2: b[2],
            a0: a[0],
            a1: a[1],
            a2: a[2],
            zi0: zero(),
            zi1: zero(),
        }
    }

    /// A section with the given coefficients and empty delays.
    pub fn new(b: [F; 3], a: [F; 3]) -> (section: Sos<F>)
        requires
            functional::<F>(),
        ensures
            section == Sos::at_rest(b, a),
    {
        Sos {
            b0: b[0],
            b1: b[1],
            b2: b[2],
            a0: a[0],
            a1: a[1],
            a2: a[2],
            zi0: zero(),
            zi1: zero(),
        }
    }
}

/// One sample through one section, in the transposed direct form II: the next
/// section state and the output.
pub open spec fn section_step<F: Sample>(section: Sos<F>, sample: F) -> (Sos<F>, F) {
    let output = fused(section.b0, sample, section.zi0);
    let next = Sos {
        zi0: fused(section.b1, sample, fused(negated(section.a1), output, section.zi1)),
        zi1: fused(section.b2, sample, negated(times(section.a2, output))),
        ..section
    };
    (next, output)
}

/// One sample through a chain of sections, each fed by the one before it.
pub open spec fn cascade_step<S, F>(
    step: spec_fn(S, F) -> (S, F),
    sections: Seq<S>,
    sample: F,
) -> (Seq<S>, F)
    decreases sections.len(),
{
    if sections.len() == 0 {
        (sections, sample)
    } else {
        let (front, passed) = cascade_step(step, sections.drop_last(), sample);
        let (last, output) = step(sections.last(), passed);
        (front.push(last), output)
    }
}

/// The machine that one section is.
pub open spec fn section_machine<F: Sample>() -> spec_fn(Sos<F>, F) -> (Sos<F>, F) {
    |section: Sos<F>, sample: F| section_step(section, sample)
}

/// The machine that a cascade of sections is.
pub open spec fn sos_machine<F: Sample>() -> spec_fn(Seq<Sos<F>>, F) -> (Seq<Sos<F>>, F) {
    |sections: Seq<Sos<F>>, sample: F| cascade_step(section_machine::<F>(), sections, sample)
}

/// A step keeps the number of sections.
pub proof fn lemma_cascade_step_len<S, F>(
    step: spec_fn(S, F) -> (S, F),
    sections: Seq<S>,
    sample: F,
)
    ensures
        cascade_step(step, sections, sample).0.len() == sections.len(),
    decreases sections.len(),
{
    if sections.len() > 0 {
        lemma_cascade_step_len(step, sections.drop_last(), sample);
    }
}

/// Advances a single section by one sample, returning its output.
pub fn sos_step<F: Sample>(section: &mut Sos<F>, sample: F) -> (output: F)
    requires
        functional::<F>(),
    ensures
        (*final(section), output) == section_step(*old(section), sample),
{
    let output = fused(section.b0, sample, section.zi0);
    section.zi0 = fused(section.b1, sample, fused(negated(section.a1), output, section.zi1));
    section.zi1 = fused(section.b2, sample, negated(times(section.a2, output)));
    output
}

/// Advances a cascade by one sample, returning the output of its last section.
pub fn sosfilt_sample_slice<F: Sample>(sample: F, sections: &mut Vec<Sos<F>>) -> (output: F)
    requires
        functional::<F>(),
    ensures
        (final(sections)@, output) == cascade_step(
            section_machine::<F>(),
            old(sections)@,
            sample,
        ),
{
    let ghost before = sections@;
    let ghost step = section_machine::<F>();
    let mut passed: F = sample;
    let mut index: usize = 0;
    proof {
        assert(sections@ =~= cascade_step(step, before.take(0), sample).0 + before.skip(0));
    }
    while index < sections.len()
        invariant
            functional::<F>(),
            step == section_machine::<F>(),
            index <= sections.len(),
            sections.len() == before.len(),
            cascade_step(step, before.take(index as int), sample).1 == passed,
            sections@ == cascade_step(step, before.take(index as int), sample).0 + before.skip(
                index as int,
            ),
        decreases sections.len() - index,
    {
        proof {
            lemma_cascade_step_len(step, before.take(index as int), sample);
            assert(before.take(index + 1).drop_last() =~= before.take(index as int));
        }
        let mut section: Sos<F> = sections[index];
        passed = sos_step(&mut section, passed);
        sections[index] = section;
        index = index + 1;
        proof {
            assert(sections@ =~= cascade_step(step, before.take(index as int), sample).0
                + before.skip(index as int));
        }
    }
    proof {
        lemma_cascade_step_len(step, before, sample);
        assert(before.take(index as int) =~= before);
        assert(sections@ =~= cascade_step(step, before, sample).0);
    }
    passed
}

/// The section with empty delays.
pub open spec fn emptied<F: Sample>(section: Sos<F>) -> Sos<F> {
    Sos { zi0: zero(), zi1: zero(), ..section }
}

/// The cascade with empty delays.
pub open spec fn cascade_at_rest<F: Sample>(sos: Seq<Sos<F>>) -> Seq<Sos<F>> {
    sos.map_values(|section: Sos<F>| emptied(section))
}

/// What [`sosfilt_f32`] answers: a run of the cascade that starts with empty
/// delays, whatever delays the sections carry.
pub open spec fn forward_filtered<F: Sample>(sos: Seq<Sos<F>>, input: Seq<F>) -> Seq<F> {
    outputs(sos_machine::<F>(), cascade_at_rest(sos), input)
}

/// The cascade with empty delays.
fn empty_delays<F: Sample>(sos: &[Sos<F>]) -> (sections: Vec<Sos<F>>)
    requires
        functional::<F>(),
    ensures
        sections@ == cascade_at_rest(sos@),
{
    let mut sections: Vec<Sos<F>> = Vec::new();
    while sections.len() < sos.len()
        invariant
            functional::<F>(),
            sections.len() <= sos.len(),
            forall|k: int| 0 <= k < sections.len() ==> sections[k] == emptied(sos[k]),
        decreases sos.len() - sections.len(),
    {
        let section: Sos<F> = sos[sections.len()];
        sections.push(Sos { zi0: zero(), zi1: zero(), ..section });
    }
    proof {
        assert(sections@ =~= cascade_at_rest(sos@));
    }
    sections
}

/// Single forward pass of a cascade over a signal, started with empty delays. It
/// keeps the filter's phase response.
pub fn sosfilt_f32<F: Sample>(sos: &[Sos<F>], input: &[F]) -> (output: Vec<F>)
    requires
        functional::<F>(),
    ensures
        output@ == forward_filtered(sos@, input@),
        output.len() == input.len(),
{
    let ghost step = sos_machine::<F>();
    let ghost start = cascade_at_rest(sos@);
    let mut sections: Vec<Sos<F>> = empty_delays(sos);
    let mut output: Vec<F> = Vec::new();
    let mut index: usize = 0;
    while index < input.len()
        invariant
            functional::<F>(),
            step == sos_machine::<F>(),
            index <= input.len(),
            sections@ == state_after(step, start, input@, index as nat),
            output@ == outputs(step, start, input@).take(index as int),
        decreases input.len() - index,
    {
        let sample: F = input[index];
        let filtered: F = sosfilt_sample_slice(sample, &mut sections);
        output.push(filtered);
        index = index + 1;
        proof {
            assert(output@ =~= outputs(step, start, input@).take(index as int));
        }
    }
    proof {
        assert(outputs(step, start, input@).take(index as int) =~= outputs(step, start, input@));
    }
    output
}

/// The delays that a cascade carries do not matter to the forward pass.
pub proof fn law_forward_pass_ignores_delays<F: Sample>(
    sos: Seq<Sos<F>>,
    other: Seq<Sos<F>>,
    input: Seq<F>,
)
    requires
        sos.len() == other.len(),
        forall|k: int|
            0 <= k < sos.len() ==> #[trigger] other[k] == (Sos {
                zi0: other[k].zi0,
                zi1: other[k].zi1,
                ..sos[k]
            }),
    ensures
        forward_filtered(sos, input) == forward_filtered(other, input),
{
    assert(cascade_at_rest(sos) =~= cascade_at_rest(other));
}

/// The section with its coefficients rounded to the narrow sample type and
/// empty delays.
pub open spec fn narrow_section<F: SosFloat>(section: Sos<F::Wide>) -> Sos<F> {
    Sos {
        b0: narrowed(section.b0),
        b1: narrowed(section.b1),
        b2: narrowed(section.b2),
        a0: narrowed(section.a0),
        a1: narrowed(section.a1),
        a2: narrowed(section.a2),
        zi0: zero(),
        zi1: zero(),
    }
}

/// Rounds a designed cascade to the sample type that it runs in. Only the
/// coefficients are carried.
pub fn narrow_sos<F: SosFloat>(sos: &[Sos<F::Wide>]) -> (narrow: Vec<Sos<F>>)
    requires
        functional_sos::<F>(),
    ensures
        narrow@ == sos@.map_values(|section: Sos<F::Wide>| narrow_section::<F>(section)),
{
    proof {
        lemma_functional_sos::<F>();
    }
    let mut narrow: Vec<Sos<F>> = Vec::new();
    let mut index: usize = 0;
    while index < sos.len()
        invariant
            functional_sos::<F>(),
            functional::<F>(),
            index <= sos.len(),
            narrow.len() == index,
            forall|k: int| 0 <= k < index ==> narrow[k] == narrow_section::<F>(sos[k]),
        decreases sos.len() - index,
    {
        let section: Sos<F::Wide> = sos[index];
        narrow.push(
            Sos::new(
                [narrowed(section.b0), narrowed(section.b1), narrowed(section.b2)],
                [narrowed(section.a0), narrowed(section.a1), narrowed(section.a2)],
            ),
        );
        index = index + 1;
    }
    narrow
}

/// Number of sections whose `1/z²` numerator coefficient is zero.
pub open spec fn zero_b2<F: Sample>(sos: Seq<Sos<F>>) -> nat {
    sos.filter(|section: Sos<F>| is_zero(section.b2)).len()
}

/// Number of sections whose `1/z²` denominator coefficient is zero.
pub open spec fn zero_a2<F: Sample>(sos: Seq<Sos<F>>) -> nat {
    sos.filter(|section: Sos<F>| is_zero(section.a2)).len()
}

/// Taps of the whole filter: two for each section and one, less the sections
/// that are of first order.
pub open spec fn ntaps<F: Sample>(sos: Seq<Sos<F>>) -> int {
    let first_order = if zero_b2(sos) <= zero_a2(sos) {
        zero_b2(sos)
    } else {
        zero_a2(sos)
    };
    2 * sos.len() + 1 - first_order
}

proof fn lemma_filter_take<A>(all: Seq<A>, pred: spec_fn(A) -> bool, count: int)
    requires
        0 <= count < all.len(),
    ensures
        all.take(count + 1).filter(pred).len() == all.take(count).filter(pred).len() + (if pred(
            all[count],
        ) {
            1nat
        } else {
            0nat
        }),
        all.take(count).filter(pred).len() <= count,
{
    reveal(Seq::filter);
    assert(all.take(count + 1).drop_last() =~= all.take(count));
    lemma_filter_len(all.take(count), pred);
}

proof fn lemma_filter_len<A>(all: Seq<A>, pred: spec_fn(A) -> bool)
    ensures
        all.filter(pred).len() <= all.len(),
    decreases all.len(),
{
    reveal(Seq::filter);
    if all.len() > 0 {
        lemma_filter_len(all.drop_last(), pred);
    }
}

/// The number of taps is positive and at most two for each section and one.
pub proof fn lemma_ntaps_bounds<F: Sample>(sos: Seq<Sos<F>>)
    ensures
        sos.len() + 1 <= ntaps(sos) <= 2 * sos.len() + 1,
{
    lemma_filter_len(sos, |section: Sos<F>| is_zero(section.b2));
    lemma_filter_len(sos, |section: Sos<F>| is_zero(section.a2));
}

/// Taps of the whole filter.
pub fn sosfiltfilt_ntaps<F: Sample>(sos: &[Sos<F>]) -> (taps: usize)
    requires
        functional::<F>(),
        2 * sos.len() + 1 <= usize::MAX,
    ensures
        taps == ntaps(sos@),
{
    let ghost b_pred = |section: Sos<F>| is_zero(section.b2);
    let ghost a_pred = |section: Sos<F>| is_zero(section.a2);
    let mut bzeros: usize = 0;
    let mut azeros: usize = 0;
    let mut index: usize = 0;
    while index < sos.len()
        invariant
            functional::<F>(),
            index <= sos.len(),
            b_pred == (|section: Sos<F>| is_zero(section.b2)),
            a_pred == (|section: Sos<F>| is_zero(section.a2)),
            bzeros == sos@.take(index as int).filter(b_pred).len(),
            azeros == sos@.take(index as int).filter(a_pred).len(),
            bzeros <= index,
            azeros <= index,
        decreases sos.len() - index,
    {
        proof {
            lemma_filter_take(sos@, b_pred, index as int);
            lemma_filter_take(sos@, a_pred, index as int);
        }
        if is_zero(sos[index].b2) {
            bzeros = bzeros + 1;
        }
        if is_zero(sos[index].a2) {
            azeros = azeros + 1;
        }
        index = index + 1;
    }
    proof {
        assert(sos@.take(index as int) =~= sos@);
    }
    let first_order: usize = if bzeros <= azeros {
        bzeros
    } else {
        azeros
    };
    (2 * sos.len() + 1) - first_order
}

/// Rounding to the narrow sample type keeps the number of every coefficient, and
/// empties the delays.
pub proof fn law_narrowing_keeps_the_coefficients<F: SosFloat>(
    value: spec_fn(F) -> real,
    wide: spec_fn(F::Wide) -> real,
    section: Sos<F::Wide>,
)
    requires
        exact_wide(value, wide),
    ensures
        ({
            let narrow = narrow_section::<F>(section);
            &&& value(narrow.b0) == wide(section.b0)
            &&& value(narrow.b1) == wide(section.b1)
            &&& value(narrow.b2) == wide(section.b2)
            &&& value(narrow.a0) == wide(section.a0)
            &&& value(narrow.a1) == wide(section.a1)
            &&& value(narrow.a2) == wide(section.a2)
            &&& value(narrow.zi0) == 0real
            &&& value(narrow.zi1) == 0real
        }),
{
}

/// A cascade has two taps for each section and one more, less the lesser of two
/// numbers: that of the sections whose last numerator coefficient vanishes, and
/// that of those whose last denominator coefficient does.
pub proof fn law_taps_leave_out_the_lesser_number<F: Sample>(
    value: spec_fn(F) -> real,
    sos: Seq<Sos<F>>,
)
    requires
        exact(value),
    ensures
        ({
            let tops = sos.filter(|section: Sos<F>| value(section.b2) == 0real).len();
            let bottoms = sos.filter(|section: Sos<F>| value(section.a2) == 0real).len();
            let left_out = 2 * sos.len() + 1 - ntaps(sos);
            &&& left_out <= tops
            &&& left_out <= bottoms
            &&& left_out == tops || left_out == bottoms
        }),
{
    assert((|section: Sos<F>| is_zero(section.b2)) =~= (|section: Sos<F>|
        value(section.b2) == 0real));
    assert((|section: Sos<F>| is_zero(section.a2)) =~= (|section: Sos<F>|
        value(section.a2) == 0real));
}

} // verus!
