//! The sixteen-lane scan computes the first-order recurrence.
use vstd::prelude::*;

use crate::filter::{
    dynamic_filtered, filtered, spec_is_first_order, DynamicFilter, FilterRuntime,
};
use crate::filter_laws::{
    law_first_order_filters_alike, law_stack_filters_as_plain_sections, lemma_outputs_same,
    lemma_states_related, plain_seeding, same, same_signal, simulates,
};
use crate::first_order::{
    first_order, first_order_machine, order1_filtered, settled_delay, FirstOrder,
    FIRST_ORDER_EDGE,
};
use crate::machine::{
    lemma_state_after_prefix, lemma_state_after_split, odd_extension, outputs, state_after,
    zero_phase,
};
use crate::reals::{lemma_real_associates, lemma_real_distributes};
use crate::sample::{exact, exact_wide, is_zero, times, two, widened, Sample, SosFloat};
use crate::scan::{
    chunk_delays, chunk_outputs, chunked_run, decay, lemma_chunked_run_len, prefix_sums,
    scan_filtered, shifted_in, LANES,
};
use crate::sos::{ntaps, sos_machine, Sos};
use crate::sosfiltfilt::stack_filtered;
use crate::steady::{cascade_settled, constant_denominator, normalized, solvable};

verus! {

/// `base` multiplied by itself, `count` times over.
pub open spec fn power(base: real, count: nat) -> real
    decreases count,
{
    if count == 0 {
        1real
    } else {
        power(base, (count - 1) as nat) * base
    }
}

/// The last `reach` terms up to place `j`, each decayed by its distance from
/// it.
pub open spec fn decayed_sum(terms: Seq<real>, factor: real, reach: nat, j: int) -> real
    decreases reach,
{
    if reach == 0 || j < 0 {
        0real
    } else {
        terms[j] + factor * decayed_sum(terms, factor, (reach - 1) as nat, j - 1)
    }
}

proof fn lemma_decayed_sum_splits(
    terms: Seq<real>,
    factor: real,
    near: nat,
    far: nat,
    j: int,
)
    ensures
        decayed_sum(terms, factor, near + far, j) == decayed_sum(terms, factor, near, j) + power(
            factor,
            near,
        ) * decayed_sum(terms, factor, far, j - near),
    decreases near,
{
    let rest = decayed_sum(terms, factor, far, j - near);
    if near == 0 {
        assert(1real * rest == rest) by (nonlinear_arith);
    } else if j < 0 {
        assert(rest == 0real);
        assert(power(factor, near) * 0real == 0real) by (nonlinear_arith);
    } else {
        let less = (near - 1) as nat;
        lemma_decayed_sum_splits(terms, factor, less, far, j - 1);
        assert((near + far - 1) as nat == less + far);
        let head = decayed_sum(terms, factor, less, j - 1);
        let decayed = power(factor, less);
        lemma_real_distributes(factor, head, decayed * rest);
        lemma_real_associates(factor, decayed, rest);
        lemma_real_distributes(factor, decayed, decayed);
        assert(j - 1 - less == j - near);
    }
}

proof fn lemma_decayed_sum_complete(terms: Seq<real>, factor: real, reach: nat, j: int)
    requires
        j < reach,
    ensures
        decayed_sum(terms, factor, reach + 1, j) == decayed_sum(terms, factor, reach, j),
    decreases reach,
{
    if j >= 0 {
        lemma_decayed_sum_complete(terms, factor, (reach - 1) as nat, j - 1);
    }
}

proof fn lemma_stage<F: Sample>(
    value: spec_fn(F) -> real,
    lanes: Seq<F>,
    terms: Seq<real>,
    factor: real,
    reach: nat,
    stage_factor: F,
)
    requires
        exact(value),
        value(stage_factor) == power(factor, reach),
        forall|j: int|
            0 <= j < lanes.len() ==> value(#[trigger] lanes[j]) == decayed_sum(
                terms,
                factor,
                reach,
                j,
            ),
    ensures
        forall|j: int|
            0 <= j < lanes.len() ==> value(#[trigger] shifted_in(lanes, reach, stage_factor)[j])
                == decayed_sum(terms, factor, reach + reach, j),
{
    assert forall|j: int| 0 <= j < lanes.len() implies value(
        #[trigger] shifted_in(lanes, reach, stage_factor)[j],
    ) == decayed_sum(terms, factor, reach + reach, j) by {
        lemma_decayed_sum_splits(terms, factor, reach, reach, j);
        assert(value(lanes[j]) == decayed_sum(terms, factor, reach, j));
        if j >= reach {
            assert(value(lanes[j - reach]) == decayed_sum(terms, factor, reach, j - reach));
        } else {
            assert(decayed_sum(terms, factor, reach, j - reach) == 0real);
        }
    }
}

proof fn lemma_decay_is_power<F: Sample>(value: spec_fn(F) -> real, factor: F, lane: nat)
    requires
        exact(value),
    ensures
        value(decay(factor, lane)) == power(value(factor), lane + 1),
    decreases lane,
{
    if lane == 0 {
        assert(power(value(factor), 1) == power(value(factor), 0) * value(factor));
    } else {
        lemma_decay_is_power(value, factor, (lane - 1) as nat);
    }
}

proof fn lemma_prefix_sums<F: Sample>(
    value: spec_fn(F) -> real,
    filter: FirstOrder<F>,
    chunk: Seq<F>,
    terms: Seq<real>,
)
    requires
        exact(value),
        chunk.len() == LANES,
        terms.len() == LANES,
        forall|j: int|
            0 <= j < LANES ==> #[trigger] terms[j] == value(filter.bff) * value(chunk[j]),
    ensures
        forall|j: int|
            0 <= j < LANES ==> value(#[trigger] prefix_sums(filter, chunk)[j]) == decayed_sum(
                terms,
                value(filter.neg_a1),
                16,
                j,
            ),
{
    let factor = value(filter.neg_a1);
    let fed = chunk.map_values(|sample: F| times(filter.bff, sample));
    assert forall|j: int| 0 <= j < LANES implies value(#[trigger] fed[j]) == decayed_sum(
        terms,
        factor,
        1,
        j,
    ) by {
        assert(decayed_sum(terms, factor, 0, j - 1) == 0real);
        assert(factor * 0real == 0real) by (nonlinear_arith);
        assert(decayed_sum(terms, factor, 1, j) == terms[j] + factor * decayed_sum(
            terms,
            factor,
            0,
            j - 1,
        ));
        assert(terms[j] == value(filter.bff) * value(chunk[j]));
    }
    assert(power(factor, 0) == 1real);
    assert(power(factor, 1) == 1real * factor);
    assert(1real * factor == factor) by (nonlinear_arith);
    assert(power(factor, 2) == power(factor, 1) * factor);
    lemma_decay_is_power(value, filter.neg_a1, 3);
    lemma_decay_is_power(value, filter.neg_a1, 7);
    lemma_stage(value, fed, terms, factor, 1, filter.neg_a1);
    let by1 = shifted_in(fed, 1, filter.neg_a1);
    let square = times(filter.neg_a1, filter.neg_a1);
    lemma_stage(value, by1, terms, factor, 2, square);
    let by2 = shifted_in(by1, 2, square);
    lemma_stage(value, by2, terms, factor, 4, decay(filter.neg_a1, 3));
    let by4 = shifted_in(by2, 4, decay(filter.neg_a1, 3));
    lemma_stage(value, by4, terms, factor, 8, decay(filter.neg_a1, 7));
}

/// Over a chunk, the scan's delays are the delays of the recurrence.
pub proof fn law_scan_follows_recurrence<F: Sample>(
    value: spec_fn(F) -> real,
    filter: FirstOrder<F>,
    zin: F,
    chunk: Seq<F>,
    count: nat,
)
    requires
        exact(value),
        chunk.len() == LANES,
        1 <= count <= LANES,
    ensures
        value(chunk_delays(filter, zin, chunk)[count - 1]) == value(
            state_after(first_order_machine(filter), zin, chunk, count),
        ),
    decreases count,
{
    let step = first_order_machine(filter);
    let factor = value(filter.neg_a1);
    let terms = Seq::new(
        LANES as nat,
        |j: int| value(filter.bff) * value(chunk[j]),
    );
    let j = count - 1;
    lemma_prefix_sums(value, filter, chunk, terms);
    lemma_decay_is_power(value, filter.neg_a1, j as nat);
    let sums = prefix_sums(filter, chunk);
    assert(value(sums[j]) == decayed_sum(terms, factor, 16, j));
    assert(terms[j] == value(filter.bff) * value(chunk[j]));
    let before = decayed_sum(terms, factor, 15, j - 1);
    assert(decayed_sum(terms, factor, 16, j) == terms[j] + factor * before);
    let entering = state_after(step, zin, chunk, j as nat);
    assert(state_after(step, zin, chunk, count) == step(entering, chunk[j]).0);
    if j == 0 {
        assert(before == 0real);
        assert(factor * 0real == 0real) by (nonlinear_arith);
        assert(power(factor, 1) == power(factor, 0) * factor);
        assert(1real * factor == factor) by (nonlinear_arith);
    } else {
        law_scan_follows_recurrence(value, filter, zin, chunk, j as nat);
        lemma_decayed_sum_complete(terms, factor, 15, j - 1);
        lemma_decay_is_power(value, filter.neg_a1, (j - 1) as nat);
        assert(value(sums[j - 1]) == decayed_sum(terms, factor, 16, j - 1));
        let decayed = power(factor, j as nat);
        let carried = decayed * value(zin);
        assert(value(entering) == carried + before);
        lemma_real_distributes(factor, carried, before);
        lemma_real_associates(factor, decayed, value(zin));
        lemma_real_distributes(factor, decayed, decayed);
        assert(power(factor, (j + 1) as nat) == decayed * factor);
    }
}

proof fn lemma_recurrence_respects_values<F: Sample>(
    value: spec_fn(F) -> real,
    filter: FirstOrder<F>,
)
    requires
        exact(value),
    ensures
        simulates(first_order_machine(filter), first_order_machine(filter), same(value), value),
{
}

/// From the same delay, the same signal: the scan ends in the same delay and
/// answers the same as the recurrence.
pub proof fn law_chunked_run_is_the_recurrence<F: Sample>(
    value: spec_fn(F) -> real,
    filter: FirstOrder<F>,
    zin: F,
    other: F,
    signal: Seq<F>,
    other_signal: Seq<F>,
)
    requires
        exact(value),
        value(zin) == value(other),
        same_signal(value, signal, other_signal),
    ensures
        value(chunked_run(filter, zin, signal).0) == value(
            state_after(first_order_machine(filter), other, other_signal, signal.len()),
        ),
        same_signal(
            value,
            chunked_run(filter, zin, signal).1,
            outputs(first_order_machine(filter), other, other_signal),
        ),
    decreases signal.len(),
{
    let step = first_order_machine(filter);
    lemma_recurrence_respects_values(value, filter);
    if signal.len() < LANES {
        lemma_states_related(
            step,
            step,
            same(value),
            value,
            zin,
            other,
            signal,
            other_signal,
            signal.len(),
        );
        lemma_outputs_same(step, step, same(value), value, zin, other, signal, other_signal);
    } else {
        let lanes = LANES as nat;
        let chunk = signal.take(lanes as int);
        let delays = chunk_delays(filter, zin, chunk);
        let leaving = delays[LANES - 1];
        let middle = state_after(step, other, other_signal, lanes);
        law_scan_follows_recurrence(value, filter, zin, chunk, lanes);
        assert forall|count: nat| count <= lanes implies value(
            #[trigger] state_after(step, zin, chunk, count),
        ) == value(state_after(step, other, other_signal, count)) by {
            lemma_state_after_prefix(step, zin, chunk, signal, count);
            lemma_states_related(
                step,
                step,
                same(value),
                value,
                zin,
                other,
                signal,
                other_signal,
                count,
            );
        }
        assert(value(state_after(step, zin, chunk, lanes)) == value(middle));
        let rest = signal.skip(lanes as int);
        let other_rest = other_signal.skip(lanes as int);
        assert forall|k: int| 0 <= k < rest.len() implies value(#[trigger] rest[k]) == value(
            other_rest[k],
        ) by {
            assert(rest[k] == signal[lanes + k]);
        }
        law_chunked_run_is_the_recurrence(value, filter, leaving, middle, rest, other_rest);
        lemma_state_after_split(step, other, other_signal, lanes, rest.len());
        let run = chunked_run(filter, zin, signal).1;
        let later = chunked_run(filter, leaving, rest).1;
        let plain = outputs(step, other, other_signal);
        assert forall|k: int| 0 <= k < run.len() implies value(#[trigger] run[k]) == value(
            plain[k],
        ) by {
            if k < lanes {
                assert(run[k] == chunk_outputs(filter, zin, chunk)[k]);
                assert(value(signal[k]) == value(other_signal[k]));
                assert(value(state_after(step, zin, chunk, k as nat)) == value(
                    state_after(step, other, other_signal, k as nat),
                ));
                if k > 0 {
                    law_scan_follows_recurrence(value, filter, zin, chunk, k as nat);
                }
            } else {
                assert(run[k] == later[k - lanes]);
                lemma_state_after_split(
                    step,
                    other,
                    other_signal,
                    lanes,
                    (k - lanes) as nat,
                );
                assert(other_rest[k - lanes] == other_signal[k]);
            }
        }
        lemma_chunked_run_len(filter, zin, signal);
    }
}

/// Filtering sixteen samples at a time answers what filtering sample by sample
/// answers.
pub proof fn law_scan_filters_alike<F: SosFloat>(
    value: spec_fn(F) -> real,
    section: Sos<F>,
    signal: Seq<F>,
)
    requires
        exact(value),
        signal.len() > 0,
    ensures
        same_signal(value, scan_filtered(section, signal), order1_filtered(section, signal)),
{
    let filter = first_order(section);
    let step = first_order_machine(filter);
    let base = settled_delay(section);
    let edge = FIRST_ORDER_EDGE as nat;
    let n = signal.len();
    lemma_recurrence_respects_values(value, filter);

    let extended = odd_extension(signal, edge);
    let start = times(base, extended[0]);
    let forward = outputs(step, start, extended);
    let entering = state_after(step, start, extended, edge);
    let (between, body) = chunked_run(filter, entering, signal);
    law_chunked_run_is_the_recurrence(value, filter, entering, entering, signal, signal);
    lemma_chunked_run_len(filter, entering, signal);

    let after_left = extended.skip(edge as int);
    assert forall|count: nat| count <= n implies #[trigger] state_after(
        step,
        entering,
        signal,
        count,
    ) == state_after(step, start, extended, edge + count) by {
        lemma_state_after_prefix(step, entering, signal, after_left, count);
        lemma_state_after_split(step, start, extended, edge, count);
    }
    assert forall|k: int| 0 <= k < n implies value(#[trigger] body[k]) == value(
        forward[edge + k],
    ) by {
        assert(value(body[k]) == value(outputs(step, entering, signal)[k]));
        assert(state_after(step, entering, signal, k as nat) == state_after(
            step,
            start,
            extended,
            edge + k as nat,
        ));
        assert(extended[edge + k] == signal[k]);
    }

    let right = extended.skip((edge + n) as int);
    let middle = state_after(step, start, extended, edge + n);
    assert(state_after(step, entering, signal, n) == middle);
    lemma_outputs_same(step, step, same(value), value, between, middle, right, right);
    let tail = outputs(step, between, right);
    assert forall|k: int| 0 <= k < edge implies value(#[trigger] tail[k]) == value(
        forward[edge + n + k],
    ) by {
        assert(value(tail[k]) == value(outputs(step, middle, right)[k]));
        lemma_state_after_split(step, start, extended, edge + n, k as nat);
        assert(right[k] == extended[edge + n + k]);
    }

    let reversed = forward.reverse();
    let back_start = times(base, forward.last());
    let scan_back_start = times(base, tail.last());
    assert(value(tail[edge - 1]) == value(forward[edge + n + (edge - 1)]));
    let tail_reversed = tail.reverse();
    let first = reversed.take(edge as int);
    assert forall|k: int| 0 <= k < edge implies value(#[trigger] tail_reversed[k]) == value(
        first[k],
    ) by {
        assert(tail_reversed[k] == tail[edge - 1 - k]);
    }
    lemma_states_related(
        step,
        step,
        same(value),
        value,
        scan_back_start,
        back_start,
        tail_reversed,
        first,
        edge,
    );
    lemma_state_after_prefix(step, back_start, first, reversed, edge);
    let back_entering = state_after(step, back_start, reversed, edge);
    let scan_back_entering = state_after(step, scan_back_start, tail_reversed, edge);
    assert(value(scan_back_entering) == value(back_entering));

    let turned = body.reverse();
    let rest = reversed.skip(edge as int).take(n as int);
    assert forall|k: int| 0 <= k < n implies value(#[trigger] turned[k]) == value(rest[k]) by {
        assert(turned[k] == body[n - 1 - k]);
        assert(rest[k] == forward[edge + (n - 1 - k)]);
    }
    law_chunked_run_is_the_recurrence(
        value,
        filter,
        scan_back_entering,
        back_entering,
        turned,
        rest,
    );
    lemma_chunked_run_len(filter, scan_back_entering, turned);
    let scanned = chunked_run(filter, scan_back_entering, turned).1;
    let backward = outputs(step, back_start, reversed);
    assert forall|k: int| 0 <= k < n implies value(#[trigger] scanned[k]) == value(
        backward[edge + k],
    ) by {
        assert(value(scanned[k]) == value(outputs(step, back_entering, rest)[k]));
        lemma_state_after_prefix(
            step,
            back_entering,
            rest,
            reversed.skip(edge as int),
            k as nat,
        );
        lemma_state_after_split(step, back_start, reversed, edge, k as nat);
        assert(rest[k] == reversed[edge + k]);
    }
    let result = scan_filtered(section, signal);
    let plain = order1_filtered(section, signal);
    assert(result == scanned.reverse());
    assert(plain == backward.reverse().subrange(edge as int, (edge + n) as int));
    assert forall|k: int| 0 <= k < n implies value(#[trigger] result[k]) == value(plain[k]) by {
        assert(result[k] == scanned[n - 1 - k]);
        assert(plain[k] == backward[edge + (n - 1 - k)]);
    }
}

/// Rounding aside, the three forms of a first-order filter agree: sixteen samples
/// at a time, sample by sample, and as a cascade of one section. The section leads
/// with 1 and its delay decays.
pub proof fn law_first_order_forms_agree<F: SosFloat>(
    value: spec_fn(F) -> real,
    wide: spec_fn(F::Wide) -> real,
    section: Sos<F>,
    signal: Seq<F>,
)
    requires
        exact_wide(value, wide),
        spec_is_first_order(seq![section]),
        value(section.a0) == 1real,
        -1real < value(section.a1) < 1real,
        signal.len() > 0,
    ensures
        same_signal(value, scan_filtered(section, signal), order1_filtered(section, signal)),
        same_signal(
            value,
            order1_filtered(section, signal),
            stack_filtered(seq![section], signal),
        ),
        same_signal(
            value,
            scan_filtered(section, signal),
            stack_filtered(seq![section], signal),
        ),
{
    let a0 = widened(section.a0);
    let n = normalized(section);
    assert(wide(a0) == 1real);
    assert(!is_zero(a0));
    assert(wide(n.a1) * 1real == value(section.a1));
    assert(wide(n.a2) * 1real == value(section.a2));
    assert(is_zero(seq![section][0].a2));
    assert(value(section.a2) == 0real);
    law_scan_filters_alike(value, section, signal);
    law_first_order_filters_alike(value, wide, section, signal);
}

/// Rounding aside, how a cascade of one to twelve sections is run does not
/// matter: each way answers what its plain sections answer, run forward and
/// backward over the signal continued at both ends by three times its taps. Any
/// other cascade goes to the dynamic filter.
pub proof fn law_every_way_filters_alike<F: SosFloat, D: DynamicFilter<F>>(
    value: spec_fn(F) -> real,
    wide: spec_fn(F::Wide) -> real,
    runtime: FilterRuntime<D>,
    sos: Seq<Sos<F>>,
    signal: Seq<F>,
)
    requires
        exact_wide(value, wide),
        signal.len() > 0,
        sos.len() == 1 ==> solvable(sos[0]) && wide(constant_denominator(normalized(sos[0])))
            != 0real,
    ensures
        1 <= sos.len() <= 12 ==> same_signal(
            value,
            filtered(runtime, sos, signal),
            zero_phase(
                sos_machine::<F>(),
                plain_seeding(cascade_settled(sos)),
                signal,
                (3 * ntaps(sos)) as nat,
            ),
        ),
        sos.len() == 0 || sos.len() > 12 ==> filtered(runtime, sos, signal) == dynamic_filtered(
            runtime.dynamic,
            sos,
            signal,
        ),
{
    law_stack_filters_as_plain_sections(value, sos, signal);
    if spec_is_first_order(sos) {
        let section = sos[0];
        assert(sos =~= seq![section]);
        law_scan_filters_alike(value, section, signal);
        law_first_order_filters_alike(value, wide, section, signal);
        let plain = zero_phase(
            sos_machine::<F>(),
            plain_seeding(cascade_settled(sos)),
            signal,
            (3 * ntaps(sos)) as nat,
        );
        let stacked = stack_filtered(sos, signal);
        let single = order1_filtered(section, signal);
        let scanned = scan_filtered(section, signal);
        assert forall|k: int| 0 <= k < plain.len() implies value(#[trigger] single[k]) == value(
            plain[k],
        ) && value(scanned[k]) == value(plain[k]) by {
            assert(value(stacked[k]) == value(plain[k]));
            assert(value(stacked[k]) == value(single[k]));
            assert(value(scanned[k]) == value(single[k]));
        }
        assert(same_signal(value, single, plain));
        assert(same_signal(value, scanned, plain)) by {
            assert forall|k: int| 0 <= k < plain.len() implies value(#[trigger] scanned[k])
                == value(plain[k]) by {
                assert(value(single[k]) == value(plain[k]));
            }
        }
    }
}

/// Rounding aside, a signal is continued point-symmetrically about its first and
/// its last sample, and stands between its continuations.
pub proof fn law_continuation_is_point_symmetric<F: Sample>(
    value: spec_fn(F) -> real,
    signal: Seq<F>,
    edge: nat,
    j: int,
)
    requires
        exact(value),
        edge < signal.len(),
        0 <= j <= edge,
    ensures
        ({
            let continued = odd_extension(signal, edge);
            let first = edge as int;
            let last = edge + signal.len() - 1;
            &&& continued.len() == signal.len() + 2 * edge
            &&& continued.subrange(first, last + 1) == signal
            &&& value(continued[first - j]) + value(continued[first + j]) == 2real * value(
                signal[0],
            )
            &&& value(continued[last - j]) + value(continued[last + j]) == 2real * value(
                signal[signal.len() - 1],
            )
        }),
{
    let first = value(signal[0]);
    let last = value(signal[signal.len() - 1]);
    let twice = value(two::<F>());
    assert(twice == 2real);
    assert(twice * first == 2real * first) by (nonlinear_arith)
        requires
            twice == 2real,
    ;
    assert(twice * last == 2real * last) by (nonlinear_arith)
        requires
            twice == 2real,
    ;
}

} // verus!
