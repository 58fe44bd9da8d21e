//! First-order filtering sixteen samples at a time.
//!
//! The delay of a first-order section obeys `zi0' = A*zi0 + bff*x`. Over a
//! chunk its values are `A^(j+1)*zin` plus a decay-weighted prefix sum of the
//! inputs, and four shift-and-multiply-add stages build that sum for all lanes
//! at once, so the only value carried from chunk to chunk is the delay.
use vstd::prelude::*;

use crate::first_order::{
    first_order, first_order_machine, settled_delay, settled_delay_of, FirstOrder,
    FIRST_ORDER_EDGE,
};
use crate::machine::{odd_extension, outputs, state_after};
use crate::sample::{
    functional, functional_sos, fused, lemma_functional_sos, minus, one, times, two, zero, Sample,
    SosFloat,
};
use crate::sos::Sos;
use crate::steady::solvable;

verus! {

/// Samples in a chunk.
pub const LANES: usize = 16;

/// The delay's decay over `lane + 1` samples.
pub open spec fn decay<F: Sample>(factor: F, lane: nat) -> F
    decreases lane,
{
    if lane == 0 {
        times(one(), factor)
    } else {
        times(decay(factor, (lane - 1) as nat), factor)
    }
}

/// Each lane with `factor` times the lane `by` places before it added; before
/// the first lane stand zeros.
pub open spec fn shifted_in<F: Sample>(lanes: Seq<F>, by: nat, factor: F) -> Seq<F> {
    Seq::new(
        lanes.len(),
        |j: int|
            fused(
                factor,
                if j >= by {
                    lanes[j - by]
                } else {
                    zero()
                },
                lanes[j],
            ),
    )
}

/// The decay-weighted prefix sums of a chunk.
pub open spec fn prefix_sums<F: Sample>(filter: FirstOrder<F>, chunk: Seq<F>) -> Seq<F> {
    let fed = chunk.map_values(|sample: F| times(filter.bff, sample));
    let by1 = shifted_in(fed, 1, filter.neg_a1);
    let by2 = shifted_in(by1, 2, times(filter.neg_a1, filter.neg_a1));
    let by4 = shifted_in(by2, 4, decay(filter.neg_a1, 3));
    shifted_in(by4, 8, decay(filter.neg_a1, 7))
}

/// The delay after each sample of a chunk that is entered with `zin`.
pub open spec fn chunk_delays<F: Sample>(filter: FirstOrder<F>, zin: F, chunk: Seq<F>) -> Seq<F> {
    let sums = prefix_sums(filter, chunk);
    Seq::new(chunk.len(), |j: int| fused(decay(filter.neg_a1, j as nat), zin, sums[j]))
}

/// The outputs for a chunk that is entered with `zin`.
pub open spec fn chunk_outputs<F: Sample>(filter: FirstOrder<F>, zin: F, chunk: Seq<F>) -> Seq<F> {
    let delays = chunk_delays(filter, zin, chunk);
    Seq::new(
        chunk.len(),
        |j: int|
            fused(
                filter.b0,
                chunk[j],
                if j == 0 {
                    zin
                } else {
                    delays[j - 1]
                },
            ),
    )
}

/// A signal filtered chunk by chunk, what is left over sample by sample: the
/// delay at the end and the outputs.
pub open spec fn chunked_run<F: Sample>(filter: FirstOrder<F>, zin: F, signal: Seq<F>) -> (
    F,
    Seq<F>,
)
    decreases signal.len(),
{
    if signal.len() < LANES {
        let step = first_order_machine(filter);
        (state_after(step, zin, signal, signal.len()), outputs(step, zin, signal))
    } else {
        let chunk = signal.take(LANES as int);
        let leaving = chunk_delays(filter, zin, chunk)[LANES - 1];
        let (end, rest) = chunked_run(filter, leaving, signal.skip(LANES as int));
        (end, chunk_outputs(filter, zin, chunk) + rest)
    }
}

/// What [`sosfiltfilt_order1_scan_f32`] answers: forward over the signal
/// continued at both ends, then backward over what came out.
pub open spec fn scan_filtered<F: SosFloat>(section: Sos<F>, input: Seq<F>) -> Seq<F> {
    let filter = first_order(section);
    let step = first_order_machine(filter);
    let base = settled_delay(section);
    let edge = FIRST_ORDER_EDGE as nat;
    let extended = odd_extension(input, edge);
    let entering = state_after(step, times(base, extended[0]), extended, edge);
    let (between, body) = chunked_run(filter, entering, input);
    let tail = outputs(step, between, extended.skip((edge + input.len()) as int));
    let backward_entering = state_after(step, times(base, tail.last()), tail.reverse(), edge);
    chunked_run(filter, backward_entering, body.reverse()).1.reverse()
}

/// One output for each sample.
pub proof fn lemma_chunked_run_len<F: Sample>(filter: FirstOrder<F>, zin: F, signal: Seq<F>)
    ensures
        chunked_run(filter, zin, signal).1.len() == signal.len(),
    decreases signal.len(),
{
    if signal.len() >= LANES {
        let leaving = chunk_delays(filter, zin, signal.take(LANES as int))[LANES - 1];
        lemma_chunked_run_len(filter, leaving, signal.skip(LANES as int));
    }
}

/// A first-order filter with the decays of its delay.
pub struct ScanFilter<F> {
    pub filter: FirstOrder<F>,
    pub decays: Vec<F>,
}

impl<F: Sample> ScanFilter<F> {
    pub open spec fn wf(&self) -> bool {
        &&& self.decays.len() == LANES
        &&& forall|j: int|
            0 <= j < LANES ==> self.decays[j] == decay(self.filter.neg_a1, j as nat)
    }

    /// Prepares the decays.
    pub fn new(filter: FirstOrder<F>) -> (scan: ScanFilter<F>)
        requires
            functional::<F>(),
        ensures
            scan.wf(),
            scan.filter == filter,
    {
        let mut decays: Vec<F> = Vec::new();
        let mut power: F = one();
        while decays.len() < LANES
            invariant
                functional::<F>(),
                decays.len() <= LANES,
                decays.len() == 0 ==> power == one::<F>(),
                decays.len() > 0 ==> power == decays[decays.len() - 1],
                forall|j: int|
                    0 <= j < decays.len() ==> decays[j] == decay(filter.neg_a1, j as nat),
            decreases LANES - decays.len(),
        {
            power = times(power, filter.neg_a1);
            decays.push(power);
        }
        ScanFilter { filter, decays }
    }

    /// One stage of the prefix sum.
    fn shift_in(lanes: &Vec<F>, by: usize, factor: F) -> (next: Vec<F>)
        requires
            functional::<F>(),
        ensures
            next@ == shifted_in(lanes@, by as nat, factor),
    {
        let mut next: Vec<F> = Vec::new();
        while next.len() < lanes.len()
            invariant
                functional::<F>(),
                next.len() <= lanes.len(),
                forall|j: int|
                    0 <= j < next.len() ==> next[j] == shifted_in(lanes@, by as nat, factor)[j],
            decreases lanes.len() - next.len(),
        {
            let j: usize = next.len();
            let earlier: F = if j >= by {
                lanes[j - by]
            } else {
                zero()
            };
            next.push(fused(factor, earlier, lanes[j]));
        }
        proof {
            assert(next@ =~= shifted_in(lanes@, by as nat, factor));
        }
        next
    }

    /// One chunk: its outputs, and the delay that leaves it.
    pub fn scan(&self, chunk: &Vec<F>, zin: F) -> (result: (Vec<F>, F))
        requires
            functional::<F>(),
            self.wf(),
            chunk.len() == LANES,
        ensures
            result.0@ == chunk_outputs(self.filter, zin, chunk@),
            result.1 == chunk_delays(self.filter, zin, chunk@)[LANES - 1],
    {
        let mut fed: Vec<F> = Vec::new();
        while fed.len() < LANES
            invariant
                functional::<F>(),
                chunk.len() == LANES,
                fed.len() <= LANES,
                forall|j: int|
                    0 <= j < fed.len() ==> fed[j] == times(self.filter.bff, chunk[j]),
            decreases LANES - fed.len(),
        {
            fed.push(times(self.filter.bff, chunk[fed.len()]));
        }
        proof {
            let mapped = chunk@.map_values(|sample: F| times(self.filter.bff, sample));
            assert(fed@ =~= mapped);
        }
        let by1: Vec<F> = Self::shift_in(&fed, 1, self.filter.neg_a1);
        let by2: Vec<F> = Self::shift_in(
            &by1,
            2,
            times(self.filter.neg_a1, self.filter.neg_a1),
        );
        let by4: Vec<F> = Self::shift_in(&by2, 4, self.decays[3]);
        let sums: Vec<F> = Self::shift_in(&by4, 8, self.decays[7]);
        proof {
            assert(sums@ == prefix_sums(self.filter, chunk@));
        }
        let mut output: Vec<F> = Vec::new();
        let mut delay: F = zin;
        while output.len() < LANES
            invariant
                functional::<F>(),
                self.wf(),
                chunk.len() == LANES,
                sums.len() == LANES,
                sums@ == prefix_sums(self.filter, chunk@),
                output.len() <= LANES,
                output.len() == 0 ==> delay == zin,
                output.len() > 0 ==> delay == chunk_delays(self.filter, zin, chunk@)[output.len()
                    - 1],
                forall|j: int|
                    0 <= j < output.len() ==> output[j] == chunk_outputs(
                        self.filter,
                        zin,
                        chunk@,
                    )[j],
            decreases LANES - output.len(),
        {
            let j: usize = output.len();
            output.push(fused(self.filter.b0, chunk[j], delay));
            delay = fused(self.decays[j], zin, sums[j]);
        }
        proof {
            assert(output@ =~= chunk_outputs(self.filter, zin, chunk@));
        }
        (output, delay)
    }

    /// Filters `signal` chunk by chunk, appending the outputs to `filtered`,
    /// and returns the delay at the end.
    pub fn run(&self, zin: F, signal: &[F], filtered: &mut Vec<F>) -> (end: F)
        requires
            functional::<F>(),
            self.wf(),
        ensures
            end == chunked_run(self.filter, zin, signal@).0,
            final(filtered)@ == old(filtered)@ + chunked_run(self.filter, zin, signal@).1,
    {
        let ghost before = filtered@;
        let ghost whole = chunked_run(self.filter, zin, signal@);
        let ghost step = first_order_machine(self.filter);
        let mut delay: F = zin;
        let mut taken: usize = 0;
        proof {
            assert(signal@.skip(0) =~= signal@);
        }
        while signal.len() - taken >= LANES
            invariant
                functional::<F>(),
                self.wf(),
                taken <= signal.len(),
                whole.0 == chunked_run(self.filter, delay, signal@.skip(taken as int)).0,
                before + whole.1 == filtered@ + chunked_run(
                    self.filter,
                    delay,
                    signal@.skip(taken as int),
                ).1,
            decreases signal.len() - taken,
        {
            let ghost rest = signal@.skip(taken as int);
            let mut chunk: Vec<F> = Vec::new();
            while chunk.len() < LANES
                invariant
                    chunk.len() <= LANES,
                    taken + LANES <= signal.len(),
                    forall|j: int| 0 <= j < chunk.len() ==> chunk[j] == signal[taken + j],
                decreases LANES - chunk.len(),
            {
                chunk.push(signal[taken + chunk.len()]);
            }
            proof {
                assert(chunk@ =~= rest.take(LANES as int));
                assert(rest.skip(LANES as int) =~= signal@.skip(taken + LANES));
            }
            let (mut passed, leaving) = self.scan(&chunk, delay);
            let ghost sent = filtered@;
            let ghost passed_seq = passed@;
            filtered.append(&mut passed);
            proof {
                let later = chunked_run(self.filter, leaving, signal@.skip(taken + LANES)).1;
                assert(sent + (passed_seq + later) =~= (sent + passed_seq) + later);
            }
            delay = leaving;
            taken = taken + LANES;
        }
        let ghost entering = delay;
        let ghost rest = signal@.skip(taken as int);
        let ghost sent = filtered@;
        let ghost cut = taken as int;
        proof {
            assert(sent =~= sent + outputs(step, entering, rest).take(0));
        }
        while taken < signal.len()
            invariant
                functional::<F>(),
                step == first_order_machine(self.filter),
                0 <= cut <= taken <= signal.len(),
                rest == signal@.skip(cut),
                delay == state_after(step, entering, rest, (taken - cut) as nat),
                filtered@ == sent + outputs(step, entering, rest).take(taken - cut),
            decreases signal.len() - taken,
        {
            let sample: F = signal[taken];
            let passed: F = self.filter.step(&mut delay, sample);
            proof {
                assert(sample == rest[taken - cut]);
            }
            filtered.push(passed);
            taken = taken + 1;
            proof {
                assert(filtered@ =~= sent + outputs(step, entering, rest).take(taken - cut));
            }
        }
        proof {
            assert(outputs(step, entering, rest).take(taken - cut) =~= outputs(
                step,
                entering,
                rest,
            ));
        }
        delay
    }
}

/// The samples in opposite order.
fn reversed<F: Copy>(samples: &[F]) -> (turned: Vec<F>)
    ensures
        turned@ == samples@.reverse(),
{
    let mut turned: Vec<F> = Vec::new();
    while turned.len() < samples.len()
        invariant
            turned.len() <= samples.len(),
            forall|k: int| 0 <= k < turned.len() ==> turned[k] == samples@.reverse()[k],
        decreases samples.len() - turned.len(),
    {
        turned.push(samples[samples.len() - 1 - turned.len()]);
    }
    proof {
        assert(turned@ =~= samples@.reverse());
    }
    turned
}

/// Zero-phase filter for a single section of first order, sixteen samples at a
/// time. The continuations and what is left over of the signal run sample by
/// sample.
pub fn sosfiltfilt_order1_scan_f32<F: SosFloat>(
    section: &Sos<F>,
    input_array: &[F],
) -> (output: Vec<F>)
    requires
        functional_sos::<F>(),
        solvable(*section),
        input_array.len() > FIRST_ORDER_EDGE,
        input_array.len() + FIRST_ORDER_EDGE <= usize::MAX,
    ensures
        output@ == scan_filtered(*section, input_array@),
        output.len() == input_array.len(),
{
    proof {
        lemma_functional_sos::<F>();
    }
    let edge: usize = FIRST_ORDER_EDGE;
    let n: usize = input_array.len();
    let zi0_base: F = settled_delay_of(section);
    let filter: FirstOrder<F> = FirstOrder::from_sos(section);
    let scan: ScanFilter<F> = ScanFilter::new(filter);

    let ghost step = first_order_machine(filter);
    let ghost extended = odd_extension(input_array@, edge as nat);

    let left_end: F = input_array[0];
    let right_end: F = input_array[n - 1];

    let x0: F = minus(times(two(), left_end), input_array[edge]);
    let mut zi0: F = times(zi0_base, x0);
    let ghost start = zi0;
    let mut taken: usize = 0;
    while taken < edge
        invariant
            functional::<F>(),
            step == first_order_machine(filter),
            n == input_array.len(),
            edge < n,
            taken <= edge,
            left_end == input_array[0],
            extended == odd_extension(input_array@, edge as nat),
            zi0 == state_after(step, start, extended, taken as nat),
        decreases edge - taken,
    {
        let sample: F = minus(times(two(), left_end), input_array[edge - taken]);
        let _ignored: F = filter.step(&mut zi0, sample);
        taken = taken + 1;
    }

    let mut body: Vec<F> = Vec::new();
    let mut zi0: F = scan.run(zi0, input_array, &mut body);
    let ghost between = zi0;
    let ghost right = extended.skip(edge + n);
    let ghost ended = outputs(step, between, right);
    proof {
        assert(body@ =~= chunked_run(
            filter,
            state_after(step, start, extended, edge as nat),
            input_array@,
        ).1);
    }

    let mut tail: Vec<F> = Vec::new();
    while tail.len() < edge
        invariant
            functional::<F>(),
            step == first_order_machine(filter),
            n == input_array.len(),
            edge < n,
            tail.len() <= edge,
            right_end == input_array[n - 1],
            extended == odd_extension(input_array@, edge as nat),
            right == extended.skip(edge + n),
            ended == outputs(step, between, right),
            zi0 == state_after(step, between, right, tail.len() as nat),
            forall|k: int| 0 <= k < tail.len() ==> tail[k] == ended[k],
        decreases edge - tail.len(),
    {
        let index: usize = tail.len() + 1;
        let sample: F = minus(times(two(), right_end), input_array[n - 1 - index]);
        proof {
            assert(sample == right[tail.len() as int]);
        }
        let passed: F = filter.step(&mut zi0, sample);
        tail.push(passed);
    }
    proof {
        assert(tail@ =~= ended);
    }

    let y0: F = tail[edge - 1];
    let mut zi0: F = times(zi0_base, y0);
    let ghost backward_start = zi0;
    let mut index: usize = edge;
    while index > 0
        invariant
            functional::<F>(),
            step == first_order_machine(filter),
            index <= edge,
            tail.len() == edge,
            zi0 == state_after(step, backward_start, tail@.reverse(), (edge - index) as nat),
        decreases index,
    {
        index = index - 1;
        let sample: F = tail[index];
        proof {
            assert(sample == tail@.reverse()[edge - 1 - index]);
        }
        let _ignored: F = filter.step(&mut zi0, sample);
    }

    let turned: Vec<F> = reversed(body.as_slice());
    let mut filtered: Vec<F> = Vec::new();
    let _end: F = scan.run(zi0, turned.as_slice(), &mut filtered);
    proof {
        assert(filtered@ =~= chunked_run(filter, zi0, turned@).1);
        lemma_chunked_run_len(
            filter,
            state_after(step, start, extended, edge as nat),
            input_array@,
        );
        lemma_chunked_run_len(filter, zi0, turned@);
    }
    reversed(filtered.as_slice())
}

} // verus!
