//! Runs of a state machine over a signal.
//!
//! A digital filter is a machine: it holds delay values, takes one sample at a
//! time and answers with one sample. The functions here say what such a
//! machine answers over a whole signal, and what zero-phase (forward, then
//! backward) filtering with it means.
use vstd::prelude::*;

use crate::sample::{minus, times, two, Sample};

verus! {

/// The state of the machine, started in `start`, after it has taken the first
/// `count` samples of `signal`.
pub open spec fn state_after<S, F>(
    step: spec_fn(S, F) -> (S, F),
    start: S,
    signal: Seq<F>,
    count: nat,
) -> S
    decreases count,
{
    if count == 0 {
        start
    } else {
        let last = (count - 1) as nat;
        step(state_after(step, start, signal, last), signal[last as int]).0
    }
}

/// What the machine, started in `start`, answers to each sample of `signal`.
pub open spec fn outputs<S, F>(
    step: spec_fn(S, F) -> (S, F),
    start: S,
    signal: Seq<F>,
) -> Seq<F> {
    Seq::new(
        signal.len(),
        |k: int| step(state_after(step, start, signal, k as nat), signal[k]).1,
    )
}

/// The signal continued by `edge` samples beyond both ends, each continuation
/// the signal itself turned by half a turn about its end point.
pub open spec fn odd_extension<F: Sample>(signal: Seq<F>, edge: nat) -> Seq<F> {
    let n = signal.len();
    Seq::new(
        n + 2 * edge,
        |i: int|
            if i < edge {
                minus(times(two::<F>(), signal[0]), signal[edge - i])
            } else if i < edge + n {
                signal[i - edge]
            } else {
                minus(times(two::<F>(), signal[n - 1]), signal[2 * n + edge - 2 - i])
            },
    )
}

/// Zero-phase filtering: the machine runs forward over the extended signal and
/// then backward over what it answered, each time started in the state that
/// `seeded` gives for the first sample it takes. The continuations are cut off
/// again at the end.
pub open spec fn zero_phase<S, F: Sample>(
    step: spec_fn(S, F) -> (S, F),
    seeded: spec_fn(F) -> S,
    signal: Seq<F>,
    edge: nat,
) -> Seq<F> {
    let extended = odd_extension(signal, edge);
    let forward = outputs(step, seeded(extended[0]), extended);
    let backward = outputs(step, seeded(forward.last()), forward.reverse());
    backward.reverse().subrange(edge as int, (edge + signal.len()) as int)
}

/// A run depends only on the samples it has taken.
pub proof fn lemma_state_after_prefix<S, F>(
    step: spec_fn(S, F) -> (S, F),
    start: S,
    one: Seq<F>,
    other: Seq<F>,
    count: nat,
)
    requires
        forall|k: int| 0 <= k < count ==> one[k] == other[k],
    ensures
        state_after(step, start, one, count) == state_after(step, start, other, count),
    decreases count,
{
    if count > 0 {
        lemma_state_after_prefix(step, start, one, other, (count - 1) as nat);
    }
}

/// Running over a signal in two parts is running over the whole.
pub proof fn lemma_state_after_split<S, F>(
    step: spec_fn(S, F) -> (S, F),
    start: S,
    signal: Seq<F>,
    cut: nat,
    count: nat,
)
    requires
        cut + count <= signal.len(),
    ensures
        state_after(
            step,
            state_after(step, start, signal, cut),
            signal.skip(cut as int),
            count,
        ) == state_after(step, start, signal, cut + count),
    decreases count,
{
    if count > 0 {
        lemma_state_after_split(step, start, signal, cut, (count - 1) as nat);
        assert(cut + (count - 1) as nat == (cut + count - 1) as nat);
        assert(signal.skip(cut as int)[count - 1] == signal[cut + count - 1]);
    }
}

} // verus!
