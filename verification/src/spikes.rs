//! Repair of demodulation spikes.
use vstd::prelude::*;

use crate::ieee::NEG_INFINITY32;
use crate::sample::{
    below, from_bits, functional, functional_single, lemma_functional_single, ordered, rank,
    Sample, Single,
};

verus! {

/// The greatest sample so far, where a sample takes over only if it is above
/// all before it.
pub open spec fn running_max<T: Sample>(values: Seq<T>) -> T
    decreases values.len(),
{
    if values.len() <= 1 {
        values[0]
    } else {
        let before = running_max(values.drop_last());
        if below(before, values.last()) {
            values.last()
        } else {
            before
        }
    }
}

/// Among samples that are all numbers, the greatest is one of them, and none is
/// above it.
pub proof fn law_running_max_is_greatest<T: Sample>(values: Seq<T>)
    requires
        values.len() > 0,
        forall|k: int| 0 <= k < values.len() ==> rank(#[trigger] values[k]) is Some,
    ensures
        values.contains(running_max(values)),
        forall|k: int| 0 <= k < values.len() ==> !below(running_max(values), #[trigger] values[k]),
    decreases values.len(),
{
    if values.len() == 1 {
        assert(values[0] == running_max(values));
    } else {
        let shorter = values.drop_last();
        assert forall|k: int| 0 <= k < shorter.len() implies rank(#[trigger] shorter[k]) is Some by {
            assert(shorter[k] == values[k]);
        }
        law_running_max_is_greatest(shorter);
        let before = running_max(shorter);
        let at = choose|k: int| 0 <= k < shorter.len() && shorter[k] == before;
        assert(values[at] == before);
        assert(values[values.len() - 1] == values.last());
        assert(rank(values.last()) is Some);
        assert forall|k: int| 0 <= k < values.len() implies !below(
            running_max(values),
            #[trigger] values[k],
        ) by {
            if k < shorter.len() {
                assert(shorter[k] == values[k]);
            }
        }
    }
}

/// The greatest sample of a slice.
pub fn slice_max<T: Sample>(values: &[T]) -> (max: T)
    requires
        functional::<T>(),
        values.len() > 0,
    ensures
        max == running_max(values@),
{
    let mut max: T = values[0];
    let mut index: usize = 1;
    while index < values.len()
        invariant
            functional::<T>(),
            1 <= index <= values.len(),
            max == running_max(values@.take(index as int)),
        decreases values.len() - index,
    {
        proof {
            assert(values@.take(index + 1).drop_last() =~= values@.take(index as int));
        }
        let value: T = values[index];
        if below(max, value) {
            max = value;
        }
        index = index + 1;
    }
    proof {
        assert(values@.take(index as int) =~= values@);
    }
    max
}

/// First sample of the stretch around place `i`.
pub open spec fn stretch_start(i: int, replace_start: int) -> int {
    if i <= replace_start {
        0
    } else {
        i - replace_start
    }
}

/// End of the stretch around place `i` in a signal of `len` samples.
pub open spec fn stretch_end(i: int, replace_end: int, len: int) -> int {
    if i + replace_end <= len - 1 {
        i + replace_end
    } else {
        len - 1
    }
}

/// The signal with the stretch from `start` to `end` taken from `patch`, if
/// that lowers its maximum.
pub open spec fn patched<T: Sample>(
    signal: Seq<T>,
    patch: Seq<T>,
    start: int,
    end: int,
) -> Seq<T> {
    if below(running_max(patch.subrange(start, end)), running_max(signal.subrange(start, end))) {
        Seq::new(
            signal.len(),
            |k: int|
                if start <= k < end {
                    patch[k]
                } else {
                    signal[k]
                },
        )
    } else {
        signal
    }
}

/// The signal after the stretches around the spikes among its first `count`
/// samples have been offered to the patch, one after the other. Spikes are
/// found in the signal as it came.
pub open spec fn despiked<T: Sample>(
    demod: Seq<T>,
    demod_diffed: Seq<T>,
    max_value: T,
    replace_start: int,
    replace_end: int,
    count: nat,
) -> Seq<T>
    decreases count,
{
    if count == 0 {
        demod
    } else {
        let i = count - 1;
        let before = despiked(
            demod,
            demod_diffed,
            max_value,
            replace_start,
            replace_end,
            i as nat,
        );
        if below(max_value, demod[i]) {
            patched(
                before,
                demod_diffed,
                stretch_start(i, replace_start),
                stretch_end(i, replace_end, demod_diffed.len() as int),
            )
        } else {
            before
        }
    }
}

/// There is a stretch around each spike, and it lies within both signals.
pub open spec fn stretches_fit<T: Sample>(
    demod: Seq<T>,
    demod_diffed: Seq<T>,
    max_value: T,
    replace_start: int,
    replace_end: int,
) -> bool {
    forall|i: int|
        0 <= i < demod.len() && below(max_value, #[trigger] demod[i]) ==> {
            &&& i + replace_end <= usize::MAX
            &&& stretch_start(i, replace_start) < stretch_end(
                i,
                replace_end,
                demod_diffed.len() as int,
            ) <= demod.len()
        }
}

/// Samples above `max_value` are spikes. The stretch around each is replaced by
/// the second signal, where that lowers its maximum.
pub fn replace_spikes<T: Sample>(
    demod: &mut Vec<T>,
    demod_diffed: &[T],
    max_value: T,
    replace_start: usize,
    replace_end: usize,
)
    requires
        functional::<T>(),
        stretches_fit(
            old(demod)@,
            demod_diffed@,
            max_value,
            replace_start as int,
            replace_end as int,
        ),
    ensures
        final(demod)@ == despiked(
            old(demod)@,
            demod_diffed@,
            max_value,
            replace_start as int,
            replace_end as int,
            old(demod).len() as nat,
        ),
        final(demod).len() == old(demod).len(),
{
    let ghost before = demod@;
    let mut to_fix: Vec<bool> = Vec::new();
    while to_fix.len() < demod.len()
        invariant
            functional::<T>(),
            demod@ == before,
            to_fix.len() <= demod.len(),
            forall|k: int| 0 <= k < to_fix.len() ==> to_fix[k] == below(max_value, before[k]),
        decreases demod.len() - to_fix.len(),
    {
        to_fix.push(below(max_value, demod[to_fix.len()]));
    }
    let mut i: usize = 0;
    while i < to_fix.len()
        invariant
            functional::<T>(),
            stretches_fit(
                before,
                demod_diffed@,
                max_value,
                replace_start as int,
                replace_end as int,
            ),
            i <= to_fix.len(),
            to_fix.len() == before.len(),
            demod.len() == before.len(),
            forall|k: int| 0 <= k < to_fix.len() ==> to_fix[k] == below(max_value, before[k]),
            demod@ == despiked(
                before,
                demod_diffed@,
                max_value,
                replace_start as int,
                replace_end as int,
                i as nat,
            ),
        decreases to_fix.len() - i,
    {
        if to_fix[i] {
            proof {
                assert(below(max_value, before[i as int]));
            }
            let start: usize = i.saturating_sub(replace_start);
            let end: usize = if i + replace_end <= demod_diffed.len() - 1 {
                i + replace_end
            } else {
                demod_diffed.len() - 1
            };
            let patch: &[T] = vstd::slice::slice_subrange(demod_diffed, start, end);
            let current: &[T] = vstd::slice::slice_subrange(demod.as_slice(), start, end);
            let lowers: bool = below(slice_max(patch), slice_max(current));
            if lowers {
                let ghost unpatched = demod@;
                let mut k: usize = start;
                while k < end
                    invariant
                        start <= k <= end,
                        end <= demod.len(),
                        end <= demod_diffed.len(),
                        demod.len() == unpatched.len(),
                        forall|j: int| start <= j < k ==> demod[j] == demod_diffed[j],
                        forall|j: int|
                            0 <= j < demod.len() && !(start <= j < k) ==> demod[j] == unpatched[j],
                    decreases end - k,
                {
                    demod[k] = demod_diffed[k];
                    k = k + 1;
                }
                proof {
                    assert(demod@ =~= patched(
                        unpatched,
                        demod_diffed@,
                        start as int,
                        end as int,
                    ));
                }
            }
        }
        i = i + 1;
    }
}

/// A repaired signal has at each place the sample that came or the one of the
/// second signal, and only samples within the stretch of some spike change.
pub proof fn law_despiking_is_local<T: Sample>(
    demod: Seq<T>,
    demod_diffed: Seq<T>,
    max_value: T,
    replace_start: int,
    replace_end: int,
    count: nat,
    k: int,
)
    requires
        0 <= k < demod.len(),
        count <= demod.len(),
    ensures
        ({
            let repaired = despiked(
                demod,
                demod_diffed,
                max_value,
                replace_start,
                replace_end,
                count,
            );
            &&& repaired.len() == demod.len()
            &&& repaired[k] == demod[k] || repaired[k] == demod_diffed[k]
            &&& (forall|i: int|
                0 <= i < count && below(max_value, #[trigger] demod[i]) ==> !(stretch_start(
                    i,
                    replace_start,
                ) <= k < stretch_end(i, replace_end, demod_diffed.len() as int)))
                ==> repaired[k] == demod[k]
        }),
    decreases count,
{
    if count > 0 {
        law_despiking_is_local(
            demod,
            demod_diffed,
            max_value,
            replace_start,
            replace_end,
            (count - 1) as nat,
            k,
        );
    }
}

proof fn lemma_running_max_bounds<T: Sample>(value: spec_fn(T) -> real, values: Seq<T>)
    requires
        ordered(value),
        values.len() > 0,
    ensures
        values.contains(running_max(values)),
        forall|k: int|
            0 <= k < values.len() ==> value(#[trigger] values[k]) <= value(running_max(values)),
    decreases values.len(),
{
    if values.len() == 1 {
        assert(values[0] == running_max(values));
    } else {
        let shorter = values.drop_last();
        lemma_running_max_bounds(value, shorter);
        let before = running_max(shorter);
        let at = choose|k: int| 0 <= k < shorter.len() && shorter[k] == before;
        assert(values[at] == before);
        assert(values[values.len() - 1] == values.last());
        assert forall|k: int| 0 <= k < values.len() implies value(#[trigger] values[k]) <= value(
            running_max(values),
        ) by {
            if k < shorter.len() {
                assert(shorter[k] == values[k]);
            }
        }
    }
}

/// A lone spike, around which the second signal is lower than it, is replaced
/// with its surroundings, and nothing else is.
pub proof fn law_lone_spike_is_replaced<T: Sample>(
    value: spec_fn(T) -> real,
    demod: Seq<T>,
    demod_diffed: Seq<T>,
    max_value: T,
    replace_start: int,
    replace_end: int,
    spike: int,
    count: nat,
)
    requires
        ordered(value),
        demod_diffed.len() == demod.len(),
        replace_start >= 0,
        replace_end > 0,
        0 <= spike < demod.len() - 1,
        forall|i: int|
            0 <= i < demod.len() ==> (value(max_value) < value(#[trigger] demod[i]) <==> i
                == spike),
        forall|j: int|
            0 <= j < demod.len() && spike - replace_start <= j < spike + replace_end ==> value(
                #[trigger] demod_diffed[j],
            ) < value(demod[spike]),
        count <= demod.len(),
    ensures
        ({
            let repaired = despiked(
                demod,
                demod_diffed,
                max_value,
                replace_start,
                replace_end,
                count,
            );
            &&& repaired.len() == demod.len()
            &&& forall|k: int|
                0 <= k < demod.len() ==> #[trigger] repaired[k] == if spike < count && spike
                    - replace_start <= k < spike + replace_end && k < demod.len() - 1 {
                    demod_diffed[k]
                } else {
                    demod[k]
                }
        }),
    decreases count,
{
    if count > 0 {
        law_lone_spike_is_replaced(
            value,
            demod,
            demod_diffed,
            max_value,
            replace_start,
            replace_end,
            spike,
            (count - 1) as nat,
        );
        assert(below(max_value, demod[count - 1]) <==> count - 1 == spike);
        if count - 1 == spike {
            let before = despiked(
                demod,
                demod_diffed,
                max_value,
                replace_start,
                replace_end,
                (count - 1) as nat,
            );
            let start = stretch_start(spike, replace_start);
            let end = stretch_end(spike, replace_end, demod_diffed.len() as int);
            let patch = demod_diffed.subrange(start, end);
            let current = before.subrange(start, end);
            lemma_running_max_bounds(value, patch);
            lemma_running_max_bounds(value, current);
            assert(current[spike - start] == demod[spike]);
            let at = choose|j: int| 0 <= j < patch.len() && patch[j] == running_max(patch);
            assert(patch[at] == demod_diffed[at + start]);
            assert(below(running_max(patch), running_max(current)));
        }
    }
}

/// The greatest of `start` and the samples, where only a sample that is above
/// takes over.
pub open spec fn greatest_from<T: Sample>(start: T, values: Seq<T>) -> T
    decreases values.len(),
{
    if values.len() == 0 {
        start
    } else {
        let before = greatest_from(start, values.drop_last());
        if below(before, values.last()) {
            values.last()
        } else {
            before
        }
    }
}

/// What [`max_excluding_edges`] answers.
pub open spec fn inner_max<T: Single>(values: Seq<T>, edge: nat) -> T {
    if values.len() <= edge * 2 {
        from_bits(NEG_INFINITY32)
    } else {
        greatest_from(
            from_bits(NEG_INFINITY32),
            values.subrange(edge as int, values.len() - edge),
        )
    }
}

/// The greatest sample that is at least `edge` places from both ends, or
/// negative infinity if there is none.
pub fn max_excluding_edges<T: Single>(values: &[T], edge: usize) -> (max: T)
    requires
        functional_single::<T>(),
        edge * 2 <= usize::MAX,
    ensures
        max == inner_max(values@, edge as nat),
{
    proof {
        lemma_functional_single::<T>();
    }
    let floor: T = from_bits(NEG_INFINITY32);
    if values.len() <= edge * 2 {
        return floor;
    }
    let inner: &[T] = vstd::slice::slice_subrange(values, edge, values.len() - edge);
    let mut max: T = floor;
    let mut index: usize = 0;
    while index < inner.len()
        invariant
            functional::<T>(),
            index <= inner.len(),
            max == greatest_from(floor, inner@.take(index as int)),
        decreases inner.len() - index,
    {
        proof {
            assert(inner@.take(index + 1).drop_last() =~= inner@.take(index as int));
        }
        let value: T = inner[index];
        if below(max, value) {
            max = value;
        }
        index = index + 1;
    }
    proof {
        assert(inner@.take(index as int) =~= inner@);
    }
    max
}

} // verus!
