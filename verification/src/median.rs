//! Medians, and the median filter that rejects impulsive noise.
use vstd::prelude::*;

use crate::sample::{below, functional, rank, Sample};

verus! {

/// How many of the values satisfy the predicate.
pub open spec fn tally<T>(values: Seq<T>, pred: spec_fn(T) -> bool) -> nat
    decreases values.len(),
{
    if values.len() == 0 {
        0
    } else {
        tally(values.drop_last(), pred) + (if pred(values.last()) {
            1nat
        } else {
            0nat
        })
    }
}

/// All values are numbers.
pub open spec fn all_numbers<T: Sample>(values: Seq<T>) -> bool {
    forall|k: int| 0 <= k < values.len() ==> rank(#[trigger] values[k]) is Some
}

/// `middle` is what stands at place `len / 2` when the values are put in order:
/// one of them, with at most `len / 2` of them below it and more than `len / 2`
/// not above it.
pub open spec fn is_median<T: Sample>(middle: T, values: Seq<T>) -> bool {
    &&& values.contains(middle)
    &&& tally(values, |x: T| below(x, middle)) <= values.len() / 2
    &&& tally(values, |x: T| !below(middle, x)) > values.len() / 2
}

/// Where a value goes among ordered ones: behind those it is not below.
pub open spec fn place_among<T: Sample>(sorted: Seq<T>, value: T) -> int
    decreases sorted.len(),
{
    if sorted.len() > 0 && below(value, sorted.last()) {
        place_among(sorted.drop_last(), value)
    } else {
        sorted.len() as int
    }
}

/// The values put in order, equal ones as they came.
pub open spec fn in_order<T: Sample>(values: Seq<T>) -> Seq<T>
    decreases values.len(),
{
    if values.len() == 0 {
        values
    } else {
        let before = in_order(values.drop_last());
        before.insert(place_among(before, values.last()), values.last())
    }
}

/// What stands in the middle of the values put in order.
pub open spec fn middle_of<T: Sample>(values: Seq<T>) -> T {
    in_order(values)[values.len() as int / 2]
}

proof fn lemma_tally_insert<T>(values: Seq<T>, at: int, value: T, pred: spec_fn(T) -> bool)
    requires
        0 <= at <= values.len(),
    ensures
        tally(values.insert(at, value), pred) == tally(values, pred) + (if pred(value) {
            1nat
        } else {
            0nat
        }),
    decreases values.len(),
{
    let longer = values.insert(at, value);
    if at == values.len() {
        assert(longer.drop_last() =~= values);
    } else {
        lemma_tally_insert(values.drop_last(), at, value, pred);
        assert(longer.drop_last() =~= values.drop_last().insert(at, value));
        assert(longer.last() == values.last());
    }
}

proof fn lemma_tally_monotone<T>(
    values: Seq<T>,
    narrow: spec_fn(T) -> bool,
    wide: spec_fn(T) -> bool,
)
    requires
        forall|k: int| 0 <= k < values.len() && narrow(#[trigger] values[k]) ==> wide(values[k]),
    ensures
        tally(values, narrow) <= tally(values, wide),
    decreases values.len(),
{
    if values.len() > 0 {
        let shorter = values.drop_last();
        assert forall|k: int| 0 <= k < shorter.len() && narrow(#[trigger] shorter[k]) implies wide(
            shorter[k],
        ) by {
            assert(shorter[k] == values[k]);
        }
        assert(values[values.len() - 1] == values.last());
        lemma_tally_monotone(shorter, narrow, wide);
    }
}

proof fn lemma_tally_disjoint<T>(
    values: Seq<T>,
    one: spec_fn(T) -> bool,
    other: spec_fn(T) -> bool,
)
    requires
        forall|k: int| 0 <= k < values.len() ==> !(one(#[trigger] values[k]) && other(values[k])),
    ensures
        tally(values, one) + tally(values, other) <= values.len(),
    decreases values.len(),
{
    if values.len() > 0 {
        let shorter = values.drop_last();
        assert forall|k: int| 0 <= k < shorter.len() implies !(one(#[trigger] shorter[k])
            && other(shorter[k])) by {
            assert(shorter[k] == values[k]);
        }
        assert(values[values.len() - 1] == values.last());
        lemma_tally_disjoint(shorter, one, other);
    }
}

/// At least the places from `start` to `end`, at most those and no others.
proof fn lemma_tally_of_places<T>(
    values: Seq<T>,
    pred: spec_fn(T) -> bool,
    start: int,
    end: int,
)
    requires
        0 <= start <= end <= values.len(),
    ensures
        (forall|k: int| start <= k < end ==> pred(#[trigger] values[k])) ==> tally(values, pred)
            >= end - start,
        (forall|k: int|
            0 <= k < values.len() && !(start <= k < end) ==> !pred(#[trigger] values[k]))
            ==> tally(values, pred) <= end - start,
    decreases values.len(),
{
    if values.len() > 0 {
        let shorter = values.drop_last();
        let last = values.len() - 1;
        let short_end = if end == values.len() {
            last
        } else {
            end
        };
        let short_start = if start == values.len() {
            last
        } else {
            start
        };
        lemma_tally_of_places(shorter, pred, short_start, short_end);
        assert(values[last] == values.last());
        if forall|k: int| start <= k < end ==> pred(#[trigger] values[k]) {
            assert forall|k: int| short_start <= k < short_end implies pred(
                #[trigger] shorter[k],
            ) by {
                assert(shorter[k] == values[k]);
            }
        }
        if forall|k: int|
            0 <= k < values.len() && !(start <= k < end) ==> !pred(#[trigger] values[k]) {
            assert forall|k: int|
                0 <= k < shorter.len() && !(short_start <= k < short_end) implies !pred(
                #[trigger] shorter[k],
            ) by {
                assert(shorter[k] == values[k]);
            }
        }
    }
}

/// A median is a median of any values with the same tallies.
proof fn lemma_median_of_sorted<T: Sample>(values: Seq<T>, sorted: Seq<T>)
    requires
        sorted.len() == values.len(),
        sorted.len() > 0,
        all_numbers(sorted),
        forall|i: int, j: int|
            0 <= i <= j < sorted.len() ==> !below(#[trigger] sorted[j], #[trigger] sorted[i]),
        forall|pred: spec_fn(T) -> bool| #[trigger] tally(sorted, pred) == tally(values, pred),
        values.contains(sorted[sorted.len() as int / 2]),
    ensures
        is_median(sorted[sorted.len() as int / 2], values),
{
    let half = sorted.len() as int / 2;
    let middle = sorted[half];
    let under = |x: T| below(x, middle);
    let up_to = |x: T| !below(middle, x);
    lemma_tally_of_places(sorted, under, 0, half);
    lemma_tally_of_places(sorted, up_to, 0, half + 1);
    assert(tally(sorted, under) == tally(values, under));
    assert(tally(sorted, up_to) == tally(values, up_to));
    assert forall|k: int| 0 <= k < sorted.len() && !(0 <= k < half) implies !under(
        #[trigger] sorted[k],
    ) by {
        assert(!below(sorted[k], sorted[half]));
    }
    assert forall|k: int| 0 <= k < half + 1 implies up_to(#[trigger] sorted[k]) by {
        assert(!below(sorted[half], sorted[k]));
    }
}

/// Two medians of the same values are equal as numbers.
pub proof fn law_median_is_unique<T: Sample>(values: Seq<T>, one: T, other: T)
    requires
        all_numbers(values),
        is_median(one, values),
        is_median(other, values),
    ensures
        rank(one) == rank(other),
{
    lemma_medians_in_order(values, one, other);
    lemma_medians_in_order(values, other, one);
    let at = choose|k: int| 0 <= k < values.len() && values[k] == one;
    let other_at = choose|k: int| 0 <= k < values.len() && values[k] == other;
    assert(rank(values[at]) is Some);
    assert(rank(values[other_at]) is Some);
}

proof fn lemma_medians_in_order<T: Sample>(values: Seq<T>, one: T, other: T)
    requires
        all_numbers(values),
        is_median(one, values),
        is_median(other, values),
    ensures
        !below(one, other),
{
    if below(one, other) {
        let up_to = |x: T| !below(one, x);
        let under = |x: T| below(x, other);
        assert forall|k: int| 0 <= k < values.len() && up_to(#[trigger] values[k]) implies under(
            values[k],
        ) by {
            assert(rank(values[k]) is Some);
        }
        lemma_tally_monotone(values, up_to, under);
    }
}

/// A value that more than half of the samples have is the median: impulses that
/// are in the minority leave no trace.
pub proof fn law_median_follows_majority<T: Sample>(values: Seq<T>, middle: T, place: i64)
    requires
        all_numbers(values),
        is_median(middle, values),
        2 * tally(values, |x: T| rank(x) == Some(place)) > values.len(),
    ensures
        rank(middle) == Some(place),
{
    let having = |x: T| rank(x) == Some(place);
    let under = |x: T| below(x, middle);
    let up_to = |x: T| !below(middle, x);
    let at = choose|k: int| 0 <= k < values.len() && values[k] == middle;
    assert(rank(values[at]) is Some);
    if rank(middle)->0 > place {
        assert forall|k: int| 0 <= k < values.len() && having(#[trigger] values[k]) implies under(
            values[k],
        ) by {}
        lemma_tally_monotone(values, having, under);
    } else if rank(middle)->0 < place {
        assert forall|k: int| 0 <= k < values.len() implies !(having(#[trigger] values[k])
            && up_to(values[k])) by {}
        lemma_tally_disjoint(values, having, up_to);
    }
}

/// In a stretch of `2 * half + 1` samples that only rise, or only fall, the
/// sample in the middle is the median: a step is kept where it is.
pub proof fn law_median_keeps_a_step<T: Sample>(values: Seq<T>, half: int)
    requires
        half >= 0,
        values.len() == 2 * half + 1,
        all_numbers(values),
        (forall|i: int, j: int|
            0 <= i <= j < values.len() ==> !below(#[trigger] values[j], #[trigger] values[i])) || (
        forall|i: int, j: int|
            0 <= i <= j < values.len() ==> !below(#[trigger] values[i], #[trigger] values[j])),
    ensures
        is_median(values[half], values),
{
    let middle = values[half];
    let under = |x: T| below(x, middle);
    let up_to = |x: T| !below(middle, x);
    if forall|i: int, j: int|
        0 <= i <= j < values.len() ==> !below(#[trigger] values[j], #[trigger] values[i]) {
        lemma_tally_of_places(values, under, 0, half);
        lemma_tally_of_places(values, up_to, 0, half + 1);
        assert forall|k: int| 0 <= k < values.len() && !(0 <= k < half) implies !under(
            #[trigger] values[k],
        ) by {
            assert(!below(values[k], values[half]));
        }
        assert forall|k: int| 0 <= k < half + 1 implies up_to(#[trigger] values[k]) by {
            assert(!below(values[half], values[k]));
        }
    } else {
        let end = values.len() as int;
        lemma_tally_of_places(values, under, half + 1, end);
        lemma_tally_of_places(values, up_to, half, end);
        assert forall|k: int| 0 <= k < values.len() && !(half + 1 <= k < end) implies !under(
            #[trigger] values[k],
        ) by {
            assert(!below(values[k], values[half]));
        }
        assert forall|k: int| half <= k < end implies up_to(#[trigger] values[k]) by {
            assert(!below(values[half], values[k]));
        }
    }
}

proof fn lemma_place_among<T: Sample>(sorted: Seq<T>, value: T)
    ensures
        0 <= place_among(sorted, value) <= sorted.len(),
        forall|k: int|
            place_among(sorted, value) <= k < sorted.len() ==> below(value, #[trigger] sorted[k]),
        place_among(sorted, value) > 0 ==> !below(value, sorted[place_among(sorted, value) - 1]),
    decreases sorted.len(),
{
    if sorted.len() > 0 && below(value, sorted.last()) {
        let shorter = sorted.drop_last();
        lemma_place_among(shorter, value);
        assert forall|k: int| place_among(sorted, value) <= k < sorted.len() implies below(
            value,
            #[trigger] sorted[k],
        ) by {
            if k < shorter.len() {
                assert(sorted[k] == shorter[k]);
            }
        }
    }
}

/// Putting numbers in order keeps them and orders them.
pub proof fn law_in_order_orders<T: Sample>(values: Seq<T>)
    requires
        all_numbers(values),
    ensures
        in_order(values).len() == values.len(),
        all_numbers(in_order(values)),
        forall|k: int|
            0 <= k < values.len() ==> values.contains(#[trigger] in_order(values)[k]),
        forall|i: int, j: int|
            0 <= i <= j < values.len() ==> !below(
                #[trigger] in_order(values)[j],
                #[trigger] in_order(values)[i],
            ),
        forall|pred: spec_fn(T) -> bool| #[trigger]
            tally(in_order(values), pred) == tally(values, pred),
    decreases values.len(),
{
    if values.len() > 0 {
        let shorter = values.drop_last();
        let value = values.last();
        assert forall|k: int| 0 <= k < shorter.len() implies rank(#[trigger] shorter[k]) is Some by {
            assert(shorter[k] == values[k]);
        }
        assert(rank(values[values.len() - 1]) is Some);
        law_in_order_orders(shorter);
        let before = in_order(shorter);
        lemma_place_among(before, value);
        let at = place_among(before, value);
        let sorted = in_order(values);
        assert forall|pred: spec_fn(T) -> bool| #[trigger]
            tally(sorted, pred) == tally(values, pred) by {
            lemma_tally_insert(before, at, value, pred);
            assert(tally(before, pred) == tally(shorter, pred));
        }
        assert forall|k: int| 0 <= k < sorted.len() implies rank(#[trigger] sorted[k]) is Some
            && values.contains(sorted[k]) by {
            if k == at {
                assert(values[values.len() - 1] == value);
            } else {
                let from = if k < at {
                    k
                } else {
                    k - 1
                };
                assert(sorted[k] == before[from]);
                assert(shorter.contains(before[from]));
                let i = choose|i: int| 0 <= i < shorter.len() && shorter[i] == before[from];
                assert(values[i] == before[from]);
            }
        }
        assert forall|i: int, j: int| 0 <= i <= j < sorted.len() implies !below(
            #[trigger] sorted[j],
            #[trigger] sorted[i],
        ) by {
            let from_i = if i < at {
                i
            } else {
                i - 1
            };
            let from_j = if j < at {
                j
            } else {
                j - 1
            };
            if i != at && j != at {
                assert(sorted[i] == before[from_i]);
                assert(sorted[j] == before[from_j]);
            } else if i == at && j > at {
                assert(sorted[j] == before[from_j]);
            } else if j == at && i < at {
                assert(sorted[i] == before[i]);
                assert(!below(before[at - 1], before[i]));
                assert(rank(before[at - 1]) is Some);
                assert(rank(before[i]) is Some);
            }
        }
    }
}

/// What stands in the middle of numbers put in order is their median.
pub proof fn law_middle_is_median<T: Sample>(values: Seq<T>)
    requires
        values.len() > 0,
        all_numbers(values),
    ensures
        is_median(middle_of(values), values),
{
    law_in_order_orders(values);
    lemma_median_of_sorted(values, in_order(values));
}

/// All values are numbers.
pub fn are_numbers<T: Sample>(values: &[T]) -> (numbers: bool)
    requires
        functional::<T>(),
    ensures
        numbers == all_numbers(values@),
{
    let mut index: usize = 0;
    while index < values.len()
        invariant
            functional::<T>(),
            index <= values.len(),
            forall|k: int| 0 <= k < index ==> rank(#[trigger] values[k]) is Some,
        decreases values.len() - index,
    {
        if rank(values[index]).is_none() {
            proof {
                assert(rank(values@[index as int]) is None);
            }
            return false;
        }
        index = index + 1;
    }
    true
}

/// The value in the middle of the values put in order.
pub fn median_of<T: Sample>(values: &[T]) -> (middle: T)
    requires
        functional::<T>(),
        values.len() > 0,
        all_numbers(values@),
    ensures
        middle == middle_of(values@),
        is_median(middle, values@),
{
    let mut sorted: Vec<T> = Vec::new();
    let mut index: usize = 0;
    while index < values.len()
        invariant
            functional::<T>(),
            index <= values.len(),
            sorted.len() == index,
            sorted@ == in_order(values@.take(index as int)),
        decreases values.len() - index,
    {
        let value: T = values[index];
        let mut at: usize = sorted.len();
        proof {
            assert(sorted@.take(at as int) =~= sorted@);
        }
        while at > 0 && below(value, sorted[at - 1])
            invariant
                functional::<T>(),
                at <= sorted.len(),
                place_among(sorted@, value) == place_among(sorted@.take(at as int), value),
            decreases at,
        {
            at = at - 1;
            proof {
                assert(sorted@.take(at + 1).drop_last() =~= sorted@.take(at as int));
            }
        }
        sorted.insert(at, value);
        proof {
            assert(values@.take(index + 1).drop_last() =~= values@.take(index as int));
        }
        index = index + 1;
    }
    proof {
        assert(values@.take(index as int) =~= values@);
        law_middle_is_median(values@);
    }
    sorted[sorted.len() / 2]
}

/// First place of the window around place `k`.
pub open spec fn window_start(k: int, half: int) -> int {
    if k <= half {
        0
    } else {
        k - half
    }
}

/// End of the window around place `k` in a signal of `len` samples.
pub open spec fn window_end(k: int, half: int, len: int) -> int {
    if k + half + 1 <= len {
        k + half + 1
    } else {
        len
    }
}

/// The samples at most `half` places from place `k`.
pub open spec fn window_around<T>(input: Seq<T>, k: int, half: int) -> Seq<T> {
    input.subrange(window_start(k, half), window_end(k, half, input.len() as int))
}

/// What [`median_filter`] answers.
pub open spec fn medians<T: Sample>(input: Seq<T>, win: int) -> Seq<T> {
    if win <= 1 || input.len() < 2 {
        input
    } else {
        Seq::new(input.len(), |k: int| middle_of(window_around(input, k, win / 2)))
    }
}

/// Replaces each sample by the median of the window centred on it; a window of
/// at most one sample changes nothing.
pub fn median_filter<T: Sample>(input: &[T], win: usize) -> (output: Vec<T>)
    requires
        functional::<T>(),
        win <= 1 || input.len() < 2 || all_numbers(input@),
        input.len() + win / 2 <= usize::MAX,
    ensures
        output.len() == input.len(),
        output@ == medians(input@, win as int),
        win > 1 && input.len() >= 2 ==> forall|k: int|
            0 <= k < input.len() ==> is_median(
                #[trigger] output[k],
                window_around(input@, k, win as int / 2),
            ),
{
    if win <= 1 || input.len() < 2 {
        return vstd::slice::slice_to_vec(input);
    }
    let half: usize = win / 2;
    let n: usize = input.len();
    let mut output: Vec<T> = Vec::new();
    while output.len() < n
        invariant
            functional::<T>(),
            all_numbers(input@),
            n == input.len(),
            n + half <= usize::MAX,
            half == win / 2,
            output.len() <= n,
            forall|k: int|
                0 <= k < output.len() ==> #[trigger] output[k] == middle_of(
                    window_around(input@, k, half as int),
                ),
            forall|k: int|
                0 <= k < output.len() ==> is_median(
                    #[trigger] output[k],
                    window_around(input@, k, half as int),
                ),
        decreases n - output.len(),
    {
        let k: usize = output.len();
        let lo: usize = k.saturating_sub(half);
        let hi: usize = if k + half + 1 <= n {
            k + half + 1
        } else {
            n
        };
        let window: &[T] = vstd::slice::slice_subrange(input, lo, hi);
        proof {
            assert forall|j: int| 0 <= j < window@.len() implies rank(#[trigger] window@[j]) is Some by {
                assert(window@[j] == input@[lo + j]);
            }
        }
        output.push(median_of(window));
    }
    proof {
        assert(output@ =~= medians(input@, win as int));
    }
    output
}

/// Each sample of the filtered signal is the median of the samples at most half a
/// window away, as far as the signal reaches; a window of at most one sample
/// changes nothing.
pub proof fn law_median_filter_reads_its_window<T: Sample>(input: Seq<T>, win: int, k: int)
    requires
        0 <= win,
        0 <= k < input.len(),
        all_numbers(input),
    ensures
        medians(input, win).len() == input.len(),
        win <= 1 ==> medians(input, win) == input,
        win > 1 ==> ({
            let lo = if k - win / 2 < 0 {
                0
            } else {
                k - win / 2
            };
            let hi = if k + win / 2 >= input.len() {
                input.len() as int
            } else {
                k + win / 2 + 1
            };
            is_median(medians(input, win)[k], input.subrange(lo, hi))
        }),
{
    if win > 1 {
        let around = window_around(input, k, win / 2);
        let lo = window_start(k, win / 2);
        assert forall|j: int| 0 <= j < around.len() implies rank(#[trigger] around[j]) is Some by {
            assert(around[j] == input[lo + j]);
        }
        law_middle_is_median(around);
        if input.len() < 2 {
            assert(around == input);
            assert(input == seq![input[0]]);
            assert(middle_of(input) == input[0]) by {
                reveal_with_fuel(in_order, 2);
                reveal_with_fuel(place_among, 2);
            }
        }
    }
}

} // verus!
