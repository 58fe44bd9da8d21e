//! Math kernels for the per-sample loops.
use vstd::prelude::*;

use crate::ieee::{assemble_power_of_two, parts_of, power_of_two_bits, split_exponent};
use crate::sample::{
    at_most, below, exact, from_bits, from_i32, functional, functional_single, fused,
    lemma_functional_single, minus, one, over, plus, rank, rounded, times, to_bits, to_i32, two,
    zero, Sample, Single,
};

verus! {

/// Lanes of the sum.
pub const SUM_LANES: usize = 16;

/// The sum of the samples, taken one after the other from zero.
pub open spec fn serial_sum<T: Sample>(values: Seq<T>) -> T
    decreases values.len(),
{
    if values.len() == 0 {
        zero()
    } else {
        plus(serial_sum(values.drop_last()), values.last())
    }
}

/// What each lane holds after `rounds` rounds: every sixteenth sample, summed
/// one after the other from zero.
pub open spec fn lane_sums<T: Sample>(values: Seq<T>, rounds: nat) -> Seq<T>
    decreases rounds,
{
    if rounds == 0 {
        Seq::new(SUM_LANES as nat, |lane: int| zero())
    } else {
        let before = lane_sums(values, (rounds - 1) as nat);
        Seq::new(
            SUM_LANES as nat,
            |lane: int| plus(before[lane], values[(rounds - 1) * SUM_LANES + lane]),
        )
    }
}

/// What [`sum_algebraic`] answers: the lanes summed, and what is left over
/// summed, together.
pub open spec fn laned_sum<T: Sample>(values: Seq<T>) -> T {
    let rounds = values.len() / SUM_LANES as nat;
    plus(
        serial_sum(lane_sums(values, rounds)),
        serial_sum(values.skip((rounds * SUM_LANES) as int)),
    )
}

/// Sums samples one after the other.
pub fn sum_in_order<T: Sample>(values: &[T]) -> (sum: T)
    requires
        functional::<T>(),
    ensures
        sum == serial_sum(values@),
{
    let mut sum: T = zero();
    let mut index: usize = 0;
    while index < values.len()
        invariant
            functional::<T>(),
            index <= values.len(),
            sum == serial_sum(values@.take(index as int)),
        decreases values.len() - index,
    {
        proof {
            assert(values@.take(index + 1).drop_last() =~= values@.take(index as int));
        }
        sum = plus(sum, values[index]);
        index = index + 1;
    }
    proof {
        assert(values@.take(index as int) =~= values@);
    }
    sum
}

/// Sums samples sixteen lanes wide.
pub fn sum_algebraic<T: Sample>(values: &[T]) -> (sum: T)
    requires
        functional::<T>(),
    ensures
        sum == laned_sum(values@),
{
    let mut lanes: Vec<T> = Vec::new();
    while lanes.len() < SUM_LANES
        invariant
            functional::<T>(),
            lanes.len() <= SUM_LANES,
            forall|j: int| 0 <= j < lanes.len() ==> lanes[j] == zero::<T>(),
        decreases SUM_LANES - lanes.len(),
    {
        lanes.push(zero());
    }
    proof {
        assert(lanes@ =~= lane_sums(values@, 0));
    }
    let mut round: usize = 0;
    let rounds: usize = values.len() / SUM_LANES;
    while round < rounds
        invariant
            functional::<T>(),
            rounds == values.len() / SUM_LANES,
            round <= rounds,
            lanes@ == lane_sums(values@, round as nat),
        decreases rounds - round,
    {
        let ghost before = lanes@;
        let mut lane: usize = 0;
        while lane < SUM_LANES
            invariant
                functional::<T>(),
                rounds == values.len() / SUM_LANES,
                round < rounds,
                lane <= SUM_LANES,
                lanes.len() == SUM_LANES,
                before.len() == SUM_LANES,
                forall|j: int|
                    0 <= j < lane ==> lanes[j] == plus(before[j], values[round * SUM_LANES + j]),
                forall|j: int| lane <= j < SUM_LANES ==> lanes[j] == before[j],
            decreases SUM_LANES - lane,
        {
            let sum: T = plus(lanes[lane], values[round * SUM_LANES + lane]);
            lanes[lane] = sum;
            lane = lane + 1;
        }
        round = round + 1;
        proof {
            assert(lanes@ =~= lane_sums(values@, round as nat));
        }
    }
    let tail: &[T] = vstd::slice::slice_subrange(values, rounds * SUM_LANES, values.len());
    proof {
        assert(tail@ =~= values@.skip(rounds * SUM_LANES));
    }
    plus(sum_in_order(lanes.as_slice()), sum_in_order(tail))
}

/// The sum of the numbers that the samples stand for.
pub open spec fn real_sum<T>(value: spec_fn(T) -> real, values: Seq<T>) -> real
    decreases values.len(),
{
    if values.len() == 0 {
        0real
    } else {
        real_sum(value, values.drop_last()) + value(values.last())
    }
}

pub proof fn lemma_serial_sum_exact<T: Sample>(value: spec_fn(T) -> real, values: Seq<T>)
    requires
        exact(value),
    ensures
        value(serial_sum(values)) == real_sum(value, values),
    decreases values.len(),
{
    if values.len() > 0 {
        lemma_serial_sum_exact(value, values.drop_last());
    }
}

pub proof fn lemma_real_sum_splits<T>(value: spec_fn(T) -> real, values: Seq<T>, cut: int)
    requires
        0 <= cut <= values.len(),
    ensures
        real_sum(value, values) == real_sum(value, values.take(cut)) + real_sum(
            value,
            values.skip(cut),
        ),
    decreases values.len() - cut,
{
    if cut == values.len() {
        assert(values.take(cut) =~= values);
    } else {
        let shorter = values.drop_last();
        lemma_real_sum_splits(value, shorter, cut);
        assert(shorter.take(cut) =~= values.take(cut));
        assert(values.skip(cut).drop_last() =~= shorter.skip(cut));
    }
}

proof fn lemma_real_sum_of_sums<T: Sample>(
    value: spec_fn(T) -> real,
    sums: Seq<T>,
    first: Seq<T>,
    second: Seq<T>,
)
    requires
        exact(value),
        sums.len() == first.len(),
        sums.len() == second.len(),
        forall|j: int| 0 <= j < sums.len() ==> #[trigger] sums[j] == plus(first[j], second[j]),
    ensures
        real_sum(value, sums) == real_sum(value, first) + real_sum(value, second),
    decreases sums.len(),
{
    if sums.len() > 0 {
        let last = sums.len() - 1;
        assert(sums[last] == plus(first[last], second[last]));
        assert forall|j: int| 0 <= j < last implies #[trigger] sums.drop_last()[j] == plus(
            first.drop_last()[j],
            second.drop_last()[j],
        ) by {
            assert(sums.drop_last()[j] == sums[j]);
        }
        lemma_real_sum_of_sums(value, sums.drop_last(), first.drop_last(), second.drop_last());
    }
}

proof fn lemma_real_sum_of_zeros<T: Sample>(value: spec_fn(T) -> real, zeros: Seq<T>)
    requires
        exact(value),
        forall|j: int| 0 <= j < zeros.len() ==> #[trigger] zeros[j] == zero::<T>(),
    ensures
        real_sum(value, zeros) == 0real,
    decreases zeros.len(),
{
    if zeros.len() > 0 {
        assert(zeros[zeros.len() - 1] == zero::<T>());
        assert forall|j: int| 0 <= j < zeros.len() - 1 implies #[trigger] zeros.drop_last()[j]
            == zero::<T>() by {
            assert(zeros.drop_last()[j] == zeros[j]);
        }
        lemma_real_sum_of_zeros(value, zeros.drop_last());
    }
}

proof fn lemma_lane_sums_exact<T: Sample>(
    value: spec_fn(T) -> real,
    values: Seq<T>,
    rounds: nat,
)
    requires
        exact(value),
        rounds * SUM_LANES <= values.len(),
    ensures
        real_sum(value, lane_sums(values, rounds)) == real_sum(
            value,
            values.take((rounds * SUM_LANES) as int),
        ),
    decreases rounds,
{
    if rounds == 0 {
        lemma_real_sum_of_zeros(value, lane_sums(values, 0));
        assert(values.take(0).len() == 0);
    } else {
        let fewer = (rounds - 1) as nat;
        lemma_lane_sums_exact(value, values, fewer);
        let start = fewer * SUM_LANES;
        let taken = values.take((rounds * SUM_LANES) as int);
        let chunk = taken.skip(start as int);
        let before = lane_sums(values, fewer);
        let sums = lane_sums(values, rounds);
        assert(before.len() == SUM_LANES);
        assert forall|j: int| 0 <= j < SUM_LANES implies #[trigger] sums[j] == plus(
            before[j],
            chunk[j],
        ) by {
            assert(chunk[j] == values[start + j]);
        }
        lemma_real_sum_of_sums(value, sums, before, chunk);
        lemma_real_sum_splits(value, taken, start as int);
        assert(taken.take(start as int) =~= values.take(start as int));
    }
}

/// Rounding aside, the lanes change nothing: the sum is the sum.
pub proof fn law_sum_algebraic_is_the_sum<T: Sample>(value: spec_fn(T) -> real, values: Seq<T>)
    requires
        exact(value),
    ensures
        value(laned_sum(values)) == real_sum(value, values),
        value(laned_sum(values)) == value(serial_sum(values)),
{
    let rounds = values.len() / SUM_LANES as nat;
    let cut = (rounds * SUM_LANES) as int;
    lemma_lane_sums_exact(value, values, rounds);
    lemma_serial_sum_exact(value, lane_sums(values, rounds));
    lemma_serial_sum_exact(value, values.skip(cut));
    lemma_serial_sum_exact(value, values);
    lemma_real_sum_splits(value, values, cut);
}

/// The magnitude of an integer.
pub open spec fn magnitude(number: int) -> int {
    if number < 0 {
        -number
    } else {
        number
    }
}

/// All samples stand for integers.
pub open spec fn all_whole<T>(whole: spec_fn(T) -> Option<int>, values: Seq<T>) -> bool {
    forall|k: int| 0 <= k < values.len() ==> whole(#[trigger] values[k]) is Some
}

/// The sum of the integers that the samples stand for.
pub open spec fn whole_sum<T>(whole: spec_fn(T) -> Option<int>, values: Seq<T>) -> int
    decreases values.len(),
{
    if values.len() == 0 {
        0
    } else {
        whole_sum(whole, values.drop_last()) + whole(values.last())->0
    }
}

/// The sum of the magnitudes of the integers that the samples stand for.
pub open spec fn whole_weight<T>(whole: spec_fn(T) -> Option<int>, values: Seq<T>) -> int
    decreases values.len(),
{
    if values.len() == 0 {
        0
    } else {
        whole_weight(whole, values.drop_last()) + magnitude(whole(values.last())->0)
    }
}

/// `whole` says which samples stand for integers, and sums of those are exact as
/// long as the magnitudes together do not exceed `limit`. Machine numbers with 24
/// significant bits are so up to 2 to the power 24.
pub open spec fn adds_whole<T: Sample>(whole: spec_fn(T) -> Option<int>, limit: int) -> bool {
    &&& whole(zero::<T>()) == Some(0int)
    &&& forall|a: T, b: T|
        whole(a) is Some && whole(b) is Some && magnitude(whole(a)->0) + magnitude(whole(b)->0)
            <= limit ==> #[trigger] whole(plus(a, b)) == Some(whole(a)->0 + whole(b)->0)
}

proof fn lemma_weight_bounds<T>(whole: spec_fn(T) -> Option<int>, values: Seq<T>)
    ensures
        magnitude(whole_sum(whole, values)) <= whole_weight(whole, values),
        0 <= whole_weight(whole, values),
        forall|k: int|
            0 <= k < values.len() ==> magnitude(whole(#[trigger] values[k])->0) <= whole_weight(
                whole,
                values,
            ),
    decreases values.len(),
{
    if values.len() > 0 {
        let front = values.drop_last();
        lemma_weight_bounds(whole, front);
        assert forall|k: int| 0 <= k < values.len() implies magnitude(
            whole(#[trigger] values[k])->0,
        ) <= whole_weight(whole, values) by {
            if k < front.len() {
                assert(front[k] == values[k]);
            }
        }
    }
}

proof fn lemma_whole_splits<T>(whole: spec_fn(T) -> Option<int>, values: Seq<T>, cut: int)
    requires
        0 <= cut <= values.len(),
    ensures
        whole_sum(whole, values) == whole_sum(whole, values.take(cut)) + whole_sum(
            whole,
            values.skip(cut),
        ),
        whole_weight(whole, values) == whole_weight(whole, values.take(cut)) + whole_weight(
            whole,
            values.skip(cut),
        ),
    decreases values.len() - cut,
{
    if cut == values.len() {
        assert(values.take(cut) =~= values);
    } else {
        let shorter = values.drop_last();
        lemma_whole_splits(whole, shorter, cut);
        assert(shorter.take(cut) =~= values.take(cut));
        assert(values.skip(cut).drop_last() =~= shorter.skip(cut));
    }
}

proof fn lemma_serial_sum_whole<T: Sample>(
    whole: spec_fn(T) -> Option<int>,
    limit: int,
    values: Seq<T>,
)
    requires
        adds_whole(whole, limit),
        all_whole(whole, values),
        whole_weight(whole, values) <= limit,
    ensures
        whole(serial_sum(values)) == Some(whole_sum(whole, values)),
    decreases values.len(),
{
    if values.len() > 0 {
        let front = values.drop_last();
        assert forall|k: int| 0 <= k < front.len() implies whole(#[trigger] front[k]) is Some by {
            assert(front[k] == values[k]);
        }
        assert(whole(values[values.len() - 1]) is Some);
        lemma_weight_bounds(whole, front);
        lemma_serial_sum_whole(whole, limit, front);
    }
}

proof fn lemma_whole_sums<T: Sample>(
    whole: spec_fn(T) -> Option<int>,
    limit: int,
    sums: Seq<T>,
    first: Seq<T>,
    second: Seq<T>,
)
    requires
        adds_whole(whole, limit),
        all_whole(whole, first),
        all_whole(whole, second),
        sums.len() == first.len(),
        sums.len() == second.len(),
        whole_weight(whole, first) + whole_weight(whole, second) <= limit,
        forall|j: int| 0 <= j < sums.len() ==> #[trigger] sums[j] == plus(first[j], second[j]),
    ensures
        all_whole(whole, sums),
        whole_sum(whole, sums) == whole_sum(whole, first) + whole_sum(whole, second),
        whole_weight(whole, sums) <= whole_weight(whole, first) + whole_weight(whole, second),
    decreases sums.len(),
{
    if sums.len() > 0 {
        let last = sums.len() - 1;
        let front = sums.drop_last();
        let first_front = first.drop_last();
        let second_front = second.drop_last();
        assert(sums[last] == plus(first[last], second[last]));
        assert(whole(first[last]) is Some && whole(second[last]) is Some);
        assert forall|j: int| 0 <= j < last implies #[trigger] front[j] == plus(
            first_front[j],
            second_front[j],
        ) by {
            assert(front[j] == sums[j]);
        }
        assert forall|j: int| 0 <= j < last implies whole(#[trigger] first_front[j]) is Some by {
            assert(first_front[j] == first[j]);
        }
        assert forall|j: int| 0 <= j < last implies whole(#[trigger] second_front[j]) is Some by {
            assert(second_front[j] == second[j]);
        }
        lemma_weight_bounds(whole, first_front);
        lemma_weight_bounds(whole, second_front);
        lemma_whole_sums(whole, limit, front, first_front, second_front);
        assert(whole(sums[last]) == Some(whole(first[last])->0 + whole(second[last])->0));
        assert forall|j: int| 0 <= j < sums.len() implies whole(#[trigger] sums[j]) is Some by {
            if j < last {
                assert(front[j] == sums[j]);
            }
        }
    }
}

proof fn lemma_zeros_whole<T: Sample>(whole: spec_fn(T) -> Option<int>, limit: int, zeros: Seq<T>)
    requires
        adds_whole(whole, limit),
        forall|j: int| 0 <= j < zeros.len() ==> #[trigger] zeros[j] == zero::<T>(),
    ensures
        all_whole(whole, zeros),
        whole_sum(whole, zeros) == 0,
        whole_weight(whole, zeros) == 0,
    decreases zeros.len(),
{
    if zeros.len() > 0 {
        assert(zeros[zeros.len() - 1] == zero::<T>());
        assert forall|j: int| 0 <= j < zeros.len() - 1 implies #[trigger] zeros.drop_last()[j]
            == zero::<T>() by {
            assert(zeros.drop_last()[j] == zeros[j]);
        }
        lemma_zeros_whole(whole, limit, zeros.drop_last());
    }
}

proof fn lemma_lane_sums_whole<T: Sample>(
    whole: spec_fn(T) -> Option<int>,
    limit: int,
    values: Seq<T>,
    rounds: nat,
)
    requires
        adds_whole(whole, limit),
        all_whole(whole, values),
        whole_weight(whole, values) <= limit,
        rounds * SUM_LANES <= values.len(),
    ensures
        ({
            let lanes = lane_sums(values, rounds);
            let taken = values.take((rounds * SUM_LANES) as int);
            &&& all_whole(whole, lanes)
            &&& whole_sum(whole, lanes) == whole_sum(whole, taken)
            &&& whole_weight(whole, lanes) <= whole_weight(whole, taken)
        }),
    decreases rounds,
{
    if rounds == 0 {
        lemma_zeros_whole(whole, limit, lane_sums(values, 0));
        assert(values.take(0).len() == 0);
    } else {
        let fewer = (rounds - 1) as nat;
        lemma_lane_sums_whole(whole, limit, values, fewer);
        let start = fewer * SUM_LANES;
        let taken = values.take((rounds * SUM_LANES) as int);
        let chunk = taken.skip(start as int);
        let before = lane_sums(values, fewer);
        let sums = lane_sums(values, rounds);
        assert(before.len() == SUM_LANES);
        assert forall|j: int| 0 <= j < SUM_LANES implies #[trigger] sums[j] == plus(
            before[j],
            chunk[j],
        ) by {
            assert(chunk[j] == values[start + j]);
        }
        assert forall|j: int| 0 <= j < chunk.len() implies whole(#[trigger] chunk[j]) is Some by {
            assert(chunk[j] == values[start + j]);
        }
        lemma_whole_splits(whole, values, (rounds * SUM_LANES) as int);
        lemma_weight_bounds(whole, values.skip((rounds * SUM_LANES) as int));
        lemma_whole_splits(whole, taken, start as int);
        assert(taken.take(start as int) =~= values.take(start as int));
        lemma_whole_sums(whole, limit, sums, before, chunk);
    }
}

/// Where the samples stand for integers and sums of integers are exact up to a
/// limit, the sum is exactly their sum as long as their magnitudes together stay
/// within it: each counts once, in a lane or behind them.
pub proof fn law_small_integers_sum_exactly<T: Sample>(
    whole: spec_fn(T) -> Option<int>,
    limit: int,
    values: Seq<T>,
)
    requires
        adds_whole(whole, limit),
        all_whole(whole, values),
        whole_weight(whole, values) <= limit,
    ensures
        whole(laned_sum(values)) == Some(whole_sum(whole, values)),
{
    let rounds = values.len() / SUM_LANES as nat;
    let cut = (rounds * SUM_LANES) as int;
    let lanes = lane_sums(values, rounds);
    let tail = values.skip(cut);
    lemma_lane_sums_whole(whole, limit, values, rounds);
    lemma_whole_splits(whole, values, cut);
    lemma_weight_bounds(whole, values.take(cut));
    lemma_weight_bounds(whole, tail);
    lemma_weight_bounds(whole, lanes);
    assert forall|k: int| 0 <= k < tail.len() implies whole(#[trigger] tail[k]) is Some by {
        assert(tail[k] == values[cut + k]);
    }
    lemma_serial_sum_whole(whole, limit, lanes);
    lemma_serial_sum_whole(whole, limit, tail);
}

/// Bit patterns of the constants below: `1/7!`, `1/6!`, `1/5!`, `1/4!`, `1/3!`
/// and `1/2!`, the logarithms `ln 2` and `log2 e`, and `1/9` to `1/3`.
pub const INV_5040: u32 = 0x3950_0D01;

pub const INV_720: u32 = 0x3AB6_0B61;

pub const INV_120: u32 = 0x3C08_8889;

pub const INV_24: u32 = 0x3D2A_AAAB;

pub const INV_6: u32 = 0x3E2A_AAAB;

pub const HALF: u32 = 0x3F00_0000;

pub const LN_2: u32 = 0x3F31_7218;

pub const LOG2_E: u32 = 0x3FB8_AA3B;

pub const INV_9: u32 = 0x3DE3_8E39;

pub const INV_7: u32 = 0x3E12_4925;

pub const INV_5: u32 = 0x3E4C_CCCD;

pub const INV_3: u32 = 0x3EAA_AAAB;

/// Bit pattern of -126, the least exponent of a normal number.
pub const MIN_EXPONENT: u32 = 0xC2FC_0000;

/// Bit pattern of 127, the greatest exponent of a number.
pub const MAX_EXPONENT: u32 = 0x42FE_0000;

/// Bit pattern of 128: 2 to this power is greater than every number.
pub const TOP_EXPONENT: u32 = 0x4300_0000;

/// The polynomial with the given coefficients, highest first, at `x`.
pub open spec fn horner<T: Sample>(coefficients: Seq<T>, x: T) -> T
    decreases coefficients.len(),
{
    if coefficients.len() <= 1 {
        coefficients[0]
    } else {
        fused(x, horner(coefficients.drop_last(), x), coefficients.last())
    }
}

/// The exponential series to its seventh power.
pub open spec fn exponential_series<T: Single>() -> Seq<T> {
    seq![
        from_bits(INV_5040),
        from_bits(INV_720),
        from_bits(INV_120),
        from_bits(INV_24),
        from_bits(INV_6),
        from_bits(HALF),
        one(),
        one(),
    ]
}

/// The integer that is taken out of an exponent: the nearest one, except that
/// below 128 it is at most 127, the greatest that a power of two can have.
pub open spec fn spec_whole_part<T: Single>(y: T) -> T {
    if to_i32(rounded(y)) == 128 && below(y, from_bits(TOP_EXPONENT)) {
        from_bits(MAX_EXPONENT)
    } else {
        rounded(y)
    }
}

/// The integer that is taken out of an exponent.
#[verifier::when_used_as_spec(spec_whole_part)]
pub fn whole_part<T: Single>(y: T) -> (whole: T)
    requires
        functional_single::<T>(),
    ensures
        whole == spec_whole_part(y),
{
    proof {
        lemma_functional_single::<T>();
    }
    let nearest: T = rounded(y);
    if to_i32(nearest) == 128 && below(y, from_bits(TOP_EXPONENT)) {
        from_bits(MAX_EXPONENT)
    } else {
        nearest
    }
}

/// 2 to the power `y`: the exponential series over what is left of `y` without its
/// integer, times the power of two that the integer gives.
pub open spec fn spec_exp2_fast<T: Single>(y: T) -> T {
    let whole = whole_part(y);
    let z = times(minus(y, whole), from_bits(LN_2));
    times(
        horner(exponential_series(), z),
        from_bits(power_of_two_bits(to_i32(whole))),
    )
}

/// 2 to the power `y`, for `y` within the exponents of normal numbers: from -126
/// up to, but not including, 128.
#[verifier::when_used_as_spec(spec_exp2_fast)]
pub fn exp2_fast<T: Single>(y: T) -> (power: T)
    requires
        functional_single::<T>(),
    ensures
        power == spec_exp2_fast(y),
{
    proof {
        lemma_functional_single::<T>();
        reveal_with_fuel(horner, 9);
        let c = exponential_series::<T>();
        assert(c.drop_last() =~= c.take(7));
        assert(c.take(7).drop_last() =~= c.take(6));
        assert(c.take(6).drop_last() =~= c.take(5));
        assert(c.take(5).drop_last() =~= c.take(4));
        assert(c.take(4).drop_last() =~= c.take(3));
        assert(c.take(3).drop_last() =~= c.take(2));
        assert(c.take(2).drop_last() =~= c.take(1));
    }
    let n: T = whole_part(y);
    let f: T = minus(y, n);
    let z: T = times(f, from_bits(LN_2));
    let p: T = fused(z, from_bits(INV_5040), from_bits(INV_720));
    let p: T = fused(z, p, from_bits(INV_120));
    let p: T = fused(z, p, from_bits(INV_24));
    let p: T = fused(z, p, from_bits(INV_6));
    let p: T = fused(z, p, from_bits(HALF));
    let p: T = fused(z, p, one());
    let p: T = fused(z, p, one());
    let scale: T = from_bits(assemble_power_of_two(to_i32(n)));
    times(p, scale)
}

/// Odd-power series of `2 * atanh`, without its leading factor.
pub open spec fn logarithm_series<T: Single>() -> Seq<T> {
    seq![from_bits(INV_9), from_bits(INV_7), from_bits(INV_5), from_bits(INV_3), one()]
}

/// The natural logarithm of a mantissa near 1.
pub open spec fn mantissa_logarithm<T: Single>(m: T) -> T {
    let s = over(minus(m, one()), plus(m, one()));
    times(times(two(), s), horner(logarithm_series(), times(s, s)))
}

/// The exponent of a power, raised to that of the least normal number where the
/// nearest integer falls below it.
pub open spec fn spec_raised_exponent<T: Single>(y: T) -> T {
    if to_i32(rounded(y)) < -126 {
        from_bits(MIN_EXPONENT)
    } else {
        y
    }
}

/// The exponent of a power, raised to that of the least normal number where the
/// nearest integer falls below it.
#[verifier::when_used_as_spec(spec_raised_exponent)]
pub fn raised_exponent<T: Single>(y: T) -> (raised: T)
    requires
        functional_single::<T>(),
    ensures
        raised == spec_raised_exponent(y),
{
    if to_i32(rounded(y)) < -126 {
        from_bits(MIN_EXPONENT)
    } else {
        y
    }
}

/// `c * log2(x)`, with the exponent of `x` and the logarithm of its mantissa
/// multiplied by `c` apart.
pub open spec fn scaled_logarithm<T: Single>(x: T, c: T) -> T {
    let (exponent, mantissa) = parts_of(to_bits(x));
    let log_mantissa = times(mantissa_logarithm(from_bits::<T>(mantissa)), from_bits(LOG2_E));
    fused(c, from_i32(exponent), times(c, log_mantissa))
}

/// `x` to the power `c`: 2 to the power `c * log2(x)`. That exponent is raised
/// where it is below those of normal numbers, so that a power of zero is tiny and
/// positive; otherwise it stays as it is.
pub open spec fn spec_powf_fast_nonneg<T: Single>(x: T, c: T) -> T {
    exp2_fast(raised_exponent(scaled_logarithm(x, c)))
}

/// `x` to the power `c`, for finite `x` not below zero. Where `x` is zero or
/// subnormal and `c` is positive, the power is tiny and positive.
#[verifier::when_used_as_spec(spec_powf_fast_nonneg)]
pub fn powf_fast_nonneg<T: Single>(x: T, c: T) -> (power: T)
    requires
        functional_single::<T>(),
    ensures
        power == spec_powf_fast_nonneg(x, c),
{
    proof {
        lemma_functional_single::<T>();
        reveal_with_fuel(horner, 6);
        let series = logarithm_series::<T>();
        assert(series.drop_last() =~= series.take(4));
        assert(series.take(4).drop_last() =~= series.take(3));
        assert(series.take(3).drop_last() =~= series.take(2));
        assert(series.take(2).drop_last() =~= series.take(1));
    }
    let (e, mantissa) = split_exponent(to_bits(x));
    let m: T = from_bits(mantissa);
    let s: T = over(minus(m, one()), plus(m, one()));
    let s2: T = times(s, s);
    let t: T = fused(s2, from_bits(INV_9), from_bits(INV_7));
    let t: T = fused(s2, t, from_bits(INV_5));
    let t: T = fused(s2, t, from_bits(INV_3));
    let ln_m: T = times(times(two(), s), fused(s2, t, one()));
    let y: T = fused(c, from_i32(e), times(c, times(ln_m, from_bits(LOG2_E))));
    exp2_fast(raised_exponent(y))
}

/// `x` kept between `low` and `high`.
pub open spec fn spec_clamped<T: Sample>(x: T, low: T, high: T) -> T {
    if below(x, low) {
        low
    } else if below(high, x) {
        high
    } else {
        x
    }
}

/// `x` kept between `low` and `high`.
#[verifier::when_used_as_spec(spec_clamped)]
pub fn clamped<T: Sample>(x: T, low: T, high: T) -> (kept: T)
    requires
        functional::<T>(),
    ensures
        kept == spec_clamped(x, low, high),
{
    if below(x, low) {
        low
    } else if below(high, x) {
        high
    } else {
        x
    }
}

/// What is kept lies between the limits.
pub proof fn law_clamped_lies_between<T: Sample>(x: T, low: T, high: T)
    requires
        rank(x) is Some,
        at_most(low, high),
    ensures
        at_most(low, clamped(x, low, high)),
        at_most(clamped(x, low, high), high),
        at_most(low, x) && at_most(x, high) ==> clamped(x, low, high) == x,
{
}

/// What is no number passes as it is.
pub proof fn law_clamping_keeps_what_is_no_number<T: Sample>(x: T, low: T, high: T)
    requires
        rank(x) is None,
    ensures
        clamped(x, low, high) == x,
{
}

/// A power whose exponent is below those of normal numbers is that of the least
/// of them, so a power of zero is no zero; every other exponent goes through as
/// it is.
pub proof fn law_only_small_powers_are_raised<T: Single>(x: T, c: T)
    ensures
        to_i32(rounded(scaled_logarithm(x, c))) < -126 ==> powf_fast_nonneg(x, c) == exp2_fast(
            from_bits::<T>(MIN_EXPONENT),
        ),
        to_i32(rounded(scaled_logarithm(x, c))) >= -126 ==> powf_fast_nonneg(x, c) == exp2_fast(
            scaled_logarithm(x, c),
        ),
{
}

/// `e` to the power `z`: 2 to the power `z * log2(e)`, that exponent kept within
/// those of normal numbers.
pub open spec fn spec_exp_fast<T: Single>(z: T) -> T {
    exp2_fast(
        clamped(
            times(z, from_bits(LOG2_E)),
            from_bits(MIN_EXPONENT),
            from_bits(MAX_EXPONENT),
        ),
    )
}

/// `e` to the power `z`, for finite `z`.
#[verifier::when_used_as_spec(spec_exp_fast)]
pub fn exp_fast<T: Single>(z: T) -> (power: T)
    requires
        functional_single::<T>(),
    ensures
        power == spec_exp_fast(z),
{
    proof {
        lemma_functional_single::<T>();
    }
    exp2_fast(
        clamped(
            times(z, from_bits(LOG2_E)),
            from_bits(MIN_EXPONENT),
            from_bits(MAX_EXPONENT),
        ),
    )
}

} // verus!
