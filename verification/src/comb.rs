//! Comb filter across the lines of a chroma field.
use vstd::arithmetic::div_mod::lemma_fundamental_div_mod_converse;
use vstd::prelude::*;

use crate::sample::{exact, functional, minus, over, plus, times, two, zero, Sample};

verus! {

/// Lines before this one carry no picture and are left alone.
pub const FIRST_COMBED_LINE: usize = 16;

/// How many whole lines the field has.
pub open spec fn line_total(len: nat, line_len: nat) -> nat {
    len / line_len
}

/// Twice the sample less its neighbours on the lines ahead and behind, over four.
pub open spec fn spec_comb_sample<T: Sample>(current: T, ahead: T, behind: T) -> T {
    over(minus(minus(times(current, two()), ahead), behind), plus(two(), two()))
}

/// Twice the sample less its neighbours on the lines ahead and behind, over four.
#[verifier::when_used_as_spec(spec_comb_sample)]
pub fn comb_sample<T: Sample>(current: T, ahead: T, behind: T) -> (output: T)
    requires
        functional::<T>(),
    ensures
        output == spec_comb_sample(current, ahead, behind),
{
    over(minus(minus(times(current, two()), ahead), behind), plus(two(), two()))
}

/// The line is combed: it lies behind the lead-in and has two lines after it.
pub open spec fn is_combed(line: int, lines: nat) -> bool {
    FIRST_COMBED_LINE <= line < lines - 2
}

/// The field with each line replaced by what differs from the lines
/// `line_distance` ahead of it and behind it, all three taken from the field as
/// it was.
pub open spec fn combed<T: Sample>(data: Seq<T>, line_len: nat, line_distance: nat) -> Seq<T> {
    Seq::new(
        data.len(),
        |i: int|
            if is_combed(i / line_len as int, line_total(data.len(), line_len)) {
                comb_sample(
                    data[i],
                    data[i + line_distance * line_len],
                    data[i - line_distance * line_len],
                )
            } else {
                data[i]
            },
    )
}

/// The ring slot of line `line` holds that line.
pub open spec fn slot_holds<T>(
    ring: Seq<T>,
    data: Seq<T>,
    line_len: int,
    line_distance: int,
    line: int,
) -> bool {
    forall|offset: int|
        0 <= offset < line_len ==> #[trigger] ring[(line % line_distance) * line_len + offset]
            == data[line * line_len + offset]
}

proof fn lemma_line_of(i: int, line: int, line_len: int)
    requires
        line_len > 0,
        line * line_len <= i < line * line_len + line_len,
    ensures
        i / line_len == line,
{
    lemma_fundamental_div_mod_converse(i, line_len, line, i - line * line_len);
}

proof fn lemma_line_fits(line: int, lines: int, line_len: int, len: int)
    requires
        line_len > 0,
        lines == len / line_len,
        0 <= line < lines,
    ensures
        0 <= line * line_len,
        line * line_len + line_len <= len,
{
    assert(line * line_len + line_len <= len) by (nonlinear_arith)
        requires
            line_len > 0,
            lines == len / line_len,
            0 <= line < lines,
    ;
    assert(0 <= line * line_len) by (nonlinear_arith)
        requires
            line_len > 0,
            0 <= line,
    ;
}

/// Combs the field in place. The lines ahead are read before they are combed;
/// of those behind, the ring keeps the last `line_distance` as they were.
pub fn comb_c<T: Sample>(data: &mut Vec<T>, line_len: usize, line_distance: usize)
    requires
        functional::<T>(),
        line_len > 0,
        line_total(old(data)@.len(), line_len as nat) > 2 ==> line_distance * line_len
            <= usize::MAX,
        line_total(old(data)@.len(), line_len as nat) > 18 ==> 1 <= line_distance <= 2,
    ensures
        final(data)@ == combed(old(data)@, line_len as nat, line_distance as nat),
        final(data).len() == old(data).len(),
{
    let numlines: usize = data.len() / line_len;
    let ghost before = data@;
    let ghost wanted = combed(before, line_len as nat, line_distance as nat);
    if numlines <= 2 {
        proof {
            assert(data@ =~= wanted);
        }
        return;
    }
    let mut ring: Vec<T> = Vec::new();
    let ring_len: usize = line_distance * line_len;
    while ring.len() < ring_len
        invariant
            functional::<T>(),
            ring.len() <= ring_len,
        decreases ring_len - ring.len(),
    {
        ring.push(zero());
    }
    if numlines <= FIRST_COMBED_LINE + 2 {
        proof {
            assert(data@ =~= wanted);
        }
        return;
    }
    let mut line_num: usize = FIRST_COMBED_LINE;
    proof {
        lemma_line_fits(16, numlines as int, line_len as int, before.len() as int);
        assert forall|k: int| 0 <= k < 16 * line_len implies data@[k] == wanted[k] by {
            assert(k / line_len as int <= 15) by (nonlinear_arith)
                requires
                    0 <= k < 16 * line_len,
                    line_len > 0,
            ;
        }
    }
    while line_num < numlines - 2
        invariant
            functional::<T>(),
            line_len > 0,
            1 <= line_distance <= 2,
            ring.len() == line_distance * line_len,
            before.len() == data.len(),
            numlines == before.len() / line_len as nat,
            16 <= line_num <= numlines - 2,
            wanted == combed(before, line_len as nat, line_distance as nat),
            16 * line_len <= line_num * line_len <= data.len(),
            forall|k: int| 0 <= k < 16 * line_len ==> wanted[k] == before[k],
            forall|k: int| 0 <= k < line_num * line_len ==> data@[k] == wanted[k],
            forall|k: int| line_num * line_len <= k < data.len() ==> data@[k] == before[k],
            forall|line: int|
                16 <= line < line_num && line_num - line_distance <= line ==> #[trigger] slot_holds(
                    ring@,
                    before,
                    line_len as int,
                    line_distance as int,
                    line,
                ),
        decreases numlines - line_num,
    {
        proof {
            lemma_line_fits(line_num as int, numlines as int, line_len as int, before.len() as int);
            lemma_line_fits(
                line_num + line_distance,
                numlines as int,
                line_len as int,
                before.len() as int,
            );
            lemma_line_fits(
                line_num - line_distance,
                numlines as int,
                line_len as int,
                before.len() as int,
            );
            lemma_comb_offsets(line_num as int, line_len as int, line_distance as int);
        }
        let line_start: usize = line_num * line_len;
        let advanced_start: usize = (line_num + line_distance) * line_len;
        let slot: usize = (line_num % line_distance) * line_len;
        let delayed: usize = line_num - line_distance;
        let delayed_from_data: bool = delayed < FIRST_COMBED_LINE;
        let delayed_start: usize = delayed * line_len;
        let ghost ring_before = ring@;
        let mut offset: usize = 0;
        proof {
            if !delayed_from_data {
                assert(slot_holds(
                    ring@,
                    before,
                    line_len as int,
                    line_distance as int,
                    delayed as int,
                ));
            }
        }
        while offset < line_len
            invariant
                functional::<T>(),
                line_len > 0,
                1 <= line_distance <= 2,
                offset <= line_len,
                line_start == line_num * line_len,
                advanced_start == line_start + line_distance * line_len,
                delayed_start == line_start - line_distance * line_len,
                delayed_start == delayed * line_len,
                slot == (line_num % line_distance) * line_len,
                slot == (delayed as int % line_distance as int) * line_len,
                slot + line_len <= ring.len(),
                advanced_start + line_len <= data.len(),
                before.len() == data.len(),
                ring.len() == ring_before.len(),
                numlines == before.len() / line_len as nat,
                16 <= line_num < numlines - 2,
                delayed == line_num - line_distance,
                delayed_from_data == (delayed < 16),
                delayed_from_data ==> delayed_start + line_len <= 16 * line_len <= line_start,
                wanted == combed(before, line_len as nat, line_distance as nat),
                forall|k: int| 0 <= k < line_start + offset ==> data@[k] == wanted[k],
                forall|k: int| line_start + offset <= k < data.len() ==> data@[k] == before[k],
                forall|k: int| 0 <= k < 16 * line_len ==> wanted[k] == before[k],
                !delayed_from_data ==> slot_holds(
                    ring_before,
                    before,
                    line_len as int,
                    line_distance as int,
                    delayed as int,
                ),
                forall|k: int|
                    0 <= k < ring.len() && !(slot <= k < slot + offset) ==> ring@[k]
                        == ring_before[k],
                forall|k: int|
                    slot <= k < slot + offset ==> #[trigger] ring@[k] == before[line_start + k
                        - slot],
            decreases line_len - offset,
        {
            let i: usize = line_start + offset;
            let current: T = data[i];
            let advanced: T = data[advanced_start + offset];
            let delayed_sample: T = if delayed_from_data {
                data[delayed_start + offset]
            } else {
                ring[slot + offset]
            };
            proof {
                if !delayed_from_data {
                    assert(ring_before[(delayed as int % line_distance as int) * line_len + offset]
                        == before[delayed * line_len + offset]);
                }
                lemma_line_of(i as int, line_num as int, line_len as int);
                assert(wanted[i as int] == comb_sample(current, advanced, delayed_sample));
            }
            ring[slot + offset] = current;
            data[i] = comb_sample(current, advanced, delayed_sample);
            offset = offset + 1;
        }
        proof {
            lemma_next_line(line_num as int, line_len as int);
            assert forall|line: int|
                16 <= line < line_num + 1 && line_num + 1 - line_distance
                    <= line implies #[trigger] slot_holds(
                ring@,
                before,
                line_len as int,
                line_distance as int,
                line,
            ) by {
                if line < line_num {
                    assert(line_distance == 2 && line == line_num - 1);
                    assert(slot_holds(
                        ring_before,
                        before,
                        line_len as int,
                        line_distance as int,
                        line,
                    ));
                    assert forall|offset: int| 0 <= offset < line_len implies #[trigger] ring@[(line
                        % line_distance as int) * line_len + offset] == before[line * line_len
                        + offset] by {
                        assert(ring_before[(line % line_distance as int) * line_len + offset]
                            == before[line * line_len + offset]);
                        lemma_other_slot(line, line_len as int);
                    }
                } else {
                    assert forall|offset: int| 0 <= offset < line_len implies #[trigger] ring@[(line
                        % line_distance as int) * line_len + offset] == before[line * line_len
                        + offset] by {
                        let k = slot + offset;
                        assert(ring@[k] == before[line_start + k - slot]);
                    }
                }
            }
        }
        line_num = line_num + 1;
    }
    proof {
        assert forall|k: int| line_num * line_len <= k < data.len() implies data@[k]
            == wanted[k] by {
            assert(k / line_len as int >= line_num) by (nonlinear_arith)
                requires
                    line_num * line_len <= k,
                    line_len > 0,
            ;
        }
        assert(data@ =~= wanted);
    }
}

proof fn lemma_next_line(line: int, line_len: int)
    ensures
        (line + 1) * line_len == line * line_len + line_len,
{
    assert((line + 1) * line_len == line * line_len + line_len) by (nonlinear_arith);
}

proof fn lemma_other_slot(line: int, line_len: int)
    requires
        line_len > 0,
        line >= 0,
    ensures
        line % 2 == 0 ==> (line % 2) * line_len == 0 && ((line + 1) % 2) * line_len == line_len,
        line % 2 == 1 ==> (line % 2) * line_len == line_len && ((line + 1) % 2) * line_len == 0,
{
    if line % 2 == 0 {
        assert((line + 1) % 2 == 1);
    } else {
        assert((line + 1) % 2 == 0);
    }
}

proof fn lemma_comb_offsets(line: int, line_len: int, line_distance: int)
    requires
        line_len > 0,
        line >= 16,
        1 <= line_distance <= 2,
    ensures
        (line + line_distance) * line_len == line * line_len + line_distance * line_len,
        (line - line_distance) * line_len == line * line_len - line_distance * line_len,
        line % line_distance == (line - line_distance) % line_distance,
        0 <= (line % line_distance) * line_len,
        (line % line_distance) * line_len + line_len <= line_distance * line_len,
        16 * line_len <= line * line_len,
        line - line_distance < 16 ==> (line - line_distance) * line_len + line_len <= 16
            * line_len,
{
    assert((line + line_distance) * line_len == line * line_len + line_distance * line_len
        && (line - line_distance) * line_len == line * line_len - line_distance * line_len)
        by (nonlinear_arith);
    assert(16 * line_len <= line * line_len) by (nonlinear_arith)
        requires
            line >= 16,
            line_len > 0,
    ;
    if line_distance == 1 {
        assert(line % 1 == 0);
        assert((line - 1) % 1 == 0);
    } else {
        assert(line % 2 == (line - 2) % 2);
        assert(line % 2 == 0 || line % 2 == 1);
    }
    let behind = line - line_distance;
    if behind < 16 {
        assert(behind * line_len + line_len <= 16 * line_len) by (nonlinear_arith)
            requires
                behind <= 15,
                line_len > 0,
        ;
    }
}

/// The comb answers each sample from the field as it was alone, so what it
/// answers on a line depends on that line and the two it is compared with.
pub proof fn law_comb_is_local<T: Sample>(
    data: Seq<T>,
    other: Seq<T>,
    line_len: nat,
    line_distance: nat,
    i: int,
)
    requires
        line_len > 0,
        data.len() == other.len(),
        0 <= i < data.len(),
        data[i] == other[i],
        is_combed(i / line_len as int, line_total(data.len(), line_len)) ==> {
            &&& data[i + line_distance * line_len] == other[i + line_distance * line_len]
            &&& data[i - line_distance * line_len] == other[i - line_distance * line_len]
        },
    ensures
        combed(data, line_len, line_distance)[i] == combed(other, line_len, line_distance)[i],
{
}

pub proof fn lemma_comb_sample_exact<T: Sample>(
    value: spec_fn(T) -> real,
    current: T,
    ahead: T,
    behind: T,
)
    requires
        exact(value),
    ensures
        value(comb_sample(current, ahead, behind)) * 4real == value(current) * 2real - value(ahead)
            - value(behind),
{
    let four = plus(two::<T>(), two::<T>());
    let top = minus(minus(times(current, two()), ahead), behind);
    assert(value(two::<T>()) == 2real);
    assert(value(four) == 4real);
    assert(value(over(top, four)) * value(four) == value(top));
}

/// Rounding aside, what repeats from line to line is removed.
pub proof fn law_comb_removes_what_repeats<T: Sample>(
    value: spec_fn(T) -> real,
    data: Seq<T>,
    line_len: nat,
    line_distance: nat,
    i: int,
)
    requires
        exact(value),
        0 <= i < data.len(),
        is_combed(i / line_len as int, line_total(data.len(), line_len)),
        value(data[i + line_distance * line_len]) == value(data[i]),
        value(data[i - line_distance * line_len]) == value(data[i]),
    ensures
        value(combed(data, line_len, line_distance)[i]) == 0real,
{
    lemma_comb_sample_exact(
        value,
        data[i],
        data[i + line_distance * line_len],
        data[i - line_distance * line_len],
    );
}

/// Rounding aside, what changes sign from line to line is kept as it is.
pub proof fn law_comb_keeps_what_alternates<T: Sample>(
    value: spec_fn(T) -> real,
    data: Seq<T>,
    line_len: nat,
    line_distance: nat,
    i: int,
)
    requires
        exact(value),
        0 <= i < data.len(),
        is_combed(i / line_len as int, line_total(data.len(), line_len)),
        value(data[i + line_distance * line_len]) == -value(data[i]),
        value(data[i - line_distance * line_len]) == -value(data[i]),
    ensures
        value(combed(data, line_len, line_distance)[i]) == value(data[i]),
{
    lemma_comb_sample_exact(
        value,
        data[i],
        data[i + line_distance * line_len],
        data[i - line_distance * line_len],
    );
}

} // verus!
