//! Chroma from the tape: taken as it is, or around the carrier that is followed.
use vstd::prelude::*;

use crate::sample::{
    double_count, exact, functional, functional_double, over, times, to_isize, Double,
};

verus! {

/// Chroma as it comes from the tape: its samples, and the carriers that bring it
/// up, one for each phase.
pub struct TapeChroma<F> {
    pub samples: Vec<F>,
    pub heterodyne: Vec<Vec<F>>,
}

/// Where the chroma of a field comes from, with the state of its carrier. The
/// decoder around this library supplies it.
pub trait ChromaTape<F>: Sized {
    type Error;

    type Bandpass;

    /// The field's chroma on the output grid.
    fn downscale(self) -> (Self, Result<Vec<F>, Self::Error>);

    /// The filter around the carrier that is followed.
    fn bandpass(self) -> (Self, Result<Self::Bandpass, Self::Error>);

    /// The chroma filtered and moved by `shift` samples.
    fn filtered(&self, chroma: &Vec<F>, bandpass: &Self::Bandpass, shift: isize) -> Vec<F>;

    /// Updates the carrier that is followed from the filtered chroma.
    fn track(self, chroma: &Vec<F>) -> (Self, Result<(), Self::Error>);

    /// The carriers that bring the chroma up, one for each phase.
    fn heterodyne(&self) -> Vec<Vec<F>>;
}

/// Samples by which chroma is moved when its carrier is followed: ten at an output
/// rate of 40 MHz, and in proportion at others, truncated.
pub open spec fn spec_tracking_shift<W: Double>(outfreq: W) -> isize {
    to_isize(times(double_count(10), over(outfreq, double_count(40))))
}

/// Samples by which chroma is moved when its carrier is followed.
#[verifier::when_used_as_spec(spec_tracking_shift)]
pub fn tracking_shift<W: Double>(outfreq: W) -> (shift: isize)
    requires
        functional::<W>(),
        functional_double::<W>(),
    ensures
        shift == spec_tracking_shift(outfreq),
{
    to_isize(times(double_count(10), over(outfreq, double_count(40))))
}

/// The tape ends up as `end` and the chroma came as `result`, when the carriers
/// are read last.
pub open spec fn handed_over<F, C: ChromaTape<F>>(
    tape: C,
    samples: Vec<F>,
    end: C,
    result: Result<TapeChroma<F>, C::Error>,
) -> bool {
    &&& end == tape
    &&& result is Ok
    &&& result->Ok_0.samples == samples
    &&& call_ensures(C::heterodyne, (&tape,), result->Ok_0.heterodyne)
}

/// The tape ends up as `end` and the chroma came as `result`, when the carrier is
/// updated from the filtered chroma.
pub open spec fn updates_carrier<F, C: ChromaTape<F>>(
    tape: C,
    samples: Vec<F>,
    end: C,
    result: Result<TapeChroma<F>, C::Error>,
) -> bool {
    exists|next: C, updated: Result<(), C::Error>| #[trigger]
        call_ensures(C::track, (tape, &samples), (next, updated)) && match updated {
            Err(error) => end == next && result == Err::<TapeChroma<F>, C::Error>(error),
            Ok(()) => handed_over(next, samples, end, result),
        }
}

/// The tape ends up as `end` and the chroma came as `result`, when the chroma is
/// filtered around the carrier and the carrier updated from it.
pub open spec fn tracks_carrier<F, C: ChromaTape<F>>(
    tape: C,
    chroma: Vec<F>,
    shift: isize,
    end: C,
    result: Result<TapeChroma<F>, C::Error>,
) -> bool {
    exists|next: C, found: Result<C::Bandpass, C::Error>| #[trigger]
        call_ensures(C::bandpass, (tape,), (next, found)) && match found {
            Err(error) => end == next && result == Err::<TapeChroma<F>, C::Error>(error),
            Ok(bandpass) => exists|samples: Vec<F>| #[trigger]
                call_ensures(C::filtered, (&next, &chroma, &bandpass, shift), samples)
                    && updates_carrier(next, samples, end, result),
        }
}

/// What may come from the tape: the chroma on the output grid; with tracking,
/// filtered around the carrier, which is updated from it, and with the carriers
/// as they then are. The first step that fails ends it.
pub open spec fn acquires<F, C: ChromaTape<F>>(
    tape: C,
    chroma_afc: bool,
    shift: isize,
    end: C,
    result: Result<TapeChroma<F>, C::Error>,
) -> bool {
    exists|next: C, came: Result<Vec<F>, C::Error>| #[trigger]
        call_ensures(C::downscale, (tape,), (next, came)) && match came {
            Err(error) => end == next && result == Err::<TapeChroma<F>, C::Error>(error),
            Ok(chroma) => if chroma_afc {
                tracks_carrier(next, chroma, shift, end, result)
            } else {
                handed_over(next, chroma, end, result)
            },
        }
}

/// The chroma of a field from the tape, filtered around the carrier where that is
/// followed.
pub fn acquire_chroma<F, W: Double, C: ChromaTape<F>>(
    tape: C,
    chroma_afc: bool,
    outfreq: W,
) -> (acquired: (C, Result<TapeChroma<F>, C::Error>))
    requires
        functional::<W>(),
        functional_double::<W>(),
    ensures
        acquires(tape, chroma_afc, tracking_shift(outfreq), acquired.0, acquired.1),
{
    let ghost start = tape;
    let (tape, came) = tape.downscale();
    let ghost first = tape;
    let ghost came_first = came;
    proof {
        assert(call_ensures(C::downscale, (start,), (first, came_first)));
    }
    let chroma: Vec<F> = match came {
        Ok(chroma) => chroma,
        Err(error) => return (tape, Err(error)),
    };
    if !chroma_afc {
        let heterodyne: Vec<Vec<F>> = tape.heterodyne();
        return (tape, Ok(TapeChroma { samples: chroma, heterodyne }));
    }
    let shift: isize = tracking_shift(outfreq);
    let (tape, found) = tape.bandpass();
    let ghost second = tape;
    let ghost found_second = found;
    proof {
        assert(call_ensures(C::bandpass, (first,), (second, found_second)));
    }
    let bandpass: C::Bandpass = match found {
        Ok(bandpass) => bandpass,
        Err(error) => {
            let failed: Result<TapeChroma<F>, C::Error> = Err(error);
            proof {
                assert(tracks_carrier(first, chroma, shift, tape, failed));
            }
            return (tape, failed);
        },
    };
    let samples: Vec<F> = tape.filtered(&chroma, &bandpass, shift);
    proof {
        assert(call_ensures(C::filtered, (&second, &chroma, &bandpass, shift), samples));
    }
    let (tape, updated) = tape.track(&samples);
    let ghost third = tape;
    let ghost updated_third = updated;
    proof {
        assert(call_ensures(C::track, (second, &samples), (third, updated_third)));
    }
    match updated {
        Err(error) => {
            let failed: Result<TapeChroma<F>, C::Error> = Err(error);
            proof {
                assert(updates_carrier(second, samples, tape, failed));
                assert(tracks_carrier(first, chroma, shift, tape, failed));
            }
            (tape, failed)
        },
        Ok(()) => {
            let heterodyne: Vec<Vec<F>> = tape.heterodyne();
            let got: Result<TapeChroma<F>, C::Error> = Ok(TapeChroma { samples, heterodyne });
            proof {
                assert(handed_over(third, samples, tape, got));
                assert(updates_carrier(second, samples, tape, got));
                assert(tracks_carrier(first, chroma, shift, tape, got));
            }
            (tape, got)
        },
    }
}

/// At an output rate that is not negative the shift is a quarter of the rate in
/// MHz, without the part behind the point.
pub proof fn law_shift_is_a_quarter_of_the_rate<W: Double>(wide: spec_fn(W) -> real, outfreq: W)
    requires
        exact(wide),
        wide(double_count::<W>(10)) == 10real,
        wide(double_count::<W>(40)) == 40real,
        0real <= wide(outfreq),
        forall|a: W|
            0real <= wide(a) ==> (#[trigger] to_isize(a)) as int as real <= wide(a) && wide(a) < (
            to_isize(a) as int as real) + 1real,
    ensures
        4real * (tracking_shift(outfreq) as int as real) <= wide(outfreq),
        wide(outfreq) < 4real * (tracking_shift(outfreq) as int as real) + 4real,
{
    let part = over(outfreq, double_count::<W>(40));
    let shift = times(double_count::<W>(10), part);
    assert(wide(part) * 40real == wide(outfreq));
    assert(wide(shift) == 10real * wide(part));
}

/// Chroma whose carrier is followed is what the tape answered when it filtered
/// its downscaled chroma with its band-pass and the given shift; the carrier was
/// updated from that same chroma, and the heterodynes were read behind it.
pub proof fn law_followed_chroma_is_filtered<F, C: ChromaTape<F>>(
    tape: C,
    shift: isize,
    end: C,
    got: TapeChroma<F>,
)
    requires
        acquires(tape, true, shift, end, Ok::<TapeChroma<F>, C::Error>(got)),
    ensures
        exists|scaled: C, chroma: Vec<F>, found: C, bandpass: C::Bandpass|
            {
                &&& #[trigger] call_ensures(
                    C::downscale,
                    (tape,),
                    (scaled, Ok::<Vec<F>, C::Error>(chroma)),
                )
                &&& #[trigger] call_ensures(
                    C::bandpass,
                    (scaled,),
                    (found, Ok::<C::Bandpass, C::Error>(bandpass)),
                )
                &&& call_ensures(C::filtered, (&found, &chroma, &bandpass, shift), got.samples)
                &&& call_ensures(
                    C::track,
                    (found, &got.samples),
                    (end, Ok::<(), C::Error>(())),
                )
                &&& call_ensures(C::heterodyne, (&end,), got.heterodyne)
            },
{
    let result = Ok::<TapeChroma<F>, C::Error>(got);
    let (scaled, came) = choose|next: C, came: Result<Vec<F>, C::Error>| #[trigger]
        call_ensures(C::downscale, (tape,), (next, came)) && match came {
            Err(error) => end == next && result == Err::<TapeChroma<F>, C::Error>(error),
            Ok(chroma) => tracks_carrier(next, chroma, shift, end, result),
        };
    let chroma = came->Ok_0;
    assert(call_ensures(C::downscale, (tape,), (scaled, Ok::<Vec<F>, C::Error>(chroma))));
    let (found, band) = choose|next: C, found: Result<C::Bandpass, C::Error>| #[trigger]
        call_ensures(C::bandpass, (scaled,), (next, found)) && match found {
            Err(error) => end == next && result == Err::<TapeChroma<F>, C::Error>(error),
            Ok(bandpass) => exists|samples: Vec<F>| #[trigger]
                call_ensures(C::filtered, (&next, &chroma, &bandpass, shift), samples)
                    && updates_carrier(next, samples, end, result),
        };
    let bandpass = band->Ok_0;
    assert(call_ensures(
        C::bandpass,
        (scaled,),
        (found, Ok::<C::Bandpass, C::Error>(bandpass)),
    ));
    let samples = choose|samples: Vec<F>| #[trigger]
        call_ensures(C::filtered, (&found, &chroma, &bandpass, shift), samples)
            && updates_carrier(found, samples, end, result);
    let (next, updated) = choose|next: C, updated: Result<(), C::Error>| #[trigger]
        call_ensures(C::track, (found, &samples), (next, updated)) && match updated {
            Err(error) => end == next && result == Err::<TapeChroma<F>, C::Error>(error),
            Ok(()) => handed_over(next, samples, end, result),
        };
    assert(updated is Ok);
    assert(updated->Ok_0 == ());
    assert(handed_over(next, samples, end, result));
    assert(samples == got.samples);
    assert(call_ensures(C::track, (found, &got.samples), (end, Ok::<(), C::Error>(()))));
    assert(call_ensures(C::filtered, (&found, &chroma, &bandpass, shift), got.samples));
}

/// Chroma whose carrier is not followed is what the tape answered when it was
/// downscaled, and nothing else was asked of the tape but its heterodynes.
pub proof fn law_other_chroma_is_only_downscaled<F, C: ChromaTape<F>>(
    tape: C,
    shift: isize,
    end: C,
    got: TapeChroma<F>,
)
    requires
        acquires(tape, false, shift, end, Ok::<TapeChroma<F>, C::Error>(got)),
    ensures
        call_ensures(C::downscale, (tape,), (end, Ok::<Vec<F>, C::Error>(got.samples))),
        call_ensures(C::heterodyne, (&end,), got.heterodyne),
{
}

} // verus!
