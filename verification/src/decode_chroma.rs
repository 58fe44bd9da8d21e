//! The chroma of a field, decoded stage by stage.
use vstd::prelude::*;

use crate::acquire::{acquire_chroma, acquires, tracking_shift, ChromaTape, TapeChroma};
use crate::chroma::{
    acc, accumulated, adjust_phase, burst_deemphasis, chroma_raised, functional_measures,
    have_carriers, lines_have_carriers, rotated, rotation, upconvert_chroma, upconverted,
    FieldMeasures, BURST_MARGIN, STARTING_LINE,
};
use crate::comb::{comb_c, combed};
use crate::complex::Complex;
use crate::field::{ChromaError, ChromaField, ChromaSpec};
use crate::filter::{
    can_filter, filterable, filtered, functional_dynamic, sosfiltfilt_f32, DynamicFilter,
    FilterRuntime,
};

use crate::request::ColorSystem;
use crate::sample::{
    functional_double, functional_single, functional_sos, lemma_functional_sos, zero, Double,
    Single, SosFloat,
};
use crate::secam::{reads_field, secam_decoded, secam_ready, try_secam_chroma};
use crate::sos::{forward_filtered, sosfilt_f32};
use crate::spectrum::{analytic_antibell, analytic_of};
use crate::transforms::{functional_transforms, Transforms};

verus! {

/// The burst phase is brought to zero degrees.
pub open spec fn corrects_phase<F: SosFloat>(spec: ChromaSpec<F>) -> bool {
    spec.color_system == ColorSystem::Ntsc && !spec.disable_phase_correction
}

/// The chroma is brought up without an error.
pub open spec fn lifts<F: SosFloat>(field: ChromaField<F::Wide>, spec: ChromaSpec<F>) -> bool {
    field.phase_sequence is Some && (corrects_phase(spec) ==> field.burst_phase_avg is Some)
}

/// The field's spectrum is needed: to correct the phase, or to demodulate SECAM.
pub open spec fn transforms_field<F: SosFloat>(
    field: ChromaField<F::Wide>,
    spec: ChromaSpec<F>,
) -> bool {
    lifts(field, spec) && (corrects_phase(spec) || (spec.secam_mode is Some && reads_field(
        field,
        spec,
    )))
}

/// Whether the field's spectrum is needed.
pub fn needs_transforms<F: SosFloat>(
    field: &ChromaField<F::Wide>,
    spec: &ChromaSpec<F>,
) -> (needs: bool)
    ensures
        needs == transforms_field(*field, *spec),
{
    let corrects: bool = spec.color_system == ColorSystem::Ntsc && !spec.disable_phase_correction;
    let lifts: bool = field.phase_sequence.is_some() && (!corrects
        || field.burst_phase_avg.is_some());
    let reads: bool = spec.secam_params.is_some() && field.outlinelen > 0 && field.outlinecount > 0
        && field.phase_sequence.is_some();
    lifts && (corrects || (spec.secam_mode.is_some() && reads))
}

/// Lines between a line and those it is combed with.
pub open spec fn comb_distance<F: SosFloat>(spec: ChromaSpec<F>) -> nat {
    if spec.color_system == ColorSystem::Ntsc {
        1
    } else {
        2
    }
}

/// The chroma with the burst at the level of the picture: NTSC records it at
/// twice that.
pub open spec fn levelled<F: SosFloat>(
    chroma: Seq<F>,
    field: ChromaField<F::Wide>,
    spec: ChromaSpec<F>,
) -> Seq<F> {
    if spec.color_system == ColorSystem::Ntsc {
        chroma_raised(
            chroma,
            field.outlinelen as nat,
            field.outlinecount as nat,
            spec.burst_area.1 as int,
        )
    } else {
        chroma
    }
}

/// The chroma on its own carrier, at the phase it is wanted in.
pub open spec fn lifted<F: SosFloat, X: Transforms<F>, M: FieldMeasures<F>>(
    chroma: TapeChroma<F>,
    field: ChromaField<F::Wide>,
    spec: ChromaSpec<F>,
    transforms: X,
    measures: M,
) -> Result<Seq<F>, ChromaError> where F::Wide: Double {
    match field.phase_sequence {
        None => Err(ChromaError::PhaseSequence),
        Some(sequence) => {
            let uphet = upconverted(
                levelled(chroma.samples@, field, spec),
                field,
                sequence@,
                chroma.heterodyne@,
                measures,
            );
            if corrects_phase(spec) {
                match field.burst_phase_avg {
                    None => Err(ChromaError::BurstPhase),
                    Some(phase) => Ok(
                        rotated(
                            analytic_of(transforms, uphet, None),
                            rotation::<F>(phase, zero()),
                        ),
                    ),
                }
            } else {
                Ok(uphet)
            }
        },
    }
}

/// The chroma band-limited, de-emphasized and combed, as far as is wanted.
pub open spec fn cleaned<F: SosFloat, D: DynamicFilter<F>>(
    uphet: Seq<F>,
    field: ChromaField<F::Wide>,
    spec: ChromaSpec<F>,
    runtime: FilterRuntime<D>,
) -> Seq<F> {
    let limited = filtered(runtime, spec.filter_final@, uphet);
    let deemphasized = match spec.filter_deemphasis {
        Some(sos) => forward_filtered(sos@, limited),
        None => limited,
    };
    if spec.disable_comb {
        deemphasized
    } else {
        combed(deemphasized, field.outlinelen as nat, comb_distance(spec))
    }
}

/// The chroma before its burst is normalized.
pub open spec fn unscaled<
    F: SosFloat + Single,
    X: Transforms<F>,
    D: DynamicFilter<F>,
    M: FieldMeasures<F>,
>(
    chroma: TapeChroma<F>,
    field: ChromaField<F::Wide>,
    spec: ChromaSpec<F>,
    transforms: X,
    runtime: FilterRuntime<D>,
    measures: M,
) -> Result<Seq<F>, ChromaError> where F::Wide: Double {
    match lifted(chroma, field, spec, transforms, measures) {
        Err(error) => Err(error),
        Ok(uphet) => {
            let clean = cleaned(uphet, field, spec, runtime);
            if spec.secam_mode is Some {
                secam_decoded(clean, field, spec, transforms, runtime)
            } else {
                Ok(clean)
            }
        },
    }
}

/// What [`process_chroma_internal`] answers.
pub open spec fn chroma_decoded<
    F: SosFloat + Single,
    X: Transforms<F>,
    D: DynamicFilter<F>,
    M: FieldMeasures<F>,
>(
    chroma: TapeChroma<F>,
    field: ChromaField<F::Wide>,
    spec: ChromaSpec<F>,
    transforms: X,
    runtime: FilterRuntime<D>,
    measures: M,
) -> Result<Seq<u16>, ChromaError> where F::Wide: Double {
    match unscaled(chroma, field, spec, transforms, runtime, measures) {
        Err(error) => Err(error),
        Ok(uphet) => match spec.burst_abs_ref {
            None => Err(ChromaError::BurstReference),
            Some(burst_abs_ref) => Ok(
                accumulated(
                    uphet,
                    burst_abs_ref,
                    spec.burst_area.0 as int,
                    spec.burst_area.1 as int,
                    field.outlinelen as nat,
                    field.outlinecount as nat,
                    measures,
                ),
            ),
        },
    }
}

/// The burst can be brought to the level of the picture.
pub open spec fn levelling_fits<F: SosFloat>(
    len: nat,
    field: ChromaField<F::Wide>,
    spec: ChromaSpec<F>,
) -> bool {
    spec.color_system == ColorSystem::Ntsc ==> {
        &&& field.outlinecount * field.outlinelen <= len
        &&& field.outlinecount > 0 ==> 0 <= spec.burst_area.1 && spec.burst_area.1 + BURST_MARGIN
            <= field.outlinelen
    }
}

/// The burst can be measured on every line behind the lead-in.
pub open spec fn normalizing_fits<F: SosFloat>(
    len: nat,
    field: ChromaField<F::Wide>,
    spec: ChromaSpec<F>,
) -> bool {
    &&& field.outlinecount > STARTING_LINE
    &&& field.outlinelen * field.outlinecount <= len
    &&& 0 <= spec.burst_area.0 <= spec.burst_area.1 <= field.outlinelen
}

/// Every stage that is reached suits the field: no line lies where it cannot,
/// and the field is long enough for its filters.
pub open spec fn chroma_ready<
    F: SosFloat + Single,
    X: Transforms<F>,
    D: DynamicFilter<F>,
    M: FieldMeasures<F>,
>(
    chroma: TapeChroma<F>,
    field: ChromaField<F::Wide>,
    spec: ChromaSpec<F>,
    transforms: X,
    runtime: FilterRuntime<D>,
    measures: M,
) -> bool where F::Wide: Double {
    let len = chroma.samples@.len();
    let lifted = lifted(chroma, field, spec, transforms, measures);
    let unscaled = unscaled(chroma, field, spec, transforms, runtime, measures);
    &&& levelling_fits(len, field, spec)
    &&& field.phase_sequence is Some ==> lines_have_carriers(
        levelled(chroma.samples@, field, spec),
        field,
        field.phase_sequence->0@,
        chroma.heterodyne@,
        measures,
    )
    &&& lifted is Ok ==> {
        &&& filterable(spec.filter_final@, len)
        &&& spec.disable_comb || field.outlinelen > 0
        &&& spec.secam_mode is Some ==> secam_ready(
            cleaned(lifted->Ok_0, field, spec, runtime),
            field,
            spec,
            transforms,
        )
    }
    &&& unscaled is Ok && spec.burst_abs_ref is Some ==> normalizing_fits(len, field, spec)
}

/// The burst can be brought to the level of the picture.
fn can_level<F: SosFloat>(
    len: usize,
    field: &ChromaField<F::Wide>,
    spec: &ChromaSpec<F>,
) -> (can: bool)
    requires
        spec.color_system == ColorSystem::Ntsc,
    ensures
        can == levelling_fits(len as nat, *field, *spec),
{
    match field.outlinecount.checked_mul(field.outlinelen) {
        None => return false,
        Some(total) => if total > len {
            return false;
        },
    }
    field.outlinecount == 0 || (spec.burst_area.1 >= 0 && field.outlinelen >= BURST_MARGIN
        && spec.burst_area.1 as usize <= field.outlinelen - BURST_MARGIN)
}

/// The burst can be measured on every line behind the lead-in.
fn can_normalize<F: SosFloat>(
    len: usize,
    field: &ChromaField<F::Wide>,
    spec: &ChromaSpec<F>,
) -> (can: bool)
    ensures
        can == normalizing_fits(len as nat, *field, *spec),
{
    if field.outlinecount <= STARTING_LINE {
        return false;
    }
    match field.outlinelen.checked_mul(field.outlinecount) {
        None => return false,
        Some(total) => if total > len {
            return false;
        },
    }
    let (start, end): (isize, isize) = spec.burst_area;
    0 <= start && start <= end && end as usize <= field.outlinelen
}

/// Brings the chroma up to its own carrier, at the phase it is wanted in.
fn lift_chroma<F: SosFloat, X: Transforms<F>, M: FieldMeasures<F>>(
    chroma: &TapeChroma<F>,
    field: &ChromaField<F::Wide>,
    spec: &ChromaSpec<F>,
    transforms: &X,
    measures: &M,
) -> (tried: Option<Result<Vec<F>, ChromaError>>) where F::Wide: Double
    requires
        functional_sos::<F>(),
        functional_double::<F::Wide>(),
        functional_measures::<F, M>(*measures),
        chroma.samples.len() > 0 && corrects_phase(*spec) && lifts(*field, *spec)
            ==> functional_transforms::<F, X>(
            *transforms,
            chroma.samples@.len(),
        ),
    ensures
        tried is Some <==> {
            &&& levelling_fits(chroma.samples@.len(), *field, *spec)
            &&& field.phase_sequence is Some ==> lines_have_carriers(
                levelled(chroma.samples@, *field, *spec),
                *field,
                field.phase_sequence->0@,
                chroma.heterodyne@,
                *measures,
            )
        },
        match tried {
            Some(Ok(uphet)) => {
                &&& lifted(*chroma, *field, *spec, *transforms, *measures) == Ok::<
                    Seq<F>,
                    ChromaError,
                >(uphet@)
                &&& uphet.len() == chroma.samples.len()
            },
            Some(Err(error)) => lifted(*chroma, *field, *spec, *transforms, *measures) == Err::<
                Seq<F>,
                ChromaError,
            >(error),
            None => true,
        },
{
    proof {
        lemma_functional_sos::<F>();
    }
    let is_ntsc: bool = spec.color_system == ColorSystem::Ntsc;
    let mut samples: Vec<F> = vstd::slice::slice_to_vec(chroma.samples.as_slice());
    if is_ntsc {
        if !can_level(samples.len(), field, spec) {
            return None;
        }
        if field.outlinecount > 0 {
            burst_deemphasis(&mut samples, field, spec.burst_area.1 as usize);
        }
        proof {
            assert(samples@ =~= levelled(chroma.samples@, *field, *spec));
        }
    }
    if let Some(sequence) = &field.phase_sequence {
        if !have_carriers(
            samples.as_slice(),
            field,
            sequence.as_slice(),
            chroma.heterodyne.as_slice(),
            measures,
        ) {
            return None;
        }
    }
    let mut uphet: Vec<F> = match upconvert_chroma(
        samples.as_slice(),
        field,
        chroma.heterodyne.as_slice(),
        measures,
    ) {
        Ok(uphet) => uphet,
        Err(error) => return Some(Err(error)),
    };
    if is_ntsc && !spec.disable_phase_correction {
        let phase: F::Wide = match field.burst_phase_avg {
            Some(phase) => phase,
            None => return Some(Err(ChromaError::BurstPhase)),
        };
        let analytic: Vec<Complex<F>> = analytic_antibell(uphet.as_slice(), transforms, None);
        adjust_phase(analytic.as_slice(), &mut uphet, phase, zero());
    }
    Some(Ok(uphet))
}

/// Decodes the chroma of a field, if every stage suits it; otherwise answers
/// `None`.
pub fn try_chroma<
    F: SosFloat + Single,
    X: Transforms<F>,
    D: DynamicFilter<F>,
    M: FieldMeasures<F>,
>(
    chroma: &TapeChroma<F>,
    field: &ChromaField<F::Wide>,
    spec: &ChromaSpec<F>,
    transforms: &X,
    runtime: &FilterRuntime<D>,
    measures: &M,
) -> (tried: Option<Result<Vec<u16>, ChromaError>>) where F::Wide: Double
    requires
        functional_sos::<F>(),
        functional_single::<F>(),
        functional_double::<F::Wide>(),
        functional_dynamic::<F, D>(runtime.dynamic),
        functional_measures::<F, M>(*measures),
        chroma.samples.len() > 0 && transforms_field(*field, *spec) ==> functional_transforms::<
            F,
            X,
        >(*transforms, chroma.samples@.len()),
    ensures
        tried is Some <==> chroma_ready(
            *chroma,
            *field,
            *spec,
            *transforms,
            *runtime,
            *measures,
        ),
        match tried {
            Some(Ok(output)) => {
                &&& chroma_decoded(*chroma, *field, *spec, *transforms, *runtime, *measures)
                    == Ok::<Seq<u16>, ChromaError>(output@)
                &&& output.len() == chroma.samples.len()
            },
            Some(Err(error)) => chroma_decoded(
                *chroma,
                *field,
                *spec,
                *transforms,
                *runtime,
                *measures,
            ) == Err::<Seq<u16>, ChromaError>(error),
            None => true,
        },
{
    proof {
        lemma_functional_sos::<F>();
    }
    let len: usize = chroma.samples.len();
    let mut uphet: Vec<F> = match lift_chroma(chroma, field, spec, transforms, measures) {
        None => return None,
        Some(Err(error)) => return Some(Err(error)),
        Some(Ok(uphet)) => uphet,
    };
    if !can_filter(spec.filter_final.as_slice(), len) {
        return None;
    }
    uphet = sosfiltfilt_f32(runtime, spec.filter_final.as_slice(), uphet.as_slice());
    if let Some(sos) = &spec.filter_deemphasis {
        uphet = sosfilt_f32(sos.as_slice(), uphet.as_slice());
    }
    if !spec.disable_comb {
        if field.outlinelen == 0 {
            return None;
        }
        let line_distance: usize = if spec.color_system == ColorSystem::Ntsc {
            1
        } else {
            2
        };
        proof {
            lemma_three_lines(uphet@.len() as int, field.outlinelen as int);
        }
        comb_c(&mut uphet, field.outlinelen, line_distance);
    }
    if spec.secam_mode.is_some() {
        match try_secam_chroma(&mut uphet, field, spec, transforms, runtime) {
            None => return None,
            Some(Err(error)) => return Some(Err(error)),
            Some(Ok(())) => {},
        }
    }
    let burst_abs_ref: F = match spec.burst_abs_ref {
        Some(burst_abs_ref) => burst_abs_ref,
        None => return Some(Err(ChromaError::BurstReference)),
    };
    if !can_normalize(len, field, spec) {
        return None;
    }
    Some(
        Ok(
            acc(
                uphet.as_slice(),
                burst_abs_ref,
                spec.burst_area.0 as usize,
                spec.burst_area.1 as usize,
                field.outlinelen,
                field.outlinecount,
                measures,
            ),
        ),
    )
}

proof fn lemma_three_lines(len: int, line_len: int)
    requires
        line_len > 0,
        0 <= len,
    ensures
        len / line_len > 2 ==> 2 * line_len <= len,
{
    if len / line_len > 2 {
        assert(2 * line_len <= len) by (nonlinear_arith)
            requires
                line_len > 0,
                len / line_len > 2,
        ;
    }
}

/// Decodes the chroma of a field: up from the low carrier, filtered, combed, and
/// encoded with its burst normalized. SECAM chroma is demodulated on the way.
pub fn process_chroma_internal<
    F: SosFloat + Single,
    X: Transforms<F>,
    D: DynamicFilter<F>,
    M: FieldMeasures<F>,
>(
    chroma: &TapeChroma<F>,
    field: &ChromaField<F::Wide>,
    spec: &ChromaSpec<F>,
    transforms: &X,
    runtime: &FilterRuntime<D>,
    measures: &M,
) -> (result: Result<Vec<u16>, ChromaError>) where F::Wide: Double
    requires
        functional_sos::<F>(),
        functional_single::<F>(),
        functional_double::<F::Wide>(),
        functional_dynamic::<F, D>(runtime.dynamic),
        functional_measures::<F, M>(*measures),
        chroma.samples.len() > 0 && transforms_field(*field, *spec) ==> functional_transforms::<
            F,
            X,
        >(*transforms, chroma.samples@.len()),
        chroma_ready(*chroma, *field, *spec, *transforms, *runtime, *measures),
    ensures
        match result {
            Ok(output) => {
                &&& chroma_decoded(*chroma, *field, *spec, *transforms, *runtime, *measures)
                    == Ok::<Seq<u16>, ChromaError>(output@)
                &&& output.len() == chroma.samples.len()
            },
            Err(error) => chroma_decoded(
                *chroma,
                *field,
                *spec,
                *transforms,
                *runtime,
                *measures,
            ) == Err::<Seq<u16>, ChromaError>(error),
        },
{
    try_chroma(chroma, field, spec, transforms, runtime, measures).unwrap()
}

/// Why a field has no decoded chroma.
pub enum DecodeError<E> {
    /// The chroma could not be had from the tape.
    Acquire(E),
    /// Something was lacking.
    Chroma(ChromaError),
    /// A stage does not suit the field.
    Unfit,
}

/// The field has chroma that is to be written.
pub open spec fn wants_chroma<F: SosFloat>(spec: ChromaSpec<F>) -> bool {
    spec.write_chroma && spec.color_system != ColorSystem::Monochrome
}

/// `result` is what becomes of the field when `acquired` came from the tape. It
/// has as many samples as the chroma.
pub open spec fn decodes_to<
    F: SosFloat + Single,
    X: Transforms<F>,
    D: DynamicFilter<F>,
    M: FieldMeasures<F>,
    E,
>(
    acquired: Result<TapeChroma<F>, E>,
    field: ChromaField<F::Wide>,
    spec: ChromaSpec<F>,
    transforms: X,
    runtime: FilterRuntime<D>,
    measures: M,
    result: Result<Option<Vec<u16>>, DecodeError<E>>,
) -> bool where F::Wide: Double {
    match acquired {
        Err(error) => result == Err::<Option<Vec<u16>>, DecodeError<E>>(
            DecodeError::Acquire(error),
        ),
        Ok(chroma) => if !chroma_ready(chroma, field, spec, transforms, runtime, measures) {
            result == Err::<Option<Vec<u16>>, DecodeError<E>>(DecodeError::Unfit)
        } else {
            match chroma_decoded(chroma, field, spec, transforms, runtime, measures) {
                Err(error) => result == Err::<Option<Vec<u16>>, DecodeError<E>>(
                    DecodeError::Chroma(error),
                ),
                Ok(output) => {
                    &&& result is Ok
                    &&& result->Ok_0 is Some
                    &&& result->Ok_0->0@ == output
                    &&& result->Ok_0->0.len() == chroma.samples.len()
                },
            }
        },
    }
}

/// What may come from the tape for a field.
pub open spec fn field_acquires<F: SosFloat, C: ChromaTape<F>>(
    tape: C,
    spec: ChromaSpec<F>,
    end: C,
    acquired: Result<TapeChroma<F>, C::Error>,
) -> bool where F::Wide: Double {
    acquires(tape, spec.chroma_afc, tracking_shift(spec.outfreq), end, acquired)
}

/// Decodes the chroma of a field, if it has any that is to be written. Only then
/// is the tape touched; it comes back as it then is.
pub fn decode_chroma<
    F: SosFloat + Single,
    X: Transforms<F>,
    D: DynamicFilter<F>,
    M: FieldMeasures<F>,
    C: ChromaTape<F>,
>(
    tape: C,
    field: &ChromaField<F::Wide>,
    spec: &ChromaSpec<F>,
    transforms: &X,
    runtime: &FilterRuntime<D>,
    measures: &M,
) -> (decoded: (C, Result<Option<Vec<u16>>, DecodeError<C::Error>>)) where F::Wide: Double
    requires
        functional_sos::<F>(),
        functional_single::<F>(),
        functional_double::<F::Wide>(),
        functional_dynamic::<F, D>(runtime.dynamic),
        functional_measures::<F, M>(*measures),
        wants_chroma(*spec) && transforms_field(*field, *spec) ==> forall|
            end: C,
            chroma: TapeChroma<F>,
        |
            #[trigger] field_acquires(tape, *spec, end, Ok::<TapeChroma<F>, C::Error>(chroma))
                && chroma.samples.len() > 0 ==> functional_transforms::<F, X>(
                *transforms,
                chroma.samples@.len(),
            ),
    ensures
        !wants_chroma(*spec) ==> decoded.0 == tape && decoded.1 == Ok::<
            Option<Vec<u16>>,
            DecodeError<C::Error>,
        >(None),
        wants_chroma(*spec) ==> exists|acquired: Result<TapeChroma<F>, C::Error>| #[trigger]
            field_acquires(tape, *spec, decoded.0, acquired) && decodes_to(
                acquired,
                *field,
                *spec,
                *transforms,
                *runtime,
                *measures,
                decoded.1,
            ),
{
    proof {
        lemma_functional_sos::<F>();
    }
    if !spec.write_chroma || spec.color_system == ColorSystem::Monochrome {
        return (tape, Ok(None));
    }
    let ghost start = tape;
    let (tape, acquired) = acquire_chroma(tape, spec.chroma_afc, spec.outfreq);
    let ghost came = acquired;
    proof {
        assert(field_acquires(start, *spec, tape, came));
    }
    let chroma: TapeChroma<F> = match acquired {
        Ok(chroma) => chroma,
        Err(error) => {
            let failed: (C, Result<Option<Vec<u16>>, DecodeError<C::Error>>) = (
                tape,
                Err(DecodeError::Acquire(error)),
            );
            proof {
                assert(field_acquires(start, *spec, failed.0, came));
                assert(decodes_to(
                    came,
                    *field,
                    *spec,
                    *transforms,
                    *runtime,
                    *measures,
                    failed.1,
                ));
            }
            return failed;
        },
    };
    let result: Result<Option<Vec<u16>>, DecodeError<C::Error>> = match try_chroma(
        &chroma,
        field,
        spec,
        transforms,
        runtime,
        measures,
    ) {
        None => Err(DecodeError::Unfit),
        Some(Err(error)) => Err(DecodeError::Chroma(error)),
        Some(Ok(output)) => Ok(Some(output)),
    };
    let decoded: (C, Result<Option<Vec<u16>>, DecodeError<C::Error>>) = (tape, result);
    proof {
        assert(field_acquires(start, *spec, decoded.0, came));
        assert(decodes_to(came, *field, *spec, *transforms, *runtime, *measures, decoded.1));
    }
    decoded
}

} // verus!
