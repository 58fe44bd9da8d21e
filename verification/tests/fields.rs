use std::sync::Arc;

use realfft::{ComplexToReal, RealFftPlanner, RealToComplex};
use rustfft::num_complex;
use rustfft::{Fft, FftPlanner};
use tape_decode::acquire::{acquire_chroma, tracking_shift, ChromaTape, TapeChroma};
use tape_decode::block::{BlockError, BlockSpec, SubDeemphasis, VideoChannels};
use tape_decode::chroma::{
    acc, adjust_phase, burst_deemphasis, encoded, have_carriers, upconvert_chroma, FieldMeasures,
};
use tape_decode::comb::comb_c;
use tape_decode::complex::Complex;
use tape_decode::decode_chroma::{
    decode_chroma, needs_transforms, process_chroma_internal, try_chroma, DecodeError,
};
use tape_decode::demodblock::{decode_video_block, try_video_block, BlockTools};
use tape_decode::field::{ChromaError, ChromaField, ChromaSpec, LinePhase};
use tape_decode::filter::{DynamicFilter, FilterRuntime};
use tape_decode::ieee::{rank32, rank64};
use tape_decode::request::{ColorSystem, SecamMode, SecamParams};
use tape_decode::sample::{Double, Sample, Single, SosFloat};
use tape_decode::secam::{
    deemphasis_lf, discriminate, hard_limit, process_secam_chroma, secam_windows,
    try_secam_chroma,
};
use tape_decode::secam_lines::{
    choose_phasing, cross_products, measure_lines, Porch, SecamLine,
};
use tape_decode::sos::Sos;
use tape_decode::spectrum::{
    analytic_antibell, analytic_spectrum, ediff1d_complex_to_begin_zero, multiply_spectrum_real,
    multiply_spectrum_sample, slice_vec, spectrum_times_filter,
};
use tape_decode::sub_deemphasis::sub_deemphasis;
use tape_decode::transforms::{irfft_f32, rfft_f32, Transforms};

#[derive(Clone, Copy, Debug, PartialEq)]
struct F32(f32);

#[derive(Clone, Copy, Debug, PartialEq)]
struct F64(f64);

impl Sample for F32 {
    fn zero() -> Self {
        F32(0.0)
    }
    fn one() -> Self {
        F32(1.0)
    }
    fn add(self, other: Self) -> Self {
        F32(self.0 + other.0)
    }
    fn sub(self, other: Self) -> Self {
        F32(self.0 - other.0)
    }
    fn mul(self, other: Self) -> Self {
        F32(self.0 * other.0)
    }
    fn div(self, other: Self) -> Self {
        F32(self.0 / other.0)
    }
    fn neg(self) -> Self {
        F32(-self.0)
    }
    fn mul_add(self, factor: Self, term: Self) -> Self {
        F32(self.0.mul_add(factor.0, term.0))
    }
    fn rank(self) -> Option<i64> {
        rank32(self.0.to_bits())
    }
}

impl Sample for F64 {
    fn zero() -> Self {
        F64(0.0)
    }
    fn one() -> Self {
        F64(1.0)
    }
    fn add(self, other: Self) -> Self {
        F64(self.0 + other.0)
    }
    fn sub(self, other: Self) -> Self {
        F64(self.0 - other.0)
    }
    fn mul(self, other: Self) -> Self {
        F64(self.0 * other.0)
    }
    fn div(self, other: Self) -> Self {
        F64(self.0 / other.0)
    }
    fn neg(self) -> Self {
        F64(-self.0)
    }
    fn mul_add(self, factor: Self, term: Self) -> Self {
        F64(self.0.mul_add(factor.0, term.0))
    }
    fn rank(self) -> Option<i64> {
        rank64(self.0.to_bits())
    }
}

impl SosFloat for F32 {
    type Wide = F64;
    fn widen(self) -> F64 {
        F64(f64::from(self.0))
    }
    fn narrow(wide: F64) -> F32 {
        F32(wide.0 as f32)
    }
}

impl SosFloat for F64 {
    type Wide = F64;
    fn widen(self) -> F64 {
        self
    }
    fn narrow(wide: F64) -> F64 {
        wide
    }
}

impl Single for F32 {
    fn from_bits(bits: u32) -> Self {
        F32(f32::from_bits(bits))
    }
    fn to_bits(self) -> u32 {
        self.0.to_bits()
    }
    fn from_count(count: usize) -> Self {
        F32(count as f32)
    }
    fn from_i32(number: i32) -> Self {
        F32(number as f32)
    }
    fn to_i32(self) -> i32 {
        self.0 as i32
    }
    fn to_i64(self) -> i64 {
        self.0 as i64
    }
    fn abs(self) -> Self {
        F32(self.0.abs())
    }
    fn copysign(self, sign: Self) -> Self {
        F32(self.0.copysign(sign.0))
    }
    fn sqrt(self) -> Self {
        F32(self.0.sqrt())
    }
    fn floor(self) -> Self {
        F32(self.0.floor())
    }
    fn round(self) -> Self {
        F32(self.0.round())
    }
    fn atan2(self, x: Self) -> Self {
        F32(self.0.atan2(x.0))
    }
}

impl Double for F64 {
    fn from_count(count: usize) -> Self {
        F64(count as f64)
    }
    fn to_radians(self) -> Self {
        F64(self.0.to_radians())
    }
    fn cos(self) -> Self {
        F64(self.0.cos())
    }
    fn sin(self) -> Self {
        F64(self.0.sin())
    }
    fn round(self) -> Self {
        F64(self.0.round())
    }
    fn to_isize(self) -> isize {
        self.0 as isize
    }
}

struct Plan {
    r2c: Arc<dyn RealToComplex<f32>>,
    c2r: Arc<dyn ComplexToReal<f32>>,
    forward: Arc<dyn Fft<f32>>,
    inverse: Arc<dyn Fft<f32>>,
}

fn plan(len: usize) -> Plan {
    let mut real = RealFftPlanner::<f32>::new();
    let mut full = FftPlanner::<f32>::new();
    Plan {
        r2c: real.plan_fft_forward(len),
        c2r: real.plan_fft_inverse(len),
        forward: full.plan_fft_forward(len),
        inverse: full.plan_fft_inverse(len),
    }
}

fn ours(z: &num_complex::Complex32) -> Complex<F32> {
    Complex { re: F32(z.re), im: F32(z.im) }
}

fn theirs(z: &Complex<F32>) -> num_complex::Complex32 {
    num_complex::Complex32::new(z.re.0, z.im.0)
}

impl Transforms<F32> for Plan {
    fn r2c(&self, signal: &[F32]) -> Vec<Complex<F32>> {
        let mut input: Vec<f32> = signal.iter().map(|x| x.0).collect();
        let mut output = self.r2c.make_output_vec();
        self.r2c.process(&mut input, &mut output).unwrap();
        output.iter().map(ours).collect()
    }
    fn c2r(&self, spectrum: &[Complex<F32>]) -> Vec<F32> {
        let mut input: Vec<num_complex::Complex32> = spectrum.iter().map(theirs).collect();
        let mut output = self.c2r.make_output_vec();
        self.c2r.process(&mut input, &mut output).unwrap();
        output.into_iter().map(F32).collect()
    }
    fn fft_real(&self, signal: &[F32]) -> Vec<Complex<F32>> {
        let mut buffer: Vec<num_complex::Complex32> =
            signal.iter().map(|x| num_complex::Complex32::new(x.0, 0.0)).collect();
        self.forward.process(&mut buffer);
        buffer.iter().map(ours).collect()
    }
    fn ifft_complex(&self, spectrum: &[Complex<F32>]) -> Vec<Complex<F32>> {
        let mut buffer: Vec<num_complex::Complex32> = spectrum.iter().map(theirs).collect();
        self.inverse.process(&mut buffer);
        let scale = 1.0 / buffer.len() as f32;
        buffer.iter().map(|z| ours(&(z * scale))).collect()
    }
}

struct NoDynamic;

impl DynamicFilter<F32> for NoDynamic {
    fn sosfiltfilt_dyn(&self, _sos: &[Sos<F32>], _input: &[F32]) -> Vec<F32> {
        panic!("no cascade here is that long")
    }
}

struct Measures;

impl FieldMeasures<F32> for Measures {
    fn rms(&self, samples: &[F32]) -> F64 {
        let power: f64 = samples.iter().map(|x| f64::from(x.0) * f64::from(x.0)).sum();
        F64((power / samples.len() as f64).sqrt())
    }
    fn resolve_slice_bound(&self, len: usize, bound: isize) -> usize {
        let place = if bound < 0 { bound + len as isize } else { bound };
        place.clamp(0, len as isize) as usize
    }
}

struct Tools;

impl BlockTools<F32> for Tools {
    fn roll(&self, samples: &[F32], shift: isize) -> Vec<F32> {
        let mut output = samples.to_vec();
        let len = output.len();
        output.rotate_right(shift.rem_euclid(len as isize) as usize);
        output
    }
    fn chroma_trap(&self, demod: &[F32]) -> Vec<F32> {
        demod.iter().map(|x| F32(x.0 + 100.0)).collect()
    }
    fn shift_chroma_and_remove_dc(&self, filtered: &[F32]) -> Vec<F32> {
        filtered.iter().map(|x| F32(x.0 + 1.0)).collect()
    }
}

fn runtime() -> FilterRuntime<NoDynamic> {
    FilterRuntime { dynamic: NoDynamic, vectorized: false }
}

fn singles(values: &[f32]) -> Vec<F32> {
    values.iter().copied().map(F32).collect()
}

fn c(re: f32, im: f32) -> Complex<F32> {
    Complex { re: F32(re), im: F32(im) }
}

fn identity_section() -> Sos<F32> {
    Sos::new([F32(1.0), F32(0.0), F32(0.0)], [F32(1.0), F32(0.0), F32(0.0)])
}

fn assert_close(a: &[F32], b: &[F32], tolerance: f32) {
    assert_eq!(a.len(), b.len());
    for (k, (x, y)) in a.iter().zip(b).enumerate() {
        assert!((x.0 - y.0).abs() <= tolerance, "{k}: {} {}", x.0, y.0);
    }
}

#[test]
fn real_transforms_undo_each_other() {
    for len in [2usize, 8, 9, 64] {
        let transforms = plan(len);
        let signal: Vec<F32> = (0..len).map(|k| F32((k as f32 * 0.7).sin() + 0.25)).collect();
        let half = rfft_f32(&signal, &transforms);
        assert_eq!(half.len(), len / 2 + 1);
        let n = if len % 2 == 0 { None } else { Some(len) };
        assert_close(&irfft_f32(&half, n, &transforms), &signal, 1e-6);
        assert_close(&irfft_f32(&half, Some(len), &transforms), &signal, 1e-6);
    }
    assert_eq!(irfft_f32::<F32, Plan>(&[], None, &plan(4)), Vec::new());
}

#[test]
fn residue_on_the_outer_bins_is_dropped() {
    let transforms = plan(4);
    let clean = [c(4.0, 0.0), c(1.0, -2.0), c(2.0, 0.0)];
    let dirty = [c(4.0, 9.0), c(1.0, -2.0), c(2.0, 7.0)];
    assert_eq!(
        irfft_f32(&dirty, None, &transforms),
        irfft_f32(&clean, None, &transforms)
    );
}

#[test]
fn analytic_spectra_have_one_side() {
    let half = [c(1.0, 0.5), c(2.0, -1.0), c(3.0, 0.25)];
    assert_eq!(
        analytic_spectrum(&half, 4),
        vec![c(1.0, 0.5), c(4.0, -2.0), c(3.0, 0.25), c(0.0, 0.0)]
    );
    assert_eq!(
        analytic_spectrum(&half, 5),
        vec![c(1.0, 0.5), c(4.0, -2.0), c(6.0, 0.5), c(0.0, 0.0), c(0.0, 0.0)]
    );
    assert_eq!(analytic_spectrum(&half[..2], 2), vec![c(1.0, 0.5), c(2.0, -1.0)]);
}

#[test]
fn analytic_signals_of_a_tone() {
    for len in [64usize, 63] {
        let transforms = plan(len);
        let turn = std::f32::consts::TAU * 5.0 / len as f32;
        let tone: Vec<F32> = (0..len).map(|k| F32((turn * k as f32).cos())).collect();
        let analytic = analytic_antibell(&tone, &transforms, None);
        for (k, z) in analytic.iter().enumerate() {
            let (sin, cos) = (turn * k as f32).sin_cos();
            assert!((z.re.0 - cos).abs() < 1e-4 && (z.im.0 - sin).abs() < 1e-4);
        }
        let mut gain = vec![F32(1.0); len / 2 + 1];
        gain[5] = F32(0.5);
        let shaped = analytic_antibell(&tone, &transforms, Some(&gain));
        for (z, whole) in shaped.iter().zip(&analytic) {
            assert!((z.re.0 - 0.5 * whole.re.0).abs() < 1e-4);
        }
    }
    assert_eq!(analytic_antibell::<F32, Plan>(&[], &plan(4), None), Vec::new());
    let single = analytic_antibell(&singles(&[3.0]), &plan(1), Some(&singles(&[2.0])));
    assert_eq!(single, vec![c(6.0, 0.0)]);
}

#[test]
fn what_one_side_loses_the_other_gains() {
    for len in [1usize, 2, 7, 8] {
        let mut impulse = vec![F32(0.0); len];
        impulse[0] = F32(1.0);
        let analytic = analytic_antibell(&impulse, &plan(len), None);
        assert!((analytic[0].re.0 - 1.0).abs() < 1e-6 && analytic[0].im.0.abs() < 1e-6);
    }
}

#[test]
fn spectra_are_multiplied_bin_by_bin() {
    let mut spectrum = vec![c(1.0, 2.0), c(3.0, -4.0)];
    multiply_spectrum_real(&mut spectrum, &singles(&[2.0, 0.5]));
    assert_eq!(spectrum, vec![c(2.0, 4.0), c(1.5, -2.0)]);
    assert_eq!(multiply_spectrum_sample(c(1.0, 2.0), c(3.0, 5.0)), c(-7.0, 11.0));
    assert_eq!(multiply_spectrum_sample(c(1.0, 2.0), c(2.0, 0.0)), spectrum[0]);
    assert_eq!(
        spectrum_times_filter(&spectrum, &[c(0.0, 1.0), c(1.0, 0.0)]),
        vec![c(-4.0, 2.0), c(1.5, -2.0)]
    );
}

#[test]
fn differences_begin_with_zero() {
    assert_eq!(
        ediff1d_complex_to_begin_zero(&[c(1.0, 1.0), c(4.0, 0.0), c(4.0, 2.0)]),
        vec![c(0.0, 0.0), c(3.0, -1.0), c(0.0, 2.0)]
    );
    assert_eq!(ediff1d_complex_to_begin_zero::<F32>(&[]), vec![c(0.0, 0.0)]);
    assert_eq!(slice_vec(&[1, 2, 3, 4, 5], 1, 2), &[2, 3]);
    assert_eq!(slice_vec(&[1, 2, 3], 1, 2), &[] as &[i32]);
}

#[test]
fn phases_are_rotated() {
    let mut output = singles(&[0.0, 0.0]);
    adjust_phase(&[c(1.0, 0.0), c(0.0, 1.0)], &mut output, F64(90.0), F64(0.0));
    assert_close(&output, &singles(&[0.0, 1.0]), 1e-6);
    adjust_phase(&[c(1.0, 0.0), c(0.0, 1.0)], &mut output, F64(30.0), F64(30.0));
    assert_eq!(output, singles(&[1.0, 0.0]));
}

#[test]
fn bursts_are_normalized_line_by_line() {
    let linelength = 4;
    let lines = 18;
    let mut chroma = vec![F32(5.0); linelength * lines + 3];
    for k in 0..linelength {
        chroma[16 * linelength + k] = F32(if k < 2 { 10.0 } else { -30.0 });
        chroma[17 * linelength + k] = F32(if k < 2 { 0.0 } else { 7.5 });
    }
    let output = acc(&chroma, F32(100.0), 0, 2, linelength, lines, &Measures);
    assert_eq!(output.len(), chroma.len());
    assert!(output[..16 * linelength].iter().all(|&x| x == 32767));
    assert_eq!(output[16 * linelength..17 * linelength], [32867, 32867, 32467, 32467]);
    assert_eq!(output[17 * linelength..18 * linelength], [32767, 32767, 32774, 32774]);
    assert_eq!(output[18 * linelength..], [32767, 32767, 32767]);
}

#[test]
fn line_levels_do_not_matter() {
    let chroma: Vec<F32> = (0..4 * 18).map(|k| F32(((k * 7) % 11) as f32 - 4.0)).collect();
    let other: Vec<F32> = chroma
        .iter()
        .enumerate()
        .map(|(k, x)| match k / 4 {
            16 => F32(x.0 * 4.0),
            17 => F32(x.0 * 0.25),
            _ => F32(99.0),
        })
        .collect();
    assert_eq!(
        acc(&chroma, F32(100.0), 0, 2, 4, 18, &Measures),
        acc(&other, F32(100.0), 0, 2, 4, 18, &Measures)
    );
}

#[test]
fn levels_beyond_sixteen_bits_wrap() {
    assert_eq!(encoded(F32(0.0), F32(1.0)), 32767);
    assert_eq!(encoded(F32(32768.0), F32(1.0)), 65535);
    assert_eq!(encoded(F32(32769.0), F32(1.0)), 0);
    assert_eq!(encoded(F32(-32768.0), F32(1.0)), 65535);
    assert_eq!(encoded(F32(-32767.5), F32(1.0)), 0);
    assert_eq!(encoded(F32(f32::NAN), F32(1.0)), 0);
}

fn field(lines: usize, linelength: usize) -> ChromaField<F64> {
    ChromaField {
        lineoffset: 2,
        outlinelen: linelength,
        outlinecount: lines,
        phase_sequence: Some(
            (0..lines).map(|k| LinePhase { linenumber: k + 3, phase: k % 2 }).collect(),
        ),
        burst_phase_avg: Some(F64(0.0)),
    }
}

#[test]
fn lines_are_mixed_with_the_carrier_of_their_phase() {
    let chroma = singles(&[1.0, 2.0, 3.0, 4.0, 5.0, 6.0]);
    let mut two_lines = field(2, 2);
    let heterodyne = vec![vec![F32(10.0); 6], vec![F32(-1.0); 6]];
    assert_eq!(
        upconvert_chroma(&chroma, &two_lines, &heterodyne, &Measures),
        Ok(singles(&[10.0, 20.0, -3.0, -4.0, 0.0, 0.0]))
    );
    two_lines.phase_sequence = Some(vec![LinePhase { linenumber: 2, phase: 1 }]);
    assert!(have_carriers(
        &chroma,
        &two_lines,
        &[LinePhase { linenumber: 2, phase: 1 }],
        &heterodyne,
        &Measures
    ));
    assert_eq!(
        upconvert_chroma(&chroma, &two_lines, &heterodyne, &Measures),
        Ok(singles(&[0.0; 6]))
    );
    assert!(!have_carriers(
        &chroma,
        &two_lines,
        &[LinePhase { linenumber: 3, phase: 2 }],
        &heterodyne,
        &Measures
    ));
    two_lines.phase_sequence = None;
    let missing = upconvert_chroma(&chroma, &two_lines, &heterodyne, &Measures);
    assert_eq!(missing, Err(ChromaError::PhaseSequence));
    assert_eq!(ChromaError::PhaseSequence.message(), "missing phase sequence");
}

#[test]
fn chroma_behind_the_burst_is_doubled() {
    let mut chroma = vec![F32(1.0); 21];
    burst_deemphasis(&mut chroma, &field(2, 10), 3);
    let mut want = vec![F32(1.0); 21];
    for k in [8, 9, 18, 19] {
        want[k] = F32(2.0);
    }
    assert_eq!(chroma, want);
}

fn naive_comb(data: &[F32], line_len: usize, distance: usize) -> Vec<F32> {
    let lines = data.len() / line_len;
    let mut output = data.to_vec();
    for line in 16..lines.saturating_sub(2) {
        for k in line * line_len..(line + 1) * line_len {
            let ahead = data[k + distance * line_len].0;
            let behind = data[k - distance * line_len].0;
            output[k] = F32((data[k].0 * 2.0 - ahead - behind) / 4.0);
        }
    }
    output
}

#[test]
fn combs_compare_with_the_lines_as_they_were() {
    for distance in [1, 2] {
        for lines in [1, 2, 3, 18, 19, 20, 30] {
            let data: Vec<F32> =
                (0..lines * 5 + 3).map(|k| F32(((k * k * 31) % 97) as f32)).collect();
            let mut combed = data.clone();
            comb_c(&mut combed, 5, distance);
            assert_eq!(combed, naive_comb(&data, 5, distance));
        }
    }
}

#[test]
fn combs_remove_what_repeats_and_keep_what_alternates() {
    let mut repeating: Vec<F32> = (0..24 * 4).map(|k| F32((k % 4) as f32)).collect();
    let mut alternating: Vec<F32> = (0..24 * 4)
        .map(|k| F32(if (k / 4) % 2 == 0 { 1.0 } else { -1.0 } * (k % 4) as f32))
        .collect();
    let before = alternating.clone();
    comb_c(&mut repeating, 4, 1);
    comb_c(&mut alternating, 4, 1);
    assert!(repeating[16 * 4..22 * 4].iter().all(|x| x.0 == 0.0));
    assert_eq!(alternating, before);
}

#[test]
fn deemphasis_starts_settled() {
    let smoothing = Sos::new([F32(0.5), F32(0.0), F32(0.0)], [F32(1.0), F32(-0.5), F32(0.0)]);
    let output = deemphasis_lf(&[smoothing], &singles(&[4.0; 10]));
    assert_close(&output, &singles(&[4.0; 10]), 1e-6);
    assert_eq!(deemphasis_lf::<F32>(&[smoothing], &[]), Vec::new());
    let step = deemphasis_lf(&[smoothing], &singles(&[0.0, 1.0, 1.0]));
    assert_eq!(step, singles(&[0.0, 0.5, 0.75]));
}

#[test]
fn limiting_leaves_the_angle() {
    let mut analytic = vec![c(3.0, 4.0), c(0.0, 0.0), c(1e-13, 0.0), c(0.0, -2.0)];
    hard_limit(&mut analytic);
    assert_eq!(analytic, vec![c(0.6, 0.8), c(0.0, 0.0), c(1e-13, 0.0), c(0.0, -1.0)]);
}

#[test]
fn steps_show_the_advance() {
    let spin = [c(1.0, 0.0), c(0.0, 2.0), c(-3.0, 0.0)];
    assert_eq!(cross_products(&spin), vec![c(0.0, 2.0), c(0.0, 2.0), c(0.0, 6.0)]);
    assert_eq!(cross_products(&spin[..1]), vec![c(0.0, 0.0)]);
    assert_eq!(cross_products::<F32>(&[]), Vec::new());
    let strong = [c(2.0, 0.0), c(0.0, 4.0), c(-6.0, 0.0)];
    assert_eq!(cross_products(&strong), vec![c(0.0, 8.0), c(0.0, 8.0), c(0.0, 24.0)]);
    let quarter = discriminate(&[c(0.0, 1.0); 6], 5, F32(2.0));
    for frequency in quarter {
        assert_eq!(frequency, F32(std::f32::consts::FRAC_PI_2 * 2.0));
    }
    let mixed = discriminate(&[c(1.0, 0.0), c(0.0, 1.0)], 0, F32(1.0));
    assert_eq!(mixed, singles(&[0.0, std::f32::consts::FRAC_PI_2]));
}

#[test]
fn lines_without_a_porch_are_not_measured() {
    let steps = vec![c(1.0, 1.0); 30];
    let sequence = [
        LinePhase { linenumber: 1, phase: 0 },
        LinePhase { linenumber: 3, phase: 0 },
        LinePhase { linenumber: 4, phase: 0 },
        LinePhase { linenumber: 6, phase: 0 },
    ];
    let lines = measure_lines(
        &steps,
        &field(3, 10),
        &sequence,
        Porch { lo: 2, hi: 6 },
        F32(4.0),
    );
    let starts: Vec<usize> = lines.iter().map(|line| line.linestart).collect();
    assert_eq!(starts, vec![0, 10]);
    assert_eq!(lines[0].bp_freq, F32(std::f32::consts::PI));
    let nothing = vec![c(f32::NAN, 1.0); 30];
    assert!(
        measure_lines(&nothing, &field(3, 10), &sequence, Porch { lo: 2, hi: 6 }, F32(4.0))
            .is_empty()
    );
    assert!(
        measure_lines(&steps, &field(3, 10), &sequence, Porch { lo: 6, hi: 6 }, F32(4.0))
            .is_empty()
    );
}

#[test]
fn one_misread_line_changes_no_phasing() {
    let mut lines: Vec<SecamLine<F32>> = (0..9)
        .map(|k| SecamLine {
            linestart: k * 10,
            bp_freq: F32(if k % 2 == 0 { 4.40 } else { 4.25 }),
        })
        .collect();
    let phasing = choose_phasing(&lines, 10);
    assert!(phasing.even_is_high);
    assert_eq!((phasing.high, phasing.low), (F32(4.40), F32(4.25)));
    lines[4].bp_freq = F32(4.25);
    let misread = choose_phasing(&lines, 10);
    assert!(misread.even_is_high);
    assert_eq!((misread.high, misread.low), (F32(4.40), F32(4.25)));
    for line in &mut lines {
        line.linestart += 10;
    }
    assert!(!choose_phasing(&lines, 10).even_is_high);
    let alone = choose_phasing(&lines[..1], 10);
    assert_eq!((alone.high, alone.low), (F32(4.40), F32(4.40)));
}

const SECAM_LINE: usize = 200;
const SECAM_LINES: usize = 20;
const SECAM_RATE: f64 = 17.734475;

fn secam_spec(mode: SecamMode) -> ChromaSpec<F32> {
    ChromaSpec {
        color_system: ColorSystem::Secam,
        write_chroma: true,
        chroma_afc: false,
        disable_comb: true,
        disable_phase_correction: false,
        outfreq: F64(SECAM_RATE),
        place_adjust: F64(0.0),
        active_video_us: [F64(60.0 / SECAM_RATE), F64(190.0 / SECAM_RATE)],
        burst_area: (10, 50),
        burst_abs_ref: Some(F32(1000.0)),
        filter_final: vec![identity_section()],
        filter_deemphasis: None,
        secam_params: Some(SecamParams {
            sens_ry_hz: F64(532e3),
            sens_by_hz: F64(345e3),
            compress_v: F32(0.877),
            compress_u: F32(0.493),
            burst_amplitude: F32(0.15),
            baseband_lpf_hz: F64(1.3e6),
            bell_centre_hz: F64(4.286e6),
            bell_q: F64(16.0),
            lf_deemph_pole_hz: F64(85e3),
            lf_deemph_k: F64(3.0),
        }),
        secam_mode: Some(mode),
        secam_deemphasis: false,
        secam_disc_window: 5,
        secam_median_window: 27,
        secam_antibell_gain: None,
        secam_lf_deemphasis: None,
        secam_baseband_lpf: None,
        fsc_wave: (0..SECAM_LINE * SECAM_LINES)
            .map(|k| match k % 4 {
                0 => (F32(0.0), F32(1.0)),
                1 => (F32(1.0), F32(0.0)),
                2 => (F32(0.0), F32(-1.0)),
                _ => (F32(-1.0), F32(0.0)),
            })
            .collect(),
    }
}

fn secam_field() -> ChromaField<F64> {
    ChromaField {
        lineoffset: 0,
        outlinelen: SECAM_LINE,
        outlinecount: SECAM_LINES,
        phase_sequence: Some(
            (0..SECAM_LINES).map(|k| LinePhase { linenumber: k + 1, phase: 0 }).collect(),
        ),
        burst_phase_avg: None,
    }
}

fn secam_signal() -> Vec<F32> {
    let mut phase = 0.0f64;
    (0..SECAM_LINE * SECAM_LINES)
        .map(|k| {
            let even = (k / SECAM_LINE) % 2 == 0;
            let shows = k % SECAM_LINE >= 55;
            let frequency = match (even, shows) {
                (true, false) => 4.40625e6,
                (true, true) => 4.40625e6 - 100e3,
                (false, false) => 4.25e6,
                (false, true) => 4.25e6 + 80e3,
            };
            phase += std::f64::consts::TAU * frequency / (SECAM_RATE * 1e6);
            F32(phase.cos() as f32)
        })
        .collect()
}

#[test]
fn secam_windows_lie_on_the_line() {
    let mut spec = secam_spec(SecamMode::RawDemod);
    let windows = secam_windows(&spec, SECAM_LINE);
    assert_eq!((windows.porch.lo, windows.porch.hi), (18, 46));
    assert_eq!((windows.burst_lo, windows.burst_hi), (10, 50));
    assert_eq!((windows.active_lo, windows.active_hi), (60, 190));
    spec.place_adjust = F64(20.4);
    spec.burst_area = (-3, 300);
    let windows = secam_windows(&spec, SECAM_LINE);
    assert_eq!((windows.porch.lo, windows.porch.hi), (5, 296));
    assert_eq!((windows.burst_lo, windows.burst_hi), (0, SECAM_LINE));
    assert_eq!((windows.active_lo, windows.active_hi), (80, SECAM_LINE));
    spec.place_adjust = F64(-100.0);
    assert_eq!(secam_windows(&spec, SECAM_LINE).active_lo, 0);
}

#[test]
fn secam_lines_are_demodulated() {
    let transforms = plan(SECAM_LINE * SECAM_LINES);
    let mut raw = secam_signal();
    let result = process_secam_chroma(
        &mut raw,
        &secam_field(),
        &secam_spec(SecamMode::RawDemod),
        &transforms,
        &runtime(),
    );
    assert_eq!(result, Ok(()));
    for line in 1..SECAM_LINES - 1 {
        let want = if line % 2 == 0 { 100.0 / 532.0 } else { 80.0 / 345.0 };
        for k in 90..160 {
            let got = raw[line * SECAM_LINE + k].0;
            assert!((got - want).abs() < 0.02, "{line} {k}: {got} {want}");
        }
        for k in (0..10).chain(50..60).chain(190..200) {
            assert_eq!(raw[line * SECAM_LINE + k], F32(0.0));
        }
    }

    let mut pal = secam_signal();
    let spec = secam_spec(SecamMode::PseudoPal);
    let result = process_secam_chroma(&mut pal, &secam_field(), &spec, &transforms, &runtime());
    assert_eq!(result, Ok(()));
    for k in 0..pal.len() {
        let even = (k / SECAM_LINE) % 2 == 0;
        let (sin, cos) = spec.fsc_wave[k];
        let column = k % SECAM_LINE;
        if (10..50).contains(&column) {
            assert_eq!(pal[k], raw[k]);
            let swing = if even { 1.0 } else { -1.0 };
            let want = std::f32::consts::FRAC_1_SQRT_2 * 0.15 * (-cos.0 - swing * sin.0);
            assert_eq!(pal[k], F32(want));
        } else if (60..190).contains(&column) {
            let want = if even {
                -0.877 * raw[k].0 * sin.0
            } else {
                0.493 * raw[k].0 * cos.0
            };
            assert_eq!(pal[k].0, want);
        } else {
            assert_eq!(pal[k], F32(0.0));
        }
    }
}

#[test]
fn secam_deemphasis_limits_the_amplitude() {
    let transforms = plan(SECAM_LINE * SECAM_LINES);
    let mut spec = secam_spec(SecamMode::RawDemod);
    spec.secam_deemphasis = true;
    spec.secam_antibell_gain = Some(vec![F32(3.0); SECAM_LINE * SECAM_LINES / 2 + 1]);
    spec.secam_lf_deemphasis = Some(vec![identity_section()]);
    spec.secam_baseband_lpf = Some(vec![identity_section()]);
    let mut shaped = secam_signal();
    let tried = try_secam_chroma(&mut shaped, &secam_field(), &spec, &transforms, &runtime());
    assert_eq!(tried, Some(Ok(())));
    assert!((shaped[4 * SECAM_LINE + 100].0 - 100.0 / 532.0).abs() < 0.02);
}

#[test]
fn secam_lacks_are_named() {
    let transforms = plan(SECAM_LINE * SECAM_LINES);
    let signal = secam_signal();

    let mut spec = secam_spec(SecamMode::RawDemod);
    spec.secam_params = None;
    let mut uphet = signal.clone();
    let result =
        process_secam_chroma(&mut uphet, &secam_field(), &spec, &transforms, &runtime());
    assert_eq!(result, Err(ChromaError::SecamParams));
    assert_eq!(
        ChromaError::SecamParams.message(),
        "missing SECAM parameters for chroma decoding"
    );

    let spec = secam_spec(SecamMode::RawDemod);
    let mut lost = secam_field();
    lost.phase_sequence = None;
    let result = process_secam_chroma(&mut uphet, &lost, &spec, &transforms, &runtime());
    assert_eq!(result, Err(ChromaError::SecamPhaseSequence));
    assert_eq!(
        ChromaError::SecamPhaseSequence.message(),
        "missing phase sequence for SECAM chroma decoding"
    );

    lost.outlinecount = 0;
    let result = process_secam_chroma(&mut uphet, &lost, &spec, &transforms, &runtime());
    assert_eq!(result, Ok(()));

    let mut early = secam_field();
    early.lineoffset = 1000;
    let result = process_secam_chroma(&mut uphet, &early, &spec, &transforms, &runtime());
    assert_eq!(result, Ok(()));
    assert_eq!(uphet, signal);
}

#[test]
fn secam_fields_that_cannot_be_decoded_are_left_alone() {
    let transforms = plan(SECAM_LINE * SECAM_LINES);
    let signal = secam_signal();
    let mut uphet = signal.clone();
    let mut spec = secam_spec(SecamMode::PseudoPal);
    spec.fsc_wave.truncate(100);
    let tried = try_secam_chroma(&mut uphet, &secam_field(), &spec, &transforms, &runtime());
    assert_eq!(tried, None);

    let mut spec = secam_spec(SecamMode::RawDemod);
    spec.secam_antibell_gain = Some(singles(&[1.0; 5]));
    let tried = try_secam_chroma(&mut uphet, &secam_field(), &spec, &transforms, &runtime());
    assert_eq!(tried, None);

    let mut spec = secam_spec(SecamMode::RawDemod);
    spec.burst_area = (-20, 2);
    let tried = try_secam_chroma(&mut uphet, &secam_field(), &spec, &transforms, &runtime());
    assert_eq!(tried, None);
    let mut first = secam_field();
    first.phase_sequence = Some(vec![LinePhase { linenumber: 1, phase: 0 }]);
    let tried = try_secam_chroma(&mut uphet, &first, &spec, &transforms, &runtime());
    assert_eq!(tried, Some(Ok(())));
    first.phase_sequence = Some(Vec::new());
    let tried = try_secam_chroma(&mut uphet, &first, &spec, &transforms, &runtime());
    assert_eq!(tried, Some(Ok(())));

    let mut spec = secam_spec(SecamMode::RawDemod);
    spec.secam_baseband_lpf = Some(vec![Sos::new([F32(1.0); 3], [F32(0.0); 3])]);
    let tried = try_secam_chroma(&mut uphet, &secam_field(), &spec, &transforms, &runtime());
    assert_eq!(tried, None);
    assert_eq!(uphet, signal);
}

fn tape(len: usize) -> TapeChroma<F32> {
    TapeChroma {
        samples: (0..len).map(|k| F32((k as f32 * 1.3).sin())).collect(),
        heterodyne: vec![vec![F32(1.0); len], vec![F32(-1.0); len]],
    }
}

fn plain_spec(color_system: ColorSystem) -> ChromaSpec<F32> {
    let mut spec = secam_spec(SecamMode::RawDemod);
    spec.color_system = color_system;
    spec.secam_mode = None;
    spec.burst_area = (1, 3);
    spec
}

#[test]
fn pal_fields_are_filtered_combed_and_encoded() {
    let len = 12 * 20;
    let chroma = tape(len);
    let mut spec = plain_spec(ColorSystem::Pal);
    spec.disable_comb = false;
    spec.filter_deemphasis =
        Some(vec![Sos::new([F32(0.5), F32(0.0), F32(0.0)], [F32(1.0), F32(0.0), F32(0.0)])]);
    let field = field(20, 12);
    let output =
        process_chroma_internal(&chroma, &field, &spec, &plan(len), &runtime(), &Measures);
    let mut want: Vec<F32> = (0..len)
        .map(|k| F32(chroma.samples[k].0 * if (k / 12) % 2 == 0 { 0.5 } else { -0.5 }))
        .collect();
    want = naive_comb(&want, 12, 2);
    assert_eq!(output, Ok(acc(&want, F32(1000.0), 1, 3, 12, 20, &Measures)));
}

#[test]
fn ntsc_fields_are_levelled_and_rotated() {
    let len = 12 * 20;
    let chroma = tape(len);
    let mut spec = plain_spec(ColorSystem::Ntsc);
    let mut field = field(20, 12);
    spec.disable_phase_correction = true;
    let plain = process_chroma_internal(&chroma, &field, &spec, &plan(len), &runtime(), &Measures);
    let want: Vec<F32> = (0..len)
        .map(|k| {
            let sign = if (k / 12) % 2 == 0 { 1.0 } else { -1.0 };
            let level = if k % 12 >= 8 { 2.0 } else { 1.0 };
            F32(chroma.samples[k].0 * level * sign)
        })
        .collect();
    assert_eq!(plain, Ok(acc(&want, F32(1000.0), 1, 3, 12, 20, &Measures)));

    spec.disable_phase_correction = false;
    field.burst_phase_avg = Some(F64(0.0));
    let turned = process_chroma_internal(&chroma, &field, &spec, &plan(len), &runtime(), &Measures)
        .unwrap();
    for (x, y) in turned.iter().zip(&plain.unwrap()) {
        assert!((i32::from(*x) - i32::from(*y)).abs() <= 2);
    }

    field.burst_phase_avg = None;
    let lost = process_chroma_internal(&chroma, &field, &spec, &plan(len), &runtime(), &Measures);
    assert_eq!(lost, Err(ChromaError::BurstPhase));
    assert_eq!(ChromaError::BurstPhase.message(), "missing burst phase avg");
}

#[test]
fn chroma_lacks_are_named() {
    let len = 12 * 20;
    let chroma = tape(len);
    let mut spec = plain_spec(ColorSystem::Pal);
    let mut lines = field(20, 12);
    spec.burst_abs_ref = None;
    let lost = process_chroma_internal(&chroma, &lines, &spec, &plan(len), &runtime(), &Measures);
    assert_eq!(lost, Err(ChromaError::BurstReference));
    assert_eq!(ChromaError::BurstReference.message(), "missing burst_abs_ref");
    lines.phase_sequence = None;
    let lost = process_chroma_internal(&chroma, &lines, &spec, &plan(len), &runtime(), &Measures);
    assert_eq!(lost, Err(ChromaError::PhaseSequence));

    let mut ntsc = plain_spec(ColorSystem::Ntsc);
    ntsc.burst_area = (-9, -3);
    lines.outlinecount = 0;
    assert_eq!(
        try_chroma(&chroma, &lines, &ntsc, &plan(len), &runtime(), &Measures),
        Some(Err(ChromaError::PhaseSequence))
    );
    lines.outlinecount = 20;
    assert_eq!(try_chroma(&chroma, &lines, &ntsc, &plan(len), &runtime(), &Measures), None);
    let mut unmeasured = secam_spec(SecamMode::RawDemod);
    unmeasured.burst_area = (-20, 2);
    unmeasured.burst_abs_ref = None;
    lines.phase_sequence = Some(Vec::new());
    assert_eq!(
        try_chroma(&chroma, &lines, &unmeasured, &plan(len), &runtime(), &Measures),
        Some(Err(ChromaError::BurstReference))
    );

    let spec = plain_spec(ColorSystem::Pal);
    let few = field(16, 12);
    assert_eq!(try_chroma(&chroma, &few, &spec, &plan(len), &runtime(), &Measures), None);
    let long = field(21, 12);
    assert_eq!(try_chroma(&chroma, &long, &spec, &plan(len), &runtime(), &Measures), None);
}

#[derive(Debug, PartialEq)]
struct Tape {
    steps: Vec<&'static str>,
    fails: &'static str,
    shift: isize,
}

fn fresh_tape(fails: &'static str) -> Tape {
    Tape { steps: Vec::new(), fails, shift: 0 }
}

impl Tape {
    fn step<R>(mut self, name: &'static str, value: R) -> (Self, Result<R, &'static str>) {
        self.steps.push(name);
        let result = if self.fails == name { Err(name) } else { Ok(value) };
        (self, result)
    }
}

impl ChromaTape<F32> for Tape {
    type Error = &'static str;
    type Bandpass = F32;

    fn downscale(self) -> (Self, Result<Vec<F32>, &'static str>) {
        self.step("downscale", tape(12 * 20).samples)
    }
    fn bandpass(self) -> (Self, Result<F32, &'static str>) {
        self.step("bandpass", F32(3.0))
    }
    fn filtered(&self, chroma: &Vec<F32>, bandpass: &F32, shift: isize) -> Vec<F32> {
        assert_eq!(*bandpass, F32(3.0));
        chroma.iter().map(|x| F32(x.0 * shift as f32)).collect()
    }
    fn track(self, _chroma: &Vec<F32>) -> (Self, Result<(), &'static str>) {
        self.step("track", ())
    }
    fn heterodyne(&self) -> Vec<Vec<F32>> {
        vec![vec![F32(self.steps.len() as f32); 12 * 20]; 2]
    }
}

#[test]
fn followed_chroma_is_filtered_before_its_carrier_is_updated() {
    assert_eq!(tracking_shift(F64(40.0)), 10);
    assert_eq!(tracking_shift(F64(17.734475)), 4);
    assert_eq!(tracking_shift(F64(0.0)), 0);
    let (end, plain) = acquire_chroma(fresh_tape(""), false, F64(8.0));
    assert_eq!(end.steps, vec!["downscale"]);
    let plain = plain.unwrap_or_else(|_| unreachable!());
    assert_eq!(plain.samples, tape(12 * 20).samples);
    assert_eq!(plain.heterodyne[1][5], F32(1.0));
    let (end, followed) = acquire_chroma(fresh_tape(""), true, F64(8.0));
    assert_eq!(end.steps, vec!["downscale", "bandpass", "track"]);
    let followed = followed.unwrap_or_else(|_| unreachable!());
    assert_eq!(followed.samples[7], F32(plain.samples[7].0 * 2.0));
    assert_eq!(followed.heterodyne[1][5], F32(3.0));
    for (fails, steps) in [("downscale", 1), ("bandpass", 2), ("track", 3)] {
        let (end, failed) = acquire_chroma(fresh_tape(fails), true, F64(8.0));
        assert_eq!(end.steps.len(), steps);
        assert!(matches!(failed, Err(name) if name == fails));
    }
}

#[test]
fn chroma_is_acquired_only_where_it_is_wanted() {
    let len = 12 * 20;
    let field = field(20, 12);
    let mut spec = plain_spec(ColorSystem::Monochrome);
    let (end, result) =
        decode_chroma(fresh_tape(""), &field, &spec, &plan(len), &runtime(), &Measures);
    assert!(end.steps.is_empty() && matches!(result, Ok(None)));
    spec.color_system = ColorSystem::Pal;
    spec.write_chroma = false;
    let (end, result) =
        decode_chroma(fresh_tape(""), &field, &spec, &plan(len), &runtime(), &Measures);
    assert!(end.steps.is_empty() && matches!(result, Ok(None)));
    spec.write_chroma = true;
    let (_, result) =
        decode_chroma(fresh_tape("downscale"), &field, &spec, &plan(len), &runtime(), &Measures);
    assert!(matches!(result, Err(DecodeError::Acquire("downscale"))));
    let (end, result) =
        decode_chroma(fresh_tape(""), &field, &spec, &plan(len), &runtime(), &Measures);
    assert_eq!(end.steps.len(), 1);
    assert!(matches!(result, Ok(Some(output)) if output.len() == len));
    spec.chroma_afc = true;
    let (end, result) =
        decode_chroma(fresh_tape(""), &field, &spec, &plan(len), &runtime(), &Measures);
    assert_eq!(end.steps.len(), 3);
    assert!(matches!(result, Ok(Some(output)) if output.len() == len));
    spec.burst_abs_ref = None;
    let (_, result) =
        decode_chroma(fresh_tape(""), &field, &spec, &plan(len), &runtime(), &Measures);
    assert!(matches!(result, Err(DecodeError::Chroma(ChromaError::BurstReference))));
    spec.burst_area = (9, 3);
    spec.burst_abs_ref = Some(F32(1.0));
    let (_, result) =
        decode_chroma(fresh_tape(""), &field, &spec, &plan(len), &runtime(), &Measures);
    assert!(matches!(result, Err(DecodeError::Unfit)));
}

#[test]
fn spectra_are_needed_only_where_they_are_read() {
    let mut lines = field(20, 12);
    assert!(needs_transforms(&lines, &plain_spec(ColorSystem::Ntsc)));
    assert!(!needs_transforms(&lines, &plain_spec(ColorSystem::Pal)));
    assert!(needs_transforms(&lines, &secam_spec(SecamMode::RawDemod)));
    lines.burst_phase_avg = None;
    assert!(!needs_transforms(&lines, &plain_spec(ColorSystem::Ntsc)));
    lines.phase_sequence = None;
    assert!(!needs_transforms(&lines, &secam_spec(SecamMode::RawDemod)));
}

const BLOCK: usize = 256;
const BINS: usize = BLOCK / 2 + 1;

fn sub_settings() -> SubDeemphasis<F32> {
    SubDeemphasis {
        deviation: F32(2.0),
        static_factor: None,
        amplitude_lpf: vec![identity_section()],
        scaling_1: None,
        exp_scaling: F32(1.0),
        scaling_2: None,
        logistic: None,
    }
}

fn block_spec() -> BlockSpec<F32> {
    BlockSpec {
        color_system: ColorSystem::Pal,
        blocksize: BLOCK,
        blockcut: 16,
        blockcut_end: 8,
        video05_offset: 3,
        notch_filter: None,
        rf_filter: vec![F32(1.0); BINS],
        env_post_filter: vec![identity_section()],
        high_boost: None,
        rf_top_gain: None,
        freq_hz: F64(BLOCK as f64),
        ire0: F32(10.0),
        white_hz: F64(1e6),
        disable_diff_demod: false,
        eq_gain: None,
        chroma_trap: false,
        export_raw_tbc: false,
        video_filter: vec![c(1.0, 0.0); BINS],
        video05_filter: vec![c(1.0, 0.0); BINS],
        nldeemp_enabled: false,
        nl_high_pass: None,
        highpass_limit_l: F32(-1.0),
        highpass_limit_h: F32(1.0),
        subdeemp_enabled: false,
        subdeemp: sub_settings(),
        fsc_notch: None,
        chroma_afc: false,
        burst_gain: vec![F32(1.0); BINS],
    }
}

fn channels() -> VideoChannels<F32> {
    VideoChannels {
        demod: singles(&[7.0]),
        demod_05: Vec::new(),
        demod_burst: Vec::new(),
        envelope: Vec::new(),
    }
}

fn carrier(cycles: usize) -> Vec<F32> {
    let turn = std::f64::consts::TAU * cycles as f64 / BLOCK as f64;
    (0..BLOCK).map(|k| F32((turn * k as f64 + 0.3).cos() as f32)).collect()
}

#[test]
fn blocks_show_the_frequency_of_their_carrier() {
    let spec = block_spec();
    assert!(spec.can_condition_rf() && spec.can_boost_high() && spec.can_demodulate());
    let rf = carrier(40);
    let mut out = channels();
    let outcome = decode_video_block(&rf, &spec, &plan(BLOCK), &runtime(), &Tools, &mut out);
    assert!(!outcome.weak_signal);
    assert_eq!(outcome.result, Ok(()));
    let kept = BLOCK - 24;
    assert_eq!(out.demod.len(), 1 + kept);
    assert_eq!(out.demod[0], F32(7.0));
    assert_eq!(out.demod_05.len(), kept);
    assert_eq!(out.demod_burst.len(), kept);
    assert_eq!(out.envelope.len(), kept);
    for sample in out.demod[1..].iter().chain(&out.demod_05) {
        assert!((sample.0 - 40.0).abs() < 0.1, "{}", sample.0);
    }
    for k in 0..kept {
        let rolled = (16 + k + BLOCK - 4) % BLOCK;
        assert!((out.envelope[k].0 - rf[rolled].0.abs()).abs() < 1e-4);
        assert!((out.demod_burst[k].0 - rf[16 + k].0 - 1.0).abs() < 1e-4);
    }
}

#[test]
fn blocks_apply_what_is_wanted() {
    let rf = carrier(40);
    let mut spec = block_spec();
    spec.notch_filter = Some(vec![F32(0.5); BINS + 4]);
    spec.eq_gain = Some(vec![F32(2.0); BINS]);
    spec.chroma_trap = true;
    spec.fsc_notch = Some(vec![identity_section()]);
    spec.high_boost = Some(F32(0.1));
    spec.rf_top_gain = Some(vec![F32(0.0); BINS]);
    spec.chroma_afc = true;
    spec.export_raw_tbc = true;
    assert!(spec.can_condition_rf() && spec.can_boost_high() && spec.can_demodulate());
    let mut out = channels();
    let mut longer = rf.clone();
    longer.extend(singles(&[5.0; 9]));
    let outcome = decode_video_block(&longer, &spec, &plan(BLOCK), &runtime(), &Tools, &mut out);
    assert_eq!(outcome.result, Ok(()));
    assert_eq!(out.demod_burst, longer[16..longer.len() - 8]);
    for sample in &out.demod[1..] {
        assert!((sample.0 - (30.0 * 2.0 + 100.0 + 10.0)).abs() < 0.5, "{}", sample.0);
    }
    for (k, sample) in out.envelope.iter().enumerate() {
        let rolled = (16 + k + BLOCK - 4) % BLOCK;
        assert!((sample.0 - 0.5 * rf[rolled].0.abs()).abs() < 1e-4);
    }

    spec.chroma_afc = false;
    spec.color_system = ColorSystem::Monochrome;
    let mut out = channels();
    let outcome = decode_video_block(&rf, &spec, &plan(BLOCK), &runtime(), &Tools, &mut out);
    assert_eq!(outcome.result, Ok(()));
    for sample in &out.demod_burst {
        assert!((sample.0 - 161.0).abs() < 0.5, "{}", sample.0);
    }
}

#[test]
fn boosted_blocks_raise_the_upper_band() {
    let turn = |cycles: f64, k: usize| std::f64::consts::TAU * cycles * k as f64 / BLOCK as f64;
    let rf: Vec<F32> = (0..BLOCK)
        .map(|k| F32((turn(20.0, k).cos() + 0.6 * turn(30.0, k).cos()) as f32))
        .collect();
    let mut spec = block_spec();
    spec.disable_diff_demod = true;
    spec.env_post_filter =
        vec![Sos::new([F32(0.02), F32(0.0), F32(0.0)], [F32(1.0), F32(-0.98), F32(0.0)])];
    let mut plain = channels();
    decode_video_block(&rf, &spec, &plan(BLOCK), &runtime(), &Tools, &mut plain);
    spec.high_boost = Some(F32(1.0));
    spec.rf_top_gain =
        Some((0..BINS).map(|bin| F32(if bin > 25 { 1.0 } else { 0.0 })).collect());
    let mut boosted = channels();
    decode_video_block(&rf, &spec, &plan(BLOCK), &runtime(), &Tools, &mut boosted);
    let mean = |samples: &[F32]| {
        samples.iter().map(|x| f64::from(x.0)).sum::<f64>() / samples.len() as f64
    };
    assert!((mean(&plain.demod[1..]) - 20.0).abs() < 2.0);
    assert!((mean(&boosted.demod[1..]) - 30.0).abs() < 2.0);
}

#[test]
fn weak_blocks_are_not_boosted() {
    let mut spec = block_spec();
    spec.high_boost = Some(F32(1.0));
    let silence = vec![F32(0.0); BLOCK];
    let mut out = channels();
    let outcome = decode_video_block(&silence, &spec, &plan(BLOCK), &runtime(), &Tools, &mut out);
    assert!(outcome.weak_signal);
    assert_eq!(outcome.result, Ok(()));
    assert_eq!(out.envelope, vec![F32(0.0); BLOCK - 24]);
}

#[test]
fn spikes_in_a_block_are_replaced() {
    let mut spec = block_spec();
    spec.disable_diff_demod = true;
    let mut rf = carrier(40);
    for sample in &mut rf[100..103] {
        *sample = F32(0.0);
    }
    rf[101] = F32(0.9);
    let mut rough = channels();
    decode_video_block(&rf, &spec, &plan(BLOCK), &runtime(), &Tools, &mut rough);
    let peak = rough.demod.iter().fold(f32::MIN, |a, x| a.max(x.0));
    spec.disable_diff_demod = false;
    spec.white_hz = F64(f64::from(peak) * 0.45);
    let mut calm = channels();
    decode_video_block(&rf, &spec, &plan(BLOCK), &runtime(), &Tools, &mut calm);
    let differs = rough
        .demod
        .iter()
        .zip(&calm.demod)
        .filter(|(a, b)| (a.0 - b.0).abs() > 0.5)
        .count();
    let calm_peak = calm.demod.iter().fold(f32::MIN, |a, x| a.max(x.0));
    assert!(calm_peak < peak, "{calm_peak} {peak}");
    assert!(differs > 0 && differs < BLOCK / 2, "{differs}");
}

#[test]
fn block_errors_leave_the_channels_alone() {
    let rf = carrier(40);
    let transforms = plan(BLOCK);
    let mut out = channels();
    let spec = block_spec();
    let outcome =
        decode_video_block(&rf[..BLOCK - 1], &spec, &transforms, &runtime(), &Tools, &mut out);
    let short = BlockError::ShortInput { len: BLOCK - 1, blocklen: BLOCK };
    assert_eq!(outcome.result, Err(short));
    assert_eq!(short.message(), "rawdata length 255 is shorter than blocklen 256");

    let mut spec = block_spec();
    spec.high_boost = Some(F32(1.0));
    let outcome = decode_video_block(&rf, &spec, &transforms, &runtime(), &Tools, &mut out);
    assert_eq!(outcome.result, Err(BlockError::RfTop));
    assert_eq!(BlockError::RfTop.message(), "high_boost_value requires rf_top");

    let mut spec = block_spec();
    spec.nldeemp_enabled = true;
    let outcome = decode_video_block(&rf, &spec, &transforms, &runtime(), &Tools, &mut out);
    assert_eq!(outcome.result, Err(BlockError::HighPass));
    assert_eq!(BlockError::HighPass.message(), "missing nonlinear high-pass filter");

    let mut spec = block_spec();
    spec.subdeemp_enabled = true;
    spec.nl_high_pass = Some(vec![c(1.0, 0.0); BINS - 1]);
    let outcome = decode_video_block(&rf, &spec, &transforms, &runtime(), &Tools, &mut out);
    assert_eq!(outcome.result, Err(BlockError::UnequalLengths));
    assert_eq!(
        BlockError::UnequalLengths.message(),
        "sub_deemphasis FFT inputs must have equal length"
    );

    spec.nl_high_pass = Some(vec![c(1.0, 0.0); BINS]);
    spec.subdeemp.deviation = F32(0.0);
    let outcome = decode_video_block(&rf, &spec, &transforms, &runtime(), &Tools, &mut out);
    assert_eq!(outcome.result, Err(BlockError::Deviation));
    assert_eq!(
        BlockError::Deviation.message(),
        "sub_deemphasis deviation must be non-zero"
    );

    assert_eq!(out.demod, singles(&[7.0]));
    assert!(out.demod_05.is_empty() && out.demod_burst.is_empty() && out.envelope.is_empty());
}

#[test]
fn high_frequencies_are_clamped_away() {
    let mut spec = block_spec();
    spec.nldeemp_enabled = true;
    spec.nl_high_pass = Some(vec![c(1.0, 0.0); BINS]);
    spec.highpass_limit_l = F32(-4.0);
    spec.highpass_limit_h = F32(4.0);
    assert!(spec.can_condition_rf() && spec.can_boost_high() && spec.can_demodulate());
    let mut out = channels();
    let outcome =
        decode_video_block(&carrier(40), &spec, &plan(BLOCK), &runtime(), &Tools, &mut out);
    assert_eq!(outcome.result, Ok(()));
    for sample in &out.demod[1..] {
        assert!((sample.0 - 36.0).abs() < 0.1, "{}", sample.0);
    }
}

fn tried(spec: &BlockSpec<F32>, rf: &[F32]) -> Option<Result<(), BlockError>> {
    let mut out = channels();
    let tried = try_video_block(rf, spec, &plan(spec.blocksize), &runtime(), &Tools, &mut out);
    if tried.is_none() {
        assert_eq!(out.demod, channels().demod);
    }
    tried.map(|outcome| outcome.result)
}

#[test]
fn settings_that_do_not_go_together_are_found() {
    let rf = carrier(40);
    assert_eq!(tried(&block_spec(), &rf), Some(Ok(())));
    let mut odd = block_spec();
    odd.blocksize = BLOCK - 1;
    assert_eq!(tried(&odd, &rf), None);
    let mut cut = block_spec();
    cut.blockcut = BLOCK;
    assert_eq!(tried(&cut, &rf), None);
    let mut front = block_spec();
    front.rf_filter.truncate(BINS - 1);
    assert_eq!(tried(&front, &rf), None);
    assert_eq!(
        tried(&front, &rf[..9]),
        Some(Err(BlockError::ShortInput { len: 9, blocklen: BLOCK }))
    );
    let mut limits = block_spec();
    limits.nldeemp_enabled = true;
    limits.nl_high_pass = Some(vec![c(1.0, 0.0); BINS]);
    assert_eq!(tried(&limits, &rf), Some(Ok(())));
    limits.highpass_limit_l = F32(2.0);
    assert_eq!(tried(&limits, &rf), None);
}

#[test]
fn settings_are_asked_for_only_where_they_are_read() {
    let rf = carrier(40);
    let silence = vec![F32(0.0); BLOCK];
    let mut gains = block_spec();
    gains.burst_gain.pop();
    assert_eq!(tried(&gains, &rf), None);
    gains.chroma_afc = true;
    assert_eq!(tried(&gains, &rf), Some(Ok(())));
    gains.rf_top_gain = Some(Vec::new());
    assert_eq!(tried(&gains, &rf), Some(Ok(())));
    gains.high_boost = Some(F32(1.0));
    assert_eq!(tried(&gains, &rf), None);
    assert_eq!(tried(&gains, &silence), Some(Ok(())));
    let mut topless = block_spec();
    topless.high_boost = Some(F32(1.0));
    topless.video_filter.clear();
    assert_eq!(tried(&topless, &rf), Some(Err(BlockError::RfTop)));
    assert_eq!(tried(&topless, &silence), None);
    let mut failing = block_spec();
    failing.subdeemp_enabled = true;
    failing.video05_filter.clear();
    failing.blockcut = BLOCK + 1;
    assert_eq!(tried(&failing, &rf), Some(Err(BlockError::HighPass)));
}

#[test]
fn strong_high_frequencies_stay() {
    let transforms = plan(BLOCK);
    let turn = std::f32::consts::TAU * 12.0 / BLOCK as f32;
    let video: Vec<F32> = (0..BLOCK).map(|k| F32((turn * k as f32).cos())).collect();
    let spectrum = rfft_f32(&video, &transforms);
    let high_pass = vec![c(1.0, 0.0); BINS];

    let mut settings = sub_settings();
    let kept =
        sub_deemphasis(Some(&high_pass), &settings, &video, &spectrum, &transforms, &runtime())
            .unwrap();
    assert_close(&kept, &video, 1e-4);

    settings.deviation = F32(4.0);
    let halved =
        sub_deemphasis(Some(&high_pass), &settings, &video, &spectrum, &transforms, &runtime())
            .unwrap();
    let want: Vec<F32> = video.iter().map(|x| F32(0.5 * x.0)).collect();
    assert_close(&halved, &want, 1e-4);

    settings.scaling_1 = Some(F32(2.0));
    settings.scaling_2 = Some(F32(0.5));
    settings.static_factor = Some(F32(0.25));
    let less =
        sub_deemphasis(Some(&high_pass), &settings, &video, &spectrum, &transforms, &runtime())
            .unwrap();
    let want: Vec<F32> = video.iter().map(|x| F32(0.25 * x.0)).collect();
    assert_close(&less, &want, 1e-4);

    settings.static_factor = Some(F32(-0.0));
    settings.scaling_2 = None;
    settings.logistic = Some((F32(1.0), F32(3.0)));
    let curved =
        sub_deemphasis(Some(&high_pass), &settings, &video, &spectrum, &transforms, &runtime())
            .unwrap();
    let want: Vec<F32> = video.iter().map(|x| F32(0.5 * x.0)).collect();
    assert_close(&curved, &want, 1e-3);

    settings.logistic = Some((F32(1.0), F32(-3.0)));
    let flat =
        sub_deemphasis(Some(&high_pass), &settings, &video, &spectrum, &transforms, &runtime())
            .unwrap();
    assert_close(&flat, &video, 1e-4);
    let none = sub_deemphasis(None, &settings, &video, &spectrum, &transforms, &runtime());
    assert_eq!(none, Err(BlockError::HighPass));
    let no_video = sub_deemphasis(None, &settings, &[], &[], &transforms, &runtime());
    assert_eq!(no_video, Err(BlockError::HighPass));
    let unequal =
        sub_deemphasis(Some(&high_pass), &settings, &[], &[], &transforms, &runtime());
    assert_eq!(unequal, Err(BlockError::UnequalLengths));
    settings.deviation = F32(0.0);
    let still = sub_deemphasis(Some(&high_pass), &settings, &[], &spectrum, &transforms, &runtime());
    assert_eq!(still, Err(BlockError::Deviation));
}

#[test]
fn neutral_settings_mean_absent() {
    let transforms = plan(BLOCK);
    let video = carrier(12);
    let spectrum = rfft_f32(&video, &transforms);
    let high_pass = vec![c(1.0, 0.0); BINS];
    let absent = sub_settings();
    let mut neutral = sub_settings();
    neutral.static_factor = Some(F32(0.0));
    neutral.scaling_1 = Some(F32(1.0));
    neutral.scaling_2 = Some(F32(1.0));
    neutral.logistic = Some((F32(0.4), F32(0.0)));
    assert_eq!(
        sub_deemphasis(Some(&high_pass), &absent, &video, &spectrum, &transforms, &runtime()),
        sub_deemphasis(Some(&high_pass), &neutral, &video, &spectrum, &transforms, &runtime())
    );
}
