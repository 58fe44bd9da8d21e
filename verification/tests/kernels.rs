use std::f32::consts;

use sci_rs::signal::filter::design;
use tape_decode::complex::Complex;
use tape_decode::filter::{
    can_filter, sosfiltfilt_f32, sosfiltfilt_f64, DynamicFilter, FilterRuntime,
    SOSFILTFILT_STACK_MAX_SECTIONS,
};
use tape_decode::first_order::sosfiltfilt_order1;
use tape_decode::ieee::{rank32, rank64};
use tape_decode::sample::{Sample, Single, SosFloat};
use tape_decode::scan::sosfiltfilt_order1_scan_f32;
use tape_decode::sos::{
    narrow_sos, sos_step, sosfilt_f32, sosfilt_sample_slice, sosfiltfilt_ntaps, Sos,
};
use tape_decode::sosfiltfilt::{reduced_step, sosfiltfilt_stack, ReducedBiquad};
use tape_decode::steady::{sos_section_lfilter_zi, sosfilt_zi};
use tape_decode::{
    chroma, demodblock, fast_math, ieee, median, sample, secam, spikes, unwrap_angles,
};

#[derive(Clone, Copy, Debug, PartialEq)]
struct F32(f32);

#[derive(Clone, Copy, Debug, PartialEq)]
struct F64(f64);

impl Sample for F32 {
    fn zero() -> Self {
        F32(0.0)
    }
    fn one() -> Self {
        F32(1.0)
    }
    fn add(self, other: Self) -> Self {
        F32(self.0 + other.0)
    }
    fn sub(self, other: Self) -> Self {
        F32(self.0 - other.0)
    }
    fn mul(self, other: Self) -> Self {
        F32(self.0 * other.0)
    }
    fn div(self, other: Self) -> Self {
        F32(self.0 / other.0)
    }
    fn neg(self) -> Self {
        F32(-self.0)
    }
    fn mul_add(self, factor: Self, term: Self) -> Self {
        F32(self.0.mul_add(factor.0, term.0))
    }
    fn rank(self) -> Option<i64> {
        rank32(self.0.to_bits())
    }
}

impl Sample for F64 {
    fn zero() -> Self {
        F64(0.0)
    }
    fn one() -> Self {
        F64(1.0)
    }
    fn add(self, other: Self) -> Self {
        F64(self.0 + other.0)
    }
    fn sub(self, other: Self) -> Self {
        F64(self.0 - other.0)
    }
    fn mul(self, other: Self) -> Self {
        F64(self.0 * other.0)
    }
    fn div(self, other: Self) -> Self {
        F64(self.0 / other.0)
    }
    fn neg(self) -> Self {
        F64(-self.0)
    }
    fn mul_add(self, factor: Self, term: Self) -> Self {
        F64(self.0.mul_add(factor.0, term.0))
    }
    fn rank(self) -> Option<i64> {
        rank64(self.0.to_bits())
    }
}

impl SosFloat for F32 {
    type Wide = F64;
    fn widen(self) -> F64 {
        F64(f64::from(self.0))
    }
    fn narrow(wide: F64) -> F32 {
        F32(wide.0 as f32)
    }
}

impl SosFloat for F64 {
    type Wide = F64;
    fn widen(self) -> F64 {
        self
    }
    fn narrow(wide: F64) -> F64 {
        wide
    }
}

impl Single for F32 {
    fn from_bits(bits: u32) -> Self {
        F32(f32::from_bits(bits))
    }
    fn to_bits(self) -> u32 {
        self.0.to_bits()
    }
    fn from_count(count: usize) -> Self {
        F32(count as f32)
    }
    fn from_i32(number: i32) -> Self {
        F32(number as f32)
    }
    fn to_i32(self) -> i32 {
        self.0 as i32
    }
    fn to_i64(self) -> i64 {
        self.0 as i64
    }
    fn abs(self) -> Self {
        F32(self.0.abs())
    }
    fn copysign(self, sign: Self) -> Self {
        F32(self.0.copysign(sign.0))
    }
    fn sqrt(self) -> Self {
        F32(self.0.sqrt())
    }
    fn floor(self) -> Self {
        F32(self.0.floor())
    }
    fn round(self) -> Self {
        F32(self.0.round())
    }
    fn atan2(self, x: Self) -> Self {
        F32(self.0.atan2(x.0))
    }
}

struct SciRs;

impl DynamicFilter<F32> for SciRs {
    fn sosfiltfilt_dyn(&self, sos: &[Sos<F32>], input: &[F32]) -> Vec<F32> {
        let sections: Vec<design::Sos<f32>> = sos
            .iter()
            .map(|s| design::Sos::new([s.b0.0, s.b1.0, s.b2.0], [s.a0.0, s.a1.0, s.a2.0]))
            .collect();
        sci_rs::signal::filter::sosfiltfilt_dyn(input.iter().map(|x| x.0), &sections)
            .into_iter()
            .map(F32)
            .collect()
    }
}

impl DynamicFilter<F64> for SciRs {
    fn sosfiltfilt_dyn(&self, sos: &[Sos<F64>], input: &[F64]) -> Vec<F64> {
        let sections: Vec<design::Sos<f64>> = sos
            .iter()
            .map(|s| design::Sos::new([s.b0.0, s.b1.0, s.b2.0], [s.a0.0, s.a1.0, s.a2.0]))
            .collect();
        sci_rs::signal::filter::sosfiltfilt_dyn(input.iter().map(|x| x.0), &sections)
            .into_iter()
            .map(F64)
            .collect()
    }
}

fn singles(values: &[f32]) -> Vec<F32> {
    values.iter().copied().map(F32).collect()
}

fn doubles(values: &[f64]) -> Vec<F64> {
    values.iter().copied().map(F64).collect()
}

fn wobble(len: usize) -> Vec<F64> {
    (0..len)
        .map(|i| {
            let t = i as f64;
            F64((t * 0.37).sin() + 0.5 * (t * 1.9).cos() + 0.01 * t)
        })
        .collect()
}

fn section64(b: [f64; 3], a: [f64; 3]) -> Sos<F64> {
    Sos::new([F64(b[0]), F64(b[1]), F64(b[2])], [F64(a[0]), F64(a[1]), F64(a[2])])
}

fn section32(b: [f32; 3], a: [f32; 3]) -> Sos<F32> {
    Sos::new([F32(b[0]), F32(b[1]), F32(b[2])], [F32(a[0]), F32(a[1]), F32(a[2])])
}

fn low_pass64() -> Sos<F64> {
    section64([0.2, 0.4, 0.2], [1.0, -0.5, 0.3])
}

fn assert_close64(a: &[F64], b: &[F64], tolerance: f64) {
    assert_eq!(a.len(), b.len());
    for (k, (x, y)) in a.iter().zip(b).enumerate() {
        assert!((x.0 - y.0).abs() <= tolerance, "{k}: {} {}", x.0, y.0);
    }
}

fn assert_close32(a: &[F32], b: &[F32], tolerance: f32) {
    assert_eq!(a.len(), b.len());
    for (k, (x, y)) in a.iter().zip(b).enumerate() {
        assert!((x.0 - y.0).abs() <= tolerance, "{k}: {} {}", x.0, y.0);
    }
}

#[test]
fn bit_patterns_are_the_constants() {
    let pairs: [(u32, f32); 30] = [
        (fast_math::INV_5040, 1.0 / 5040.0),
        (fast_math::INV_720, 1.0 / 720.0),
        (fast_math::INV_120, 1.0 / 120.0),
        (fast_math::INV_24, 1.0 / 24.0),
        (fast_math::INV_6, 1.0 / 6.0),
        (fast_math::HALF, 0.5),
        (fast_math::LN_2, consts::LN_2),
        (fast_math::LOG2_E, consts::LOG2_E),
        (fast_math::INV_9, 1.0 / 9.0),
        (fast_math::INV_7, 1.0 / 7.0),
        (fast_math::INV_5, 1.0 / 5.0),
        (fast_math::INV_3, 1.0 / 3.0),
        (fast_math::MIN_EXPONENT, -126.0),
        (fast_math::MAX_EXPONENT, 127.0),
        (fast_math::TOP_EXPONENT, 128.0),
        (unwrap_angles::ATAN_A1, 0.99997726),
        (unwrap_angles::ATAN_A3, -0.33262347),
        (unwrap_angles::ATAN_A5, 0.19354346),
        (unwrap_angles::ATAN_A7, -0.11643287),
        (unwrap_angles::ATAN_A9, 0.05265332),
        (unwrap_angles::ATAN_A11, -0.0117212),
        (unwrap_angles::FRAC_PI_2, consts::FRAC_PI_2),
        (unwrap_angles::PI, consts::PI),
        (unwrap_angles::TAU, consts::TAU),
        (unwrap_angles::MIN_POSITIVE, f32::MIN_POSITIVE),
        (secam::LIMIT_FLOOR, 1e-12),
        (secam::FRAC_1_SQRT_2, consts::FRAC_1_SQRT_2),
        (chroma::SIGNED_SAMPLE_MAX, 32767.0),
        (demodblock::BOOST_AIM, 0.9),
        (ieee::INFINITY32, f32::INFINITY),
    ];
    for (bits, number) in pairs {
        assert_eq!(bits, number.to_bits(), "{number}");
    }
    assert_eq!(ieee::NEG_INFINITY32, f32::NEG_INFINITY.to_bits());
    assert_eq!(ieee::INFINITY64, f64::INFINITY.to_bits());
    assert_eq!(2.0 * consts::PI, consts::TAU);
}

#[test]
fn ranks_order_the_numbers() {
    let ordered = [
        f32::NEG_INFINITY,
        -2.5,
        -1e-40,
        0.0,
        1e-40,
        1.0,
        1.5,
        f32::INFINITY,
    ];
    for pair in ordered.windows(2) {
        assert!(rank32(pair[0].to_bits()) < rank32(pair[1].to_bits()));
        assert!(
            rank64(f64::from(pair[0]).to_bits()) < rank64(f64::from(pair[1]).to_bits())
        );
    }
    assert_eq!(rank32((-0.0f32).to_bits()), Some(0));
    assert_eq!(rank64((-0.0f64).to_bits()), Some(0));
    assert_eq!(rank32(f32::NAN.to_bits()), None);
    assert_eq!(rank64((-f64::NAN).to_bits()), None);
    assert!(sample::is_finite(F32(-3.0e38)));
    assert!(!sample::is_finite(F32(f32::INFINITY)));
    assert!(!sample::is_finite(F32(f32::NAN)));
}

#[test]
fn numbers_split_into_mantissa_and_exponent() {
    assert_eq!(ieee::split_exponent(1.0f32.to_bits()), (0, 1.0f32.to_bits()));
    assert_eq!(ieee::split_exponent(1.5f32.to_bits()), (1, 0.75f32.to_bits()));
    assert_eq!(ieee::split_exponent(0.25f32.to_bits()), (-2, 1.0f32.to_bits()));
    assert_eq!(ieee::split_exponent(12.0f32.to_bits()), (4, 0.75f32.to_bits()));
    assert_eq!(ieee::assemble_power_of_two(0), 1.0f32.to_bits());
    assert_eq!(ieee::assemble_power_of_two(10), 1024.0f32.to_bits());
    assert_eq!(ieee::assemble_power_of_two(-126), f32::MIN_POSITIVE.to_bits());
    assert_eq!(ieee::assemble_power_of_two(i32::MAX), (126i32.wrapping_add(i32::MIN) as u32) << 23);
}

#[test]
fn sums_run_in_sixteen_lanes() {
    let counting: Vec<F32> = (1..=40).map(|n| F32(n as f32)).collect();
    assert_eq!(fast_math::sum_algebraic(&counting), F32(820.0));
    assert_eq!(fast_math::sum_in_order(&counting), F32(820.0));
    assert_eq!(fast_math::sum_algebraic(&counting[..35]), F32(630.0));
    assert_eq!(fast_math::sum_algebraic::<F32>(&[]), F32(0.0));

    let mut cancelling = vec![F32(1.0); 32];
    cancelling[0] = F32(1e8);
    cancelling[16] = F32(-1e8);
    assert_eq!(fast_math::sum_algebraic(&cancelling), F32(30.0));
    assert_ne!(fast_math::sum_in_order(&cancelling), F32(30.0));
}

#[test]
fn exponentials_are_close_and_saturate() {
    assert_eq!(fast_math::exp2_fast(F32(3.0)), F32(8.0));
    assert_eq!(fast_math::exp_fast(F32(0.0)), F32(1.0));
    assert_eq!(fast_math::exp_fast(F32(500.0)), F32(2.0f32.powi(127)));
    assert_eq!(fast_math::exp_fast(F32(-500.0)), F32(2.0f32.powi(-126)));
    let mut z = -40.0f32;
    while z < 40.0 {
        let got = fast_math::exp_fast(F32(z)).0;
        let want = z.exp();
        assert!((got - want).abs() <= want * 4e-6, "{z}: {got} {want}");
        z += 0.37;
    }
    assert_eq!(fast_math::clamped(F32(7.0), F32(-1.0), F32(2.0)), F32(2.0));
    assert_eq!(fast_math::clamped(F32(-7.0), F32(-1.0), F32(2.0)), F32(-1.0));
    assert_eq!(fast_math::clamped(F32(0.5), F32(-1.0), F32(2.0)), F32(0.5));
}

#[test]
fn powers_are_close() {
    for c in [0.25f32, 0.5, 0.77, 1.0, 2.0] {
        let mut x = 0.0005f32;
        while x < 3000.0 {
            let got = fast_math::powf_fast_nonneg(F32(x), F32(c)).0;
            let want = x.powf(c);
            assert!((got - want).abs() <= want * 4e-6, "{x} {c}: {got} {want}");
            x *= 1.31;
        }
    }
    assert_eq!(fast_math::powf_fast_nonneg(F32(4.0), F32(0.5)), F32(2.0));
    assert_eq!(fast_math::powf_fast_nonneg(F32(1.0), F32(0.7)), F32(1.0));
    assert_eq!(fast_math::powf_fast_nonneg(F32(9.0), F32(0.0)), F32(1.0));
    let top = 2.0f32.powi(127);
    for part in [1.0f32, 1.2, 1.41, 1.42, 1.5, 1.9, 1.999] {
        let x = part * top;
        let got = fast_math::powf_fast_nonneg(F32(x), F32(1.0)).0;
        assert!((got / top - part).abs() <= part * 1e-5, "{part}: {got}");
        let root = fast_math::powf_fast_nonneg(F32(x), F32(0.5)).0;
        assert!((root - x.sqrt()).abs() <= x.sqrt() * 1e-5, "{part}: {root}");
    }
    let least = f32::MIN_POSITIVE;
    for part in [1.0f32, 1.3, 1.9] {
        let got = fast_math::powf_fast_nonneg(F32(part * least), F32(1.0)).0;
        assert!((got - part * least).abs() <= least * 1e-4, "{part}: {got}");
    }
    let subnormal = fast_math::exp2_fast(F32(-126.25)).0 / least;
    assert!((subnormal - 2.0f32.powf(-0.25)).abs() < 1e-6, "{subnormal}");
    for c in [0.5f32, 0.75, 1.0, 2.0, 40.0] {
        for x in [0.0f32, 1e-40] {
            let tiny = fast_math::powf_fast_nonneg(F32(x), F32(c)).0;
            assert!(tiny > 0.0 && tiny < 1e-18, "{x} {c}: {tiny}");
        }
    }
    assert_eq!(fast_math::powf_fast_nonneg(F32(0.0), F32(1.0)), F32(f32::MIN_POSITIVE));
}

#[test]
fn angles_are_close() {
    for k in 0..360 {
        let turn = (k as f32).to_radians();
        let (y, x) = turn.sin_cos();
        let got = unwrap_angles::atan2_fast(F32(y), F32(x)).0;
        let want = y.atan2(x);
        assert!((got - want).abs() < 1e-4, "{k}: {got} {want}");
    }
    assert_eq!(unwrap_angles::atan_approx(F32(0.0)), F32(0.0));
    assert_eq!(
        unwrap_angles::atan2_fast(F32(1.0), F32(0.0)),
        F32(consts::FRAC_PI_2)
    );
}

#[test]
fn rotation_shows_its_frequency() {
    let turn: Vec<Complex<F32>> = (0..20)
        .map(|k| {
            let phase = k as f32 * consts::FRAC_PI_2;
            Complex { re: F32(phase.cos()), im: F32(phase.sin()) }
        })
        .collect();
    let quarter = unwrap_angles::unwrap_two(turn[0], turn[1], F32(8.0), F32(0.5)).0;
    assert!((quarter - 1.5).abs() < 1e-3);
    let output = unwrap_angles::unwrap_hilbert(&turn, F32(8.0), F32(0.5));
    assert_eq!(output.len(), 20);
    assert_eq!(output[0], F32(-0.5));
    for sample in &output[1..] {
        assert!((sample.0 - 1.5).abs() < 1e-2, "{}", sample.0);
    }
    let mut longer = vec![F32(9.0); 25];
    unwrap_angles::unwrap_angles(&turn, &mut longer, F32(8.0), F32(0.5));
    assert_eq!(longer[0], F32(9.0));
    assert_eq!(longer[1..20], output[1..20]);
    assert_eq!(longer[20..], [F32(9.0); 5]);
    let mut none: Vec<F32> = Vec::new();
    unwrap_angles::unwrap_angles(&turn[..1], &mut none, F32(8.0), F32(0.5));
    assert!(none.is_empty());
}

#[test]
fn turns_backward_count_as_turns_forward() {
    let start = Complex { re: F32(1.0), im: F32(0.0) };
    let back = Complex { re: F32(0.0), im: F32(-1.0) };
    let frequency = unwrap_angles::unwrap_two(start, back, F32(8.0), F32(0.0)).0;
    assert!((frequency - 6.0).abs() < 1e-3, "{frequency}");
    let shifted = unwrap_angles::unwrap_two(start, back, F32(8.0), F32(2.0)).0;
    assert_eq!(shifted, frequency - 2.0);
    let still = unwrap_angles::unwrap_two(start, start, F32(8.0), F32(0.0));
    assert_eq!(still, F32(0.0));
}

#[test]
fn spikes_are_replaced_where_that_lowers_them() {
    let mut demod = singles(&[1.0, 1.0, 9.0, 1.0, 1.0, 1.0, 9.0, 1.0, 1.0, 1.0]);
    let calm = singles(&[2.0, 2.0, 2.0, 2.0, 2.0, 2.0, 20.0, 2.0, 2.0, 2.0]);
    spikes::replace_spikes(&mut demod, &calm, F32(5.0), 1, 2);
    assert_eq!(
        demod,
        singles(&[1.0, 2.0, 2.0, 2.0, 1.0, 1.0, 9.0, 1.0, 1.0, 1.0])
    );
    assert_eq!(spikes::slice_max(&demod), F32(9.0));
    assert_eq!(spikes::max_excluding_edges(&demod, 4), F32(1.0));
    assert_eq!(spikes::max_excluding_edges(&demod, 5), F32(f32::NEG_INFINITY));
    assert_eq!(
        spikes::max_excluding_edges(&singles(&[0.0, f32::NAN, 3.0, 0.0]), 1),
        F32(3.0)
    );
}

#[test]
fn medians_reject_clicks_and_keep_steps() {
    let click = singles(&[1.0, 1.0, 80.0, 1.0, 1.0, 1.0]);
    assert_eq!(median::median_filter(&click, 3), singles(&[1.0; 6]));
    let step = singles(&[0.0, 0.0, 0.0, 5.0, 5.0, 5.0]);
    assert_eq!(median::median_filter(&step, 3), step);
    assert_eq!(median::median_filter(&click, 1), click);
    assert_eq!(median::median_filter(&click, 0), click);
    assert_eq!(median::median_filter(&singles(&[4.0]), 27), singles(&[4.0]));
    assert_eq!(
        median::median_filter(&singles(&[3.0, 1.0, 2.0]), 3),
        singles(&[3.0, 2.0, 2.0])
    );
    assert_eq!(median::median_of(&singles(&[3.0, 1.0, 2.0, 9.0])), F32(3.0));
    assert!(median::are_numbers(&click));
    assert!(!median::are_numbers(&singles(&[1.0, f32::NAN])));
}

#[test]
fn sections_follow_their_equation() {
    let impulse = singles(&[1.0, 0.0, 0.0, 0.0, 0.0]);
    let moving = [section32([1.0, 2.0, 3.0], [1.0, 0.0, 0.0])];
    assert_eq!(
        sosfilt_f32(&moving, &impulse),
        singles(&[1.0, 2.0, 3.0, 0.0, 0.0])
    );
    let echo = [section32([1.0, 0.0, 0.0], [1.0, -0.5, 0.0])];
    assert_eq!(
        sosfilt_f32(&echo, &impulse),
        singles(&[1.0, 0.5, 0.25, 0.125, 0.0625])
    );
    let both = [moving[0], echo[0]];
    assert_eq!(
        sosfilt_f32(&both, &impulse),
        singles(&[1.0, 2.5, 4.25, 2.125, 1.0625])
    );
    let mut carrying = echo;
    carrying[0].zi0 = F32(9.0);
    assert_eq!(sosfilt_f32(&carrying, &impulse), sosfilt_f32(&echo, &impulse));
    assert_eq!(sosfilt_f32::<F32>(&[], &impulse), impulse);
    assert_eq!(sosfilt_f32::<F32>(&both, &[]), Vec::new());
}

#[test]
fn taps_are_counted_without_first_order_sections() {
    let second = section32([1.0, 2.0, 3.0], [1.0, 0.5, 0.25]);
    let first = section32([1.0, 2.0, 0.0], [1.0, 0.5, 0.0]);
    assert_eq!(sosfiltfilt_ntaps(&[second]), 3);
    assert_eq!(sosfiltfilt_ntaps(&[first]), 2);
    assert_eq!(sosfiltfilt_ntaps(&[second, first]), 4);
    assert_eq!(sosfiltfilt_ntaps::<F32>(&[]), 1);
}

#[test]
fn narrowing_keeps_coefficients_and_clears_delays() {
    let mut wide = section64([0.1, 0.2, 0.3], [1.0, -0.4, 0.5]);
    wide.zi0 = F64(7.0);
    let narrow: Vec<Sos<F32>> = narrow_sos(&[wide]);
    assert_eq!(narrow[0].b0, F32(0.1));
    assert_eq!(narrow[0].a1, F32(-0.4));
    assert_eq!(narrow[0].a2, F32(0.5));
    assert_eq!(narrow[0].zi0, F32(0.0));
}

#[test]
fn settled_cascades_hold_a_constant() {
    let mut cascade = vec![low_pass64(), section64([0.3, 0.1, 0.05], [1.0, 0.2, 0.1])];
    sosfilt_zi(&mut cascade);
    let gain = (0.8 / 0.8) * (0.45 / 1.3);
    let settled = cascade.clone();
    for _ in 0..50 {
        let sample = sosfilt_sample_slice(F64(1.0), &mut cascade);
        assert!((sample.0 - gain).abs() < 1e-12, "{}", sample.0);
    }
    for (section, before) in cascade.iter().zip(&settled) {
        assert_eq!((section.b1, section.a2), (before.b1, before.a2));
        assert!((section.zi0.0 - before.zi0.0).abs() < 1e-12);
        assert!((section.zi1.0 - before.zi1.0).abs() < 1e-12);
    }
    let mut again = settled.clone();
    sosfilt_zi(&mut again);
    assert_eq!(again[1].zi0, settled[1].zi0);
}

#[test]
fn constants_pass_zero_phase_filters_with_squared_gain() {
    let runtime = FilterRuntime { dynamic: SciRs, vectorized: true };
    let section = section32([0.25, 0.25, 0.0], [1.0, 0.5, 0.0]);
    let output = sosfiltfilt_f32(&runtime, &[section], &vec![F32(9.0); 40]);
    for sample in &output {
        assert!((sample.0 - 1.0).abs() < 1e-5, "{}", sample.0);
    }
}

#[test]
fn constants_pass_section_filters_without_transients() {
    let cascade = [low_pass64(), section64([0.3, 0.1, 0.05], [1.0, 0.2, 0.1])];
    let gain: f64 = 0.45 / 1.3;
    let output = sosfiltfilt_f64(&SciRs, &cascade, &doubles(&[2.0; 40]));
    for sample in &output {
        assert!((sample.0 - 2.0 * gain * gain).abs() < 1e-12, "{}", sample.0);
    }
}

#[test]
fn short_cascades_filter_as_the_dynamic_filter_does() {
    let signal = wobble(200);
    for sections in 1..=SOSFILTFILT_STACK_MAX_SECTIONS {
        let cascade: Vec<Sos<F64>> = (0..sections)
            .map(|k| {
                let tilt = k as f64 * 0.02;
                section64([0.2, 0.4, 0.2 + tilt], [1.0, -0.5 + tilt, 0.3])
            })
            .collect();
        let ours = sosfiltfilt_f64(&SciRs, &cascade, &signal);
        let theirs = SciRs.sosfiltfilt_dyn(&cascade, &signal);
        assert_close64(&ours, &theirs, 1e-9);
    }
}

#[test]
fn longer_cascades_go_to_the_dynamic_filter() {
    let signal = wobble(200);
    let cascade: Vec<Sos<F64>> = vec![low_pass64(); SOSFILTFILT_STACK_MAX_SECTIONS + 1];
    assert_eq!(
        sosfiltfilt_f64(&SciRs, &cascade, &signal),
        SciRs.sosfiltfilt_dyn(&cascade, &signal)
    );
    let none: Vec<Sos<F64>> = Vec::new();
    assert_close64(&sosfiltfilt_f64(&SciRs, &none, &signal), &signal, 0.0);
}

#[test]
fn first_order_filters_agree() {
    let section = section32([0.3, 0.2, 0.0], [1.0, -0.6, 0.0]);
    let signal: Vec<F32> = wobble(137).iter().map(|x| F32(x.0 as f32)).collect();
    let plain = FilterRuntime { dynamic: SciRs, vectorized: false };
    let lanes = FilterRuntime { dynamic: SciRs, vectorized: true };
    let one_by_one = sosfiltfilt_f32(&plain, &[section], &signal);
    let in_lanes = sosfiltfilt_f32(&lanes, &[section], &signal);
    let dynamic = SciRs.sosfiltfilt_dyn(&[section], &signal);
    assert_close32(&one_by_one, &dynamic, 2e-5);
    assert_close32(&in_lanes, &dynamic, 2e-5);
    assert_eq!(sosfiltfilt_order1(&section, &signal), one_by_one);
    assert_eq!(sosfiltfilt_order1_scan_f32(&section, &signal), in_lanes);
    for len in 7..40 {
        let short = &signal[..len];
        assert_close32(
            &sosfiltfilt_f32(&lanes, &[section], short),
            &sosfiltfilt_f32(&plain, &[section], short),
            2e-5,
        );
    }
}

#[test]
fn reduced_sections_answer_as_plain_ones_on_integers() {
    let mut plain = section32([1.0, 2.0, 3.0], [1.0, 4.0, 5.0]);
    plain.zi0 = F32(6.0);
    plain.zi1 = F32(7.0);
    let mut reduced = ReducedBiquad::from_sos(&plain);
    assert_eq!(sos_step(&mut plain, F32(10.0)), F32(16.0));
    assert_eq!((plain.zi0, plain.zi1), (F32(-37.0), F32(-50.0)));
    assert_eq!(reduced_step(&mut reduced, F32(10.0)), F32(16.0));
    assert_eq!((reduced.zi0, reduced.zi1), (F32(-37.0), F32(-50.0)));
}

#[test]
fn stack_and_reduced_sections_agree_with_plain_ones() {
    let section = low_pass64();
    let mut plain = section;
    let mut reduced = ReducedBiquad::from_sos(&section);
    for sample in wobble(60) {
        let a = sos_step(&mut plain, sample).0;
        let b = reduced_step(&mut reduced, sample).0;
        assert!((a - b).abs() < 1e-12);
    }
    let signal = wobble(90);
    assert_eq!(
        sosfiltfilt_stack(&[section, section], &signal),
        sosfiltfilt_f64(&SciRs, &[section, section], &signal)
    );
}

#[test]
fn filters_need_a_denominator_and_a_longer_signal() {
    let section = low_pass64();
    assert!(can_filter(&[section], 10));
    assert!(!can_filter(&[section], 9));
    assert!(!can_filter(&[section64([1.0, 1.0, 1.0], [0.0, 0.0, 0.0])], 100));
    assert!(can_filter::<F64>(&[], 4));
    assert!(!can_filter::<F64>(&[], 3));
}

#[test]
fn leading_zeros_of_a_denominator_are_dropped() {
    let doubled = section64([0.4, 0.8, 0.4], [2.0, -1.0, 0.6]);
    let (zi0, zi1) = sos_section_lfilter_zi(&doubled);
    let (want0, want1) = sos_section_lfilter_zi(&low_pass64());
    assert!((zi0.0 - want0.0).abs() < 1e-12 && (zi1.0 - want1.0).abs() < 1e-12);
}
