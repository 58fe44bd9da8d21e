use tape_decode::request::{
    default_secam_disc_window, default_secam_median_window, DecodeOptions, FieldOrderAction,
    LineSystem, UnsupportedLineCount, WowInterpolation,
};
use tape_decode::sample::Sample;

#[derive(Clone, Copy, Debug, PartialEq)]
struct Quarters(i64);

impl Sample for Quarters {
    fn zero() -> Self {
        Quarters(0)
    }
    fn one() -> Self {
        Quarters(4)
    }
    fn add(self, other: Self) -> Self {
        Quarters(self.0 + other.0)
    }
    fn sub(self, other: Self) -> Self {
        Quarters(self.0 - other.0)
    }
    fn mul(self, other: Self) -> Self {
        Quarters(self.0 * other.0 / 4)
    }
    fn div(self, other: Self) -> Self {
        Quarters(self.0 * 4 / other.0)
    }
    fn neg(self) -> Self {
        Quarters(-self.0)
    }
    fn mul_add(self, factor: Self, term: Self) -> Self {
        Quarters(self.0 * factor.0 / 4 + term.0)
    }
    fn rank(self) -> Option<i64> {
        Some(self.0)
    }
}

#[test]
fn line_systems_round_trip() {
    let systems = [
        (LineSystem::Line405, 405),
        (LineSystem::Line819, 819),
        (LineSystem::Line525, 525),
        (LineSystem::Line625, 625),
    ];
    for (system, lines) in systems {
        assert_eq!(system.line_count(), lines);
        assert_eq!(LineSystem::try_from(lines), Ok(system));
    }
}

#[test]
fn other_line_counts_are_refused() {
    for lines in [0, 404, 626, usize::MAX] {
        assert_eq!(
            LineSystem::try_from(lines),
            Err(UnsupportedLineCount { frame_lines: lines })
        );
        assert_eq!(
            UnsupportedLineCount { frame_lines: lines }.message(),
            format!("unsupported line count: {lines}")
        );
    }
    assert_eq!(
        UnsupportedLineCount { frame_lines: 1050 }.message(),
        "unsupported line count: 1050"
    );
}

#[test]
fn interpolations_have_their_degree() {
    assert_eq!(WowInterpolation::Linear.spline_degree(), 1);
    assert_eq!(WowInterpolation::Quadratic.spline_degree(), 2);
    assert_eq!(WowInterpolation::Cubic.spline_degree(), 3);
}

#[test]
fn defaults_are_those_of_a_plain_profile() {
    assert_eq!(default_secam_disc_window(), 5);
    assert_eq!(default_secam_median_window(), 27);
    let options = DecodeOptions::<Quarters>::default();
    assert!(!options.cafc && !options.fallback_vsync && !options.use_fsc_notch_filter);
    assert_eq!(options.chroma_afc_fine_tune_fh_ratio, Quarters(1));
    assert_eq!(options.fm_audio_notch, Quarters(0));
    assert_eq!(options.field_order_action, FieldOrderAction::Detect);
}
