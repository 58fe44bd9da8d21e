//! Options and system parameters of a decode.
use vstd::prelude::*;

use crate::sample::{functional, one, over, plus, two, zero, Sample, SosFloat};
use crate::text::{append_decimal, decimal};

verus! {

/// Shelving filter orientation used by custom profile filters.
#[derive(Clone, Copy, Debug)]
pub enum ShelfKind {
    Low,
    High,
}

/// How to react when two consecutive fields share the same field order.
#[derive(Clone, Copy, Debug, PartialEq, Eq, Structural)]
pub enum FieldOrderAction {
    Detect,
    Duplicate,
    Drop,
    Nothing,
}

/// How SECAM chroma is handled.
#[derive(Clone, Copy, Debug, PartialEq, Eq, Structural)]
pub enum SecamMode {
    /// Demodulate the subcarrier and modulate the recovered colour-difference
    /// signals again as a suppressed-carrier signal that a PAL chroma decoder
    /// takes.
    PseudoPal,
    /// Emit the demodulated, line-alternating colour difference as it is.
    RawDemod,
}

/// SECAM demodulation and modulation constants, from the standards. Present
/// only for SECAM systems.
pub struct SecamParams<F: SosFloat> {
    /// R-Y FM sensitivity in Hz: `E'(R-Y) = -deviation / sens_ry_hz`.
    pub sens_ry_hz: F::Wide,
    /// B-Y FM sensitivity in Hz: `E'(B-Y) = deviation / sens_by_hz`.
    pub sens_by_hz: F::Wide,
    /// PAL compression of V: `V = compress_v * E'(R-Y)`.
    pub compress_v: F,
    /// PAL compression of U: `U = compress_u * E'(B-Y)`.
    pub compress_u: F,
    /// Amplitude of the swinging burst. Burst normalization keeps only its
    /// ratio to the chroma.
    pub burst_amplitude: F,
    /// Cutoff of the recovered baseband in Hz.
    pub baseband_lpf_hz: F::Wide,
    /// Centre of the anti-bell resonator in Hz.
    pub bell_centre_hz: F::Wide,
    /// Quality factor of the anti-bell resonator.
    pub bell_q: F::Wide,
    /// Pole of the LF de-emphasis in Hz; its zero is at `lf_deemph_k` times it.
    pub lf_deemph_pole_hz: F::Wide,
    /// Ratio of zero to pole of the LF de-emphasis.
    pub lf_deemph_k: F::Wide,
}

/// Settings that a profile may override.
pub struct DecodeOptions<W> {
    pub cafc: bool,
    pub chroma_afc_fine_tune_fh_ratio: W,
    pub fallback_vsync: bool,
    pub field_order_action: FieldOrderAction,
    pub fm_audio_notch: W,
    pub use_fsc_notch_filter: bool,
}

impl<W: Sample> DecodeOptions<W> {
    /// The settings of a profile that overrides none: the fine-tune ratio is a
    /// quarter, repeated field orders are detected, the rest is off.
    pub open spec fn standard() -> DecodeOptions<W> {
        DecodeOptions {
            cafc: false,
            chroma_afc_fine_tune_fh_ratio: over(one(), plus(two(), two())),
            fallback_vsync: false,
            field_order_action: FieldOrderAction::Detect,
            fm_audio_notch: zero(),
            use_fsc_notch_filter: false,
        }
    }

    /// The settings of a profile that overrides none.
    pub fn default() -> (options: DecodeOptions<W>)
        requires
            functional::<W>(),
        ensures
            options == Self::standard(),
    {
        DecodeOptions {
            cafc: false,
            chroma_afc_fine_tune_fh_ratio: over(one(), plus(two(), two())),
            fallback_vsync: false,
            field_order_action: FieldOrderAction::Detect,
            fm_audio_notch: zero(),
            use_fsc_notch_filter: false,
        }
    }
}

/// Interpolation used by the wow level adjustment.
#[derive(Clone, Copy, Debug, PartialEq, Eq, Structural)]
pub enum WowInterpolation {
    Linear,
    Quadratic,
    Cubic,
}

impl WowInterpolation {
    pub open spec fn degree(self) -> nat {
        match self {
            WowInterpolation::Linear => 1,
            WowInterpolation::Quadratic => 2,
            WowInterpolation::Cubic => 3,
        }
    }

    /// The degree of the spline that interpolates.
    pub fn spline_degree(self) -> (degree: usize)
        ensures
            degree == self.degree(),
    {
        match self {
            WowInterpolation::Linear => 1,
            WowInterpolation::Quadratic => 2,
            WowInterpolation::Cubic => 3,
        }
    }
}

/// Scanning standard, defined purely by its line count.
#[derive(Clone, Copy, Debug, PartialEq, Eq, Structural)]
pub enum LineSystem {
    Line405,
    Line819,
    Line525,
    Line625,
}

/// A line count that no scanning standard has.
#[derive(Clone, Copy, Debug, PartialEq, Eq, Structural)]
pub struct UnsupportedLineCount {
    pub frame_lines: usize,
}

impl UnsupportedLineCount {
    /// What is wrong, in words.
    pub open spec fn text(self) -> Seq<char> {
        "unsupported line count: "@ + decimal(self.frame_lines as nat)
    }

    /// What is wrong, in words.
    pub fn message(self) -> (message: String)
        ensures
            message@ == self.text(),
    {
        let mut message: String = "unsupported line count: ".to_owned();
        append_decimal(&mut message, self.frame_lines);
        message
    }
}

impl LineSystem {
    pub open spec fn lines(self) -> nat {
        match self {
            LineSystem::Line405 => 405,
            LineSystem::Line819 => 819,
            LineSystem::Line525 => 525,
            LineSystem::Line625 => 625,
        }
    }

    /// The standard with the given number of lines per frame.
    pub open spec fn with_lines(frame_lines: usize) -> Result<LineSystem, UnsupportedLineCount> {
        if frame_lines == 405 {
            Ok(LineSystem::Line405)
        } else if frame_lines == 819 {
            Ok(LineSystem::Line819)
        } else if frame_lines == 525 {
            Ok(LineSystem::Line525)
        } else if frame_lines == 625 {
            Ok(LineSystem::Line625)
        } else {
            Err(UnsupportedLineCount { frame_lines })
        }
    }

    /// Number of lines per frame.
    pub fn line_count(self) -> (count: usize)
        ensures
            count == self.lines(),
    {
        match self {
            LineSystem::Line405 => 405,
            LineSystem::Line819 => 819,
            LineSystem::Line525 => 525,
            LineSystem::Line625 => 625,
        }
    }
}

impl TryFrom<usize> for LineSystem {
    type Error = UnsupportedLineCount;

    fn try_from(frame_lines: usize) -> (system: Result<LineSystem, UnsupportedLineCount>)
        ensures
            match system {
                Ok(s) => s.lines() == frame_lines,
                Err(e) => e.frame_lines == frame_lines && forall|s: LineSystem|
                    #[trigger] s.lines() != frame_lines,
            },
    {
        match frame_lines {
            405 => Ok(LineSystem::Line405),
            819 => Ok(LineSystem::Line819),
            525 => Ok(LineSystem::Line525),
            625 => Ok(LineSystem::Line625),
            other => Err(UnsupportedLineCount { frame_lines: other }),
        }
    }
}

impl vstd::std_specs::convert::TryFromSpecImpl<usize> for LineSystem {
    open spec fn obeys_try_from_spec() -> bool {
        true
    }

    open spec fn try_from_spec(frame_lines: usize) -> Result<LineSystem, UnsupportedLineCount> {
        LineSystem::with_lines(frame_lines)
    }
}

/// Colour encoding standard. Profiles with no chroma processing use
/// [`ColorSystem::Monochrome`].
#[derive(Clone, Copy, Debug, PartialEq, Eq, Structural)]
pub enum ColorSystem {
    Ntsc,
    Pal,
    Secam,
    Monochrome,
}

/// Samples over which the SECAM discriminator averages, unless a request says
/// otherwise.
pub fn default_secam_disc_window() -> (window: usize)
    ensures
        window == 5,
{
    5
}

/// Samples over which the SECAM click-noise median runs, unless a request says
/// otherwise.
pub fn default_secam_median_window() -> (window: usize)
    ensures
        window == 27,
{
    27
}

/// A scanning standard is found again by its line count.
pub proof fn law_line_count_names_the_system(system: LineSystem)
    ensures
        system.lines() <= usize::MAX,
        LineSystem::with_lines(system.lines() as usize) == Ok::<LineSystem, UnsupportedLineCount>(
            system,
        ),
{
}

} // verus!
