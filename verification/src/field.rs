//! What chroma decoding reads of a field and of the decoder's settings.
use vstd::prelude::*;

use crate::request::{ColorSystem, SecamMode, SecamParams};
use crate::sample::SosFloat;
use crate::sos::Sos;

verus! {

/// A line of the field and the phase its carrier was recorded in.
#[derive(Clone, Copy, Debug, PartialEq, Eq)]
pub struct LinePhase {
    pub linenumber: usize,
    pub phase: usize,
}

/// Where the lines of a field lie, and what was measured on them.
pub struct ChromaField<W> {
    pub lineoffset: usize,
    pub outlinelen: usize,
    pub outlinecount: usize,
    pub phase_sequence: Option<Vec<LinePhase>>,
    pub burst_phase_avg: Option<W>,
}

impl<W> ChromaField<W> {
    /// Where a line starts in the field's samples. Lines before the field have
    /// negative starts.
    pub open spec fn start_of(&self, linenumber: int) -> int {
        (linenumber - (self.lineoffset + 1)) * self.outlinelen
    }

    /// The places of the line are within the machine's range.
    pub open spec fn addressable(&self, linenumber: int) -> bool {
        &&& 0 <= linenumber <= isize::MAX
        &&& self.lineoffset + 1 <= isize::MAX
        &&& self.outlinelen <= isize::MAX
        &&& isize::MIN <= self.start_of(linenumber)
        &&& self.start_of(linenumber) + self.outlinelen <= isize::MAX
    }

    /// The places of the line are within the machine's range.
    pub fn is_addressable(&self, linenumber: usize) -> (addressable: bool)
        ensures
            addressable == self.addressable(linenumber as int),
    {
        let limit: usize = isize::MAX as usize;
        if linenumber > limit || self.lineoffset >= limit || self.outlinelen > limit {
            return false;
        }
        let lines: i128 = linenumber as i128 - (self.lineoffset as i128 + 1);
        let len: i128 = self.outlinelen as i128;
        proof {
            assert(-0x4000_0000_0000_0000_0000_0000_0000_0000 <= lines * len
                <= 0x4000_0000_0000_0000_0000_0000_0000_0000) by (nonlinear_arith)
                requires
                    -0x8000_0000_0000_0000 <= lines <= 0x8000_0000_0000_0000,
                    0 <= len <= 0x8000_0000_0000_0000,
            ;
        }
        let start: i128 = lines * len;
        start >= isize::MIN as i128 && start + len <= isize::MAX as i128
    }

    /// Where a line starts in the field's samples.
    pub fn line_start(&self, linenumber: usize) -> (start: isize)
        requires
            self.addressable(linenumber as int),
        ensures
            start == self.start_of(linenumber as int),
    {
        (linenumber as isize - (self.lineoffset + 1) as isize) * self.outlinelen as isize
    }
}

/// The settings that chroma decoding reads.
pub struct ChromaSpec<F: SosFloat> {
    pub color_system: ColorSystem,
    pub write_chroma: bool,
    /// The chroma carrier is followed.
    pub chroma_afc: bool,
    pub disable_comb: bool,
    pub disable_phase_correction: bool,
    /// Output sample rate in MHz.
    pub outfreq: F::Wide,
    /// Samples by which places on the line are adjusted.
    pub place_adjust: F::Wide,
    /// Start and end of the active line in microseconds.
    pub active_video_us: [F::Wide; 2],
    /// First sample of the burst and the one behind its last.
    pub burst_area: (isize, isize),
    pub burst_abs_ref: Option<F>,
    pub filter_final: Vec<Sos<F>>,
    pub filter_deemphasis: Option<Vec<Sos<F>>>,
    pub secam_params: Option<SecamParams<F>>,
    pub secam_mode: Option<SecamMode>,
    pub secam_deemphasis: bool,
    pub secam_disc_window: usize,
    pub secam_median_window: usize,
    pub secam_antibell_gain: Option<Vec<F>>,
    pub secam_lf_deemphasis: Option<Vec<Sos<F>>>,
    pub secam_baseband_lpf: Option<Vec<Sos<F>>>,
    /// Sine and cosine of the subcarrier at each sample of the field.
    pub fsc_wave: Vec<(F, F)>,
}

/// What chroma decoding can lack.
#[derive(Clone, Copy, Debug, PartialEq, Eq, Structural)]
pub enum ChromaError {
    PhaseSequence,
    BurstPhase,
    BurstReference,
    SecamParams,
    SecamPhaseSequence,
}

impl ChromaError {
    /// What is lacking, in words.
    pub open spec fn text(self) -> Seq<char> {
        match self {
            ChromaError::PhaseSequence => "missing phase sequence"@,
            ChromaError::BurstPhase => "missing burst phase avg"@,
            ChromaError::BurstReference => "missing burst_abs_ref"@,
            ChromaError::SecamParams => "missing SECAM parameters for chroma decoding"@,
            ChromaError::SecamPhaseSequence => "missing phase sequence for SECAM chroma decoding"@,
        }
    }

    /// What is lacking, in words.
    pub fn message(self) -> (message: &'static str)
        ensures
            message@ == self.text(),
    {
        match self {
            ChromaError::PhaseSequence => "missing phase sequence",
            ChromaError::BurstPhase => "missing burst phase avg",
            ChromaError::BurstReference => "missing burst_abs_ref",
            ChromaError::SecamParams => "missing SECAM parameters for chroma decoding",
            ChromaError::SecamPhaseSequence => "missing phase sequence for SECAM chroma decoding",
        }
    }
}

} // verus!
