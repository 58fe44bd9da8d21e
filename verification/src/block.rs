//! What block decoding reads, writes and lacks.
use vstd::prelude::*;

use crate::complex::Complex;
use crate::filter::{can_filter, filterable};
use crate::request::ColorSystem;
use crate::sample::{
    at_most, functional_sos, is_zero, lemma_functional_sos, over, two, SosFloat,
};
use crate::sos::Sos;
use crate::text::{append_decimal, decimal};

verus! {

/// Non-linear de-emphasis of the amplitude.
pub struct SubDeemphasis<F> {
    /// Deviation that the format specifies.
    pub deviation: F,
    pub static_factor: Option<F>,
    pub amplitude_lpf: Vec<Sos<F>>,
    pub scaling_1: Option<F>,
    pub exp_scaling: F,
    pub scaling_2: Option<F>,
    /// Middle and rate of the logistic curve.
    pub logistic: Option<(F, F)>,
}

/// The settings that block decoding reads.
pub struct BlockSpec<F: SosFloat> {
    pub color_system: ColorSystem,
    /// Samples of a block.
    pub blocksize: usize,
    /// Samples at the start of a block that are discarded.
    pub blockcut: usize,
    /// Samples at the end of a block that are discarded.
    pub blockcut_end: usize,
    /// Delay of the 0.5 MHz filter in samples.
    pub video05_offset: usize,
    pub notch_filter: Option<Vec<F>>,
    pub rf_filter: Vec<F>,
    pub env_post_filter: Vec<Sos<F>>,
    pub high_boost: Option<F>,
    pub rf_top_gain: Option<Vec<F>>,
    /// Input sample rate in Hz.
    pub freq_hz: F::Wide,
    /// Carrier frequency of 0 IRE.
    pub ire0: F,
    /// Carrier frequency of 100 IRE.
    pub white_hz: F::Wide,
    pub disable_diff_demod: bool,
    pub eq_gain: Option<Vec<F>>,
    pub chroma_trap: bool,
    pub export_raw_tbc: bool,
    pub video_filter: Vec<Complex<F>>,
    pub video05_filter: Vec<Complex<F>>,
    pub nldeemp_enabled: bool,
    pub nl_high_pass: Option<Vec<Complex<F>>>,
    pub highpass_limit_l: F,
    pub highpass_limit_h: F,
    pub subdeemp_enabled: bool,
    pub subdeemp: SubDeemphasis<F>,
    pub fsc_notch: Option<Vec<Sos<F>>>,
    pub chroma_afc: bool,
    pub burst_gain: Vec<F>,
}

impl<F: SosFloat> BlockSpec<F> {
    /// Unique bins of a block's spectrum.
    pub open spec fn bins(&self) -> nat {
        (self.blocksize / 2 + 1) as nat
    }

    /// The amplitude is filtered: the high-pass filter is there and fits, and
    /// there is a deviation to compare with.
    pub open spec fn filters_amplitude(&self) -> bool {
        &&& self.subdeemp_enabled
        &&& self.nl_high_pass is Some
        &&& self.nl_high_pass->0.len() == self.bins()
        &&& !is_zero(over(self.subdeemp.deviation, two()))
    }

    /// The settings let a block come to video: where a non-linear stage is wanted,
    /// what it needs is there.
    pub open spec fn yields_video(&self) -> bool {
        &&& self.nldeemp_enabled ==> self.nl_high_pass is Some
        &&& self.subdeemp_enabled ==> self.filters_amplitude()
    }

    /// The settings that every block reads go together: there is a gain for each
    /// bin, and a block is long enough for the filter of its envelope.
    pub open spec fn conditions_rf(&self) -> bool {
        &&& self.blocksize >= 2
        &&& self.notch_filter is Some ==> self.notch_filter->0.len() >= self.bins()
        &&& self.rf_filter.len() >= self.bins()
        &&& filterable(self.env_post_filter@, self.blocksize as nat)
    }

    /// The upper band can be boosted: blocks have an even number of samples, and
    /// there is a gain for each bin.
    pub open spec fn boosts_high(&self) -> bool {
        &&& self.blocksize % 2 == 0
        &&& self.rf_top_gain is Some ==> self.rf_top_gain->0.len() == self.bins()
    }

    /// The settings that are read once a block is demodulated go together: blocks
    /// have an even number of samples; there is a gain for each bin wherever gains
    /// are applied; blocks are long enough for their filters.
    pub open spec fn demodulates(&self) -> bool {
        &&& self.blocksize % 2 == 0
        &&& self.disable_diff_demod || self.blocksize + 30 <= usize::MAX
        &&& self.eq_gain is Some ==> self.eq_gain->0.len() == self.bins()
        &&& self.video_filter.len() == self.bins()
        &&& self.nldeemp_enabled && self.nl_high_pass is Some ==> {
            &&& self.nl_high_pass->0.len() == self.bins()
            &&& at_most(self.highpass_limit_l, self.highpass_limit_h)
        }
        &&& self.filters_amplitude() ==> filterable(
            self.subdeemp.amplitude_lpf@,
            self.blocksize as nat,
        )
        &&& self.yields_video() ==> self.writes_channels()
    }

    /// The settings that are read once there is video go together: less is
    /// discarded than a block has, and there are a gain for each bin and a block
    /// long enough for the notch, where those are applied.
    pub open spec fn writes_channels(&self) -> bool {
        &&& self.blockcut + self.blockcut_end <= self.blocksize
        &&& self.video05_offset <= isize::MAX
        &&& self.video05_filter.len() == self.bins()
        &&& self.chroma_afc || self.burst_gain.len() == self.bins()
        &&& self.fsc_notch is Some ==> filterable(self.fsc_notch->0@, self.blocksize as nat)
    }

    /// The settings that every block reads go together.
    pub fn can_condition_rf(&self) -> (can: bool)
        requires
            functional_sos::<F>(),
        ensures
            can == self.conditions_rf(),
    {
        if self.blocksize < 2 {
            return false;
        }
        let bins: usize = self.blocksize / 2 + 1;
        let notch_fits: bool = match &self.notch_filter {
            Some(gains) => gains.len() >= bins,
            None => true,
        };
        notch_fits && self.rf_filter.len() >= bins && can_filter(
            self.env_post_filter.as_slice(),
            self.blocksize,
        )
    }

    /// The upper band can be boosted.
    pub fn can_boost_high(&self) -> (can: bool)
        ensures
            can == self.boosts_high(),
    {
        let top_fits: bool = match &self.rf_top_gain {
            Some(gains) => gains.len() == self.blocksize / 2 + 1,
            None => true,
        };
        self.blocksize % 2 == 0 && top_fits
    }

    /// The settings that are read once there is video go together.
    fn can_write_channels(&self) -> (can: bool)
        requires
            functional_sos::<F>(),
        ensures
            can == self.writes_channels(),
    {
        let bins: usize = self.blocksize / 2 + 1;
        let notched: bool = match &self.fsc_notch {
            Some(sos) => can_filter(sos.as_slice(), self.blocksize),
            None => true,
        };
        self.blockcut <= self.blocksize && self.blockcut_end <= self.blocksize - self.blockcut
            && self.video05_offset <= isize::MAX as usize && self.video05_filter.len() == bins && (
        self.chroma_afc || self.burst_gain.len() == bins) && notched
    }

    /// The settings that are read once a block is demodulated go together.
    pub fn can_demodulate(&self) -> (can: bool)
        requires
            functional_sos::<F>(),
        ensures
            can == self.demodulates(),
    {
        proof {
            lemma_functional_sos::<F>();
        }
        if self.blocksize % 2 != 0 || (!self.disable_diff_demod && self.blocksize > usize::MAX
            - 30) {
            return false;
        }
        let len: usize = self.blocksize;
        let bins: usize = len / 2 + 1;
        let eq_fits: bool = match &self.eq_gain {
            Some(gains) => gains.len() == bins,
            None => true,
        };
        if !eq_fits || self.video_filter.len() != bins {
            return false;
        }
        let high_pass_fits: bool = match &self.nl_high_pass {
            Some(high_pass) => high_pass.len() == bins,
            None => false,
        };
        if self.nldeemp_enabled && self.nl_high_pass.is_some() && !(high_pass_fits && at_most(
            self.highpass_limit_l,
            self.highpass_limit_h,
        )) {
            return false;
        }
        let filters_amplitude: bool = self.subdeemp_enabled && high_pass_fits && !is_zero(
            over(self.subdeemp.deviation, two()),
        );
        if filters_amplitude && !can_filter(self.subdeemp.amplitude_lpf.as_slice(), len) {
            return false;
        }
        let yields_video: bool = (!self.nldeemp_enabled || self.nl_high_pass.is_some()) && (
        !self.subdeemp_enabled || filters_amplitude);
        !yields_video || self.can_write_channels()
    }
}

/// The channels of a field, which blocks are appended to.
pub struct VideoChannels<F> {
    pub demod: Vec<F>,
    pub demod_05: Vec<F>,
    pub demod_burst: Vec<F>,
    pub envelope: Vec<F>,
}

/// Why a block was not decoded.
#[derive(Clone, Copy, Debug, PartialEq, Eq, Structural)]
pub enum BlockError {
    ShortInput { len: usize, blocklen: usize },
    RfTop,
    HighPass,
    UnequalLengths,
    Deviation,
}

impl BlockError {
    /// What is wrong, in words.
    pub open spec fn text(self) -> Seq<char> {
        match self {
            BlockError::ShortInput { len, blocklen } => "rawdata length "@ + decimal(len as nat)
                + " is shorter than blocklen "@ + decimal(blocklen as nat),
            BlockError::RfTop => "high_boost_value requires rf_top"@,
            BlockError::HighPass => "missing nonlinear high-pass filter"@,
            BlockError::UnequalLengths => "sub_deemphasis FFT inputs must have equal length"@,
            BlockError::Deviation => "sub_deemphasis deviation must be non-zero"@,
        }
    }

    /// What is wrong, in words.
    pub fn message(self) -> (message: String)
        ensures
            message@ == self.text(),
    {
        match self {
            BlockError::ShortInput { len, blocklen } => {
                let mut message: String = "rawdata length ".to_owned();
                append_decimal(&mut message, len);
                message.append(" is shorter than blocklen ");
                append_decimal(&mut message, blocklen);
                message
            },
            BlockError::RfTop => "high_boost_value requires rf_top".to_owned(),
            BlockError::HighPass => "missing nonlinear high-pass filter".to_owned(),
            BlockError::UnequalLengths => {
                "sub_deemphasis FFT inputs must have equal length".to_owned()
            },
            BlockError::Deviation => "sub_deemphasis deviation must be non-zero".to_owned(),
        }
    }
}

} // verus!
