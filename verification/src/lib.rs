//! The signal chain of a video tape decoder: blocks of RF are demodulated, the
//! chroma of a field is decoded, and the filters and kernels under both are here.
//! Everything is generic over its sample types; see [`sample`].
use vstd::prelude::*;

pub mod acc_laws;
pub mod acquire;
pub mod block;
pub mod block_laws;
pub mod chroma;
pub mod chroma_laws;
pub mod colour_laws;
pub mod comb;
pub mod complex;
pub mod constant_laws;
pub mod decode_chroma;
pub mod demodblock;
pub mod demodulation_laws;
pub mod fast_math;
pub mod field;
pub mod filter;
pub mod filter_laws;
pub mod first_order;
pub mod ieee;
pub mod kernel_laws;
pub mod machine;
pub mod median;
mod reals;
pub mod request;
pub mod sample;
pub mod scan;
pub mod scan_laws;
pub mod secam;
pub mod secam_laws;
pub mod secam_line_laws;
pub mod secam_lines;
pub mod sos;
pub mod sosfiltfilt;
pub mod spectrum;
pub mod spectrum_laws;
pub mod spikes;
pub mod steady;
pub mod steady_laws;
pub mod sub_deemphasis;
pub mod sub_deemphasis_laws;
pub mod text;
pub mod transform_laws;
pub mod transforms;
pub mod unwrap_angles;

verus! {

} // verus!
