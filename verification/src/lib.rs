//! Verified building blocks of a CELT-only Opus codec and its containers.
use vstd::prelude::*;

pub mod band_split;
pub mod bands;
pub mod bits;
pub mod celt_frame;
pub mod range_coder;
pub mod round_trip;
pub mod theta;
pub mod cwrs;
pub mod laplace;
pub mod tf;
pub mod rate;
pub mod quant_band;
pub mod band_tf;
pub mod allocation;
pub mod vbr;
pub mod quant_bands;
pub mod quant_all_bands;
pub mod vq;
pub mod postfilter;
pub mod opus_packet;
pub mod ogg;
pub mod mp4;

verus! {
} // verus!
