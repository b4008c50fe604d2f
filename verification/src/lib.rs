//! A HEIF/AVIF container library: brand probing, box and item parsing, codec
//! configuration records, bitstream syntax checks and coding kernels.
use vstd::prelude::*;

pub mod bytes;
pub mod error;
pub mod brands;
pub mod components;
pub mod color;
pub mod text;
pub mod context;
pub mod hvcc;
pub mod container;
pub mod bitwriter;
pub mod avc_encoder;
pub mod avc;
pub mod avc_openh264;
pub mod transform;
pub mod intra;
pub mod rbsp;
pub mod hevc_config;
pub mod avc_config;
pub mod av1_config;
pub mod entity_groups;
pub mod derived;
pub mod geometry;
pub mod hevc_encoder;
pub mod gimi;
pub mod camera;
pub mod auxiliary;
pub mod htj2k;
pub mod properties;
pub mod handle_properties;
pub mod decoding;
pub mod input;
pub mod conversion;
pub mod compression;

verus! {
} // verus!

