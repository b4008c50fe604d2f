//! Colour signalling: conversion options, NCLX code points and colour metadata.
use vstd::prelude::*;
use crate::error::Error;

verus! {

/// Chroma resampling preferences of a colour conversion.
#[derive(Clone, Copy, Debug)]
pub struct ColorConversionOptions {
    pub version: u8,
    pub preferred_chroma_downsampling_algorithm: i32,
    pub preferred_chroma_upsampling_algorithm: i32,
    pub only_use_preferred_chroma_algorithm: u8,
}

impl Default for ColorConversionOptions {
    /// The reference defaults without the optional sharp-YUV backend.
    fn default() -> (r: Self)
        ensures
            r.version == 1,
            r.preferred_chroma_downsampling_algorithm == 2,
            r.preferred_chroma_upsampling_algorithm == 2,
            r.only_use_preferred_chroma_algorithm == 1,
    {
        ColorConversionOptions {
            version: 1,
            preferred_chroma_downsampling_algorithm: 2,
            preferred_chroma_upsampling_algorithm: 2,
            only_use_preferred_chroma_algorithm: 1,
        }
    }
}

/// Alpha composition options of a colour conversion.
#[derive(Clone, Copy, Debug)]
pub struct ColorConversionOptionsExt {
    pub version: u8,
    pub alpha_composition_mode: i32,
    pub background_red: u16,
    pub background_green: u16,
    pub background_blue: u16,
    pub secondary_background_red: u16,
    pub secondary_background_green: u16,
    pub secondary_background_blue: u16,
    pub checkerboard_square_size: u16,
}

impl Default for ColorConversionOptionsExt {
    /// White background, light grey checkerboard of 16-pixel squares.
    fn default() -> (r: Self)
        ensures
            r == (ColorConversionOptionsExt {
                version: 1,
                alpha_composition_mode: 0,
                background_red: 0xffff,
                background_green: 0xffff,
                background_blue: 0xffff,
                secondary_background_red: 0xcccc,
                secondary_background_green: 0xcccc,
                secondary_background_blue: 0xcccc,
                checkerboard_square_size: 16,
            }),
    {
        ColorConversionOptionsExt {
            version: 1,
            alpha_composition_mode: 0,
            background_red: 0xffff,
            background_green: 0xffff,
            background_blue: 0xffff,
            secondary_background_red: 0xcccc,
            secondary_background_green: 0xcccc,
            secondary_background_blue: 0xcccc,
            checkerboard_square_size: 16,
        }
    }
}

impl ColorConversionOptionsExt {
    /// Copies `src` when both versions are at least 1 and the smaller is 1;
    /// the receiver keeps its own version.
    pub fn copy_from_versioned(&mut self, src: Self)
        ensures
            if (if old(self).version < src.version { old(self).version } else { src.version }) == 1 {
                *final(self) == (ColorConversionOptionsExt { version: old(self).version, ..src })
            } else {
                *final(self) == *old(self)
            },
    {
        let smaller = if self.version < src.version { self.version } else { src.version };
        if smaller == 1 {
            let version = self.version;
            *self = src;
            self.version = version;
        }
    }
}

/// Whether a colour-primaries code point is one libheif knows.
pub open spec fn spec_valid_primaries(v: u16) -> bool {
    v == 1 || v == 2 || (4 <= v <= 12) || v == 22
}

/// Whether a transfer-characteristics code point is one libheif knows.
pub open spec fn spec_valid_transfer(v: u16) -> bool {
    v == 1 || v == 2 || (4 <= v <= 18)
}

/// Whether a matrix-coefficients code point is one libheif knows.
pub open spec fn spec_valid_matrix(v: u16) -> bool {
    v <= 2 || (4 <= v <= 14)
}

/// Accepts known colour primaries; fails with subcode 133 otherwise.
pub fn validate_primaries(value: u16) -> (r: Result<(), Error>)
    ensures
        r is Ok <==> spec_valid_primaries(value),
        r is Err ==> r->Err_0.parts() == (2i32, 133i32, "Unknown error"@),
{
    if value == 1 || value == 2 || (4 <= value && value <= 12) || value == 22 {
        Ok(())
    } else {
        Err(Error::new(2, 133, "Unknown error"))
    }
}

/// Accepts known transfer characteristics; fails with subcode 134 otherwise.
pub fn validate_transfer(value: u16) -> (r: Result<(), Error>)
    ensures
        r is Ok <==> spec_valid_transfer(value),
        r is Err ==> r->Err_0.parts() == (2i32, 134i32, "Unknown error"@),
{
    if value == 1 || value == 2 || (4 <= value && value <= 18) {
        Ok(())
    } else {
        Err(Error::new(2, 134, "Unknown error"))
    }
}

/// Accepts known matrix coefficients; fails with subcode 135 otherwise.
pub fn validate_matrix(value: u16) -> (r: Result<(), Error>)
    ensures
        r is Ok <==> spec_valid_matrix(value),
        r is Err ==> r->Err_0.parts() == (2i32, 135i32, "Unknown error"@),
{
    if value <= 2 || (4 <= value && value <= 14) {
        Ok(())
    } else {
        Err(Error::new(2, 135, "Unknown error"))
    }
}

/// NCLX colour signalling as stored in the container, narrowed to 16 bits.
#[derive(Clone, Copy, Debug)]
pub struct Nclx {
    pub primaries: u16,
    pub transfer: u16,
    pub matrix: u16,
    pub full_range: bool,
}

impl Nclx {
    /// Whether the profile differs from "unspecified, full range".
    pub open spec fn spec_is_defined(self) -> bool {
        self.primaries != 2 || self.transfer != 2 || self.matrix != 2 || !self.full_range
    }

    /// Whether the profile carries any information.
    pub fn is_defined(self) -> (r: bool)
        ensures
            r == self.spec_is_defined(),
    {
        self.primaries != 2 || self.transfer != 2 || self.matrix != 2 || !self.full_range
    }
}

/// Maximum content and frame-average light levels.
#[derive(Clone, Copy, Debug)]
pub struct ContentLightLevel {
    pub max_content_light_level: u16,
    pub max_pic_average_light_level: u16,
}

/// Mastering display colour volume as stored (unscaled).
#[derive(Clone, Copy, Debug)]
pub struct MasteringDisplayColourVolume {
    pub display_primaries_x: [u16; 3],
    pub display_primaries_y: [u16; 3],
    pub white_point_x: u16,
    pub white_point_y: u16,
    pub max_display_mastering_luminance: u32,
    pub min_display_mastering_luminance: u32,
}

/// Ambient viewing environment as stored.
#[derive(Clone, Copy, Debug)]
pub struct AmbientViewingEnvironment {
    pub ambient_illumination: u32,
    pub ambient_light_x: u16,
    pub ambient_light_y: u16,
}

/// An ICC or other raw colour profile.
#[derive(Debug)]
pub struct RawProfile {
    pub profile_type: u32,
    pub data: Vec<u8>,
}

/// All colour metadata of an image.
#[derive(Debug)]
pub struct ColorMetadata {
    pub raw: Option<RawProfile>,
    pub nclx: Option<Nclx>,
    pub content_light: ContentLightLevel,
    pub mastering: Option<MasteringDisplayColourVolume>,
    pub ambient: Option<AmbientViewingEnvironment>,
    pub diffuse_white: Option<u32>,
}

/// The fourcc `nclx`.
pub const NCLX: u32 = 0x6e63_6c78;

impl ColorMetadata {
    /// No profile and no light levels.
    pub fn new() -> (r: ColorMetadata)
        ensures
            r.raw is None,
            r.nclx is None,
            r.content_light.max_content_light_level == 0,
            r.content_light.max_pic_average_light_level == 0,
            r.mastering is None,
            r.ambient is None,
            r.diffuse_white is None,
    {
        ColorMetadata {
            raw: None,
            nclx: None,
            content_light: ContentLightLevel { max_content_light_level: 0, max_pic_average_light_level: 0 },
            mastering: None,
            ambient: None,
            diffuse_white: None,
        }
    }

    /// The profile type reported to callers.
    pub open spec fn spec_profile_type(&self) -> u32 {
        match self.raw {
            Some(r) => r.profile_type,
            None => match self.nclx {
                Some(n) => if n.spec_is_defined() { NCLX } else { 0 },
                None => 0,
            },
        }
    }

    /// The raw profile's type, else `nclx` for an informative NCLX profile, else 0.
    pub fn profile_type(&self) -> (r: u32)
        ensures
            r == self.spec_profile_type(),
    {
        match &self.raw {
            Some(r) => r.profile_type,
            None => match self.nclx {
                Some(n) => if n.is_defined() { NCLX } else { 0 },
                None => 0,
            },
        }
    }

    /// Stores a copy of a raw profile; only the raw profile changes.
    pub fn set_raw(&mut self, profile_type: u32, data: &[u8]) -> (r: Result<(), Error>)
        ensures
            match r {
                Ok(()) => {
                    &&& final(self).raw is Some
                    &&& final(self).raw->Some_0.profile_type == profile_type
                    &&& final(self).raw->Some_0.data@ == data@
                },
                Err(e) => e.parts() == (6i32, 0i32, "Out of memory"@) && final(self).raw == old(self).raw,
            },
            final(self).nclx == old(self).nclx,
            final(self).content_light == old(self).content_light,
            final(self).mastering == old(self).mastering,
            final(self).ambient == old(self).ambient,
            final(self).diffuse_white == old(self).diffuse_white,
    {
        let mut copy: Vec<u8> = Vec::new();
        if copy.try_reserve(data.len()).is_err() {
            return Err(Error::allocation());
        }
        let mut i: usize = 0;
        while i < data.len()
            invariant
                i <= data@.len(),
                copy@ == data@.subrange(0, i as int),
            decreases data@.len() - i,
        {
            copy.push(data[i]);
            i = i + 1;
            assert(copy@ =~= data@.subrange(0, i as int));
        }
        assert(copy@ =~= data@);
        self.raw = Some(RawProfile { profile_type, data: copy });
        Ok(())
    }

    /// Whether either content light level is set.
    pub fn has_content_light(&self) -> (r: bool)
        ensures
            r == (self.content_light.max_content_light_level != 0
                || self.content_light.max_pic_average_light_level != 0),
    {
        self.content_light.max_content_light_level != 0
            || self.content_light.max_pic_average_light_level != 0
    }
}

} // verus!
