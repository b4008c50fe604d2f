//! The HEVC coded geometry of a configuration record before entering the
//! codec, and the configuration record that registered encoders build.
use vstd::prelude::*;
use crate::properties::Property;
use crate::bytes::{be_at, read_be, lemma_be_value_bound, lemma_pow256_values};
use crate::context::{ContextError, join_text, truncated_parts};
use crate::rbsp::{SpsBits, advance, bit_at, bits_value, reduce_from, spec_ue};

verus! {

/// Why an HEVC SPS is refused.
#[derive(Debug, Clone, Copy, PartialEq, Eq, Structural)]
pub enum SpsFailure {
    /// An Exp-Golomb code with more than 20 leading zeros.
    Code,
    /// chroma_format_idc above 3.
    Chroma,
    /// A conformance window larger than the picture.
    Window,
    /// bit_depth_luma_minus8 above 8.
    LumaDepth,
    /// bit_depth_chroma_minus8 above 8.
    ChromaDepth,
}

/// The text of a refusal.
pub open spec fn failure_text(f: SpsFailure) -> Seq<char> {
    match f {
        SpsFailure::Code => "Invalid variable length code in HEVC SPS header"@,
        SpsFailure::Chroma => "SPS chroma_format_idc out of range"@,
        SpsFailure::Window => "SPS conformance window exceeds image dimensions"@,
        SpsFailure::LumaDepth => "SPS bit_depth_luma_minus8 out of range"@,
        SpsFailure::ChromaDepth => "SPS bit_depth_chroma_minus8 out of range"@,
    }
}

/// The reported failure of a refusal: an invalid parameter value (2006).
pub open spec fn failure_parts(f: SpsFailure) -> (i32, i32, Seq<char>) {
    (2i32, 2006i32, "Invalid input: "@ + ("Invalid parameter value: "@ + failure_text(f)))
}

/// The error reported for a refusal.
pub fn failure_error(f: SpsFailure) -> (r: ContextError)
    ensures
        r.parts() == failure_parts(f),
{
    let text = match f {
        SpsFailure::Code => "Invalid variable length code in HEVC SPS header",
        SpsFailure::Chroma => "SPS chroma_format_idc out of range",
        SpsFailure::Window => "SPS conformance window exceeds image dimensions",
        SpsFailure::LumaDepth => "SPS bit_depth_luma_minus8 out of range",
        SpsFailure::ChromaDepth => "SPS bit_depth_chroma_minus8 out of range",
    };
    let message = join_text("Invalid parameter value: ", text);
    ContextError::invalid(2006, message.as_str())
}

/// The position after the sub-layer profile and level fields: 56 bits for
/// each sub-layer with a profile, 8 for each with a level.
pub open spec fn sublayer_end(d: Seq<u8>, flags_at: u64, layers: nat, i: nat, pos: u64) -> u64
    decreases layers - i,
{
    if i >= layers {
        pos
    } else {
        let profile = bit_at(d, advance(flags_at, 2 * i as int) as int);
        let level = bit_at(d, advance(flags_at, 2 * i as int + 1) as int);
        let q = if profile != 0 { advance(pos, 56) } else { pos };
        sublayer_end(d, flags_at, layers, i + 1, if level != 0 { advance(q, 8) } else { q })
    }
}

/// Where the sub-layer flags of an SPS start: after the NAL header, the
/// video parameter set id, the sub-layer count, the nesting flag and the
/// 96-bit general profile, tier and level.
pub open spec fn flags_start() -> u64 {
    120
}

/// The sub-layer count of an SPS.
pub open spec fn sublayers(d: Seq<u8>) -> nat {
    bits_value(d, 20, 3)
}

/// The position after an SPS's profile, tier and level prefix.
pub open spec fn prefix_end(d: Seq<u8>) -> u64 {
    let layers = sublayers(d);
    let p4 = advance(flags_start(), 2 * layers as int);
    let p5 = if layers != 0 { advance(p4, (8 - layers) * 2) } else { p4 };
    sublayer_end(d, flags_start(), layers, 0, p5)
}

/// The depth checks at the end of the geometry.
pub open spec fn geometry_depths(d: Seq<u8>, p: u64, width: u32, height: u32) -> Result<(u32, u32), SpsFailure> {
    match spec_ue(d, p) {
        None => Err(SpsFailure::Code),
        Some((luma, q)) => if luma > 8 {
            Err(SpsFailure::LumaDepth)
        } else {
            match spec_ue(d, q) {
                None => Err(SpsFailure::Code),
                Some((color, _)) => if color > 8 { Err(SpsFailure::ChromaDepth) } else { Ok((width, height)) },
            }
        },
    }
}

/// The horizontal and vertical chroma subsampling factors of a chroma format.
pub open spec fn subsampling(chroma: u32) -> (int, int) {
    (if chroma == 1 || chroma == 2 { 2int } else { 1int }, if chroma == 1 { 2int } else { 1int })
}

/// The conformance window offsets (left, right, top, bottom) from `p`, and
/// the position after them.
pub open spec fn window_offsets(d: Seq<u8>, p: u64) -> Option<(u32, u32, u32, u32, u64)> {
    match spec_ue(d, p) {
        None => None,
        Some((l, p1)) => match spec_ue(d, p1) {
            None => None,
            Some((r, p2)) => match spec_ue(d, p2) {
                None => None,
                Some((t, p3)) => match spec_ue(d, p3) {
                    None => None,
                    Some((b, p4)) => Some((l, r, t, b, p4)),
                },
            },
        },
    }
}

/// The geometry from the conformance window flag at `p` on.
pub open spec fn geometry_window(d: Seq<u8>, p: u64, chroma: u32, width: u32, height: u32) -> Result<(u32, u32), SpsFailure> {
    let q = advance(p, 1);
    if bit_at(d, p as int) == 0 {
        geometry_depths(d, q, width, height)
    } else {
        match window_offsets(d, q) {
            None => Err(SpsFailure::Code),
            Some((l, r, t, b, e)) => {
                let (sx, sy) = subsampling(chroma);
                if sx * (l + r) > width || sy * (t + b) > height {
                    Err(SpsFailure::Window)
                } else {
                    geometry_depths(d, e, width, height)
                }
            },
        }
    }
}

/// The geometry from the chroma format on.
pub open spec fn geometry_from_chroma(d: Seq<u8>, p: u64) -> Result<(u32, u32), SpsFailure> {
    match spec_ue(d, p) {
        None => Err(SpsFailure::Code),
        Some((chroma, q)) => if chroma > 3 {
            Err(SpsFailure::Chroma)
        } else {
            let q2 = if chroma == 3 { advance(q, 1) } else { q };
            match spec_ue(d, q2) {
                None => Err(SpsFailure::Code),
                Some((width, q3)) => match spec_ue(d, q3) {
                    None => Err(SpsFailure::Code),
                    Some((height, q4)) => geometry_window(d, q4, chroma, width, height),
                },
            }
        },
    }
}

/// The coded width and height of an HEVC SPS (reduced bytes), or why it is refused.
pub open spec fn spec_geometry(d: Seq<u8>) -> Result<(u32, u32), SpsFailure> {
    match spec_ue(d, prefix_end(d)) {
        None => Err(SpsFailure::Code),
        Some((_, p)) => geometry_from_chroma(d, p),
    }
}

/// The depths of an SPS from `p`: luma and chroma bit depths minus 8.
pub open spec fn config_depths(d: Seq<u8>, p: u64) -> Result<(u32, u32), SpsFailure> {
    match spec_ue(d, p) {
        None => Err(SpsFailure::Code),
        Some((luma, q)) => if luma > 8 {
            Err(SpsFailure::LumaDepth)
        } else {
            match spec_ue(d, q) {
                None => Err(SpsFailure::Code),
                Some((color, _)) => if color > 8 { Err(SpsFailure::ChromaDepth) } else { Ok((luma, color)) },
            }
        },
    }
}

/// The cropped size and the depths from the conformance window flag at `p` on.
pub open spec fn config_window(d: Seq<u8>, p: u64, chroma: u32, width: u32, height: u32)
    -> Result<(u32, u32, u32, u32), SpsFailure>
{
    let q = advance(p, 1);
    if bit_at(d, p as int) == 0 {
        match config_depths(d, q) {
            Err(f) => Err(f),
            Ok((l, c)) => Ok((width, height, l, c)),
        }
    } else {
        match window_offsets(d, q) {
            None => Err(SpsFailure::Code),
            Some((l, r, t, b, e)) => {
                let (sx, sy) = subsampling(chroma);
                if sx * (l + r) > width || sy * (t + b) > height {
                    Err(SpsFailure::Window)
                } else {
                    match config_depths(d, e) {
                        Err(f) => Err(f),
                        Ok((lu, c)) => Ok(((width - sx * (l + r)) as u32, (height - sy * (t + b)) as u32, lu, c)),
                    }
                }
            },
        }
    }
}

/// The chroma format, cropped size and depths of an SPS (reduced bytes):
/// (chroma, width, height, luma depth - 8, chroma depth - 8).
pub open spec fn spec_sps_config(d: Seq<u8>) -> Result<(u32, u32, u32, u32, u32), SpsFailure> {
    match spec_ue(d, prefix_end(d)) {
        None => Err(SpsFailure::Code),
        Some((_, p)) => match spec_ue(d, p) {
            None => Err(SpsFailure::Code),
            Some((chroma, q)) => if chroma > 3 {
                Err(SpsFailure::Chroma)
            } else {
                let q2 = if chroma == 3 { advance(q, 1) } else { q };
                match spec_ue(d, q2) {
                    None => Err(SpsFailure::Code),
                    Some((width, q3)) => match spec_ue(d, q3) {
                        None => Err(SpsFailure::Code),
                        Some((height, q4)) => match config_window(d, q4, chroma, width, height) {
                            Err(f) => Err(f),
                            Ok((w, h, l, c)) => Ok((chroma, w, h, l, c)),
                        },
                    },
                }
            },
        },
    }
}

/// The record header an SPS (reduced bytes `d`) leaves: version 1, its
/// profile, compatibility flags and level, the fixed reserved bits, chroma
/// format and depths, and the nesting flag; bytes 6 to 11 as they were.
pub open spec fn sps_header(h: Seq<u8>, d: Seq<u8>, chroma: u32, luma: u32, color: u32) -> Seq<u8> {
    let c = bits_value(d, 32, 32) as u32;
    let nested = bits_value(d, 23, 1) as u8;
    Seq::new(22, |i: int|
        if i == 0 { 1u8 }
        else if i == 1 { bits_value(d, 24, 8) as u8 }
        else if i == 2 { (c >> 24u32) as u8 }
        else if i == 3 { ((c >> 16u32) & 0xff) as u8 }
        else if i == 4 { ((c >> 8u32) & 0xff) as u8 }
        else if i == 5 { (c & 0xff) as u8 }
        else if i == 12 { bits_value(d, 112, 8) as u8 }
        else if i == 13 { 0xf0u8 }
        else if i == 14 { 0u8 }
        else if i == 15 { 0xfcu8 }
        else if i == 16 { 0xfcu8 | chroma as u8 }
        else if i == 17 { 0xf8u8 | luma as u8 }
        else if i == 18 { 0xf8u8 | color as u8 }
        else if i == 19 || i == 20 { 0u8 }
        else if i == 21 { 11u8 | (nested << 2u8) }
        else { h[i] })
}

/// The fields of an SPS's profile prefix that the configuration record keeps.
pub struct PrefixFields {
    pub layers: usize,
    pub nested: u8,
    pub profile: u8,
    pub compatibility: u32,
    pub level: u8,
}

/// Reads the profile, tier and level prefix of an SPS, leaving the reader
/// after it.
fn read_prefix(bits: &mut SpsBits) -> (r: PrefixFields)
    requires
        old(bits).position == 0,
    ensures
        final(bits).bytes@ == old(bits).bytes@,
        final(bits).position == prefix_end(old(bits).bytes@),
        r.layers == sublayers(old(bits).bytes@),
        r.nested <= 1,
        r.nested == bits_value(old(bits).bytes@, 23, 1),
        r.profile == bits_value(old(bits).bytes@, 24, 8) as u8,
        r.compatibility == bits_value(old(bits).bytes@, 32, 32),
        r.level == bits_value(old(bits).bytes@, 112, 8) as u8,
{
    bits.skip(20);
    let layers = bits.get(3) as usize;
    proof {
        crate::rbsp::lemma_bits_value_bound(bits.bytes@, 20, 3);
        crate::bitwriter::lemma_pow2_values();
    }
    let nested_bit = bits.get(1);
    proof {
        crate::rbsp::lemma_bits_value_bound(bits.bytes@, 23, 1);
    }
    let nested = nested_bit as u8;
    let profile = bits.get(8) as u8;
    let compatibility = bits.get(32);
    bits.skip(48);
    let level = bits.get(8) as u8;
    let ghost flags_at = bits.position;
    assert(flags_at == flags_start());
    let mut flags: Vec<(u32, u32)> = Vec::new();
    let mut i: usize = 0;
    while i < layers
        invariant
            layers < 8,
            bits.bytes@ == old(bits).bytes@,
            i <= layers,
            bits.position == advance(flags_at, 2 * i),
            flags@.len() == i,
            forall|k: int| 0 <= k < i ==> #[trigger] flags@[k] == (
                bit_at(bits.bytes@, advance(flags_at, 2 * k) as int),
                bit_at(bits.bytes@, advance(flags_at, 2 * k + 1) as int),
            ),
        decreases layers - i,
    {
        let ghost at = bits.position;
        let profile_flag = bits.get(1);
        let level_flag = bits.get(1);
        proof {
            reveal_with_fuel(bits_value, 2);
            assert(advance(at, 0) == at);
        }
        flags.push((profile_flag, level_flag));
        i = i + 1;
    }
    if layers != 0 {
        bits.skip((8 - layers) * 2);
    }
    let ghost start = bits.position;
    let mut k: usize = 0;
    while k < layers
        invariant
            layers < 8,
            bits.bytes@ == old(bits).bytes@,
            flags@.len() == layers,
            forall|k: int| 0 <= k < layers ==> #[trigger] flags@[k] == (
                bit_at(bits.bytes@, advance(flags_at, 2 * k) as int),
                bit_at(bits.bytes@, advance(flags_at, 2 * k + 1) as int),
            ),
            k <= layers,
            sublayer_end(bits.bytes@, flags_at, layers as nat, 0, start)
                == sublayer_end(bits.bytes@, flags_at, layers as nat, k as nat, bits.position),
        decreases layers - k,
    {
        let (profile_flag, level_flag) = flags[k];
        if profile_flag != 0 {
            bits.skip(56);
        }
        if level_flag != 0 {
            bits.skip(8);
        }
        k = k + 1;
    }
    PrefixFields { layers, nested, profile, compatibility, level }
}

/// Whether `r` reports `spec`: the same value, or the failure's error.
pub open spec fn reports<T>(r: Result<T, ContextError>, spec: Result<T, SpsFailure>) -> bool {
    match spec {
        Ok(v) => r is Ok && r->Ok_0 == v,
        Err(f) => r is Err && r->Err_0.parts() == failure_parts(f),
    }
}

fn depths(bits: &mut SpsBits, width: u32, height: u32) -> (r: Result<(u32, u32), ContextError>)
    ensures
        reports(r, geometry_depths(old(bits).bytes@, old(bits).position, width, height)),
{
    let luma = match bits.ue() {
        Some(v) => v,
        None => return Err(failure_error(SpsFailure::Code)),
    };
    if luma > 8 {
        return Err(failure_error(SpsFailure::LumaDepth));
    }
    let color = match bits.ue() {
        Some(v) => v,
        None => return Err(failure_error(SpsFailure::Code)),
    };
    if color > 8 {
        return Err(failure_error(SpsFailure::ChromaDepth));
    }
    Ok((width, height))
}

/// Reads the conformance window offsets.
fn offsets(bits: &mut SpsBits) -> (r: Option<(u32, u32, u32, u32)>)
    ensures
        final(bits).bytes@ == old(bits).bytes@,
        match window_offsets(old(bits).bytes@, old(bits).position) {
            None => r is None,
            Some((l, rt, t, b, e)) => r == Some((l, rt, t, b)) && final(bits).position == e,
        },
{
    let left = match bits.ue() {
        Some(v) => v,
        None => return None,
    };
    let right = match bits.ue() {
        Some(v) => v,
        None => return None,
    };
    let top = match bits.ue() {
        Some(v) => v,
        None => return None,
    };
    let bottom = match bits.ue() {
        Some(v) => v,
        None => return None,
    };
    Some((left, right, top, bottom))
}

fn window(bits: &mut SpsBits, chroma: u32, width: u32, height: u32) -> (r: Result<(u32, u32), ContextError>)
    ensures
        reports(r, geometry_window(old(bits).bytes@, old(bits).position, chroma, width, height)),
{
    let ghost at_flag = bits.position;
    let flag = bits.get(1);
    proof {
        reveal_with_fuel(bits_value, 2);
        assert(advance(at_flag, 0) == at_flag);
    }
    if flag != 0 {
        let (left, right, top, bottom) = match offsets(bits) {
            Some(o) => o,
            None => return Err(failure_error(SpsFailure::Code)),
        };
        let sx: u64 = if chroma == 1 || chroma == 2 { 2 } else { 1 };
        let sy: u64 = if chroma == 1 { 2 } else { 1 };
        if sx * (left as u64 + right as u64) > width as u64 || sy * (top as u64 + bottom as u64) > height as u64 {
            return Err(failure_error(SpsFailure::Window));
        }
    }
    depths(bits, width, height)
}

fn from_chroma(bits: &mut SpsBits) -> (r: Result<(u32, u32), ContextError>)
    ensures
        reports(r, geometry_from_chroma(old(bits).bytes@, old(bits).position)),
{
    let chroma = match bits.ue() {
        Some(c) => c,
        None => return Err(failure_error(SpsFailure::Code)),
    };
    if chroma > 3 {
        return Err(failure_error(SpsFailure::Chroma));
    }
    if chroma == 3 {
        bits.skip(1);
    }
    let width = match bits.ue() {
        Some(v) => v,
        None => return Err(failure_error(SpsFailure::Code)),
    };
    let height = match bits.ue() {
        Some(v) => v,
        None => return Err(failure_error(SpsFailure::Code)),
    };
    window(bits, chroma, width, height)
}

/// The coded width and height of an HEVC SPS NAL unit.
fn sps_geometry(data: &[u8]) -> (r: Result<(u32, u32), ContextError>)
    ensures
        reports(r, spec_geometry(reduce_from(data@, 0))),
{
    let mut bits = SpsBits::new(data);
    read_prefix(&mut bits);
    if bits.ue().is_none() {
        return Err(failure_error(SpsFailure::Code));
    }
    from_chroma(&mut bits)
}

/// The first SPS unit (start and length) among `arrays` NAL-unit arrays of a
/// configuration record from `at`; `Err` where the record ends first.
pub open spec fn scan_arrays(p: Seq<u8>, at: int, arrays: nat) -> Result<Option<(int, int)>, ()>
    decreases arrays, 1int, 0int,
{
    if arrays == 0 {
        Ok(None)
    } else if at + 3 > p.len() {
        Err(())
    } else {
        scan_nals(p, at + 3, p[at] & 63 == 33, be_at(p, at + 1, 2), arrays)
    }
}

/// The first non-empty SPS unit among `count` units from `at` of an array
/// (of SPS units where `sps`), then among the `arrays - 1` arrays after it.
pub open spec fn scan_nals(p: Seq<u8>, at: int, sps: bool, count: nat, arrays: nat) -> Result<Option<(int, int)>, ()>
    decreases arrays, 0int, count,
{
    if count == 0 {
        if arrays == 0 { Ok(None) } else { scan_arrays(p, at, (arrays - 1) as nat) }
    } else if at + 2 > p.len() {
        Err(())
    } else {
        let n = be_at(p, at, 2);
        if at + 2 + n > p.len() {
            Err(())
        } else if sps && n > 0 {
            Ok(Some((at + 2, n as int)))
        } else {
            scan_nals(p, at + 2 + n, sps, (count - 1) as nat, arrays)
        }
    }
}

/// The coded size of an `hvcC` record: the geometry of its first non-empty
/// SPS (none without one); `Err(None)` where the record ends first.
pub open spec fn spec_coded_size(p: Seq<u8>) -> Result<Option<(u32, u32)>, Option<SpsFailure>> {
    if p.len() <= 22 {
        Err(None)
    } else {
        match scan_arrays(p, 23, p[22] as nat) {
            Err(_) => Err(None),
            Ok(None) => Ok(None),
            Ok(Some((start, n))) => match spec_geometry(reduce_from(p.subrange(start, start + n), 0)) {
                Ok(v) => Ok(Some(v)),
                Err(f) => Err(Some(f)),
            },
        }
    }
}

/// The coded width and height that an `hvcC` record's first non-empty SPS
/// gives, before the codec or the media data is read.
pub fn coded_size(config: &[u8]) -> (r: Result<Option<(u32, u32)>, ContextError>)
    ensures
        match spec_coded_size(config@) {
            Ok(v) => r is Ok && r->Ok_0 == v,
            Err(None) => r is Err && r->Err_0.parts() == truncated_parts(),
            Err(Some(f)) => r is Err && r->Err_0.parts() == failure_parts(f),
        },
{
    let len = config.len();
    if len <= 22 {
        return Err(ContextError::truncated());
    }
    let arrays = config[22];
    let mut at: usize = 23;
    let mut i: u8 = 0;
    proof {
        lemma_pow256_values();
    }
    while i < arrays
        invariant
            len == config@.len(),
            len > 22,
            arrays == config@[22],
            i <= arrays,
            at <= len,
            scan_arrays(config@, 23, arrays as nat) == scan_arrays(config@, at as int, (arrays - i) as nat),
        decreases arrays - i,
    {
        if len - at < 3 {
            return Err(ContextError::truncated());
        }
        let kind = config[at];
        let count = read_be(config, at + 1, 2);
        proof {
            lemma_be_value_bound(config@.subrange(at + 1, at + 3));
            lemma_pow256_values();
        }
        let sps = kind & 63 == 33;
        at = at + 3;
        let mut j: u64 = 0;
        while j < count
            invariant
                len == config@.len(),
                len > 22,
                arrays == config@[22],
                i < arrays,
                j <= count,
                count < 0x1_0000,
                at <= len,
                scan_arrays(config@, 23, arrays as nat) == scan_nals(config@, at as int, sps, (count - j) as nat, (arrays - i) as nat),
            decreases count - j,
        {
            if len - at < 2 {
                return Err(ContextError::truncated());
            }
            let n64 = read_be(config, at, 2);
            proof {
                lemma_be_value_bound(config@.subrange(at as int, at + 2));
                lemma_pow256_values();
            }
            let n = n64 as usize;
            at = at + 2;
            if len - at < n {
                return Err(ContextError::truncated());
            }
            let nal = &config[at..at + n];
            assert(nal@ == config@.subrange(at as int, at + n));
            at = at + n;
            if sps && n > 0 {
                return match sps_geometry(nal) {
                    Ok(v) => Ok(Some(v)),
                    Err(e) => Err(e),
                };
            }
            j = j + 1;
        }
        i = i + 1;
    }
    Ok(None)
}

/// Whether two NAL units agree on their common length.
pub open spec fn prefix_equal(a: Seq<u8>, b: Seq<u8>) -> bool {
    let c = if a.len() < b.len() { a.len() } else { b.len() };
    a.subrange(0, c as int) == b.subrange(0, c as int)
}

/// The first unit from `j` that agrees with `nal` on their common length.
pub open spec fn first_prefix(units: Seq<Seq<u8>>, nal: Seq<u8>, j: int) -> Option<int>
    decreases units.len() - j,
{
    if j < 0 || j >= units.len() {
        None
    } else if prefix_equal(units[j], nal) {
        Some(j)
    } else {
        first_prefix(units, nal, j + 1)
    }
}

/// The units of an array after `nal` is offered: a unit agreeing with it on
/// their common length keeps the shorter of the two; otherwise `nal` is appended.
pub open spec fn offer_unit(units: Seq<Seq<u8>>, nal: Seq<u8>) -> Seq<Seq<u8>> {
    match first_prefix(units, nal, 0) {
        None => units.push(nal),
        Some(j) => if nal.len() < units[j].len() { units.update(j, nal) } else { units },
    }
}

/// The first array from `i` of NAL unit type `kind`.
pub open spec fn find_array(arrays: Seq<(u8, Seq<Seq<u8>>)>, kind: u8, i: int) -> Option<int>
    decreases arrays.len() - i,
{
    if i < 0 || i >= arrays.len() {
        None
    } else if arrays[i].0 == kind {
        Some(i)
    } else {
        find_array(arrays, kind, i + 1)
    }
}

/// The arrays after a parameter set `nal` of type `kind` is offered.
pub open spec fn offer(arrays: Seq<(u8, Seq<Seq<u8>>)>, kind: u8, nal: Seq<u8>) -> Seq<(u8, Seq<Seq<u8>>)> {
    match find_array(arrays, kind, 0) {
        None => arrays.push((kind, seq![nal])),
        Some(i) => arrays.update(i, (kind, offer_unit(arrays[i].1, nal))),
    }
}

/// HEVC packet configuration for registered still-image encoders.
pub struct EncoderConfiguration {
    pub header: [u8; 22],
    pub arrays: Vec<(u8, Vec<Vec<u8>>)>,
    pub size: (u32, u32),
}

/// The units of an array as byte sequences.
pub open spec fn units_view(units: Seq<Vec<u8>>) -> Seq<Seq<u8>> {
    units.map_values(|u: Vec<u8>| u@)
}

impl EncoderConfiguration {
    /// The NAL-unit arrays as type and byte sequences.
    pub open spec fn arrays_view(&self) -> Seq<(u8, Seq<Seq<u8>>)> {
        self.arrays@.map_values(|a: (u8, Vec<Vec<u8>>)| (a.0, units_view(a.1@)))
    }

    /// An empty configuration.
    pub fn new() -> (r: EncoderConfiguration)
        ensures
            r.header@ == Seq::new(22, |i: int| 0u8),
            r.arrays@.len() == 0,
            r.size == (0u32, 0u32),
    {
        EncoderConfiguration { header: [0u8; 22], arrays: Vec::new(), size: (0, 0) }
    }
}

/// A copy of a NAL unit.
pub fn copy_unit(v: &[u8]) -> (r: Vec<u8>)
    ensures
        r@ == v@,
{
    let mut out: Vec<u8> = Vec::new();
    let mut i: usize = 0;
    while i < v.len()
        invariant
            i <= v@.len(),
            out@ == v@.subrange(0, i as int),
        decreases v@.len() - i,
    {
        out.push(v[i]);
        i = i + 1;
    }
    out
}

/// Whether two units agree on their common length.
fn agree(a: &[u8], b: &[u8]) -> (r: bool)
    ensures
        r == prefix_equal(a@, b@),
{
    let c = if a.len() < b.len() { a.len() } else { b.len() };
    let mut i: usize = 0;
    while i < c
        invariant
            c <= a@.len(),
            c <= b@.len(),
            i <= c,
            a@.subrange(0, i as int) == b@.subrange(0, i as int),
        decreases c - i,
    {
        if a[i] != b[i] {
            assert(a@.subrange(0, c as int)[i as int] != b@.subrange(0, c as int)[i as int]);
            return false;
        }
        assert(a@.subrange(0, i + 1) =~= a@.subrange(0, i as int).push(a@[i as int]));
        assert(b@.subrange(0, i + 1) =~= b@.subrange(0, i as int).push(b@[i as int]));
        i = i + 1;
    }
    true
}

/// The units of an array after `nal` is offered.
fn offer_to(units: &Vec<Vec<u8>>, nal: &[u8]) -> (r: Vec<Vec<u8>>)
    ensures
        units_view(r@) == offer_unit(units_view(units@), nal@),
{
    let ghost view = units_view(units@);
    let mut out: Vec<Vec<u8>> = Vec::new();
    let mut found: bool = false;
    let mut j: usize = 0;
    while j < units.len()
        invariant
            view == units_view(units@),
            j <= units@.len(),
            !found ==> first_prefix(view, nal@, 0) == first_prefix(view, nal@, j as int),
            !found ==> units_view(out@) == view.subrange(0, j as int),
            found ==> first_prefix(view, nal@, 0) is Some,
            found ==> units_view(out@) == offer_unit(view, nal@).subrange(0, j as int),
            found ==> offer_unit(view, nal@).len() == view.len(),
            found ==> forall|k: int| j <= k < view.len() ==> offer_unit(view, nal@)[k] == view[k],
        decreases units@.len() - j,
    {
        let unit = &units[j];
        let ghost before = out@;
        if !found && agree(unit.as_slice(), nal) {
            found = true;
            if nal.len() < unit.len() {
                out.push(copy_unit(nal));
            } else {
                out.push(copy_unit(unit.as_slice()));
            }
        } else {
            out.push(copy_unit(unit.as_slice()));
        }
        assert(units_view(out@) =~= units_view(before).push(units_view(out@).last()));
        j = j + 1;
    }
    if !found {
        let ghost before = out@;
        out.push(copy_unit(nal));
        assert(units_view(out@) =~= units_view(before).push(nal@));
        assert(first_prefix(view, nal@, view.len() as int) is None);
        assert(units_view(before) =~= view);
    }
    proof {
        assert(units_view(out@) =~= offer_unit(view, nal@));
    }
    out
}

impl EncoderConfiguration {
    /// Records a parameter set NAL unit (VPS, SPS or PPS: types 32 to 34)
    /// in the array of its type; an SPS also fills the record's header and
    /// the coded size. Other units are not recorded (`false`).
    pub fn update(&mut self, nal: &[u8]) -> (r: Result<bool, ContextError>)
        ensures
            r is Ok,
            nal@.len() == 0 ==> r == Ok::<bool, ContextError>(false) && final(self).arrays_view() == old(self).arrays_view()
                && final(self).header == old(self).header && final(self).size == old(self).size,
            nal@.len() > 0 ==> {
                let kind = nal@[0] >> 1u8;
                &&& kind != 33 ==> final(self).header == old(self).header && final(self).size == old(self).size
                &&& kind == 33 ==> match spec_sps_config(reduce_from(nal@, 0)) {
                    Ok((chroma, w, h, l, c)) => final(self).size == (w, h)
                        && final(self).header@ == sps_header(old(self).header@, reduce_from(nal@, 0), chroma, l, c),
                    Err(_) => true,
                }
                &&& 32 <= kind <= 34 ==> r == Ok::<bool, ContextError>(true) && final(self).arrays_view() == offer(
                    old(self).arrays_view(),
                    kind,
                    nal@,
                )
                &&& !(32 <= kind <= 34) ==> r == Ok::<bool, ContextError>(false) && final(self).arrays_view() == old(self).arrays_view()
            },
    {
        if nal.len() == 0 {
            return Ok(false);
        }
        let kind = nal[0] >> 1u8;
        if kind == 33 {
            let _ = self.sps(nal);
        }
        if !(32 <= kind && kind <= 34) {
            return Ok(false);
        }
        let ghost view = self.arrays_view();
        let ghost hdr = self.header;
        let ghost sz = self.size;
        let mut i: usize = 0;
        while i < self.arrays.len()
            invariant
                nal@.len() > 0,
                kind == nal@[0] >> 1u8,
                32 <= kind <= 34,
                self.header == hdr,
                self.size == sz,
                kind != 33 ==> hdr == old(self).header && sz == old(self).size,
                kind == 33 ==> match spec_sps_config(reduce_from(nal@, 0)) {
                    Ok((chroma, w, h, l, c)) => sz == (w, h)
                        && hdr@ == sps_header(old(self).header@, reduce_from(nal@, 0), chroma, l, c),
                    Err(_) => true,
                },
                view == old(self).arrays_view(),
                view == self.arrays_view(),
                i <= self.arrays@.len(),
                find_array(view, kind, 0) == find_array(view, kind, i as int),
            decreases self.arrays@.len() - i,
        {
            if self.arrays[i].0 == kind {
                let units = offer_to(&self.arrays[i].1, nal);
                proof {
                    assert(view[i as int] == (kind, units_view(self.arrays@[i as int].1@)));
                }
                self.arrays.set(i, (kind, units));
                assert(self.arrays_view() =~= offer(view, kind, nal@));
                return Ok(true);
            }
            i = i + 1;
        }
        let mut one: Vec<Vec<u8>> = Vec::new();
        one.push(copy_unit(nal));
        self.arrays.push((kind, one));
        assert(units_view(one@) =~= seq![nal@]);
        assert(self.arrays_view() =~= offer(view, kind, nal@));
        Ok(true)
    }

    /// Fills the record's header fields and the coded size from an SPS.
    #[verifier::rlimit(60)]
    #[verifier::spinoff_prover]
    fn sps(&mut self, nal: &[u8]) -> (r: Result<(), ContextError>)
        ensures
            final(self).arrays@ == old(self).arrays@,
            r is Ok ==> final(self).header@[0] == 1,
            match spec_sps_config(reduce_from(nal@, 0)) {
                Err(f) => r is Err && r->Err_0.parts() == failure_parts(f),
                Ok((chroma, w, h, l, c)) => r is Ok && final(self).size == (w, h)
                    && final(self).header@ == sps_header(old(self).header@, reduce_from(nal@, 0), chroma, l, c),
            },
    {
        let mut bits = SpsBits::new(nal);
        let fields = read_prefix(&mut bits);
        let nested = fields.nested;
        self.header[21] = (self.header[21] & !4u8) | (nested << 2u8);
        self.header[1] = fields.profile;
        let c = fields.compatibility;
        self.header[2] = (c >> 24u32) as u8;
        self.header[3] = ((c >> 16u32) & 0xff) as u8;
        self.header[4] = ((c >> 8u32) & 0xff) as u8;
        self.header[5] = (c & 0xff) as u8;
        self.header[12] = fields.level;
        if bits.ue().is_none() {
            return Err(failure_error(SpsFailure::Code));
        }
        let chroma = match bits.ue() {
            Some(v) => v,
            None => return Err(failure_error(SpsFailure::Code)),
        };
        if chroma > 3 {
            return Err(failure_error(SpsFailure::Chroma));
        }
        self.header[16] = 0xfc | chroma as u8;
        if chroma == 3 {
            bits.skip(1);
        }
        self.size.0 = match bits.ue() {
            Some(v) => v,
            None => return Err(failure_error(SpsFailure::Code)),
        };
        self.size.1 = match bits.ue() {
            Some(v) => v,
            None => return Err(failure_error(SpsFailure::Code)),
        };
        let (mut width, mut height) = self.size;
        let ghost flag_at = bits.position;
        let window = bits.get(1);
        proof {
            reveal_with_fuel(bits_value, 2);
            assert(advance(flag_at, 0) == flag_at);
        }
        if window != 0 {
            let (left, right, top, bottom) = match offsets(&mut bits) {
                Some(o) => o,
                None => return Err(failure_error(SpsFailure::Code)),
            };
            let sx: u64 = if chroma == 1 || chroma == 2 { 2 } else { 1 };
            let sy: u64 = if chroma == 1 { 2 } else { 1 };
            let crop_x = sx * (left as u64 + right as u64);
            let crop_y = sy * (top as u64 + bottom as u64);
            if crop_x > width as u64 || crop_y > height as u64 {
                return Err(failure_error(SpsFailure::Window));
            }
            width = width - crop_x as u32;
            height = height - crop_y as u32;
        }
        self.size = (width, height);
        let luma = match bits.ue() {
            Some(v) => v,
            None => return Err(failure_error(SpsFailure::Code)),
        };
        if luma > 8 {
            return Err(failure_error(SpsFailure::LumaDepth));
        }
        self.header[17] = 0xf8 | luma as u8;
        let color = match bits.ue() {
            Some(v) => v,
            None => return Err(failure_error(SpsFailure::Code)),
        };
        if color > 8 {
            return Err(failure_error(SpsFailure::ChromaDepth));
        }
        self.header[0] = 1;
        self.header[13] = 0xf0;
        self.header[14] = 0;
        self.header[15] = 0xfc;
        self.header[16] = 0xfc | chroma as u8;
        self.header[17] = 0xf8 | luma as u8;
        self.header[18] = 0xf8 | color as u8;
        self.header[19] = 0;
        self.header[20] = 0;
        self.header[21] = 11 | (nested << 2u8);
        self.size = (width, height);
        Ok(())
    }
}

/// Why a configuration record cannot be written.
#[derive(Debug, Clone, Copy, PartialEq, Eq, Structural)]
pub enum WriteFailure {
    /// An array of more than 65535 units.
    TooManyUnits,
    /// A unit of more than 65535 bytes.
    UnitTooLarge,
}

/// The reported failure of a write.
pub open spec fn write_failure_parts(f: WriteFailure) -> (i32, i32, Seq<char>) {
    match f {
        WriteFailure::TooManyUnits => (2i32, 0i32, "Invalid input: "@ + "Too many NAL units in hvcC"@),
        WriteFailure::UnitTooLarge => (2i32, 0i32, "Invalid input: "@ + "hvcC NAL unit exceeds maximum size (64kB)"@),
    }
}

/// `n` as two big-endian bytes.
pub open spec fn be16(n: int) -> Seq<u8> {
    seq![(n / 256) as u8, (n % 256) as u8]
}

/// `w` in front of a successful result.
pub open spec fn prepend(w: Seq<u8>, r: Result<Seq<u8>, WriteFailure>) -> Result<Seq<u8>, WriteFailure> {
    match r {
        Ok(b) => Ok(w + b),
        Err(f) => Err(f),
    }
}

/// Prepending twice prepends the joined bytes.
pub proof fn lemma_prepend_twice(a: Seq<u8>, b: Seq<u8>, r: Result<Seq<u8>, WriteFailure>)
    ensures
        prepend(a, prepend(b, r)) == prepend(a + b, r),
{
    match r {
        Ok(x) => {
            assert((a + b) + x =~= a + (b + x));
        },
        Err(_) => {},
    }
}

/// The length-prefixed units from `j`.
pub open spec fn units_bytes(units: Seq<Seq<u8>>, j: int) -> Result<Seq<u8>, WriteFailure>
    decreases units.len() - j,
{
    if j < 0 || j >= units.len() {
        Ok(Seq::empty())
    } else if units[j].len() > 0xffff {
        Err(WriteFailure::UnitTooLarge)
    } else {
        prepend(be16(units[j].len() as int) + units[j], units_bytes(units, j + 1))
    }
}

/// The arrays from `i`: type byte, unit count, units.
pub open spec fn arrays_bytes(arrays: Seq<(u8, Seq<Seq<u8>>)>, i: int) -> Result<Seq<u8>, WriteFailure>
    decreases arrays.len() - i,
{
    if i < 0 || i >= arrays.len() {
        Ok(Seq::empty())
    } else if arrays[i].1.len() > 0xffff {
        Err(WriteFailure::TooManyUnits)
    } else {
        match units_bytes(arrays[i].1, 0) {
            Err(f) => Err(f),
            Ok(b) => prepend(seq![64u8 | arrays[i].0] + be16(arrays[i].1.len() as int) + b, arrays_bytes(arrays, i + 1)),
        }
    }
}

/// Writes a unit's length as two big-endian bytes.
pub fn push_be16(bytes: &mut Vec<u8>, n: usize)
    requires
        n <= 0xffff,
    ensures
        final(bytes)@ == old(bytes)@ + be16(n as int),
{
    bytes.push((n / 256) as u8);
    bytes.push((n % 256) as u8);
    assert(final(bytes)@ =~= old(bytes)@ + be16(n as int));
}

/// Appends `unit`.
pub fn push_all(bytes: &mut Vec<u8>, unit: &[u8])
    ensures
        final(bytes)@ == old(bytes)@ + unit@,
{
    let mut i: usize = 0;
    while i < unit.len()
        invariant
            i <= unit@.len(),
            bytes@ == old(bytes)@ + unit@.subrange(0, i as int),
        decreases unit@.len() - i,
    {
        bytes.push(unit[i]);
        i = i + 1;
    }
    assert(unit@.subrange(0, unit@.len() as int) =~= unit@);
}

impl EncoderConfiguration {
    /// The `hvcC` record: the 22 header bytes, the array count, then each
    /// array's type byte (with the completeness bit), unit count and
    /// length-prefixed units.
    pub open spec fn record(&self) -> Result<Seq<u8>, WriteFailure> {
        prepend(self.header@ + seq![(self.arrays@.len() % 256) as u8], arrays_bytes(self.arrays_view(), 0))
    }

    /// The `hvcC` property: its fourcc, the record's bytes, and the failure
    /// where the record cannot be written (its bytes then end where writing
    /// stopped).
    pub fn property(&self) -> (r: Property)
        ensures
            r.kind == 0x6876_6343 && r.uuid is None && !r.raw,
            match self.record() {
                Ok(b) => r.data@ == b && r.write_error is None,
                Err(f) => r.write_error matches Some(e) && e.parts() == write_failure_parts(f),
            },
    {
        let mut bytes: Vec<u8> = Vec::new();
        let error = match self.write_into(&mut bytes) {
            Ok(()) => None,
            Err(e) => Some(e),
        };
        proof {
            if self.record() is Ok {
                assert(Seq::<u8>::empty() + self.record()->Ok_0 =~= self.record()->Ok_0);
            }
        }
        Property { kind: 0x6876_6343, uuid: None, data: bytes, raw: false, write_error: error }
    }

    /// Writes the `hvcC` record after `bytes`.
    pub fn write_into(&self, bytes: &mut Vec<u8>) -> (r: Result<(), ContextError>)
        ensures
            match self.record() {
                Ok(b) => r is Ok && final(bytes)@ == old(bytes)@ + b,
                Err(f) => r is Err && r->Err_0.parts() == write_failure_parts(f),
            },
    {
        let ghost view = self.arrays_view();
        let header = self.header.as_slice();
        assert(header@ == self.header@);
        push_all(bytes, header);
        bytes.push((self.arrays.len() % 256) as u8);
        let ghost head = bytes@;
        assert(head == old(bytes)@ + (self.header@ + seq![(self.arrays@.len() % 256) as u8]));
        let ghost mut w: Seq<u8> = Seq::empty();
        let mut i: usize = 0;
        while i < self.arrays.len()
            invariant
                view == self.arrays_view(),
                i <= self.arrays@.len(),
                bytes@ == head + w,
                prepend(w, arrays_bytes(view, i as int)) == arrays_bytes(view, 0),
            decreases self.arrays@.len() - i,
        {
            let kind = self.arrays[i].0;
            let units = &self.arrays[i].1;
            bytes.push(64u8 | kind);
            if units.len() > 0xffff {
                return Err(ContextError::invalid(0, "Too many NAL units in hvcC"));
            }
            push_be16(bytes, units.len());
            let ghost lead = seq![64u8 | kind] + be16(units@.len() as int);
            assert(bytes@ == head + w + lead);
            let ghost mut u: Seq<u8> = Seq::empty();
            let mut j: usize = 0;
            while j < units.len()
                invariant
                    view == self.arrays_view(),
                    i < self.arrays@.len(),
                    units == &self.arrays@[i as int].1,
                    units@.len() <= 0xffff,
                    view[i as int] == (kind, units_view(units@)),
                    prepend(w, arrays_bytes(view, i as int)) == arrays_bytes(view, 0),
                    j <= units@.len(),
                    bytes@ == head + w + lead + u,
                    prepend(u, units_bytes(view[i as int].1, j as int)) == units_bytes(view[i as int].1, 0),
                decreases units@.len() - j,
            {
                let unit = &units[j];
                if unit.len() > 0xffff {
                    return Err(ContextError::invalid(0, "hvcC NAL unit exceeds maximum size (64kB)"));
                }
                push_be16(bytes, unit.len());
                push_all(bytes, unit.as_slice());
                proof {
                    let piece = be16(unit@.len() as int) + unit@;
                    assert(bytes@ =~= head + w + lead + (u + piece));
                    assert(view[i as int].1[j as int] == unit@);
                    lemma_prepend_twice(u, piece, units_bytes(view[i as int].1, j + 1));
                    u = u + piece;
                }
                j = j + 1;
            }
            proof {
                assert(u + Seq::<u8>::empty() =~= u);
                assert(units_bytes(view[i as int].1, 0) == Ok::<Seq<u8>, WriteFailure>(u));
                assert(bytes@ =~= head + (w + (lead + u)));
                lemma_prepend_twice(w, lead + u, arrays_bytes(view, i + 1));
                w = w + (lead + u);
            }
            i = i + 1;
        }
        assert(bytes@ =~= old(bytes)@ + ((self.header@ + seq![(self.arrays@.len() % 256) as u8]) + w));
        Ok(())
    }
}

} // verus!
