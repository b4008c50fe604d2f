//! Descriptive properties that an image handle carries: their box bodies and
//! how they are read back.
use vstd::prelude::*;
use crate::properties::{plain_property, Property};
use crate::bytes::{be_at, be_value, read_be, lemma_be_value_bound, lemma_pow256_values};
use crate::color::{AmbientViewingEnvironment, ContentLightLevel, MasteringDisplayColourVolume};

verus! {

/// The fourcc `clli`.
pub const CLLI: u32 = 0x636c_6c69;
/// The fourcc `mdcv`.
pub const MDCV: u32 = 0x6d64_6376;
/// The fourcc `amve`.
pub const AMVE: u32 = 0x616d_7665;
/// The fourcc `ndwt`.
pub const NDWT: u32 = 0x6e64_7774;
/// The fourcc `pasp`.
pub const PASP: u32 = 0x7061_7370;

/// A descriptive property value.
#[derive(Clone, Copy, Debug)]
pub enum Value {
    ContentLight(ContentLightLevel),
    Mastering(MasteringDisplayColourVolume),
    Ambient(AmbientViewingEnvironment),
    DiffuseWhite(u32),
    PixelAspect(u32, u32),
}

/// A 16-bit value as two big-endian bytes.
pub open spec fn be2(x: u16) -> Seq<u8> {
    seq![(x / 256) as u8, (x % 256) as u8]
}

/// A 32-bit value as four big-endian bytes.
pub open spec fn be4(x: u32) -> Seq<u8> {
    seq![(x / 0x100_0000) as u8, (x / 0x1_0000 % 256) as u8, (x / 256 % 256) as u8, (x % 256) as u8]
}

/// The 16-bit big-endian number at `i`.
pub open spec fn u16_at(d: Seq<u8>, i: int) -> u16 {
    be_at(d, i, 2) as u16
}

/// The 32-bit big-endian number at `i`.
pub open spec fn u32_at(d: Seq<u8>, i: int) -> u32 {
    be_at(d, i, 4) as u32
}

/// The body of a mastering display colour volume.
pub open spec fn mastering_body(m: MasteringDisplayColourVolume) -> Seq<u8> {
    be2(m.display_primaries_x[0]) + be2(m.display_primaries_y[0])
        + be2(m.display_primaries_x[1]) + be2(m.display_primaries_y[1])
        + be2(m.display_primaries_x[2]) + be2(m.display_primaries_y[2])
        + be2(m.white_point_x) + be2(m.white_point_y)
        + be4(m.max_display_mastering_luminance) + be4(m.min_display_mastering_luminance)
}

/// The property that stores a value: its fourcc and body, or none for a
/// value that equals the default (no light levels, square pixels).
pub open spec fn value_property(v: Value) -> Option<(u32, Seq<u8>)> {
    match v {
        Value::ContentLight(c) => if c.max_content_light_level == 0 && c.max_pic_average_light_level == 0 {
            None
        } else {
            Some((CLLI, be2(c.max_content_light_level) + be2(c.max_pic_average_light_level)))
        },
        Value::Mastering(m) => Some((MDCV, mastering_body(m))),
        Value::Ambient(a) => Some((AMVE, be4(a.ambient_illumination) + be2(a.ambient_light_x) + be2(a.ambient_light_y))),
        Value::DiffuseWhite(w) => Some((NDWT, seq![0u8, 0, 0, 0] + be4(w))),
        Value::PixelAspect(h, v) => if h == v { None } else { Some((PASP, be4(h) + be4(v))) },
    }
}

/// The mastering display colour volume that a body of at least 24 bytes holds.
pub open spec fn mastering_of(d: Seq<u8>) -> MasteringDisplayColourVolume {
    MasteringDisplayColourVolume {
        display_primaries_x: [u16_at(d, 0), u16_at(d, 4), u16_at(d, 8)],
        display_primaries_y: [u16_at(d, 2), u16_at(d, 6), u16_at(d, 10)],
        white_point_x: u16_at(d, 12),
        white_point_y: u16_at(d, 14),
        max_display_mastering_luminance: u32_at(d, 16),
        min_display_mastering_luminance: u32_at(d, 20),
    }
}

/// The value that a property holds; none for a raw property, another
/// fourcc, a body too short for its fourcc, or an `ndwt` whose first byte
/// is not zero.
pub open spec fn value_parse(kind: u32, raw: bool, d: Seq<u8>) -> Option<Value> {
    if raw {
        None
    } else if kind == CLLI && d.len() >= 4 {
        Some(Value::ContentLight(ContentLightLevel {
            max_content_light_level: u16_at(d, 0),
            max_pic_average_light_level: u16_at(d, 2),
        }))
    } else if kind == MDCV && d.len() >= 24 {
        Some(Value::Mastering(mastering_of(d)))
    } else if kind == AMVE && d.len() >= 8 {
        Some(Value::Ambient(AmbientViewingEnvironment {
            ambient_illumination: u32_at(d, 0),
            ambient_light_x: u16_at(d, 4),
            ambient_light_y: u16_at(d, 6),
        }))
    } else if kind == NDWT && d.len() >= 8 && d[0] == 0 {
        Some(Value::DiffuseWhite(u32_at(d, 4)))
    } else if kind == PASP && d.len() >= 8 {
        Some(Value::PixelAspect(u32_at(d, 0), u32_at(d, 4)))
    } else {
        None
    }
}

/// Appends a 16-bit value in big-endian order.
fn push_u16(out: &mut Vec<u8>, x: u16)
    ensures
        final(out)@ == old(out)@ + be2(x),
{
    out.push((x / 256) as u8);
    out.push((x % 256) as u8);
    assert(out@ =~= old(out)@ + be2(x));
}

/// Appends a 32-bit value in big-endian order.
fn push_u32(out: &mut Vec<u8>, x: u32)
    ensures
        final(out)@ == old(out)@ + be4(x),
{
    out.push((x / 0x100_0000) as u8);
    out.push((x / 0x1_0000 % 256) as u8);
    out.push((x / 256 % 256) as u8);
    out.push((x % 256) as u8);
    assert(out@ =~= old(out)@ + be4(x));
}

/// Reads the 16-bit big-endian number at `at`.
fn read_u16(d: &[u8], at: usize) -> (r: u16)
    requires
        at + 2 <= d@.len(),
    ensures
        r == u16_at(d@, at as int),
{
    proof {
        lemma_be_value_bound(d@.subrange(at as int, at + 2));
        lemma_pow256_values();
    }
    read_be(d, at, 2) as u16
}

/// Reads the 32-bit big-endian number at `at`.
fn read_u32(d: &[u8], at: usize) -> (r: u32)
    requires
        at + 4 <= d@.len(),
    ensures
        r == u32_at(d@, at as int),
{
    proof {
        lemma_be_value_bound(d@.subrange(at as int, at + 4));
        lemma_pow256_values();
    }
    read_be(d, at, 4) as u32
}

impl Value {
    /// The property that stores this value, as its fourcc and body; none for
    /// a value that needs no property.
    pub fn property(self) -> (r: Option<Property>)
        ensures
            match value_property(self) {
                Some((k, d)) => r matches Some(p) && p.data@ == d && plain_property(p, k, d),
                None => r is None,
            },
    {
        let mut data: Vec<u8> = Vec::new();
        let kind = match self {
            Value::ContentLight(v) => {
                if v.max_content_light_level == 0 && v.max_pic_average_light_level == 0 {
                    return None;
                }
                push_u16(&mut data, v.max_content_light_level);
                push_u16(&mut data, v.max_pic_average_light_level);
                CLLI
            },
            Value::Mastering(v) => {
                let mut i: usize = 0;
                while i < 3
                    invariant
                        i <= 3,
                        data@ == mastering_prefix(v, i as int),
                    decreases 3 - i,
                {
                    push_u16(&mut data, v.display_primaries_x[i]);
                    push_u16(&mut data, v.display_primaries_y[i]);
                    i = i + 1;
                }
                push_u16(&mut data, v.white_point_x);
                push_u16(&mut data, v.white_point_y);
                push_u32(&mut data, v.max_display_mastering_luminance);
                push_u32(&mut data, v.min_display_mastering_luminance);
                proof {
                    reveal_with_fuel(mastering_prefix, 4);
                }
                assert(mastering_prefix(v, 3) =~= mastering_prefix(v, 0) + be2(v.display_primaries_x[0])
                    + be2(v.display_primaries_y[0]) + be2(v.display_primaries_x[1]) + be2(v.display_primaries_y[1])
                    + be2(v.display_primaries_x[2]) + be2(v.display_primaries_y[2]));
                assert(data@ =~= mastering_body(v));
                MDCV
            },
            Value::Ambient(v) => {
                push_u32(&mut data, v.ambient_illumination);
                push_u16(&mut data, v.ambient_light_x);
                push_u16(&mut data, v.ambient_light_y);
                AMVE
            },
            Value::DiffuseWhite(v) => {
                data.push(0);
                data.push(0);
                data.push(0);
                data.push(0);
                push_u32(&mut data, v);
                NDWT
            },
            Value::PixelAspect(h, v) => {
                if h == v {
                    return None;
                }
                push_u32(&mut data, h);
                push_u32(&mut data, v);
                PASP
            },
        };
        Some(Property::new(kind, data))
    }

    /// The value that a property holds: its fourcc, whether it is kept raw,
    /// and its body.
    pub fn parse(kind: u32, raw: bool, d: &[u8]) -> (r: Option<Value>)
        ensures
            r == value_parse(kind, raw, d@),
    {
        if raw {
            return None;
        }
        let n = d.len();
        if kind == CLLI && n >= 4 {
            Some(Value::ContentLight(ContentLightLevel {
                max_content_light_level: read_u16(d, 0),
                max_pic_average_light_level: read_u16(d, 2),
            }))
        } else if kind == MDCV && n >= 24 {
            let m = MasteringDisplayColourVolume {
                display_primaries_x: [read_u16(d, 0), read_u16(d, 4), read_u16(d, 8)],
                display_primaries_y: [read_u16(d, 2), read_u16(d, 6), read_u16(d, 10)],
                white_point_x: read_u16(d, 12),
                white_point_y: read_u16(d, 14),
                max_display_mastering_luminance: read_u32(d, 16),
                min_display_mastering_luminance: read_u32(d, 20),
            };
            assert(m.display_primaries_x =~= mastering_of(d@).display_primaries_x);
            assert(m.display_primaries_y =~= mastering_of(d@).display_primaries_y);
            Some(Value::Mastering(m))
        } else if kind == AMVE && n >= 8 {
            Some(Value::Ambient(AmbientViewingEnvironment {
                ambient_illumination: read_u32(d, 0),
                ambient_light_x: read_u16(d, 4),
                ambient_light_y: read_u16(d, 6),
            }))
        } else if kind == NDWT && n >= 8 && d[0] == 0 {
            Some(Value::DiffuseWhite(read_u32(d, 4)))
        } else if kind == PASP && n >= 8 {
            Some(Value::PixelAspect(read_u32(d, 0), read_u32(d, 4)))
        } else {
            None
        }
    }
}

/// The primaries written before index `i`.
pub open spec fn mastering_prefix(m: MasteringDisplayColourVolume, i: int) -> Seq<u8>
    decreases i,
{
    if i <= 0 {
        Seq::empty()
    } else {
        mastering_prefix(m, i - 1) + be2(m.display_primaries_x[i - 1]) + be2(m.display_primaries_y[i - 1])
    }
}

/// Two big-endian bytes read back give the 16-bit value.
pub proof fn lemma_be2(x: u16)
    ensures
        be_value(be2(x)) == x,
{
    let s = be2(x);
    assert(s.drop_last() =~= seq![s[0]]);
    assert(s.drop_last().drop_last() =~= Seq::<u8>::empty());
    assert(be_value(Seq::<u8>::empty()) == 0);
    assert(be_value(s.drop_last()) == s[0]);
}

/// Four big-endian bytes read back give the 32-bit value.
pub proof fn lemma_be4(x: u32)
    ensures
        be_value(be4(x)) == x,
{
    let s = be4(x);
    let s3 = s.drop_last();
    let s2 = s3.drop_last();
    let s1 = s2.drop_last();
    assert(s1 =~= seq![s[0]]);
    assert(s1.drop_last() =~= Seq::<u8>::empty());
    assert(be_value(Seq::<u8>::empty()) == 0);
    assert(be_value(s1) == s[0]);
    assert(be_value(s2) == s[0] * 256 + s[1]);
    assert(be_value(s3) == (s[0] * 256 + s[1]) * 256 + s[2]);
}

/// A value stored as a property reads back as the same value.
pub proof fn lemma_property_round_trip(v: Value)
    requires
        value_property(v) is Some,
    ensures
        value_parse(value_property(v)->Some_0.0, false, value_property(v)->Some_0.1) == Some(v),
{
    let (k, d) = value_property(v)->Some_0;
    match v {
        Value::ContentLight(c) => {
            lemma_be2(c.max_content_light_level);
            lemma_be2(c.max_pic_average_light_level);
            assert(d.subrange(0, 2) =~= be2(c.max_content_light_level));
            assert(d.subrange(2, 4) =~= be2(c.max_pic_average_light_level));
        },
        Value::Mastering(m) => {
            let p = mastering_of(d);
            let xs = m.display_primaries_x;
            let ys = m.display_primaries_y;
            assert(d.subrange(0, 2) =~= be2(xs[0]));
            assert(d.subrange(2, 4) =~= be2(ys[0]));
            assert(d.subrange(4, 6) =~= be2(xs[1]));
            assert(d.subrange(6, 8) =~= be2(ys[1]));
            assert(d.subrange(8, 10) =~= be2(xs[2]));
            assert(d.subrange(10, 12) =~= be2(ys[2]));
            assert(d.subrange(12, 14) =~= be2(m.white_point_x));
            assert(d.subrange(14, 16) =~= be2(m.white_point_y));
            assert(d.subrange(16, 20) =~= be4(m.max_display_mastering_luminance));
            assert(d.subrange(20, 24) =~= be4(m.min_display_mastering_luminance));
            lemma_be2(xs[0]);
            lemma_be2(xs[1]);
            lemma_be2(xs[2]);
            lemma_be2(ys[0]);
            lemma_be2(ys[1]);
            lemma_be2(ys[2]);
            lemma_be2(m.white_point_x);
            lemma_be2(m.white_point_y);
            lemma_be4(m.max_display_mastering_luminance);
            lemma_be4(m.min_display_mastering_luminance);
            assert(p.display_primaries_x =~= xs);
            assert(p.display_primaries_y =~= ys);
        },
        Value::Ambient(a) => {
            assert(d.subrange(0, 4) =~= be4(a.ambient_illumination));
            assert(d.subrange(4, 6) =~= be2(a.ambient_light_x));
            assert(d.subrange(6, 8) =~= be2(a.ambient_light_y));
            lemma_be4(a.ambient_illumination);
            lemma_be2(a.ambient_light_x);
            lemma_be2(a.ambient_light_y);
        },
        Value::DiffuseWhite(w) => {
            assert(d.subrange(4, 8) =~= be4(w));
            lemma_be4(w);
        },
        Value::PixelAspect(h, w) => {
            assert(d.subrange(0, 4) =~= be4(h));
            assert(d.subrange(4, 8) =~= be4(w));
            lemma_be4(h);
            lemma_be4(w);
        },
    }
}

} // verus!
