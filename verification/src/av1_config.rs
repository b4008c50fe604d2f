//! Codec-independent AV1 configuration (`av1C`) extraction from the
//! sequence header of caller-supplied AV1 packets.
use vstd::prelude::*;
use crate::rbsp::{advance, bits_value, lemma_bits_value_bound};
use crate::bitwriter::{pow2, lemma_pow2_values, lemma_pow2_monotone, lemma_pow2_32};

verus! {

/// The fields of an `av1C` record.
#[derive(Clone, Copy, PartialEq, Eq, Structural)]
pub struct Configuration {
    pub profile: u8,
    pub level: u8,
    pub tier: u8,
    pub high: u8,
    pub twelve: u8,
    pub mono: u8,
    pub sx: u8,
    pub sy: u8,
    pub position: u8,
}

/// A bit reader over AV1 packets: most significant bit first, zero past the
/// end, the position held at its largest value.
struct Bits<'a> {
    data: &'a [u8],
    at: u64,
}

impl<'a> Bits<'a> {
    /// Reads `n` bits.
    fn get(&mut self, n: usize) -> (r: u32)
        requires
            n <= 32,
        ensures
            r == bits_value(old(self).data@, old(self).at, n as nat),
            r < pow2(n as nat),
            final(self).data == old(self).data,
            final(self).at == advance(old(self).at, n as int),
    {
        let mut value: u32 = 0;
        let mut k: usize = 0;
        let ghost start = self.at;
        while k < n
            invariant
                n <= 32,
                k <= n,
                self.data == old(self).data,
                start == old(self).at,
                self.at == advance(start, k as int),
                value == bits_value(self.data@, start, k as nat),
                value < pow2(k as nat),
                pow2(k as nat) <= 0x1_0000_0000,
            decreases n - k,
        {
            let byte = self.at / 8;
            let bit: u32 = if byte < self.data.len() as u64 {
                let b = self.data[byte as usize];
                let s = (7 - self.at % 8) as u8;
                proof {
                    assert((b >> s) & 1 <= 1) by (bit_vector);
                }
                ((b >> s) & 1) as u32
            } else {
                0
            };
            proof {
                crate::rbsp::lemma_pow2_step(k as nat);
                lemma_pow2_monotone((k + 1) as nat, 32);
                lemma_pow2_32();
            }
            value = value * 2 + bit;
            self.at = self.at.saturating_add(1);
            k = k + 1;
        }
        value
    }

    /// Skips `n` bits.
    fn skip(&mut self, n: u64)
        ensures
            final(self).data == old(self).data,
            final(self).at == advance(old(self).at, n as int),
    {
        self.at = self.at.saturating_add(n);
    }

    /// Reads one bit as a flag.
    fn flag(&mut self) -> (r: bool)
        ensures
            r == (bits_value(old(self).data@, old(self).at, 1) != 0),
            final(self).data == old(self).data,
            final(self).at == advance(old(self).at, 1),
    {
        self.get(1) != 0
    }
}

/// The bytes of an `av1C` record: marker and version, profile and level,
/// tier, depth, monochrome, subsampling and chroma position flags, and no
/// initial presentation delay.
pub open spec fn spec_bytes(c: Configuration) -> Seq<u8> {
    seq![
        0x81u8,
        (c.profile << 5u8) | (c.level & 31),
        (c.tier << 7u8) | (c.high << 6u8) | (c.twelve << 5u8) | (c.mono << 4u8) | (c.sx << 3u8) | (c.sy << 2u8)
            | (c.position & 3),
        0u8,
    ]
}

/// Whether every field of a configuration fits its place in the record.
pub open spec fn in_range(c: Configuration) -> bool {
    &&& c.profile < 8
    &&& c.level < 32
    &&& c.tier <= 1 && c.high <= 1 && c.twelve <= 1 && c.mono <= 1
    &&& c.sx <= 1 && c.sy <= 1 && c.position <= 3
}

impl Configuration {
    /// The `av1C` record bytes.
    pub fn bytes(&self) -> (r: Vec<u8>)
        ensures
            r@ == spec_bytes(*self),
    {
        let mut v: Vec<u8> = Vec::new();
        v.push(0x81);
        v.push((self.profile << 5u8) | (self.level & 31));
        v.push(
            (self.tier << 7u8) | (self.high << 6u8) | (self.twelve << 5u8) | (self.mono << 4u8) | (self.sx << 3u8)
                | (self.sy << 2u8) | (self.position & 3),
        );
        v.push(0);
        assert(v@ =~= spec_bytes(*self));
        v
    }
}

/// What a sequence header can leave in a configuration: every field it
/// sets fits its place; the tier and chroma position, which some headers do
/// not carry, fit or keep their earlier values.
pub open spec fn updated_from_header(old: Configuration, c: Configuration) -> bool {
    &&& c.profile < 8
    &&& c.level < 32
    &&& c.high <= 1 && c.twelve <= 1 && c.mono <= 1
    &&& c.sx <= 1 && c.sy <= 1
    &&& c.tier <= 1 || c.tier == old.tier
    &&& c.position <= 3 || c.position == old.position
}

/// The number of bits in `d`, held at the largest position.
pub open spec fn av1_limit(d: Seq<u8>) -> u64 {
    if d.len() * 8 > u64::MAX { u64::MAX } else { (d.len() * 8) as u64 }
}

/// A LEB128 size of at most 8 bytes from `p`, continued from byte `i` with
/// the bits `size` read before: its value and the position after it.
pub open spec fn leb_size(d: Seq<u8>, p: u64, i: u64, size: u64) -> (u64, u64)
    decreases 8 - i,
{
    if i >= 8 {
        (size, p)
    } else {
        let b = bits_value(d, p, 8) as u32;
        let s = size | (((b & 127) as u64) << ((i * 7) as u64));
        if b & 128 == 0 { (s, advance(p, 8)) } else { leb_size(d, advance(p, 8), (i + 1) as u64, s) }
    }
}

/// The header of the OBU at `start`: its type, whether it carries a size,
/// the size (0 without one), and the position after the header and size.
pub open spec fn obu_header(d: Seq<u8>, start: u64) -> (u32, bool, u64, u64) {
    let a1 = advance(start, 1);
    let a2 = advance(a1, 4);
    let a3 = advance(a2, 1);
    let a4 = advance(a3, 1);
    let a5 = advance(a4, 1);
    let kind = bits_value(d, a1, 4) as u32;
    let has_size = bits_value(d, a3, 1) != 0;
    let a6 = if bits_value(d, a2, 1) != 0 { advance(a5, 8) } else { a5 };
    if has_size {
        let (size, e) = leb_size(d, a6, 0, 0);
        (kind, true, size, e)
    } else {
        (kind, false, 0, a6)
    }
}

/// Where the payload of the first sequence header OBU (type 1) from `at`
/// starts; none where the data ends first, or an OBU before it has no size
/// or one above 0x7fffffff.
pub open spec fn obu_scan(d: Seq<u8>, limit: u64, at: u64) -> Option<u64>
    decreases u64::MAX - at,
{
    if at >= limit {
        None
    } else {
        let (kind, has_size, size, e) = obu_header(d, at);
        if kind == 1 {
            Some(e)
        } else if !has_size || size > 0x7fff_ffff {
            None
        } else {
            let next = advance(e, size * 8);
            if next > at { obu_scan(d, limit, next) } else { None }
        }
    }
}

/// The position after a variable-length count of `zeros` and more leading
/// zeros from `p`; 32 zeros end it without a value.
pub open spec fn uvlc_end(d: Seq<u8>, p: u64, zeros: int) -> u64
    decreases 32 - zeros,
{
    if zeros >= 32 {
        p
    } else if bits_value(d, p, 1) != 0 {
        advance(advance(p, 1), zeros)
    } else {
        uvlc_end(d, advance(p, 1), zeros + 1)
    }
}

/// The timing and decoder model information from its flag at `p`: the
/// position after it, whether a decoder model is present, and the size of
/// its delay fields.
pub open spec fn av1_timing(d: Seq<u8>, p: u64) -> (u64, bool, u64) {
    let q = advance(p, 1);
    if bits_value(d, p, 1) == 0 {
        (q, false, 0)
    } else {
        let q1 = advance(q, 64);
        let q2 = advance(q1, 1);
        let q3 = if bits_value(d, q1, 1) != 0 { uvlc_end(d, q2, 0) } else { q2 };
        let q4 = advance(q3, 1);
        if bits_value(d, q3, 1) != 0 {
            (advance(advance(q4, 5), 42), true, (bits_value(d, q4, 5) + 1) as u64)
        } else {
            (q4, false, 0)
        }
    }
}

/// The operating points from `i` of `points` at `p`: the position after
/// them, and the level and tier, which the first point sets (its tier only
/// above level 7).
pub open spec fn av1_points(
    d: Seq<u8>,
    p: u64,
    i: int,
    points: int,
    model: bool,
    delay: u64,
    display: bool,
    level: u8,
    tier: u8,
) -> (u64, u8, u8)
    decreases points - i,
{
    if i >= points {
        (p, level, tier)
    } else {
        let q = advance(p, 12);
        let lv = bits_value(d, q, 5) as u8;
        let q1 = advance(q, 5);
        let q2 = if lv > 7 { advance(q1, 1) } else { q1 };
        let level2 = if i == 0 { lv } else { level };
        let tier2 = if i == 0 && lv > 7 { bits_value(d, q1, 1) as u8 } else { tier };
        let q3 = if model {
            if bits_value(d, q2, 1) != 0 { advance(advance(q2, 1), delay * 2 + 1) } else { advance(q2, 1) }
        } else {
            q2
        };
        let q4 = if display {
            if bits_value(d, q3, 1) != 0 { advance(advance(q3, 1), 4) } else { advance(q3, 1) }
        } else {
            q3
        };
        av1_points(d, q4, i + 1, points, model, delay, display, level2, tier2)
    }
}

/// The position after the coding tool flags at `q` of a full header.
pub open spec fn av1_tools_end(d: Seq<u8>, q: u64) -> u64 {
    let order = bits_value(d, q, 1) != 0;
    let q1 = advance(q, 1);
    let q2 = if order { advance(q1, 2) } else { q1 };
    let forced = bits_value(d, q2, 1) != 0;
    let q3 = advance(q2, 1);
    let screen = if forced { 2 } else { bits_value(d, q3, 1) };
    let q4 = if forced { q3 } else { advance(q3, 1) };
    let q5 = if screen > 0 {
        if bits_value(d, q4, 1) == 0 { advance(advance(q4, 1), 1) } else { advance(q4, 1) }
    } else {
        q4
    };
    if order { advance(q5, 3) } else { q5 }
}

/// The position after the frame size and coding tool fields at `p`.
pub open spec fn av1_frame_end(d: Seq<u8>, p: u64, reduced: bool) -> u64 {
    let wb = bits_value(d, p, 4) + 1;
    let p1 = advance(p, 4);
    let hb = bits_value(d, p1, 4) + 1;
    let p2 = advance(advance(p1, 4), (wb + hb) as int);
    let p3 = if !reduced {
        if bits_value(d, p2, 1) != 0 { advance(advance(p2, 1), 7) } else { advance(p2, 1) }
    } else {
        p2
    };
    let p4 = advance(p3, 3);
    let p5 = if !reduced { av1_tools_end(d, advance(p4, 4)) } else { p4 };
    advance(p5, 3)
}

/// The subsampling and chroma position of a colour configuration whose
/// fields after the colour description start at `q`.
pub open spec fn av1_subsampling(d: Seq<u8>, q: u64, profile: u8, twelve: u8, position: u8) -> (u8, u8, u8) {
    let (sx, sy, q2) = if profile == 0 {
        (1u8, 1u8, q)
    } else if profile == 1 {
        (0u8, 0u8, q)
    } else if twelve != 0 {
        let x = bits_value(d, q, 1) as u8;
        if x != 0 { (x, bits_value(d, advance(q, 1), 1) as u8, advance(advance(q, 1), 1)) } else { (x, 0u8, advance(q, 1)) }
    } else {
        (1u8, 0u8, q)
    };
    (sx, sy, if sx != 0 && sy != 0 { bits_value(d, q2, 2) as u8 } else { position })
}

/// The colour configuration at `p` applied to `c`: depth, monochrome,
/// subsampling and chroma position (sRGB keeps the position).
pub open spec fn av1_color(d: Seq<u8>, p: u64, c: Configuration) -> Configuration {
    let high = bits_value(d, p, 1) as u8;
    let p1 = advance(p, 1);
    let twelve = if c.profile == 2 && high != 0 { bits_value(d, p1, 1) as u8 } else { 0u8 };
    let p2 = if c.profile == 2 && high != 0 { advance(p1, 1) } else { p1 };
    let mono = if c.profile == 1 { 0u8 } else { bits_value(d, p2, 1) as u8 };
    let p3 = if c.profile == 1 { p2 } else { advance(p2, 1) };
    let described = bits_value(d, p3, 1) != 0;
    let p4 = advance(p3, 1);
    let primaries = if described { bits_value(d, p4, 8) } else { 2 };
    let transfer = if described { bits_value(d, advance(p4, 8), 8) } else { 2 };
    let matrix = if described { bits_value(d, advance(advance(p4, 8), 8), 8) } else { 2 };
    let p5 = if described { advance(advance(advance(p4, 8), 8), 8) } else { p4 };
    let (sx, sy, position) = if mono != 0 {
        (1u8, 1u8, 0u8)
    } else if primaries == 1 && transfer == 13 && matrix == 0 {
        (0u8, 0u8, c.position)
    } else {
        av1_subsampling(d, advance(p5, 1), c.profile, twelve, c.position)
    };
    Configuration {
        profile: c.profile,
        level: c.level,
        tier: c.tier,
        high,
        twelve,
        mono,
        sx,
        sy,
        position,
    }
}

/// The configuration that the sequence header payload at `p` leaves.
pub open spec fn av1_header(old: Configuration, d: Seq<u8>, p: u64) -> Configuration {
    let profile = bits_value(d, p, 3) as u8;
    let p2 = advance(advance(p, 3), 1);
    let reduced = bits_value(d, p2, 1) != 0;
    let p3 = advance(p2, 1);
    let (p4, level, tier) = if reduced {
        (advance(p3, 5), bits_value(d, p3, 5) as u8, 0u8)
    } else {
        let (q, model, delay) = av1_timing(d, p3);
        let display = bits_value(d, q, 1) != 0;
        let q1 = advance(q, 1);
        let points = bits_value(d, q1, 5) + 1;
        av1_points(d, advance(q1, 5), 0, points as int, model, delay, display, old.level, old.tier)
    };
    let e = av1_frame_end(d, p4, reduced);
    av1_color(
        d,
        e,
        Configuration {
            profile,
            level,
            tier,
            high: old.high,
            twelve: old.twelve,
            mono: old.mono,
            sx: old.sx,
            sy: old.sy,
            position: old.position,
        },
    )
}

/// The configuration after `update` with packets `d`.
pub open spec fn av1_update(old: Configuration, d: Seq<u8>) -> Configuration {
    match obu_scan(d, av1_limit(d), 0) {
        None => old,
        Some(p) => av1_header(old, d, p),
    }
}

/// What a sequence header leaves of the colour layout: profile 1 (4:4:4)
/// is never monochrome, subsamples neither way and keeps the chroma
/// position it had; a monochrome picture
/// reads as 4:2:0 with no chroma position; profile 0 subsamples both ways or
/// neither (sRGB); only profile 2 can carry 12-bit depth; and a picture is
/// never subsampled vertically without being subsampled horizontally.
pub proof fn lemma_av1_color_layout(old: Configuration, d: Seq<u8>)
    requires
        obu_scan(d, av1_limit(d), 0) is Some,
    ensures
        ({
            let c = av1_update(old, d);
            &&& c.profile == 1 ==> c.mono == 0 && c.sx == 0 && c.sy == 0 && c.position == old.position
            &&& c.mono != 0 ==> c.sx == 1 && c.sy == 1 && c.position == 0
            &&& c.profile == 0 && c.mono == 0 ==> c.sx == c.sy
            &&& c.twelve != 0 ==> c.profile == 2
            &&& c.sy <= c.sx <= 1
        }),
{
    let p = obu_scan(d, av1_limit(d), 0)->Some_0;
    let profile = bits_value(d, p, 3) as u8;
    lemma_bits_value_bound(d, p, 3);
    lemma_pow2_values();
    assert forall|q: u64| #[trigger] bits_value(d, q, 1) < 2 by {
        lemma_bits_value_bound(d, q, 1);
    }
    let c = av1_update(old, d);
    assert(c.profile == profile);
}

/// Reads a LEB128 size of at most 8 bytes.
fn read_leb(bits: &mut Bits) -> (r: u64)
    ensures
        final(bits).data == old(bits).data,
        (r, final(bits).at) == leb_size(old(bits).data@, old(bits).at, 0, 0),
        final(bits).at >= old(bits).at,
{
    let mut size: u64 = 0;
    let mut i: u64 = 0;
    while i < 8
        invariant
            i <= 8,
            bits.data == old(bits).data,
            bits.at >= old(bits).at,
            leb_size(old(bits).data@, old(bits).at, 0, 0) == leb_size(bits.data@, bits.at, i, size),
        decreases 8 - i,
    {
        let b = bits.get(8);
        size = size | (((b & 127) as u64) << (i * 7));
        if b & 128 == 0 {
            return size;
        }
        i = i + 1;
    }
    size
}

/// Moves the reader to the payload of the first sequence header OBU.
fn find_sequence_header(bits: &mut Bits) -> (found: bool)
    requires
        old(bits).at == 0,
    ensures
        final(bits).data == old(bits).data,
        match obu_scan(old(bits).data@, av1_limit(old(bits).data@), 0) {
            None => !found,
            Some(p) => found && final(bits).at == p,
        },
{
    let n = bits.data.len() as u64;
    let limit: u64 = if n > u64::MAX / 8 { u64::MAX } else { n * 8 };
    assert(limit == av1_limit(bits.data@));
    loop
        invariant
            bits.data == old(bits).data,
            limit == av1_limit(bits.data@),
            obu_scan(bits.data@, limit, 0) == obu_scan(bits.data@, limit, bits.at),
        decreases u64::MAX - bits.at,
    {
        if bits.at >= limit {
            return false;
        }
        let start = bits.at;
        bits.skip(1);
        let kind = bits.get(4);
        let extension = bits.flag();
        let has_size = bits.flag();
        bits.skip(1);
        if extension {
            bits.skip(8);
        }
        let mut size: u64 = 0;
        if has_size {
            size = read_leb(bits);
        }
        assert(obu_header(bits.data@, start) == (kind, has_size, size, bits.at));
        if kind == 1 {
            return true;
        }
        if !has_size || size > 0x7fff_ffff {
            return false;
        }
        bits.skip(size * 8);
    }
}

/// Skips a variable-length count (the equal picture interval).
fn skip_uvlc(bits: &mut Bits)
    ensures
        final(bits).data == old(bits).data,
        final(bits).at == uvlc_end(old(bits).data@, old(bits).at, 0),
{
    let mut zeros: u64 = 0;
    loop
        invariant
            zeros <= 32,
            bits.data == old(bits).data,
            uvlc_end(old(bits).data@, old(bits).at, 0) == uvlc_end(bits.data@, bits.at, zeros as int),
        decreases 32 - zeros,
    {
        if zeros >= 32 {
            return;
        }
        if bits.flag() {
            bits.skip(zeros);
            return;
        }
        zeros = zeros + 1;
    }
}

/// Reads the timing and decoder model information: whether a decoder model
/// is present, and the size of its delay fields.
fn read_timing(bits: &mut Bits) -> (r: (bool, u64))
    ensures
        final(bits).data == old(bits).data,
        (final(bits).at, r.0, r.1) == av1_timing(old(bits).data@, old(bits).at),
        r.1 <= 32,
{
    let mut model = false;
    let mut delay_bits: u64 = 0;
    if bits.flag() {
        bits.skip(64);
        if bits.flag() {
            skip_uvlc(bits);
        }
        model = bits.flag();
        if model {
            proof {
                lemma_pow2_values();
            }
            delay_bits = bits.get(5) as u64 + 1;
            bits.skip(42);
        }
    }
    (model, delay_bits)
}

/// Reads the operating points; the first sets the level, and above level 7
/// the tier, which otherwise stays `tier0`.
fn read_points(bits: &mut Bits, points: u32, model: bool, delay: u64, display: bool, level0: u8, tier0: u8) -> (r: (u8, u8))
    requires
        1 <= points <= 32,
        delay <= 32,
    ensures
        final(bits).data == old(bits).data,
        (final(bits).at, r.0, r.1) == av1_points(
            old(bits).data@,
            old(bits).at,
            0,
            points as int,
            model,
            delay,
            display,
            level0,
            tier0,
        ),
        r.0 < 32,
        r.1 <= 1 || r.1 == tier0,
{
    let mut level = level0;
    let mut tier = tier0;
    let mut i: u32 = 0;
    while i < points
        invariant
            bits.data == old(bits).data,
            points <= 32,
            delay <= 32,
            i <= points,
            tier <= 1 || tier == tier0,
            i > 0 ==> level < 32,
            av1_points(old(bits).data@, old(bits).at, 0, points as int, model, delay, display, level0, tier0)
                == av1_points(bits.data@, bits.at, i as int, points as int, model, delay, display, level, tier),
        decreases points - i,
    {
        proof {
            lemma_pow2_values();
        }
        bits.skip(12);
        let lv = bits.get(5) as u8;
        if i == 0 {
            level = lv;
        }
        if lv > 7 {
            let t = bits.get(1) as u8;
            if i == 0 {
                tier = t;
            }
        }
        if model && bits.flag() {
            bits.skip(delay * 2 + 1);
        }
        if display && bits.flag() {
            bits.skip(4);
        }
        i = i + 1;
    }
    (level, tier)
}

/// Skips the frame size and coding tool fields.
fn skip_frame_info(bits: &mut Bits, reduced: bool)
    ensures
        final(bits).data == old(bits).data,
        final(bits).at == av1_frame_end(old(bits).data@, old(bits).at, reduced),
{
    proof {
        lemma_pow2_values();
    }
    let width_bits = bits.get(4) as u64 + 1;
    let height_bits = bits.get(4) as u64 + 1;
    bits.skip(width_bits + height_bits);
    if !reduced && bits.flag() {
        bits.skip(7);
    }
    bits.skip(3);
    if !reduced {
        bits.skip(4);
        let order = bits.flag();
        if order {
            bits.skip(2);
        }
        let screen: u32 = if bits.flag() { 2 } else { bits.get(1) };
        if screen > 0 && !bits.flag() {
            bits.skip(1);
        }
        if order {
            bits.skip(3);
        }
    }
    bits.skip(3);
}

impl Configuration {
    /// Takes the profile, level, tier, bit depth, monochrome, subsampling and
    /// chroma position from the first sequence header OBU of `data`; the
    /// configuration stays as it is where the OBUs before it run out or lack
    /// a size.
    pub fn update(&mut self, data: &[u8])
        ensures
            *final(self) == av1_update(*old(self), data@),
            *final(self) == *old(self) || updated_from_header(*old(self), *final(self)),
            obu_scan(data@, av1_limit(data@), 0) is Some ==> {
                &&& final(self).profile == 1 ==> final(self).mono == 0 && final(self).sx == 0 && final(self).sy == 0
                &&& final(self).mono != 0 ==> final(self).sx == 1 && final(self).sy == 1 && final(self).position == 0
                &&& final(self).sy <= final(self).sx <= 1
            },
    {
        self.read_header(data);
        proof {
            if obu_scan(data@, av1_limit(data@), 0) is Some {
                lemma_av1_color_layout(*old(self), data@);
            }
        }
    }

    /// Reads the first sequence header OBU of `data` into the configuration.
    #[verifier::rlimit(40)]
    #[verifier::spinoff_prover]
    fn read_header(&mut self, data: &[u8])
        ensures
            *final(self) == av1_update(*old(self), data@),
            *final(self) == *old(self) || updated_from_header(*old(self), *final(self)),
    {
        let mut bits = Bits { data, at: 0 };
        if !find_sequence_header(&mut bits) {
            return;
        }
        proof {
            lemma_pow2_values();
        }
        self.profile = bits.get(3) as u8;
        bits.skip(1);
        let reduced = bits.flag();
        if reduced {
            self.level = bits.get(5) as u8;
            self.tier = 0;
        } else {
            let (model, delay_bits) = read_timing(&mut bits);
            let display_delay = bits.flag();
            let points = bits.get(5) + 1;
            let (level, tier) = read_points(&mut bits, points, model, delay_bits, display_delay, self.level, self.tier);
            self.level = level;
            self.tier = tier;
        }
        skip_frame_info(&mut bits, reduced);
        let ghost e = bits.at;
        let ghost c = *self;
        self.high = bits.get(1) as u8;
        self.twelve = if self.profile == 2 && self.high != 0 { bits.get(1) as u8 } else { 0 };
        self.mono = if self.profile == 1 { 0 } else { bits.get(1) as u8 };
        let color = if bits.flag() {
            let primaries = bits.get(8);
            let transfer = bits.get(8);
            let matrix = bits.get(8);
            (primaries, transfer, matrix)
        } else {
            (2, 2, 2)
        };
        if self.mono != 0 {
            self.sx = 1;
            self.sy = 1;
            self.position = 0;
        } else if color.0 == 1 && color.1 == 13 && color.2 == 0 {
            self.sx = 0;
            self.sy = 0;
        } else {
            bits.skip(1);
            if self.profile == 0 {
                self.sx = 1;
                self.sy = 1;
            } else if self.profile == 1 {
                self.sx = 0;
                self.sy = 0;
            } else if self.twelve != 0 {
                let x = bits.get(1) as u8;
                self.sx = x;
                self.sy = if x != 0 { bits.get(1) as u8 } else { 0 };
            } else {
                self.sx = 1;
                self.sy = 0;
            }
            if self.sx != 0 && self.sy != 0 {
                self.position = bits.get(2) as u8;
            }
        }
        assert(*self == av1_color(bits.data@, e, c));
    }
}

} // verus!
