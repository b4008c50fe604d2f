//! Planning a colour conversion: the graph of pixel-format states and the
//! operations between them, and the ordered least-cost search for a path
//! from an image's format to the requested one.
use vstd::prelude::*;
use crate::color::{ColorConversionOptions, Nclx};
use crate::error::Error;

verus! {

/// The profile of a state whose colour signalling is not tracked.
pub open spec fn spec_undefined() -> Nclx {
    Nclx { primaries: 2, transfer: 2, matrix: 2, full_range: true }
}

/// Unspecified code points, full range.
pub fn undefined() -> (r: Nclx)
    ensures
        r == spec_undefined(),
{
    Nclx { primaries: 2, transfer: 2, matrix: 2, full_range: true }
}

/// A pixel format: colourspace, chroma, bit depth, alpha depth and profile.
#[derive(Clone, Copy, Debug)]
pub struct State {
    pub cs: i32,
    pub ch: i32,
    pub depth: u8,
    pub alpha: u8,
    pub nclx: Nclx,
}

/// Whether two states are the same format: the profile counts only in YCbCr
/// (colourspace 0), and there only its primaries, matrix and range.
pub open spec fn same_state(a: State, b: State) -> bool {
    &&& a.cs == b.cs
    &&& a.ch == b.ch
    &&& a.depth == b.depth
    &&& a.alpha == b.alpha
    &&& (a.cs != 0 || (a.nclx.primaries == b.nclx.primaries && a.nclx.matrix == b.nclx.matrix
        && a.nclx.full_range == b.nclx.full_range))
}

/// Compares two states as formats.
pub fn state_eq(a: &State, b: &State) -> (r: bool)
    ensures
        r == same_state(*a, *b),
{
    a.cs == b.cs && a.ch == b.ch && a.depth == b.depth && a.alpha == b.alpha
        && (a.cs != 0 || (a.nclx.primaries == b.nclx.primaries && a.nclx.matrix == b.nclx.matrix
        && a.nclx.full_range == b.nclx.full_range))
}

/// A conversion step between two formats.
#[derive(Clone, Copy, Debug, PartialEq, Eq, Structural)]
pub enum Op {
    Pack,
    Pack16,
    Unpack16,
    Swap16,
    YuvPacked16,
    Unpack,
    YuvRgb,
    YuvPacked,
    MonoYuv,
    MonoPacked,
    RgbYuv,
    DropAlpha,
    Depth,
    Upsample,
    Downsample,
}

/// A step: the state reached, the operation and its cost.
pub type Step = (State, Op, u32);

/// Missing code points replaced by BT.709 primaries, sRGB transfer and
/// BT.601 matrix.
pub open spec fn spec_normalized(p: Nclx) -> Nclx {
    Nclx {
        primaries: if p.primaries == 2 { 1 } else { p.primaries },
        transfer: if p.transfer == 2 { 13 } else { p.transfer },
        matrix: if p.matrix == 2 { 6 } else { p.matrix },
        full_range: p.full_range,
    }
}

/// Replaces unspecified code points by the defaults conversions assume.
pub fn normalized(p: Nclx) -> (r: Nclx)
    ensures
        r == spec_normalized(p),
{
    Nclx {
        primaries: if p.primaries == 2 { 1 } else { p.primaries },
        transfer: if p.transfer == 2 { 13 } else { p.transfer },
        matrix: if p.matrix == 2 { 6 } else { p.matrix },
        full_range: p.full_range,
    }
}

/// Sample and alpha depths that the converters handle.
pub open spec fn small(s: State) -> bool {
    s.depth <= 16 && s.alpha <= 16
}

/// No alpha, or alpha as deep as the colour samples.
pub open spec fn alpha_matches(s: State) -> bool {
    s.alpha == 0 || s.alpha == s.depth
}

/// Whether nearest-neighbour chroma upsampling may be used.
pub open spec fn nearest(s: State, o: ColorConversionOptions) -> bool {
    s.ch == 3 || o.preferred_chroma_upsampling_algorithm == 1 || o.only_use_preferred_chroma_algorithm == 0
}

/// `s` with another colourspace, chroma and alpha, and no tracked profile.
pub open spec fn with_format(s: State, cs: i32, ch: i32, alpha: u8) -> State {
    State { cs, ch, depth: s.depth, alpha, nclx: spec_undefined() }
}

/// Interleaving 8-bit RGB planes.
pub open spec fn pack_steps(s: State) -> Seq<Step> {
    if s.cs == 1 && s.ch == 3 && s.depth == 8 && alpha_matches(s) {
        seq![(with_format(s, s.cs, 11, 8), Op::Pack, 11u32), (with_format(s, s.cs, 10, 0), Op::Pack, 11u32)]
    } else {
        Seq::empty()
    }
}

/// Splitting interleaved 8-bit RGB into planes.
pub open spec fn unpack_steps(s: State, t: State) -> Seq<Step> {
    if s.cs == 1 && (s.ch == 10 || s.ch == 11) && s.depth == 8 {
        seq![(with_format(s, s.cs, 3, if t.alpha > 0 { 8u8 } else { 0u8 }), Op::Unpack, 11u32)]
    } else {
        Seq::empty()
    }
}

/// Planar YCbCr to planar RGB.
pub open spec fn yuv_rgb_steps(s: State, o: ColorConversionOptions) -> Seq<Step> {
    if s.cs == 0 && 1 <= s.ch <= 3 && small(s) && s.depth >= 8 && nearest(s, o)
        && !(s.nclx.matrix == 11 || s.nclx.matrix == 14 || s.nclx.matrix == 17)
        && (s.nclx.matrix != 16 || s.depth <= 14) {
        seq![(with_format(s, 1, 3, s.alpha), Op::YuvRgb, 11u32)]
    } else {
        Seq::empty()
    }
}

/// Whether a matrix is one the packed converters handle.
pub open spec fn packable_matrix(m: u16) -> bool {
    !(m == 0 || m == 8 || m == 11 || m == 14)
}

/// 8-bit 4:2:0 YCbCr straight to interleaved RGB.
pub open spec fn yuv_packed_steps(s: State, o: ColorConversionOptions) -> Seq<Step> {
    if s.cs == 0 && s.ch == 1 && s.depth == 8 && nearest(s, o) && s.nclx.full_range
        && packable_matrix(s.nclx.matrix) && alpha_matches(s) {
        (if s.alpha == 0 { seq![(with_format(s, 1, 10, s.alpha), Op::YuvPacked, 11u32)] } else { Seq::empty() })
            + seq![(with_format(s, 1, 11, 8), Op::YuvPacked, 11u32)]
    } else {
        Seq::empty()
    }
}

/// Deep 4:2:0 YCbCr straight to interleaved 16-bit RGB.
pub open spec fn yuv_packed16_steps(s: State, o: ColorConversionOptions) -> Seq<Step> {
    if s.cs == 0 && s.ch == 1 && s.depth > 8 && small(s) && nearest(s, o) && alpha_matches(s)
        && packable_matrix(s.nclx.matrix) {
        seq![
            (with_format(s, 1, if s.alpha > 0 { 15i32 } else { 14i32 }, s.alpha), Op::YuvPacked16, 11u32),
            (with_format(s, 1, if s.alpha > 0 { 13i32 } else { 12i32 }, s.alpha), Op::YuvPacked16, 11u32),
        ]
    } else {
        Seq::empty()
    }
}

/// Interleaving deep RGB planes.
pub open spec fn pack16_steps(s: State) -> Seq<Step> {
    if s.cs == 1 && s.ch == 3 && s.depth > 8 && small(s) && alpha_matches(s) {
        (if s.alpha == 0 { seq![(with_format(s, s.cs, 12, s.alpha), Op::Pack16, 11u32)] } else { Seq::empty() })
            + seq![(with_format(s, s.cs, 13, s.depth), Op::Pack16, 11u32)]
    } else {
        Seq::empty()
    }
}

/// Monochrome to YCbCr, and 8-bit monochrome to interleaved RGB.
pub open spec fn mono_steps(s: State) -> Seq<Step> {
    if s.cs == 2 && s.ch == 0 && small(s) {
        seq![(with_format(s, 0, 1, s.alpha), Op::MonoYuv, 6u32)] + if s.depth == 8 && alpha_matches(s) {
            (if s.alpha == 0 { seq![(with_format(s, 1, 10, s.alpha), Op::MonoPacked, 11u32)] } else { Seq::empty() })
                + seq![(with_format(s, 1, 11, 8), Op::MonoPacked, 11u32)]
        } else {
            Seq::empty()
        }
    } else {
        Seq::empty()
    }
}

/// Swapping the byte order of interleaved 16-bit RGB, and splitting
/// big-endian interleaved RGB into planes.
pub open spec fn swap16_steps(s: State, t: State) -> Seq<Step> {
    if s.cs == 1 && 12 <= s.ch <= 15 && small(s) {
        seq![(with_format(s, s.cs, if s.ch < 14 { (s.ch + 2) as i32 } else { (s.ch - 2) as i32 }, s.alpha), Op::Swap16, 11u32)]
            + if s.ch < 14 && s.depth > 8 {
            seq![(with_format(s, s.cs, 3, if t.alpha > 0 { s.depth } else { 0u8 }), Op::Unpack16, 11u32)]
        } else {
            Seq::empty()
        }
    } else {
        Seq::empty()
    }
}

/// The chroma an RGB to YCbCr step produces.
pub open spec fn rgb_yuv_chroma(t: State, o: ColorConversionOptions) -> i32 {
    if t.ch != 3 && (o.preferred_chroma_downsampling_algorithm == 1 || o.only_use_preferred_chroma_algorithm == 0) {
        t.ch
    } else {
        3
    }
}

/// Planar RGB to YCbCr with the target's profile.
pub open spec fn rgb_yuv_steps(s: State, t: State, o: ColorConversionOptions) -> Seq<Step> {
    if s.cs == 1 && s.ch == 3 && small(s) && s.depth >= 8 && alpha_matches(s)
        && !(t.nclx.matrix == 11 || t.nclx.matrix == 14) {
        seq![(State { cs: 0, ch: rgb_yuv_chroma(t, o), depth: s.depth, alpha: s.alpha, nclx: t.nclx }, Op::RgbYuv, 11u32)]
    } else {
        Seq::empty()
    }
}

/// Dropping alpha, and changing the planar bit depth.
pub open spec fn plane_steps(s: State, t: State) -> Seq<Step> {
    (if s.ch <= 3 && s.alpha != 0 && t.alpha == 0 {
        seq![(State { alpha: 0, ..s }, Op::DropAlpha, 1u32)]
    } else {
        Seq::empty()
    }) + (if s.ch <= 3 && s.depth == 8 && t.depth > 8 && t.depth <= 16 {
        seq![(State { depth: t.depth, alpha: if s.alpha > 0 { t.depth } else { 0u8 }, ..s }, Op::Depth, 11u32)]
    } else {
        Seq::empty()
    }) + (if s.ch <= 3 && s.depth != 8 && small(s) && t.depth == 8 {
        seq![(State { depth: 8, alpha: if s.alpha > 0 { 8u8 } else { 0u8 }, ..s }, Op::Depth, 11u32)]
    } else {
        Seq::empty()
    })
}

/// Chroma upsampling to 4:4:4 and downsampling to the target's chroma.
pub open spec fn resample_steps(s: State, t: State, o: ColorConversionOptions) -> Seq<Step> {
    (if s.cs == 0 && (s.ch == 1 || s.ch == 2) && small(s) && s.nclx.matrix != 0
        && o.preferred_chroma_upsampling_algorithm == 2 {
        seq![(State { ch: 3, ..s }, Op::Upsample, 11u32)]
    } else {
        Seq::empty()
    }) + (if s.cs == 0 && s.ch == 3 && small(s) && s.nclx.matrix != 0
        && o.preferred_chroma_downsampling_algorithm == 2 && (t.ch == 1 || t.ch == 2) {
        seq![(State { ch: t.ch, ..s }, Op::Downsample, 11u32)]
    } else {
        Seq::empty()
    })
}

/// The steps out of state `s` towards target `t`, in the order they are
/// tried: among paths of equal cost the first found is kept.
pub open spec fn spec_next(s: State, t: State, o: ColorConversionOptions) -> Seq<Step> {
    pack_steps(s) + unpack_steps(s, t) + yuv_rgb_steps(s, o) + yuv_packed_steps(s, o)
        + yuv_packed16_steps(s, o) + pack16_steps(s) + mono_steps(s) + swap16_steps(s, t)
        + rgb_yuv_steps(s, t, o) + plane_steps(s, t) + resample_steps(s, t, o)
}

/// `s` with another colourspace, chroma and alpha, and no tracked profile.
fn with_format_of(s: State, cs: i32, ch: i32, alpha: u8) -> (r: State)
    ensures
        r == with_format(s, cs, ch, alpha),
{
    State { cs, ch, depth: s.depth, alpha, nclx: undefined() }
}

/// Appends the steps of the packing and unpacking converters.
fn push_packing(out: &mut Vec<Step>, s: State, t: State)
    ensures
        final(out)@ == old(out)@ + pack_steps(s) + unpack_steps(s, t),
{
    let am = s.alpha == 0 || s.alpha == s.depth;
    if s.cs == 1 && s.ch == 3 && s.depth == 8 && am {
        out.push((with_format_of(s, s.cs, 11, 8), Op::Pack, 11));
        out.push((with_format_of(s, s.cs, 10, 0), Op::Pack, 11));
    }
    if s.cs == 1 && (s.ch == 10 || s.ch == 11) && s.depth == 8 {
        out.push((with_format_of(s, s.cs, 3, if t.alpha > 0 { 8 } else { 0 }), Op::Unpack, 11));
    }
    assert(out@ =~= old(out)@ + pack_steps(s) + unpack_steps(s, t));
}

/// Appends the steps out of planar and 4:2:0 YCbCr.
fn push_from_yuv(out: &mut Vec<Step>, s: State, o: ColorConversionOptions)
    ensures
        final(out)@ == old(out)@ + yuv_rgb_steps(s, o) + yuv_packed_steps(s, o) + yuv_packed16_steps(s, o),
{
    let small = s.depth <= 16 && s.alpha <= 16;
    let am = s.alpha == 0 || s.alpha == s.depth;
    let near = s.ch == 3 || o.preferred_chroma_upsampling_algorithm == 1 || o.only_use_preferred_chroma_algorithm == 0;
    let m = s.nclx.matrix;
    let ghost o0 = out@;
    if s.cs == 0 && 1 <= s.ch && s.ch <= 3 && small && s.depth >= 8 && near && !(m == 11 || m == 14 || m == 17)
        && (m != 16 || s.depth <= 14) {
        out.push((with_format_of(s, 1, 3, s.alpha), Op::YuvRgb, 11));
    }
    assert(out@ =~= o0 + yuv_rgb_steps(s, o));
    let ghost o1 = out@;
    let packable = !(m == 0 || m == 8 || m == 11 || m == 14);
    if s.cs == 0 && s.ch == 1 && s.depth == 8 && near && s.nclx.full_range && packable && am {
        if s.alpha == 0 {
            out.push((with_format_of(s, 1, 10, s.alpha), Op::YuvPacked, 11));
        }
        out.push((with_format_of(s, 1, 11, 8), Op::YuvPacked, 11));
    }
    assert(out@ =~= o1 + yuv_packed_steps(s, o));
    let ghost o2 = out@;
    if s.cs == 0 && s.ch == 1 && s.depth > 8 && small && near && am && packable {
        out.push((with_format_of(s, 1, if s.alpha > 0 { 15 } else { 14 }, s.alpha), Op::YuvPacked16, 11));
        out.push((with_format_of(s, 1, if s.alpha > 0 { 13 } else { 12 }, s.alpha), Op::YuvPacked16, 11));
    }
    assert(out@ =~= o2 + yuv_packed16_steps(s, o));
}

/// Appends the steps of the deep packing, monochrome and byte-swapping converters.
fn push_deep(out: &mut Vec<Step>, s: State, t: State)
    ensures
        final(out)@ == old(out)@ + pack16_steps(s) + mono_steps(s) + swap16_steps(s, t),
{
    let small = s.depth <= 16 && s.alpha <= 16;
    let am = s.alpha == 0 || s.alpha == s.depth;
    let ghost o0 = out@;
    if s.cs == 1 && s.ch == 3 && s.depth > 8 && small && am {
        if s.alpha == 0 {
            out.push((with_format_of(s, s.cs, 12, s.alpha), Op::Pack16, 11));
        }
        out.push((with_format_of(s, s.cs, 13, s.depth), Op::Pack16, 11));
    }
    assert(out@ =~= o0 + pack16_steps(s));
    let ghost o1 = out@;
    if s.cs == 2 && s.ch == 0 && small {
        out.push((with_format_of(s, 0, 1, s.alpha), Op::MonoYuv, 6));
        if s.depth == 8 && am {
            if s.alpha == 0 {
                out.push((with_format_of(s, 1, 10, s.alpha), Op::MonoPacked, 11));
            }
            out.push((with_format_of(s, 1, 11, 8), Op::MonoPacked, 11));
        }
    }
    assert(out@ =~= o1 + mono_steps(s));
    let ghost o2 = out@;
    if s.cs == 1 && 12 <= s.ch && s.ch <= 15 && small {
        out.push((with_format_of(s, s.cs, if s.ch < 14 { s.ch + 2 } else { s.ch - 2 }, s.alpha), Op::Swap16, 11));
        if s.ch < 14 && s.depth > 8 {
            out.push((with_format_of(s, s.cs, 3, if t.alpha > 0 { s.depth } else { 0 }), Op::Unpack16, 11));
        }
    }
    assert(out@ =~= o2 + swap16_steps(s, t));
}

/// Appends the steps to YCbCr, of the planar depth changes and of chroma resampling.
fn push_planar(out: &mut Vec<Step>, s: State, t: State, o: ColorConversionOptions)
    ensures
        final(out)@ == old(out)@ + rgb_yuv_steps(s, t, o) + plane_steps(s, t) + resample_steps(s, t, o),
{
    let small = s.depth <= 16 && s.alpha <= 16;
    let am = s.alpha == 0 || s.alpha == s.depth;
    let ghost o0 = out@;
    if s.cs == 1 && s.ch == 3 && small && s.depth >= 8 && am && !(t.nclx.matrix == 11 || t.nclx.matrix == 14) {
        let ch = if t.ch != 3 && (o.preferred_chroma_downsampling_algorithm == 1
            || o.only_use_preferred_chroma_algorithm == 0) {
            t.ch
        } else {
            3
        };
        out.push((State { cs: 0, ch, depth: s.depth, alpha: s.alpha, nclx: t.nclx }, Op::RgbYuv, 11));
    }
    assert(out@ =~= o0 + rgb_yuv_steps(s, t, o));
    let ghost o1 = out@;
    if s.ch <= 3 && s.alpha != 0 && t.alpha == 0 {
        out.push((State { alpha: 0, ..s }, Op::DropAlpha, 1));
    }
    if s.ch <= 3 && s.depth == 8 && t.depth > 8 && t.depth <= 16 {
        out.push((State { depth: t.depth, alpha: if s.alpha > 0 { t.depth } else { 0 }, ..s }, Op::Depth, 11));
    }
    if s.ch <= 3 && s.depth != 8 && small && t.depth == 8 {
        out.push((State { depth: 8, alpha: if s.alpha > 0 { 8 } else { 0 }, ..s }, Op::Depth, 11));
    }
    assert(out@ =~= o1 + plane_steps(s, t));
    let ghost o2 = out@;
    if s.cs == 0 && (s.ch == 1 || s.ch == 2) && small && s.nclx.matrix != 0
        && o.preferred_chroma_upsampling_algorithm == 2 {
        out.push((State { ch: 3, ..s }, Op::Upsample, 11));
    }
    if s.cs == 0 && s.ch == 3 && small && s.nclx.matrix != 0 && o.preferred_chroma_downsampling_algorithm == 2
        && (t.ch == 1 || t.ch == 2) {
        out.push((State { ch: t.ch, ..s }, Op::Downsample, 11));
    }
    assert(out@ =~= o2 + resample_steps(s, t, o));
}

/// The steps out of state `s` towards target `t`, each with the state it
/// reaches, the converter and its cost, in the order they are tried.
pub fn next(s: State, t: State, o: ColorConversionOptions) -> (r: Vec<Step>)
    ensures
        r@ == spec_next(s, t, o),
{
    let mut result: Vec<Step> = Vec::new();
    push_packing(&mut result, s, t);
    push_from_yuv(&mut result, s, o);
    push_deep(&mut result, s, t);
    push_planar(&mut result, s, t, o);
    assert(result@ =~= spec_next(s, t, o));
    result
}

/// A state reached by the search: its cost so far, the node it was reached
/// from and the operation that reached it.
#[derive(Clone, Copy, Debug)]
pub struct Node {
    pub state: State,
    pub cost: u32,
    pub prev: usize,
    pub op: Option<Op>,
}

/// Whether `op` takes state `a` to state `b` towards target `t`.
pub open spec fn is_step(a: State, b: State, op: Op, t: State, o: ColorConversionOptions) -> bool {
    exists|k: int| 0 <= k < spec_next(a, t, o).len() && #[trigger] spec_next(a, t, o)[k].0 == b
        && spec_next(a, t, o)[k].1 == op
}

/// The state before step `i` of a path from `input`.
pub open spec fn before(input: State, path: Seq<(State, Op)>, i: int) -> State {
    if i == 0 { input } else { path[i - 1].0 }
}

/// Whether each step of `path` takes the state before it to its state.
pub open spec fn is_path(input: State, path: Seq<(State, Op)>, t: State, o: ColorConversionOptions) -> bool {
    forall|i: int| 0 <= i < path.len() ==> is_step(#[trigger] before(input, path, i), path[i].0, path[i].1, t, o)
}

/// The key of an NCLX profile as far as states compare.
pub open spec fn nclx_key(n: Nclx) -> (u16, u16, bool) {
    (n.primaries, n.matrix, n.full_range)
}

/// Whether a state is one of those a search from `i` towards `t` can
/// reach: each field takes one of a few values.
pub open spec fn in_universe(s: State, i: State, t: State) -> bool {
    &&& (s.cs == i.cs || s.cs == 0 || s.cs == 1)
    &&& (s.ch == i.ch || s.ch == t.ch || s.ch == 1 || s.ch == 3 || 10 <= s.ch <= 15)
    &&& (s.depth == i.depth || s.depth == t.depth || s.depth == 8)
    &&& (s.alpha == i.alpha || s.alpha == 0 || s.alpha == 8 || s.alpha == i.depth || s.alpha == t.depth)
    &&& (s.cs != 0 || nclx_key(s.nclx) == nclx_key(i.nclx) || nclx_key(s.nclx) == nclx_key(spec_undefined())
        || nclx_key(s.nclx) == nclx_key(t.nclx))
}

/// The number of states a search can reach, as counted by `state_index`.
pub open spec fn universe_size() -> int {
    1350
}

/// The colourspace digit of a state's index.
pub open spec fn cs_digit(s: State, i: State) -> int {
    if s.cs == i.cs { 0 } else if s.cs == 0 { 1 } else { 2 }
}

/// The chroma digit of a state's index.
pub open spec fn ch_digit(s: State, i: State, t: State) -> int {
    if s.ch == i.ch { 0 } else if s.ch == t.ch { 1 } else if s.ch == 1 { 2 } else if s.ch == 3 { 3 } else { s.ch - 6 }
}

/// The depth digit of a state's index.
pub open spec fn depth_digit(s: State, i: State, t: State) -> int {
    if s.depth == i.depth { 0 } else if s.depth == t.depth { 1 } else { 2 }
}

/// The alpha digit of a state's index.
pub open spec fn alpha_digit(s: State, i: State, t: State) -> int {
    if s.alpha == i.alpha { 0 } else if s.alpha == 0 { 1 } else if s.alpha == 8 { 2 } else if s.alpha == i.depth { 3 } else { 4 }
}

/// The profile digit of a state's index.
pub open spec fn nclx_digit(s: State, i: State) -> int {
    if s.cs != 0 || nclx_key(s.nclx) == nclx_key(i.nclx) { 0 }
    else if nclx_key(s.nclx) == nclx_key(spec_undefined()) { 1 } else { 2 }
}

/// A number below `universe_size()` that tells reachable states apart.
pub open spec fn state_index(s: State, i: State, t: State) -> int {
    cs_digit(s, i) * 450 + ch_digit(s, i, t) * 45 + depth_digit(s, i, t) * 15 + alpha_digit(s, i, t) * 3 + nclx_digit(s, i)
}

/// Mixed-radix digits are determined by their value.
proof fn lemma_digits(a1: int, b1: int, c1: int, d1: int, e1: int, a2: int, b2: int, c2: int, d2: int, e2: int)
    requires
        0 <= a1 < 3, 0 <= b1 < 10, 0 <= c1 < 3, 0 <= d1 < 5, 0 <= e1 < 3,
        0 <= a2 < 3, 0 <= b2 < 10, 0 <= c2 < 3, 0 <= d2 < 5, 0 <= e2 < 3,
        a1 * 450 + b1 * 45 + c1 * 15 + d1 * 3 + e1 == a2 * 450 + b2 * 45 + c2 * 15 + d2 * 3 + e2,
    ensures
        a1 == a2 && b1 == b2 && c1 == c2 && d1 == d2 && e1 == e2,
{
}

/// The digits of reachable states are in range and tell the fields apart.
proof fn lemma_state_digits(a: State, b: State, i: State, t: State)
    requires
        in_universe(a, i, t),
        in_universe(b, i, t),
    ensures
        0 <= cs_digit(a, i) < 3,
        0 <= ch_digit(a, i, t) < 10,
        0 <= depth_digit(a, i, t) < 3,
        0 <= alpha_digit(a, i, t) < 5,
        0 <= nclx_digit(a, i) < 3,
        cs_digit(a, i) == cs_digit(b, i) ==> a.cs == b.cs,
        ch_digit(a, i, t) == ch_digit(b, i, t) ==> a.ch == b.ch,
        depth_digit(a, i, t) == depth_digit(b, i, t) ==> a.depth == b.depth,
        alpha_digit(a, i, t) == alpha_digit(b, i, t) ==> a.alpha == b.alpha,
        a.cs == b.cs && a.cs == 0 && nclx_digit(a, i) == nclx_digit(b, i) ==> nclx_key(a.nclx) == nclx_key(b.nclx),
{
}

/// Reachable states lie below the universe size, and states with one index
/// are the same format.
proof fn lemma_state_index(a: State, b: State, i: State, t: State)
    requires
        in_universe(a, i, t),
        in_universe(b, i, t),
    ensures
        0 <= state_index(a, i, t) < universe_size(),
        state_index(a, i, t) == state_index(b, i, t) ==> same_state(a, b),
{
    lemma_state_digits(a, b, i, t);
    lemma_state_digits(b, a, i, t);
    if state_index(a, i, t) == state_index(b, i, t) {
        lemma_digits(cs_digit(a, i), ch_digit(a, i, t), depth_digit(a, i, t), alpha_digit(a, i, t), nclx_digit(a, i),
            cs_digit(b, i), ch_digit(b, i, t), depth_digit(b, i, t), alpha_digit(b, i, t), nclx_digit(b, i));
    }
}

/// Distinct indices below `n` are at most `n`.
proof fn lemma_distinct_below(keys: Seq<int>, n: int)
    requires
        n >= 0,
        keys.no_duplicates(),
        forall|k: int| 0 <= k < keys.len() ==> 0 <= #[trigger] keys[k] < n,
    ensures
        keys.len() <= n,
{
    keys.unique_seq_to_set();
    vstd::set_lib::lemma_int_range(0, n);
    assert(keys.to_set().subset_of(vstd::set_lib::set_int_range(0, n)));
    vstd::set_lib::lemma_len_subset(keys.to_set(), vstd::set_lib::set_int_range(0, n));
}

/// Pairwise different formats of reachable states are at most the universe size.
proof fn lemma_count(nodes: Seq<Node>, i: State, t: State)
    requires
        forall|k: int| 0 <= k < nodes.len() ==> in_universe(#[trigger] nodes[k].state, i, t),
        forall|k: int, l: int| 0 <= k < l < nodes.len() ==> !same_state(#[trigger] nodes[k].state, #[trigger] nodes[l].state),
    ensures
        nodes.len() <= universe_size(),
{
    let keys = nodes.map_values(|n: Node| state_index(n.state, i, t));
    assert forall|k: int, l: int| 0 <= k < keys.len() && 0 <= l < keys.len() && k != l implies keys[k] != keys[l] by {
        lemma_state_index(nodes[k].state, nodes[l].state, i, t);
        if k < l {
            assert(!same_state(nodes[k].state, nodes[l].state));
        } else {
            assert(!same_state(nodes[l].state, nodes[k].state));
            lemma_state_index(nodes[l].state, nodes[k].state, i, t);
        }
    }
    assert forall|k: int| 0 <= k < keys.len() implies 0 <= #[trigger] keys[k] < universe_size() by {
        lemma_state_index(nodes[k].state, nodes[k].state, i, t);
    }
    lemma_distinct_below(keys, universe_size());
}

/// Every step of a reachable state reaches a reachable state, at a cost of
/// at most 11.
pub open spec fn steps_bounded(steps: Seq<Step>, i: State, t: State) -> bool {
    forall|k: int| 0 <= k < steps.len() ==> in_universe((#[trigger] steps[k]).0, i, t) && steps[k].2 <= 11
}

/// Joined step lists keep the bound.
proof fn lemma_bounded_add(a: Seq<Step>, b: Seq<Step>, i: State, t: State)
    requires
        steps_bounded(a, i, t),
        steps_bounded(b, i, t),
    ensures
        steps_bounded(a + b, i, t),
{
    assert forall|k: int| 0 <= k < (a + b).len() implies in_universe((#[trigger] (a + b)[k]).0, i, t) && (a + b)[k].2 <= 11 by {
        if k < a.len() {
            assert((a + b)[k] == a[k]);
        } else {
            assert((a + b)[k] == b[k - a.len()]);
        }
    }
}

/// The steps out of a reachable state reach reachable states, at a cost of
/// at most 11 each.
proof fn lemma_next_bounded(s: State, i: State, t: State, o: ColorConversionOptions)
    requires
        in_universe(s, i, t),
    ensures
        steps_bounded(spec_next(s, t, o), i, t),
{
    let p1 = pack_steps(s);
    let p2 = unpack_steps(s, t);
    let p3 = yuv_rgb_steps(s, o);
    let p4 = yuv_packed_steps(s, o);
    let p5 = yuv_packed16_steps(s, o);
    let p6 = pack16_steps(s);
    let p7 = mono_steps(s);
    let p8 = swap16_steps(s, t);
    let p9 = rgb_yuv_steps(s, t, o);
    let p10 = plane_steps(s, t);
    let p11 = resample_steps(s, t, o);
    assert(steps_bounded(p1, i, t));
    assert(steps_bounded(p2, i, t));
    assert(steps_bounded(p3, i, t));
    assert(steps_bounded(p4, i, t));
    assert(steps_bounded(p5, i, t));
    assert(steps_bounded(p6, i, t));
    assert(steps_bounded(p7, i, t));
    assert(steps_bounded(p8, i, t));
    assert(steps_bounded(p9, i, t));
    assert(steps_bounded(p10, i, t));
    assert(steps_bounded(p11, i, t));
    lemma_bounded_add(p1, p2, i, t);
    lemma_bounded_add(p1 + p2, p3, i, t);
    lemma_bounded_add(p1 + p2 + p3, p4, i, t);
    lemma_bounded_add(p1 + p2 + p3 + p4, p5, i, t);
    lemma_bounded_add(p1 + p2 + p3 + p4 + p5, p6, i, t);
    lemma_bounded_add(p1 + p2 + p3 + p4 + p5 + p6, p7, i, t);
    lemma_bounded_add(p1 + p2 + p3 + p4 + p5 + p6 + p7, p8, i, t);
    lemma_bounded_add(p1 + p2 + p3 + p4 + p5 + p6 + p7 + p8, p9, i, t);
    lemma_bounded_add(p1 + p2 + p3 + p4 + p5 + p6 + p7 + p8 + p9, p10, i, t);
    lemma_bounded_add(p1 + p2 + p3 + p4 + p5 + p6 + p7 + p8 + p9 + p10, p11, i, t);
}

/// What holds of the search's processed nodes: the first is the input; each
/// other was reached from an earlier one by a step; they are reachable,
/// pairwise different formats, and each costs at most 11 per position.
#[verifier::opaque]
pub open spec fn processed_ok(p: Seq<Node>, i: State, t: State, o: ColorConversionOptions) -> bool {
    &&& p.len() >= 1
    &&& p[0].state == i
    &&& forall|k: int| 0 <= k < p.len() ==> in_universe(#[trigger] p[k].state, i, t)
    &&& forall|k: int| 0 < k < p.len() ==> (#[trigger] p[k]).prev < k && p[k].op is Some
        && is_step(p[p[k].prev as int].state, p[k].state, p[k].op->Some_0, t, o)
    &&& forall|k: int, l: int| 0 <= k < l < p.len() ==> !same_state(#[trigger] p[k].state, #[trigger] p[l].state)
    &&& forall|k: int| 0 <= k < p.len() ==> (#[trigger] p[k]).cost <= 11 * k
}

/// What holds of the search's border given its processed nodes: each node
/// was reached from a processed one by a step, is reachable, differs from
/// every other border node and every processed one, and costs at most 11
/// more than the position of the node it came from.
#[verifier::opaque]
pub open spec fn border_ok(b: Seq<Node>, p: Seq<Node>, i: State, t: State, o: ColorConversionOptions) -> bool {
    &&& forall|j: int| 0 <= j < b.len() ==> in_universe(#[trigger] b[j].state, i, t)
    &&& forall|j: int| 0 <= j < b.len() ==> (#[trigger] b[j]).prev < p.len() && b[j].op is Some
        && is_step(p[b[j].prev as int].state, b[j].state, b[j].op->Some_0, t, o)
        && b[j].cost <= 11 * (b[j].prev + 1)
    &&& forall|j: int, m: int| 0 <= j < m < b.len() ==> !same_state(#[trigger] b[j].state, #[trigger] b[m].state)
    &&& forall|k: int, j: int| 0 <= k < p.len() && 0 <= j < b.len() ==> !same_state(#[trigger] p[k].state, #[trigger] b[j].state)
}

/// Whether a processed node has the format of `s`.
fn is_processed(processed: &Vec<Node>, s: &State) -> (r: bool)
    ensures
        r == exists|k: int| 0 <= k < processed@.len() && same_state(#[trigger] processed@[k].state, *s),
{
    let mut k: usize = 0;
    while k < processed.len()
        invariant
            k <= processed@.len(),
            forall|l: int| 0 <= l < k ==> !same_state(#[trigger] processed@[l].state, *s),
        decreases processed@.len() - k,
    {
        if state_eq(&processed[k].state, s) {
            return true;
        }
        k = k + 1;
    }
    false
}

/// The first node from `j` on with the format of `s`.
pub open spec fn find_same(b: Seq<Node>, s: State, j: int) -> Option<int>
    decreases b.len() - j,
{
    if j < 0 || j >= b.len() {
        None
    } else if same_state(b[j].state, s) {
        Some(j)
    } else {
        find_same(b, s, j + 1)
    }
}

/// The border after a step from processed node `id` (node `current`) is
/// tried: a processed format is left out; a format on the border gets the
/// step's node where that is cheaper; a new format is added at the end.
pub open spec fn add_step(b: Seq<Node>, p: Seq<Node>, step: Step, current: Node, id: usize) -> Seq<Node> {
    let node = Node { state: step.0, cost: (current.cost + step.2) as u32, prev: id, op: Some(step.1) };
    if exists|k: int| 0 <= k < p.len() && same_state(#[trigger] p[k].state, step.0) {
        b
    } else {
        match find_same(b, step.0, 0) {
            Some(j) => if b[j].cost > node.cost { b.update(j, node) } else { b },
            None => b.push(node),
        }
    }
}

/// The border after the first `n` steps are tried in order.
pub open spec fn add_steps(b: Seq<Node>, p: Seq<Node>, steps: Seq<Step>, n: int, current: Node, id: usize) -> Seq<Node>
    decreases n,
{
    if n <= 0 {
        b
    } else {
        add_step(add_steps(b, p, steps, n - 1, current, id), p, steps[n - 1], current, id)
    }
}

/// The first border node with the format of `s`.
fn border_position(border: &Vec<Node>, s: &State) -> (r: Option<usize>)
    ensures
        match r {
            Some(j) => j < border@.len() && same_state(border@[j as int].state, *s),
            None => forall|j: int| 0 <= j < border@.len() ==> !same_state(#[trigger] border@[j].state, *s),
        },
        match find_same(border@, *s, 0) {
            Some(j) => r == Some(j as usize),
            None => r is None,
        },
{
    let mut j: usize = 0;
    while j < border.len()
        invariant
            j <= border@.len(),
            forall|l: int| 0 <= l < j ==> !same_state(#[trigger] border@[l].state, *s),
            find_same(border@, *s, 0) == find_same(border@, *s, j as int),
        decreases border@.len() - j,
    {
        if state_eq(&border[j].state, s) {
            return Some(j);
        }
        j = j + 1;
    }
    None
}

/// Trying a step keeps what holds of the border.
proof fn lemma_add_step_ok(b: Seq<Node>, p: Seq<Node>, step: Step, current: Node, id: usize, i: State, t: State,
    o: ColorConversionOptions)
    requires
        border_ok(b, p, i, t, o),
        id == p.len() - 1,
        p[id as int] == current,
        current.cost <= 11 * id,
        in_universe(step.0, i, t),
        step.2 <= 11,
        is_step(current.state, step.0, step.1, t, o),
    ensures
        border_ok(add_step(b, p, step, current, id), p, i, t, o),
{
    reveal(border_ok);
    let node = Node { state: step.0, cost: (current.cost + step.2) as u32, prev: id, op: Some(step.1) };
    if !(exists|k: int| 0 <= k < p.len() && same_state(#[trigger] p[k].state, step.0)) {
        lemma_find_same(b, step.0, 0);
        match find_same(b, step.0, 0) {
            Some(j) => {
                if b[j].cost > node.cost {
                    let nb = b.update(j, node);
                    assert forall|x: int, y: int| 0 <= x < y < nb.len() implies !same_state(#[trigger] nb[x].state, #[trigger] nb[y].state) by {
                        if x == j {
                            assert(!same_state(b[j].state, b[y].state));
                        } else if y == j {
                            assert(!same_state(b[x].state, b[j].state));
                        }
                    }
                }
            },
            None => {},
        }
    }
}

/// What `find_same` finds.
proof fn lemma_find_same(b: Seq<Node>, s: State, j: int)
    requires
        0 <= j,
    ensures
        match find_same(b, s, j) {
            Some(x) => j <= x < b.len() && same_state(b[x].state, s),
            None => forall|x: int| j <= x < b.len() ==> !same_state(#[trigger] b[x].state, s),
        },
    decreases b.len() - j,
{
    if j < b.len() && !same_state(b[j].state, s) {
        lemma_find_same(b, s, j + 1);
    }
}

/// Tries one step from the processed node `id`: its state is added to the
/// border, or lowers the cost of that state there, unless it was processed.
#[verifier::rlimit(60)]
fn try_step(border: &mut Vec<Node>, processed: &Vec<Node>, id: usize, step: Step, i: State, t: State, o: ColorConversionOptions)
    requires
        processed_ok(processed@, i, t, o),
        border_ok(old(border)@, processed@, i, t, o),
        id == processed@.len() - 1,
        processed@.len() <= universe_size(),
        in_universe(step.0, i, t),
        step.2 <= 11,
        is_step(processed@[id as int].state, step.0, step.1, t, o),
        processed@[id as int].cost <= 11 * id,
    ensures
        border_ok(final(border)@, processed@, i, t, o),
        final(border)@ == add_step(old(border)@, processed@, step, processed@[id as int], id),
{
    let current = processed[id];
    let (state, op, cost) = step;
    let ghost b0 = border@;
    assert(border@.len() == border.len());
    proof {
        lemma_add_step_ok(b0, processed@, step, current, id, i, t, o);
        lemma_find_same(b0, state, 0);
    }
    if !is_processed(processed, &state) {
        assert(current.cost <= 11 * id);
        let node = Node { state, cost: current.cost + cost, prev: id, op: Some(op) };
        assert(node == Node { state: step.0, cost: (current.cost + step.2) as u32, prev: id, op: Some(step.1) });
        match border_position(border, &state) {
            Some(j) => {
                assert(state == step.0);
                assert(b0 == border@);
                proof {
                    match find_same(b0, state, 0) {
                        Some(x) => {
                            assert(0 <= x < b0.len());
                            assert(b0.len() <= usize::MAX);
                            assert(Some(j) == Some(x as usize));
                            assert(j as int == x);
                        },
                        None => {},
                    }
                }
                assert(find_same(b0, step.0, 0) == Some(j as int));
                assert(!(exists|k: int| 0 <= k < processed@.len() && same_state(#[trigger] processed@[k].state, step.0)));
                if border[j].cost > node.cost {
                    border.set(j, node);
                    assert(border@ == b0.update(j as int, node));
                } else {
                    assert(border@ == b0);
                }
                assert(border@ == add_step(b0, processed@, step, current, id));
            },
            None => {
                border.push(node);
                assert(border@ == add_step(b0, processed@, step, current, id));
            },
        }
    } else {
        assert(border@ == add_step(b0, processed@, step, current, id));
    }
}

/// Adds the states one step from the processed node `id` to the border,
/// or lowers the cost of those already there; processed states are left out.
fn expand(border: &mut Vec<Node>, processed: &Vec<Node>, id: usize, i: State, t: State, o: ColorConversionOptions)
    requires
        processed_ok(processed@, i, t, o),
        border_ok(old(border)@, processed@, i, t, o),
        id == processed@.len() - 1,
        processed@.len() <= universe_size(),
    ensures
        border_ok(final(border)@, processed@, i, t, o),
        final(border)@ == add_steps(old(border)@, processed@, spec_next(processed@[id as int].state, t, o),
            spec_next(processed@[id as int].state, t, o).len() as int, processed@[id as int], id),
{
    let current = processed[id];
    proof {
        reveal(processed_ok);
        lemma_next_bounded(current.state, i, t, o);
    }
    let steps = next(current.state, t, o);
    let mut k: usize = 0;
    while k < steps.len()
        invariant
            processed_ok(processed@, i, t, o),
            border_ok(border@, processed@, i, t, o),
            id == processed@.len() - 1,
            processed@.len() <= universe_size(),
            current == processed@[id as int],
            steps@ == spec_next(current.state, t, o),
            steps_bounded(steps@, i, t),
            k <= steps@.len(),
            border@ == add_steps(old(border)@, processed@, steps@, k as int, current, id),
        decreases steps@.len() - k,
    {
        let step = steps[k];
        assert(steps@[k as int] == step);
        assert(is_step(processed@[id as int].state, step.0, step.1, t, o)) by {
            assert(spec_next(current.state, t, o)[k as int].0 == step.0);
        }
        assert(processed@[id as int].cost <= 11 * id) by {
            reveal(processed_ok);
        }
        try_step(border, processed, id, step, i, t, o);
        k = k + 1;
    }
}

/// The state a path from `input` ends in.
pub open spec fn path_end(input: State, path: Seq<(State, Op)>) -> State {
    if path.len() == 0 { input } else { path.last().0 }
}

/// Whether two step lists lead, in order, to states of the same formats.
pub open spec fn steps_alike(x: Seq<Step>, y: Seq<Step>) -> bool {
    &&& x.len() == y.len()
    &&& forall|m: int| 0 <= m < x.len() ==> same_state(#[trigger] x[m].0, y[m].0) && x[m].1 == y[m].1
}

/// Joined alike lists are alike.
proof fn lemma_alike_add(x1: Seq<Step>, y1: Seq<Step>, x2: Seq<Step>, y2: Seq<Step>)
    requires
        steps_alike(x1, y1),
        steps_alike(x2, y2),
    ensures
        steps_alike(x1 + x2, y1 + y2),
{
    assert forall|m: int| 0 <= m < (x1 + x2).len() implies same_state(#[trigger] (x1 + x2)[m].0, (y1 + y2)[m].0)
        && (x1 + x2)[m].1 == (y1 + y2)[m].1 by {
        if m < x1.len() {
            assert((x1 + x2)[m] == x1[m] && (y1 + y2)[m] == y1[m]);
            assert(same_state(x1[m].0, y1[m].0) && x1[m].1 == y1[m].1);
        } else {
            assert((x1 + x2)[m] == x2[m - x1.len()] && (y1 + y2)[m] == y2[m - x1.len()]);
            assert(same_state(x2[m - x1.len()].0, y2[m - x1.len()].0) && x2[m - x1.len()].1 == y2[m - x1.len()].1);
        }
    }
}

/// Steps from two states of the same format lead to states of the same
/// format, in the same order.
#[verifier::rlimit(80)]
#[verifier::spinoff_prover]
pub proof fn lemma_next_same(a: State, b: State, t: State, o: ColorConversionOptions)
    requires
        same_state(a, b),
    ensures
        spec_next(a, t, o).len() == spec_next(b, t, o).len(),
        forall|m: int| 0 <= m < spec_next(a, t, o).len() ==> same_state(
            #[trigger] spec_next(a, t, o)[m].0,
            spec_next(b, t, o)[m].0,
        ) && spec_next(a, t, o)[m].1 == spec_next(b, t, o)[m].1,
{
    assert(steps_alike(pack_steps(a), pack_steps(b)));
    assert(steps_alike(unpack_steps(a, t), unpack_steps(b, t)));
    assert(steps_alike(yuv_rgb_steps(a, o), yuv_rgb_steps(b, o)));
    assert(steps_alike(yuv_packed_steps(a, o), yuv_packed_steps(b, o)));
    assert(steps_alike(yuv_packed16_steps(a, o), yuv_packed16_steps(b, o)));
    assert(steps_alike(pack16_steps(a), pack16_steps(b)));
    assert(steps_alike(mono_steps(a), mono_steps(b)));
    assert(steps_alike(swap16_steps(a, t), swap16_steps(b, t)));
    assert(steps_alike(rgb_yuv_steps(a, t, o), rgb_yuv_steps(b, t, o)));
    assert(steps_alike(plane_steps(a, t), plane_steps(b, t)));
    assert(steps_alike(resample_steps(a, t, o), resample_steps(b, t, o)));
    let xa = pack_steps(a) + unpack_steps(a, t);
    let xb = pack_steps(b) + unpack_steps(b, t);
    lemma_alike_add(pack_steps(a), pack_steps(b), unpack_steps(a, t), unpack_steps(b, t));
    lemma_alike_add(xa, xb, yuv_rgb_steps(a, o), yuv_rgb_steps(b, o));
    let xa = xa + yuv_rgb_steps(a, o);
    let xb = xb + yuv_rgb_steps(b, o);
    lemma_alike_add(xa, xb, yuv_packed_steps(a, o), yuv_packed_steps(b, o));
    let xa = xa + yuv_packed_steps(a, o);
    let xb = xb + yuv_packed_steps(b, o);
    lemma_alike_add(xa, xb, yuv_packed16_steps(a, o), yuv_packed16_steps(b, o));
    let xa = xa + yuv_packed16_steps(a, o);
    let xb = xb + yuv_packed16_steps(b, o);
    lemma_alike_add(xa, xb, pack16_steps(a), pack16_steps(b));
    let xa = xa + pack16_steps(a);
    let xb = xb + pack16_steps(b);
    lemma_alike_add(xa, xb, mono_steps(a), mono_steps(b));
    let xa = xa + mono_steps(a);
    let xb = xb + mono_steps(b);
    lemma_alike_add(xa, xb, swap16_steps(a, t), swap16_steps(b, t));
    let xa = xa + swap16_steps(a, t);
    let xb = xb + swap16_steps(b, t);
    lemma_alike_add(xa, xb, rgb_yuv_steps(a, t, o), rgb_yuv_steps(b, t, o));
    let xa = xa + rgb_yuv_steps(a, t, o);
    let xb = xb + rgb_yuv_steps(b, t, o);
    lemma_alike_add(xa, xb, plane_steps(a, t), plane_steps(b, t));
    let xa = xa + plane_steps(a, t);
    let xb = xb + plane_steps(b, t);
    lemma_alike_add(xa, xb, resample_steps(a, t, o), resample_steps(b, t, o));
    assert(steps_alike(spec_next(a, t, o), spec_next(b, t, o)));
}

/// The cost of an operation: 6 from monochrome to YCbCr, 1 to drop alpha,
/// 11 for every other.
pub open spec fn op_cost(op: Op) -> int {
    match op {
        Op::MonoYuv => 6,
        Op::DropAlpha => 1,
        _ => 11,
    }
}

/// The cost of a path: the costs of its operations summed.
pub open spec fn path_cost(path: Seq<(State, Op)>) -> int
    decreases path.len(),
{
    if path.len() == 0 { 0 } else { path_cost(path.drop_last()) + op_cost(path.last().1) }
}

/// No path costs less than nothing.
pub proof fn lemma_path_cost_nonneg(path: Seq<(State, Op)>)
    ensures
        path_cost(path) >= 0,
    decreases path.len(),
{
    if path.len() > 0 {
        lemma_path_cost_nonneg(path.drop_last());
    }
}

/// Whether each step of a list costs what its operation costs.
pub open spec fn costed(x: Seq<Step>) -> bool {
    forall|m: int| 0 <= m < x.len() ==> #[trigger] x[m].2 == op_cost(x[m].1)
}

proof fn lemma_costed_add(x: Seq<Step>, y: Seq<Step>)
    requires
        costed(x),
        costed(y),
    ensures
        costed(x + y),
{
    assert forall|m: int| 0 <= m < (x + y).len() implies #[trigger] (x + y)[m].2 == op_cost((x + y)[m].1) by {
        if m < x.len() {
            assert((x + y)[m] == x[m]);
        } else {
            assert((x + y)[m] == y[m - x.len()]);
        }
    }
}

/// Every step costs what its operation costs.
pub proof fn lemma_next_costs(s: State, t: State, o: ColorConversionOptions)
    ensures
        costed(spec_next(s, t, o)),
{
    assert(costed(pack_steps(s)));
    assert(costed(unpack_steps(s, t)));
    assert(costed(yuv_rgb_steps(s, o)));
    assert(costed(yuv_packed_steps(s, o)));
    assert(costed(yuv_packed16_steps(s, o)));
    assert(costed(pack16_steps(s)));
    assert(costed(mono_steps(s)));
    assert(costed(swap16_steps(s, t)));
    assert(costed(rgb_yuv_steps(s, t, o)));
    assert(costed(plane_steps(s, t)));
    assert(costed(resample_steps(s, t, o)));
    lemma_costed_add(pack_steps(s), unpack_steps(s, t));
    lemma_costed_add(pack_steps(s) + unpack_steps(s, t), yuv_rgb_steps(s, o));
    lemma_costed_add(pack_steps(s) + unpack_steps(s, t) + yuv_rgb_steps(s, o), yuv_packed_steps(s, o));
    lemma_costed_add(pack_steps(s) + unpack_steps(s, t) + yuv_rgb_steps(s, o) + yuv_packed_steps(s, o), yuv_packed16_steps(s, o));
    lemma_costed_add(pack_steps(s) + unpack_steps(s, t) + yuv_rgb_steps(s, o) + yuv_packed_steps(s, o) + yuv_packed16_steps(s, o), pack16_steps(s));
    lemma_costed_add(pack_steps(s) + unpack_steps(s, t) + yuv_rgb_steps(s, o) + yuv_packed_steps(s, o) + yuv_packed16_steps(s, o) + pack16_steps(s), mono_steps(s));
    lemma_costed_add(pack_steps(s) + unpack_steps(s, t) + yuv_rgb_steps(s, o) + yuv_packed_steps(s, o) + yuv_packed16_steps(s, o) + pack16_steps(s) + mono_steps(s), swap16_steps(s, t));
    lemma_costed_add(pack_steps(s) + unpack_steps(s, t) + yuv_rgb_steps(s, o) + yuv_packed_steps(s, o) + yuv_packed16_steps(s, o) + pack16_steps(s) + mono_steps(s) + swap16_steps(s, t), rgb_yuv_steps(s, t, o));
    lemma_costed_add(pack_steps(s) + unpack_steps(s, t) + yuv_rgb_steps(s, o) + yuv_packed_steps(s, o) + yuv_packed16_steps(s, o) + pack16_steps(s) + mono_steps(s) + swap16_steps(s, t) + rgb_yuv_steps(s, t, o), plane_steps(s, t));
    lemma_costed_add(pack_steps(s) + unpack_steps(s, t) + yuv_rgb_steps(s, o) + yuv_packed_steps(s, o) + yuv_packed16_steps(s, o) + pack16_steps(s) + mono_steps(s) + swap16_steps(s, t) + rgb_yuv_steps(s, t, o) + plane_steps(s, t), resample_steps(s, t, o));
}

/// Whether a processed or a border node has the format of `s`.
pub open spec fn covered(b: Seq<Node>, p: Seq<Node>, s: State) -> bool {
    ||| exists|q: int| 0 <= q < p.len() && same_state(#[trigger] p[q].state, s)
    ||| exists|j: int| 0 <= j < b.len() && same_state(#[trigger] b[j].state, s)
}

/// Whether every step from a processed node leads to a covered format.
pub open spec fn closed(b: Seq<Node>, p: Seq<Node>, t: State, o: ColorConversionOptions) -> bool {
    forall|k: int, m: int| 0 <= k < p.len() && 0 <= m < spec_next(p[k].state, t, o).len() ==> covered(
        b,
        p,
        #[trigger] spec_next(p[k].state, t, o)[m].0,
    )
}

/// Trying a step keeps every covered format covered and covers the step's.
proof fn lemma_add_step_covers(b: Seq<Node>, p: Seq<Node>, step: Step, current: Node, id: usize)
    ensures
        covered(add_step(b, p, step, current, id), p, step.0),
        forall|s: State| covered(b, p, s) ==> #[trigger] covered(add_step(b, p, step, current, id), p, s),
{
    let b2 = add_step(b, p, step, current, id);
    if exists|k: int| 0 <= k < p.len() && same_state(#[trigger] p[k].state, step.0) {
        assert(b2 == b);
    } else {
        lemma_find_same(b, step.0, 0);
        match find_same(b, step.0, 0) {
            Some(j) => {
                assert(same_state(b2[j].state, step.0));
                assert forall|s: State| covered(b, p, s) implies #[trigger] covered(b2, p, s) by {
                    if !(exists|q: int| 0 <= q < p.len() && same_state(#[trigger] p[q].state, s)) {
                        let x = choose|x: int| 0 <= x < b.len() && same_state(#[trigger] b[x].state, s);
                        assert(same_state(b2[x].state, s));
                    }
                }
            },
            None => {
                assert(b2[b.len() as int].state == step.0);
                assert forall|s: State| covered(b, p, s) implies #[trigger] covered(b2, p, s) by {
                    if !(exists|q: int| 0 <= q < p.len() && same_state(#[trigger] p[q].state, s)) {
                        let x = choose|x: int| 0 <= x < b.len() && same_state(#[trigger] b[x].state, s);
                        assert(b2[x] == b[x]);
                    }
                }
            },
        }
    }
}

/// Trying the first `n` steps keeps every covered format covered and covers
/// each of theirs.
proof fn lemma_add_steps_covers(b: Seq<Node>, p: Seq<Node>, steps: Seq<Step>, n: int, current: Node, id: usize)
    requires
        0 <= n <= steps.len(),
    ensures
        forall|m: int| 0 <= m < n ==> covered(add_steps(b, p, steps, n, current, id), p, #[trigger] steps[m].0),
        forall|s: State| covered(b, p, s) ==> #[trigger] covered(add_steps(b, p, steps, n, current, id), p, s),
    decreases n,
{
    if n > 0 {
        lemma_add_steps_covers(b, p, steps, n - 1, current, id);
        let b1 = add_steps(b, p, steps, n - 1, current, id);
        lemma_add_step_covers(b1, p, steps[n - 1], current, id);
    }
}

/// Taking a border node into the processed ones keeps every format covered.
proof fn lemma_take_covers(b0: Seq<Node>, p0: Seq<Node>, index: int)
    requires
        0 <= index < b0.len(),
    ensures
        forall|s: State| covered(b0, p0, s) ==> #[trigger] covered(
            b0.update(index, b0.last()).drop_last(),
            p0.push(b0[index]),
            s,
        ),
{
    let b1 = b0.update(index, b0.last()).drop_last();
    let p1 = p0.push(b0[index]);
    assert forall|s: State| covered(b0, p0, s) implies #[trigger] covered(b1, p1, s) by {
        if exists|q: int| 0 <= q < p0.len() && same_state(#[trigger] p0[q].state, s) {
            let q = choose|q: int| 0 <= q < p0.len() && same_state(#[trigger] p0[q].state, s);
            assert(p1[q] == p0[q]);
        } else {
            let x = choose|x: int| 0 <= x < b0.len() && same_state(#[trigger] b0[x].state, s);
            if x == index {
                assert(p1[p0.len() as int] == b0[index]);
            } else if x == b0.len() - 1 {
                assert(b1[index] == b0[x]);
            } else {
                assert(b1[x] == b0[x]);
            }
        }
    }
}

/// Every state a path from the input reaches has the format of a processed
/// node, once the processed nodes are closed under steps.
proof fn lemma_reach(p: Seq<Node>, input: State, t: State, o: ColorConversionOptions, path: Seq<(State, Op)>, i: int)
    requires
        p.len() >= 1,
        p[0].state == input,
        closed(Seq::empty(), p, t, o),
        is_path(input, path, t, o),
        0 <= i <= path.len(),
    ensures
        exists|q: int| 0 <= q < p.len() && same_state(#[trigger] p[q].state, before(input, path, i)),
    decreases i,
{
    if i == 0 {
        assert(same_state(p[0].state, before(input, path, 0)));
    } else {
        lemma_reach(p, input, t, o, path, i - 1);
        let a = before(input, path, i - 1);
        let q = choose|q: int| 0 <= q < p.len() && same_state(#[trigger] p[q].state, a);
        assert(is_step(a, path[i - 1].0, path[i - 1].1, t, o));
        let k = choose|k: int| 0 <= k < spec_next(a, t, o).len() && #[trigger] spec_next(a, t, o)[k].0 == path[i - 1].0
            && spec_next(a, t, o)[k].1 == path[i - 1].1;
        lemma_next_same(p[q].state, a, t, o);
        assert(same_state(spec_next(p[q].state, t, o)[k].0, spec_next(a, t, o)[k].0));
        assert(covered(Seq::empty(), p, spec_next(p[q].state, t, o)[k].0));
        let q2 = choose|q2: int| 0 <= q2 < p.len() && same_state(#[trigger] p[q2].state, spec_next(p[q].state, t, o)[k].0);
        assert(same_state(p[q2].state, before(input, path, i)));
    }
}

/// No path reaches the target's format once the processed nodes are closed
/// under steps and none of them has it.
proof fn lemma_no_path(p: Seq<Node>, input: State, t: State, o: ColorConversionOptions, path: Seq<(State, Op)>)
    requires
        p.len() >= 1,
        p[0].state == input,
        closed(Seq::empty(), p, t, o),
        forall|k: int| 0 <= k < p.len() ==> !same_state(#[trigger] p[k].state, t),
        is_path(input, path, t, o),
    ensures
        !same_state(path_end(input, path), t),
{
    lemma_reach(p, input, t, o, path, path.len() as int);
    assert(before(input, path, path.len() as int) == path_end(input, path));
}

/// Whether a processed node has the format of `s`.
pub open spec fn processed_has(p: Seq<Node>, s: State) -> bool {
    exists|q: int| 0 <= q < p.len() && same_state(#[trigger] p[q].state, s)
}

/// Whether a border node has the format of `s` and costs at most `c`.
pub open spec fn border_within(b: Seq<Node>, s: State, c: int) -> bool {
    exists|j: int| 0 <= j < b.len() && same_state(#[trigger] b[j].state, s) && b[j].cost <= c
}

/// The search's costs: the input costs nothing; every other node, processed
/// or on the border, costs its predecessor's cost plus its operation's; no
/// processed node costs more than a border node.
pub open spec fn costs_ok(b: Seq<Node>, p: Seq<Node>) -> bool {
    &&& p.len() >= 1
    &&& p[0].cost == 0
    &&& forall|k: int| 0 < k < p.len() ==> (#[trigger] p[k]).prev < k && p[k].cost == p[p[k].prev as int].cost + op_cost(
        p[k].op->Some_0)
    &&& forall|j: int| 0 <= j < b.len() ==> (#[trigger] b[j]).prev < p.len() && b[j].op is Some
        && b[j].cost == p[b[j].prev as int].cost + op_cost(b[j].op->Some_0)
    &&& forall|k: int, j: int| 0 <= k < p.len() && 0 <= j < b.len() ==> #[trigger] p[k].cost <= #[trigger] b[j].cost
}

/// Every step from one of the first `n` processed nodes to a format that no
/// processed node has leads to a border node of that format that costs no
/// more than the step's end.
pub open spec fn relaxed(b: Seq<Node>, p: Seq<Node>, n: int, t: State, o: ColorConversionOptions) -> bool {
    forall|k: int, m: int|
        0 <= k < n && 0 <= m < spec_next(p[k].state, t, o).len() && !processed_has(
            p,
            (#[trigger] spec_next(p[k].state, t, o)[m]).0,
        ) ==> border_within(b, spec_next(p[k].state, t, o)[m].0, p[k].cost + op_cost(spec_next(p[k].state, t, o)[m].1))
}

/// No path from the input reaches the format of a processed node for less
/// than that node's cost.
pub open spec fn optimal(p: Seq<Node>, input: State, t: State, o: ColorConversionOptions) -> bool {
    forall|k: int, path: Seq<(State, Op)>|
        0 <= k < p.len() && #[trigger] is_path(input, path, t, o) && same_state(path_end(input, path), #[trigger] p[k].state)
            ==> p[k].cost <= path_cost(path)
}

/// Trying a step keeps the costs in order, keeps every format's border cost
/// at most what it was, and puts the step's end on the border at most at its
/// cost where no processed node has its format.
proof fn lemma_add_step_costs(b: Seq<Node>, p: Seq<Node>, step: Step, current: Node, id: usize)
    requires
        costs_ok(b, p),
        id == p.len() - 1,
        p[id as int] == current,
        forall|k: int| 0 <= k < p.len() ==> #[trigger] p[k].cost <= current.cost,
        step.2 == op_cost(step.1),
        current.cost + 11 <= u32::MAX,
    ensures
        costs_ok(add_step(b, p, step, current, id), p),
        forall|s: State, c: int| #[trigger] border_within(b, s, c) ==> border_within(add_step(b, p, step, current, id), s, c),
        !processed_has(p, step.0) ==> border_within(add_step(b, p, step, current, id), step.0, current.cost + op_cost(step.1)),
{
    let node = Node { state: step.0, cost: (current.cost + step.2) as u32, prev: id, op: Some(step.1) };
    let b2 = add_step(b, p, step, current, id);
    assert(node.cost == current.cost + op_cost(step.1));
    if processed_has(p, step.0) {
        assert(b2 == b);
    } else {
        lemma_find_same(b, step.0, 0);
        match find_same(b, step.0, 0) {
            Some(j) => {
                if b[j].cost > node.cost {
                    assert(b2 == b.update(j, node));
                    assert(b2[j] == node);
                    assert forall|s: State, c: int| #[trigger] border_within(b, s, c) implies border_within(b2, s, c) by {
                        let x = choose|x: int| 0 <= x < b.len() && same_state(#[trigger] b[x].state, s) && b[x].cost <= c;
                        if x != j {
                            assert(b2[x] == b[x]);
                        } else {
                            assert(same_state(b2[j].state, s));
                        }
                    }
                    assert(same_state(b2[j].state, step.0));
                } else {
                    assert(b2 == b);
                    assert(same_state(b[j].state, step.0));
                }
            },
            None => {
                assert(b2 == b.push(node));
                assert(b2[b.len() as int] == node);
                assert forall|s: State, c: int| #[trigger] border_within(b, s, c) implies border_within(b2, s, c) by {
                    let x = choose|x: int| 0 <= x < b.len() && same_state(#[trigger] b[x].state, s) && b[x].cost <= c;
                    assert(b2[x] == b[x]);
                }
                assert(same_state(b2[b.len() as int].state, step.0));
            },
        }
    }
}

/// Trying the first `n` steps of a node: costs stay in order, border costs
/// do not grow, and each step's end is on the border at most at its cost
/// where no processed node has its format.
proof fn lemma_add_steps_costs(b: Seq<Node>, p: Seq<Node>, steps: Seq<Step>, n: int, current: Node, id: usize)
    requires
        costs_ok(b, p),
        id == p.len() - 1,
        p[id as int] == current,
        forall|k: int| 0 <= k < p.len() ==> #[trigger] p[k].cost <= current.cost,
        costed(steps),
        current.cost + 11 <= u32::MAX,
        0 <= n <= steps.len(),
    ensures
        costs_ok(add_steps(b, p, steps, n, current, id), p),
        forall|s: State, c: int| #[trigger] border_within(b, s, c) ==> border_within(add_steps(b, p, steps, n, current, id), s, c),
        forall|m: int| 0 <= m < n && !processed_has(p, (#[trigger] steps[m]).0) ==> border_within(
            add_steps(b, p, steps, n, current, id),
            steps[m].0,
            current.cost + op_cost(steps[m].1),
        ),
    decreases n,
{
    if n > 0 {
        lemma_add_steps_costs(b, p, steps, n - 1, current, id);
        let b1 = add_steps(b, p, steps, n - 1, current, id);
        assert(steps[n - 1].2 == op_cost(steps[n - 1].1));
        lemma_add_step_costs(b1, p, steps[n - 1], current, id);
    }
}

/// A path that ends outside the processed formats costs at least some
/// border node: the step where it first leaves them ends at one.
proof fn lemma_exit_cost(p: Seq<Node>, b: Seq<Node>, input: State, t: State, o: ColorConversionOptions,
    path: Seq<(State, Op)>)
    requires
        optimal(p, input, t, o),
        relaxed(b, p, p.len() as int, t, o),
        p.len() >= 1,
        p[0].state == input,
        is_path(input, path, t, o),
        !processed_has(p, path_end(input, path)),
    ensures
        exists|j: int| 0 <= j < b.len() && #[trigger] b[j].cost <= path_cost(path),
    decreases path.len(),
{
    if path.len() == 0 {
        assert(same_state(p[0].state, path_end(input, path)));
    } else {
        let n = path.len() as int;
        let pre = path.drop_last();
        assert forall|i: int| 0 <= i < pre.len() implies is_step(#[trigger] before(input, pre, i), pre[i].0, pre[i].1, t, o) by {
            assert(before(input, pre, i) == before(input, path, i));
        }
        let a = path_end(input, pre);
        assert(a == before(input, path, n - 1));
        assert(path_cost(path) == path_cost(pre) + op_cost(path[n - 1].1));
        if processed_has(p, a) {
            let q = choose|q: int| 0 <= q < p.len() && same_state(#[trigger] p[q].state, a);
            assert(is_path(input, pre, t, o));
            assert(same_state(path_end(input, pre), p[q].state));
            assert(p[q].cost <= path_cost(pre));
            assert(is_step(before(input, path, n - 1), path[n - 1].0, path[n - 1].1, t, o));
            let m = choose|m: int| 0 <= m < spec_next(a, t, o).len() && #[trigger] spec_next(a, t, o)[m].0 == path[n - 1].0
                && spec_next(a, t, o)[m].1 == path[n - 1].1;
            lemma_next_same(p[q].state, a, t, o);
            let e = spec_next(p[q].state, t, o)[m];
            assert(same_state(e.0, path[n - 1].0) && e.1 == path[n - 1].1);
            assert(path_end(input, path) == path[n - 1].0);
            assert(!processed_has(p, e.0));
            assert(border_within(b, e.0, p[q].cost + op_cost(e.1)));
            let j = choose|j: int| 0 <= j < b.len() && same_state(#[trigger] b[j].state, e.0) && b[j].cost <= p[q].cost + op_cost(e.1);
            assert(b[j].cost <= path_cost(path));
        } else {
            lemma_exit_cost(p, b, input, t, o, pre);
            let j = choose|j: int| 0 <= j < b.len() && #[trigger] b[j].cost <= path_cost(pre);
            assert(b[j].cost <= path_cost(path));
        }
    }
}

/// Taking the cheapest border node into the processed ones keeps the costs
/// in order, and no processed node costs more than it.
proof fn lemma_take_costs_ok(b0: Seq<Node>, p0: Seq<Node>, index: int)
    requires
        costs_ok(b0, p0),
        0 <= index < b0.len(),
        forall|j: int| 0 <= j < b0.len() ==> b0[index].cost <= #[trigger] b0[j].cost,
    ensures
        costs_ok(b0.update(index, b0.last()).drop_last(), p0.push(b0[index])),
        forall|k: int| 0 <= k < p0.len() + 1 ==> #[trigger] p0.push(b0[index])[k].cost <= b0[index].cost,
{
    let b1 = b0.update(index, b0.last()).drop_last();
    let p1 = p0.push(b0[index]);
    let x = b0[index];
    assert(p1[p0.len() as int] == x);
    assert forall|j: int| 0 <= j < b1.len() implies exists|y: int| 0 <= y < b0.len() && y != index && #[trigger] b1[j] == #[trigger] b0[y] by {
        if j == index {
            assert(b1[j] == b0[b0.len() - 1]);
        } else {
            assert(b1[j] == b0[j]);
        }
    }
    assert forall|k: int| 0 <= k < p1.len() implies #[trigger] p1[k].cost <= x.cost by {
        if k < p0.len() {
            assert(p1[k] == p0[k]);
            assert(p0[k].cost <= b0[index].cost);
        }
    }
    assert forall|j: int| 0 <= j < b1.len() implies (#[trigger] b1[j]).prev < p1.len() && b1[j].op is Some
        && b1[j].cost == p1[b1[j].prev as int].cost + op_cost(b1[j].op->Some_0) by {
        let y = choose|y: int| 0 <= y < b0.len() && y != index && #[trigger] b1[j] == #[trigger] b0[y];
        assert(p1[b0[y].prev as int] == p0[b0[y].prev as int]);
    }
    assert forall|k: int| 0 < k < p1.len() implies (#[trigger] p1[k]).prev < k && p1[k].cost == p1[p1[k].prev as int].cost + op_cost(
        p1[k].op->Some_0) by {
        if k < p0.len() {
            assert(p1[k] == p0[k]);
            assert(p1[p0[k].prev as int] == p0[p0[k].prev as int]);
        } else {
            assert(p1[x.prev as int] == p0[x.prev as int]);
        }
    }
    assert forall|k: int, j: int| 0 <= k < p1.len() && 0 <= j < b1.len() implies #[trigger] p1[k].cost <= #[trigger] b1[j].cost by {
        let y = choose|y: int| 0 <= y < b0.len() && y != index && #[trigger] b1[j] == #[trigger] b0[y];
        if k < p0.len() {
            assert(p1[k] == p0[k]);
        }
    }
    assert(p1[0] == p0[0]);
}

/// Taking a border node into the processed ones keeps the earlier processed
/// nodes relaxed.
proof fn lemma_take_relaxed(b0: Seq<Node>, p0: Seq<Node>, index: int, t: State, o: ColorConversionOptions)
    requires
        relaxed(b0, p0, p0.len() as int, t, o),
        0 <= index < b0.len(),
    ensures
        relaxed(b0.update(index, b0.last()).drop_last(), p0.push(b0[index]), p0.len() as int, t, o),
{
    let b1 = b0.update(index, b0.last()).drop_last();
    let p1 = p0.push(b0[index]);
    assert(p1[p0.len() as int] == b0[index]);
    assert forall|k: int, m: int|
        0 <= k < p0.len() && 0 <= m < spec_next(p1[k].state, t, o).len() && !processed_has(
            p1,
            (#[trigger] spec_next(p1[k].state, t, o)[m]).0,
        ) implies border_within(b1, spec_next(p1[k].state, t, o)[m].0, p1[k].cost + op_cost(spec_next(p1[k].state, t, o)[m].1)) by {
        assert(p1[k] == p0[k]);
        let e = spec_next(p0[k].state, t, o)[m];
        if processed_has(p0, e.0) {
            let q = choose|q: int| 0 <= q < p0.len() && same_state(#[trigger] p0[q].state, e.0);
            assert(p1[q] == p0[q]);
        }
        assert(border_within(b0, e.0, p0[k].cost + op_cost(e.1)));
        let y = choose|y: int| 0 <= y < b0.len() && same_state(#[trigger] b0[y].state, e.0) && b0[y].cost <= p0[k].cost + op_cost(e.1);
        if y == index {
            assert(same_state(p1[p0.len() as int].state, e.0));
        } else if y == b0.len() - 1 {
            assert(b1[index] == b0[y]);
        } else {
            assert(b1[y] == b0[y]);
        }
    }
}

/// Taking the cheapest border node into the processed ones: no path reaches
/// its format for less than its cost.
proof fn lemma_take_optimal(b0: Seq<Node>, p0: Seq<Node>, index: int, input: State, t: State, o: ColorConversionOptions)
    requires
        relaxed(b0, p0, p0.len() as int, t, o),
        optimal(p0, input, t, o),
        border_ok(b0, p0, input, t, o),
        p0.len() >= 1,
        p0[0].state == input,
        0 <= index < b0.len(),
        forall|j: int| 0 <= j < b0.len() ==> b0[index].cost <= #[trigger] b0[j].cost,
    ensures
        optimal(p0.push(b0[index]), input, t, o),
{
    reveal(border_ok);
    let p1 = p0.push(b0[index]);
    let x = b0[index];
    assert(p1[p0.len() as int] == x);
    assert forall|k: int, path: Seq<(State, Op)>|
        0 <= k < p1.len() && #[trigger] is_path(input, path, t, o) && same_state(path_end(input, path), #[trigger] p1[k].state)
        implies p1[k].cost <= path_cost(path) by {
        if k < p0.len() {
            assert(p1[k] == p0[k]);
        } else {
            if processed_has(p0, path_end(input, path)) {
                let q = choose|q: int| 0 <= q < p0.len() && same_state(#[trigger] p0[q].state, path_end(input, path));
                assert(!same_state(p0[q].state, x.state));
            }
            lemma_exit_cost(p0, b0, input, t, o, path);
            let j = choose|j: int| 0 <= j < b0.len() && #[trigger] b0[j].cost <= path_cost(path);
        }
    }
}

/// The search's cost facts once the input's steps are on the border.
proof fn lemma_search_start(p: Seq<Node>, b: Seq<Node>, input: State, t: State, o: ColorConversionOptions)
    requires
        p.len() == 1,
        p[0] == (Node { state: input, cost: 0, prev: 0, op: None }),
        b == add_steps(Seq::empty(), p, spec_next(input, t, o), spec_next(input, t, o).len() as int, p[0], 0),
    ensures
        costs_ok(b, p),
        relaxed(b, p, 1, t, o),
        optimal(p, input, t, o),
{
    lemma_next_costs(input, t, o);
    lemma_add_steps_costs(Seq::empty(), p, spec_next(input, t, o), spec_next(input, t, o).len() as int, p[0], 0);
    assert forall|k: int, path: Seq<(State, Op)>|
        0 <= k < p.len() && #[trigger] is_path(input, path, t, o) && same_state(path_end(input, path), #[trigger] p[k].state)
        implies p[k].cost <= path_cost(path) by {
        lemma_path_cost_nonneg(path);
    }
}

/// A path read back along the chain of processed nodes from a node of the
/// target's format costs no more than any path to that format.
proof fn lemma_found_cheapest(
    p: Seq<Node>,
    b: Seq<Node>,
    back: Seq<usize>,
    path: Seq<(State, Op)>,
    input: State,
    t: State,
    o: ColorConversionOptions,
)
    requires
        costs_ok(b, p),
        optimal(p, input, t, o),
        back.len() > 0,
        same_state(p[back[0] as int].state, t),
        forall|k: int| 0 <= k < back.len() ==> 0 < #[trigger] back[k] < p.len(),
        forall|k: int| 0 <= k < back.len() - 1 ==> back[k + 1] == p[#[trigger] back[k] as int].prev,
        p[back.last() as int].prev == 0,
        path.len() == back.len(),
        forall|q: int| 0 <= q < path.len() ==> #[trigger] path[q] == (
            p[back[back.len() - 1 - q] as int].state,
            p[back[back.len() - 1 - q] as int].op->Some_0),
    ensures
        forall|other: Seq<(State, Op)>| #[trigger] is_path(input, other, t, o) && same_state(path_end(input, other), t)
            ==> path_cost(path) <= path_cost(other),
{
    lemma_chain_cost(p, back, path);
    let e = back[0] as int;
    assert forall|other: Seq<(State, Op)>| #[trigger] is_path(input, other, t, o) && same_state(path_end(input, other), t)
        implies path_cost(path) <= path_cost(other) by {
        assert(same_state(path_end(input, other), p[e].state));
    }
}

/// The cost of a path read back along a chain of processed nodes is the
/// cost of the chain's last node.
proof fn lemma_chain_cost(p: Seq<Node>, back: Seq<usize>, path: Seq<(State, Op)>)
    requires
        p.len() >= 1,
        p[0].cost == 0,
        forall|k: int| 0 < k < p.len() ==> (#[trigger] p[k]).cost == p[p[k].prev as int].cost + op_cost(p[k].op->Some_0),
        back.len() > 0,
        forall|k: int| 0 <= k < back.len() ==> 0 < #[trigger] back[k] < p.len(),
        forall|k: int| 0 <= k < back.len() - 1 ==> back[k + 1] == p[#[trigger] back[k] as int].prev,
        p[back.last() as int].prev == 0,
        path.len() == back.len(),
        forall|q: int| 0 <= q < path.len() ==> #[trigger] path[q] == (
            p[back[back.len() - 1 - q] as int].state,
            p[back[back.len() - 1 - q] as int].op->Some_0),
    ensures
        path_cost(path) == p[back[0] as int].cost,
    decreases back.len(),
{
    let l = back.len() as int;
    assert(path[l - 1] == (p[back[0] as int].state, p[back[0] as int].op->Some_0));
    assert(back[0] > 0);
    assert(path.last() == path[l - 1]);
    assert(p[back[0] as int].cost == p[p[back[0] as int].prev as int].cost + op_cost(p[back[0] as int].op->Some_0));
    if l == 1 {
        assert(path.drop_last().len() == 0);
        assert(back.last() == back[0]);
        assert(path_cost(path.drop_last()) == 0);
    } else {
        let back2 = back.subrange(1, l);
        let path2 = path.drop_last();
        assert forall|k: int| 0 <= k < back2.len() - 1 implies back2[k + 1] == p[#[trigger] back2[k] as int].prev by {
            assert(back2[k] == back[k + 1] && back2[k + 1] == back[k + 2]);
        }
        assert forall|q: int| 0 <= q < path2.len() implies #[trigger] path2[q] == (
            p[back2[back2.len() - 1 - q] as int].state,
            p[back2[back2.len() - 1 - q] as int].op->Some_0) by {
            assert(path2[q] == path[q]);
            assert(back2[back2.len() - 1 - q] == back[back.len() - 1 - q]);
        }
        assert(back2.last() == back.last());
        lemma_chain_cost(p, back2, path2);
        assert(back[1] == p[back[0] as int].prev);
    }
}

/// The failure for a conversion that no path of converters performs.
pub open spec fn unsupported_parts() -> (i32, i32, Seq<char>) {
    (4i32, 3003i32, "Unsupported feature: Unsupported color conversion"@)
}

/// The facts about processed nodes that a path is read back from: the first
/// is the input, and each other was reached from an earlier one by a step.
#[verifier::opaque]
pub open spec fn chain_ok(p: Seq<Node>, i: State, t: State, o: ColorConversionOptions) -> bool {
    &&& p.len() >= 1
    &&& p[0].state == i
    &&& forall|k: int| 0 < k < p.len() ==> (#[trigger] p[k]).prev < k && p[k].op is Some
        && is_step(p[p[k].prev as int].state, p[k].state, p[k].op->Some_0, t, o)
}

/// Processed nodes form chains back to the input.
proof fn lemma_chain(p: Seq<Node>, i: State, t: State, o: ColorConversionOptions)
    requires
        processed_ok(p, i, t, o),
    ensures
        chain_ok(p, i, t, o),
        forall|k: int| 0 < k < p.len() ==> (#[trigger] p[k]).prev < k && p[k].op is Some,
{
    reveal(processed_ok);
    reveal(chain_ok);
}

/// Moving the border node `index` to the processed nodes keeps what holds
/// of them, and they stay within the universe.
proof fn lemma_take_processed(b0: Seq<Node>, p0: Seq<Node>, index: int, i: State, t: State, o: ColorConversionOptions)
    requires
        processed_ok(p0, i, t, o),
        border_ok(b0, p0, i, t, o),
        0 <= index < b0.len(),
    ensures
        processed_ok(p0.push(b0[index]), i, t, o),
        p0.len() + 1 <= universe_size(),
{
    reveal(processed_ok);
    reveal(border_ok);
    let p = p0.push(b0[index]);
    let id = p0.len() as int;
    assert forall|k: int| 0 <= k < p.len() implies #[trigger] p[k] == (if k == id { b0[index] } else { p0[k] }) by {}
    assert forall|k: int, l: int| 0 <= k < l < p.len() implies !same_state(#[trigger] p[k].state, #[trigger] p[l].state) by {
        if l == id {
            assert(p[l] == b0[index]);
            assert(p[k] == p0[k]);
        } else {
            assert(p[k] == p0[k]);
            assert(p[l] == p0[l]);
        }
    }
    assert forall|k: int| 0 <= k < p.len() implies in_universe(#[trigger] p[k].state, i, t) by {
        if k < id {
            assert(p[k] == p0[k]);
        }
    }
    assert forall|k: int| 0 < k < p.len() implies (#[trigger] p[k]).prev < k && p[k].op is Some
        && is_step(p[p[k].prev as int].state, p[k].state, p[k].op->Some_0, t, o) by {
        if k < id {
            assert(p[k] == p0[k]);
            assert(p[p[k].prev as int] == p0[p0[k].prev as int]);
        } else {
            assert(p[k] == b0[index]);
            assert(p[p[k].prev as int] == p0[b0[index].prev as int]);
        }
    }
    assert forall|k: int| 0 <= k < p.len() implies (#[trigger] p[k]).cost <= 11 * k by {
        if k < id {
            assert(p[k] == p0[k]);
        }
    }
    assert(processed_ok(p, i, t, o));
    lemma_count(p, i, t);
}

/// Moving the border node `index` to the processed nodes keeps what holds
/// of the border left.
proof fn lemma_take_border(b0: Seq<Node>, p0: Seq<Node>, index: int, i: State, t: State, o: ColorConversionOptions)
    requires
        border_ok(b0, p0, i, t, o),
        0 <= index < b0.len(),
    ensures
        border_ok(b0.update(index, b0.last()).drop_last(), p0.push(b0[index]), i, t, o),
{
    reveal(border_ok);
    let p = p0.push(b0[index]);
    let b = b0.update(index, b0.last()).drop_last();
    let id = p0.len() as int;
    assert forall|j: int| 0 <= j < b.len() implies #[trigger] b[j] == b0[if j == index { b0.len() - 1 } else { j }] by {}
    assert forall|k: int| 0 <= k < p.len() implies #[trigger] p[k] == (if k == id { b0[index] } else { p0[k] }) by {}
    assert forall|k: int, j: int| 0 <= k < p.len() && 0 <= j < b.len() implies !same_state(#[trigger] p[k].state, #[trigger] b[j].state) by {
        let jj = if j == index { b0.len() - 1 } else { j };
        assert(b[j] == b0[jj]);
        if k == id {
            assert(jj != index);
            if jj < index {
                assert(!same_state(b0[jj].state, b0[index].state));
            } else {
                assert(!same_state(b0[index].state, b0[jj].state));
            }
        } else {
            assert(p[k] == p0[k]);
        }
    }
    assert forall|j: int, m: int| 0 <= j < m < b.len() implies !same_state(#[trigger] b[j].state, #[trigger] b[m].state) by {
        let jj = if j == index { b0.len() - 1 } else { j };
        let mm = if m == index { b0.len() - 1 } else { m };
        assert(b[j] == b0[jj]);
        assert(b[m] == b0[mm]);
        if jj < mm {
            assert(!same_state(b0[jj].state, b0[mm].state));
        } else {
            assert(!same_state(b0[mm].state, b0[jj].state));
        }
    }
    assert forall|j: int| 0 <= j < b.len() implies (#[trigger] b[j]).prev < p.len() && b[j].op is Some
        && is_step(p[b[j].prev as int].state, b[j].state, b[j].op->Some_0, t, o)
        && b[j].cost <= 11 * (b[j].prev + 1) by {
        let jj = if j == index { b0.len() - 1 } else { j };
        assert(b[j] == b0[jj]);
        assert(p[b[j].prev as int] == p0[b0[jj].prev as int]);
    }
    assert forall|j: int| 0 <= j < b.len() implies in_universe(#[trigger] b[j].state, i, t) by {
        let jj = if j == index { b0.len() - 1 } else { j };
        assert(b[j] == b0[jj]);
    }
}

/// A path read back along the processed nodes from `back`'s last node to
/// its first is a path of steps from the input.
proof fn lemma_path(p: Seq<Node>, back: Seq<usize>, path: Seq<(State, Op)>, i: State, t: State, o: ColorConversionOptions)
    requires
        chain_ok(p, i, t, o),
        back.len() > 0,
        p[back.last() as int].prev == 0,
        forall|k: int| 0 <= k < back.len() ==> 0 < #[trigger] back[k] < p.len(),
        forall|k: int| 0 <= k < back.len() - 1 ==> back[k + 1] == p[#[trigger] back[k] as int].prev,
        path.len() == back.len(),
        forall|q: int| 0 <= q < path.len() ==> #[trigger] path[q] == (
            p[back[back.len() - 1 - q] as int].state, p[back[back.len() - 1 - q] as int].op->Some_0),
    ensures
        is_path(i, path, t, o),
        path.last().0 == p[back[0] as int].state,
{
    reveal(chain_ok);
    let L = back.len() as int;
    assert forall|q: int| 0 <= q < path.len() implies is_step(#[trigger] before(i, path, q), path[q].0, path[q].1, t, o) by {
        let idx = back[L - 1 - q] as int;
        assert(0 < idx < p.len());
        if q == 0 {
            assert(p[idx].prev == 0);
        } else {
            assert(back[L - 1 - q + 1] == p[back[L - 1 - q] as int].prev);
            assert(before(i, path, q) == path[q - 1].0);
        }
    }
    assert(path[L - 1].0 == p[back[0] as int].state);
}

/// The first border node of least cost.
fn cheapest(border: &Vec<Node>) -> (r: usize)
    requires
        border@.len() > 0,
    ensures
        r < border@.len(),
        forall|j: int| 0 <= j < border@.len() ==> border@[r as int].cost <= #[trigger] border@[j].cost,
        forall|j: int| 0 <= j < r ==> border@[r as int].cost < #[trigger] border@[j].cost,
{
    let mut index: usize = 0;
    let mut j: usize = 1;
    while j < border.len()
        invariant
            1 <= j <= border@.len(),
            index < j,
            forall|l: int| 0 <= l < j ==> border@[index as int].cost <= #[trigger] border@[l].cost,
            forall|l: int| 0 <= l < index ==> border@[index as int].cost < #[trigger] border@[l].cost,
        decreases border@.len() - j,
    {
        if border[j].cost < border[index].cost {
            index = j;
        }
        j = j + 1;
    }
    index
}

/// The converters that take an image from format `input` to format
/// `target`: a path of steps found by an ordered least-cost search, where
/// among equally cheap candidates the first discovered is taken; empty where
/// the formats are the same, and a failure where the search runs out of
/// states to try.
#[verifier::rlimit(60)]
#[verifier::spinoff_prover]
pub fn plan(input: State, target: State, o: ColorConversionOptions) -> (r: Result<Vec<(State, Op)>, Error>)
    ensures
        match r {
            Ok(path) => is_path(input, path@, target, o) && same_state(path_end(input, path@), target),
            Err(e) => e.parts() == unsupported_parts(),
        },
        same_state(input, target) ==> (r matches Ok(path) && path@.len() == 0),
        r is Err ==> forall|path: Seq<(State, Op)>| #[trigger] is_path(input, path, target, o) ==> !same_state(
            path_end(input, path),
            target,
        ),
        r matches Ok(found) ==> forall|path: Seq<(State, Op)>| #[trigger] is_path(input, path, target, o) && same_state(
            path_end(input, path),
            target,
        ) ==> path_cost(found@) <= path_cost(path),
{
    if state_eq(&input, &target) {
        proof {
            assert forall|path: Seq<(State, Op)>| #[trigger] is_path(input, path, target, o) && same_state(
                path_end(input, path),
                target,
            ) implies path_cost(Seq::<(State, Op)>::empty()) <= path_cost(path) by {
                lemma_path_cost_nonneg(path);
            }
        }
        let empty: Vec<(State, Op)> = Vec::new();
        assert(empty@ =~= Seq::<(State, Op)>::empty());
        return Ok(empty);
    }
    let mut processed: Vec<Node> = Vec::new();
    processed.push(Node { state: input, cost: 0, prev: 0, op: None });
    let mut border: Vec<Node> = Vec::new();
    proof {
        reveal(processed_ok);
        reveal(border_ok);
        assert(in_universe(input, input, target));
        assert(processed_ok(processed@, input, target, o));
        assert(border_ok(border@, processed@, input, target, o));
    }
    expand(&mut border, &processed, 0, input, target, o);
    proof {
        lemma_add_steps_covers(Seq::empty(), processed@, spec_next(input, target, o),
            spec_next(input, target, o).len() as int, processed@[0], 0);
        assert(closed(border@, processed@, target, o));
        lemma_search_start(processed@, border@, input, target, o);
    }
    let mut end: usize = 0;
    loop
        invariant_except_break
            processed_ok(processed@, input, target, o),
            border_ok(border@, processed@, input, target, o),
            1 <= processed@.len() <= universe_size(),
            !same_state(input, target),
            processed@[0].state == input,
            closed(border@, processed@, target, o),
            forall|k: int| 0 <= k < processed@.len() ==> !same_state(#[trigger] processed@[k].state, target),
            costs_ok(border@, processed@),
            relaxed(border@, processed@, processed@.len() as int, target, o),
            optimal(processed@, input, target, o),
        ensures
            processed_ok(processed@, input, target, o),
            0 < end < processed@.len(),
            same_state(processed@[end as int].state, target),
            costs_ok(border@, processed@),
            optimal(processed@, input, target, o),
        decreases universe_size() - processed@.len(),
    {
        if border.len() == 0 {
            proof {
                assert(border@ =~= Seq::<Node>::empty());
                assert forall|path: Seq<(State, Op)>| #[trigger] is_path(input, path, target, o) implies !same_state(
                    path_end(input, path),
                    target,
                ) by {
                    lemma_no_path(processed@, input, target, o, path);
                }
            }
            return Err(Error::new(4, 3003, "Unsupported feature: Unsupported color conversion"));
        }
        let index = cheapest(&border);
        let ghost b0 = border@;
        let ghost p0 = processed@;
        let current = border.swap_remove(index);
        let id = processed.len();
        processed.push(current);
        proof {
            lemma_take_processed(b0, p0, index as int, input, target, o);
            lemma_take_border(b0, p0, index as int, input, target, o);
            assert(processed@ =~= p0.push(b0[index as int]));
        }
        proof {
            lemma_take_costs_ok(b0, p0, index as int);
            lemma_take_relaxed(b0, p0, index as int, target, o);
            lemma_take_optimal(b0, p0, index as int, input, target, o);
            lemma_take_covers(b0, p0, index as int);
            assert forall|k: int, m: int| 0 <= k < p0.len() && 0 <= m < spec_next(processed@[k].state, target, o).len()
                implies covered(border@, processed@, #[trigger] spec_next(processed@[k].state, target, o)[m].0) by {
                assert(processed@[k] == p0[k]);
                assert(covered(b0, p0, spec_next(p0[k].state, target, o)[m].0));
            }
        }
        if state_eq(&current.state, &target) {
            end = id;
            break;
        }
        let ghost b1 = border@;
        expand(&mut border, &processed, id, input, target, o);
        proof {
            reveal(processed_ok);
            assert(processed@[id as int].cost <= 11 * id);
            lemma_next_costs(processed@[id as int].state, target, o);
            lemma_add_steps_costs(b1, processed@, spec_next(processed@[id as int].state, target, o),
                spec_next(processed@[id as int].state, target, o).len() as int, processed@[id as int], id);
            assert forall|k: int, m: int|
                0 <= k < processed@.len() && 0 <= m < spec_next(processed@[k].state, target, o).len() && !processed_has(
                    processed@,
                    (#[trigger] spec_next(processed@[k].state, target, o)[m]).0,
                ) implies border_within(border@, spec_next(processed@[k].state, target, o)[m].0,
                    processed@[k].cost + op_cost(spec_next(processed@[k].state, target, o)[m].1)) by {
                if k < p0.len() {
                    assert(border_within(b1, spec_next(processed@[k].state, target, o)[m].0,
                        processed@[k].cost + op_cost(spec_next(processed@[k].state, target, o)[m].1)));
                }
            }
            lemma_add_steps_covers(b1, processed@, spec_next(processed@[id as int].state, target, o),
                spec_next(processed@[id as int].state, target, o).len() as int, processed@[id as int], id);
            assert forall|k: int, m: int| 0 <= k < processed@.len() && 0 <= m < spec_next(processed@[k].state, target, o).len()
                implies covered(border@, processed@, #[trigger] spec_next(processed@[k].state, target, o)[m].0) by {
                if k < p0.len() {
                    assert(covered(b1, processed@, spec_next(processed@[k].state, target, o)[m].0));
                }
            }
        }
    }
    proof {
        lemma_chain(processed@, input, target, o);
    }
    // The node indices from the end back to the input, the end first.
    let mut back: Vec<usize> = Vec::new();
    let mut at = end;
    while at != 0
        invariant
            chain_ok(processed@, input, target, o),
            forall|k: int| 0 < k < processed@.len() ==> (#[trigger] processed@[k]).prev < k && processed@[k].op is Some,
            costs_ok(border@, processed@),
            optimal(processed@, input, target, o),
            same_state(processed@[end as int].state, target),
            at < processed@.len(),
            0 < end < processed@.len(),
            back@.len() == 0 ==> at == end,
            back@.len() > 0 ==> back@[0] == end && at == processed@[back@.last() as int].prev,
            forall|k: int| 0 <= k < back@.len() ==> 0 < #[trigger] back@[k] < processed@.len(),
            forall|k: int| 0 <= k < back@.len() - 1 ==> back@[k + 1] == processed@[#[trigger] back@[k] as int].prev,
        decreases at,
    {
        back.push(at);
        at = processed[at].prev;
    }
    let mut path: Vec<(State, Op)> = Vec::new();
    let mut n: usize = back.len();
    while n > 0
        invariant
            chain_ok(processed@, input, target, o),
            forall|k: int| 0 < k < processed@.len() ==> (#[trigger] processed@[k]).prev < k && processed@[k].op is Some,
            costs_ok(border@, processed@),
            optimal(processed@, input, target, o),
            same_state(processed@[end as int].state, target),
            0 < end < processed@.len(),
            back@.len() > 0,
            back@[0] == end,
            processed@[back@.last() as int].prev == 0,
            forall|k: int| 0 <= k < back@.len() ==> 0 < #[trigger] back@[k] < processed@.len(),
            forall|k: int| 0 <= k < back@.len() - 1 ==> back@[k + 1] == processed@[#[trigger] back@[k] as int].prev,
            n <= back@.len(),
            path@.len() == back@.len() - n,
            forall|q: int| 0 <= q < path@.len() ==> #[trigger] path@[q] == (
                processed@[back@[back@.len() - 1 - q] as int].state,
                processed@[back@[back@.len() - 1 - q] as int].op->Some_0),
        decreases n,
    {
        n = n - 1;
        let node = processed[back[n]];
        let op = match node.op {
            Some(op) => op,
            None => Op::Pack,
        };
        path.push((node.state, op));
    }
    proof {
        lemma_path(processed@, back@, path@, input, target, o);
        lemma_found_cheapest(processed@, border@, back@, path@, input, target, o);
    }
    Ok(path)
}

/// The depth of the target format: 8 for interleaved 8-bit RGB, 10 for
/// interleaved deep RGB from 8-bit samples, else the requested depth, or the
/// input's where none is requested.
pub open spec fn target_depth(ch: i32, depth: u8, output_depth: u8) -> u8 {
    if ch == 10 || ch == 11 {
        8
    } else if 12 <= ch <= 15 && depth <= 8 {
        10
    } else if output_depth != 0 {
        output_depth
    } else {
        depth
    }
}

/// The input and target formats of a conversion: the image's colourspace,
/// chroma, depth of its first plane, alpha depth (its alpha plane's, else
/// the depth for chroma formats with interleaved alpha) and profile with
/// defaults for unspecified code points; the target with the requested
/// colourspace and chroma, the target depth, alpha where the format or the
/// input has it, and the requested profile with unspecified code points
/// taken from the input.
pub open spec fn spec_endpoints(colorspace: i32, chroma: i32, depth: u8, alpha_plane: Option<u8>, nclx: Option<Nclx>,
    cs: i32, ch: i32, profile: Nclx, output_depth: u8) -> (State, State) {
    let alpha = match alpha_plane {
        Some(a) => a,
        None => if chroma == 11 || chroma == 13 || chroma == 15 { depth } else { 0 },
    };
    let n = spec_normalized(match nclx { Some(p) => p, None => spec_undefined() });
    let input = State { cs: colorspace, ch: chroma, depth, alpha, nclx: n };
    let tp = Nclx {
        primaries: if profile.primaries == 2 { n.primaries } else { profile.primaries },
        transfer: if profile.transfer == 2 { n.transfer } else { profile.transfer },
        matrix: if profile.matrix == 2 { n.matrix } else { profile.matrix },
        full_range: profile.full_range,
    };
    let d = target_depth(ch, depth, output_depth);
    let ta = if ch >= 10 {
        if ch == 11 || ch == 13 || ch == 15 { d } else { 0 }
    } else if alpha > 0 {
        d
    } else {
        0
    };
    (input, State { cs, ch, depth: d, alpha: ta, nclx: tp })
}

/// The input and target formats of converting an image with the given
/// colourspace, chroma, first-plane depth, alpha plane depth and profile
/// to the requested colourspace, chroma, profile and depth (0: keep).
pub fn endpoints(colorspace: i32, chroma: i32, depth: u8, alpha_plane: Option<u8>, nclx: Option<Nclx>,
    cs: i32, ch: i32, profile: Nclx, output_depth: u8) -> (r: (State, State))
    ensures
        r == spec_endpoints(colorspace, chroma, depth, alpha_plane, nclx, cs, ch, profile, output_depth),
{
    let alpha = match alpha_plane {
        Some(a) => a,
        None => if chroma == 11 || chroma == 13 || chroma == 15 { depth } else { 0 },
    };
    let n = normalized(match nclx { Some(p) => p, None => undefined() });
    let input = State { cs: colorspace, ch: chroma, depth, alpha, nclx: n };
    let tp = Nclx {
        primaries: if profile.primaries == 2 { n.primaries } else { profile.primaries },
        transfer: if profile.transfer == 2 { n.transfer } else { profile.transfer },
        matrix: if profile.matrix == 2 { n.matrix } else { profile.matrix },
        full_range: profile.full_range,
    };
    let d = if ch == 10 || ch == 11 {
        8
    } else if 12 <= ch && ch <= 15 && depth <= 8 {
        10
    } else if output_depth != 0 {
        output_depth
    } else {
        depth
    };
    let ta = if ch >= 10 {
        if ch == 11 || ch == 13 || ch == 15 { d } else { 0 }
    } else if alpha > 0 {
        d
    } else {
        0
    };
    (input, State { cs, ch, depth: d, alpha: ta, nclx: tp })
}

} // verus!
