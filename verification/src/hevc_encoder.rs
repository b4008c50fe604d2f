//! The parts of HEVC encoding around the hpvca encoder: the quality mapping,
//! which colour descriptions hpvca can signal, the picture checks, and the
//! NAL units of hpvca's single-item HEIC output.
use vstd::prelude::*;
use crate::bytes::{be_at, read_be, lemma_be_value_bound, lemma_pow256_values};
use crate::text::{join_fourcc, fourcc_chars, ascii_fourcc};
use crate::container::unit_views;

verus! {

/// Colour signalling written to the SPS VUI.
#[derive(Clone, Copy, Debug, Default, PartialEq, Eq)]
pub struct VuiSignal {
    pub full_range: bool,
    /// (colour primaries, transfer characteristics, matrix coefficients)
    pub description: Option<(u8, u8, u8)>,
}

/// Encoder settings derived from the plugin parameters.
#[derive(Clone, Copy, Debug)]
pub struct Settings {
    /// libheif quality, 0..=100.
    pub quality: i32,
    pub lossless: bool,
    /// The slower search tier (x265 presets from "slow" upwards).
    pub slow: bool,
    /// No variance-boost adaptive quantization (x265 tune "psnr").
    pub psnr: bool,
    pub vui: VuiSignal,
}

/// One picture: planar samples at `bit_depth`, luma first. `chroma` is the
/// libheif chroma value (0 monochrome, 1 4:2:0, 2 4:2:2, 3 4:4:4).
pub struct Picture<'a> {
    pub width: u32,
    pub height: u32,
    pub bit_depth: u8,
    pub chroma: i32,
    pub planes: [&'a [u16]; 3],
}

/// hpvca's QP for a quality: `(100 - q) * 41 / 99 + 10` with `q` clamped to 1..=100, at most 51.
pub open spec fn spec_hpvca_qp(quality: u8) -> int {
    let q: int = if quality < 1 { 1 } else if quality > 100 { 100 } else { quality as int };
    let v = (100 - q) * 41 / 99 + 10;
    if v < 51 { v } else { 51 }
}

/// hpvca's quality to QP mapping.
pub fn hpvca_qp(quality: u8) -> (r: i32)
    ensures
        r == spec_hpvca_qp(quality),
{
    let q: i32 = if quality < 1 { 1 } else if quality > 100 { 100 } else { quality as i32 };
    let v = (100 - q) * 41 / 99 + 10;
    if v < 51 { v } else { 51 }
}

/// The QP aimed at for a libheif quality: x265's CRF `(100 - q) / 2` less one,
/// rounded half away from zero.
pub open spec fn hpvca_target(quality: i32) -> int {
    let x: int = if quality < 0 { 100 } else if quality > 100 { 0 } else { 100 - quality };
    if x % 2 == 0 { (x - 2) / 2 } else if x == 1 { -1 } else { (x - 1) / 2 }
}

/// How far hpvca quality `q` lands from the target QP.
pub open spec fn qp_distance(q: u8, target: int) -> int {
    let d = spec_hpvca_qp(q) - target;
    if d < 0 { -d } else { d }
}

/// Whether quality `a` is preferred to `b`: closer to the target, or as close and higher.
pub open spec fn preferred(a: u8, b: u8, target: int) -> bool {
    qp_distance(a, target) < qp_distance(b, target) || (qp_distance(a, target) == qp_distance(b, target) && a > b)
}

/// The hpvca quality (1..=100) whose QP is closest to the target QP for a
/// libheif quality; of two as close, the higher.
pub fn quality_to_hpvca(quality: i32) -> (r: u8)
    ensures
        1 <= r <= 100,
        forall|q: u8| 1 <= q <= 100 && q != r ==> preferred(r, q, hpvca_target(quality)),
{
    let x: i32 = if quality < 0 { 100 } else if quality > 100 { 0 } else { 100 - quality };
    let target: i32 = if x % 2 == 0 { (x - 2) / 2 } else if x == 1 { -1 } else { (x - 1) / 2 };
    let mut best: u8 = 1;
    let mut best_d: i32 = {
        let d = hpvca_qp(1) - target;
        if d < 0 { -d } else { d }
    };
    let mut q: u8 = 2;
    while q <= 100
        invariant
            2 <= q <= 101,
            1 <= best < q,
            target == hpvca_target(quality),
            best_d == qp_distance(best, target as int),
            forall|p: u8| 1 <= p < q && p != best ==> preferred(best, p, target as int),
        decreases 101 - q,
    {
        let d0 = hpvca_qp(q) - target;
        let d = if d0 < 0 { -d0 } else { d0 };
        assert(d == qp_distance(q, target as int));
        let ghost old_best = best;
        if d <= best_d {
            best = q;
            best_d = d;
            assert forall|p: u8| 1 <= p < q + 1 && p != best implies preferred(best, p, target as int) by {
                if p != old_best {
                    assert(preferred(old_best, p, target as int));
                }
            }
        } else {
            assert(preferred(best, q, target as int));
        }
        q = q + 1;
    }
    best
}

/// Whether hpvca has a variant for each code of a colour description.
pub open spec fn known_primaries(p: u8) -> bool {
    (1 <= p <= 2) || (4 <= p <= 12) || p == 22
}

/// Whether hpvca has a transfer function for a code.
pub open spec fn known_transfer(t: u8) -> bool {
    (1 <= t <= 2) || (4 <= t <= 18)
}

/// Whether hpvca has matrix coefficients for a code.
pub open spec fn known_matrix(m: u8) -> bool {
    m <= 2 || (4 <= m <= 14)
}

/// The colour description given to hpvca: all three codes where it knows them
/// all, with the range flag; none otherwise.
pub fn cicp_codes(vui: &VuiSignal) -> (r: Option<(u8, u8, u8, bool)>)
    ensures
        match vui.description {
            Some((p, t, m)) => if known_primaries(p) && known_transfer(t) && known_matrix(m) {
                r == Some((p, t, m, vui.full_range))
            } else {
                r is None
            },
            None => r is None,
        },
{
    let (p, t, m) = match vui.description {
        Some(d) => d,
        None => return None,
    };
    let primaries = (1 <= p && p <= 2) || (4 <= p && p <= 12) || p == 22;
    let transfer = (1 <= t && t <= 2) || (4 <= t && t <= 18);
    let matrix = m <= 2 || (4 <= m && m <= 14);
    if primaries && transfer && matrix { Some((p, t, m, vui.full_range)) } else { None }
}

/// The chroma format and bit depth hpvca accepts, or why not: chroma 0 to 3,
/// bit depth 8, 10 or 12.
pub fn picture_format(picture: &Picture) -> (r: Result<(u8, u8), String>)
    ensures
        !(0 <= picture.chroma <= 3) ==> r is Err && r->Err_0@ == "unsupported chroma format"@,
        (0 <= picture.chroma <= 3) && !(picture.bit_depth == 8 || picture.bit_depth == 10 || picture.bit_depth == 12)
            ==> r is Err && r->Err_0@ == "unsupported bit depth"@,
        (0 <= picture.chroma <= 3) && (picture.bit_depth == 8 || picture.bit_depth == 10 || picture.bit_depth == 12)
            ==> r == Ok::<(u8, u8), String>((picture.chroma as u8, picture.bit_depth)),
{
    if picture.chroma < 0 || picture.chroma > 3 {
        return Err("unsupported chroma format".to_owned());
    }
    if picture.bit_depth != 8 && picture.bit_depth != 10 && picture.bit_depth != 12 {
        return Err("unsupported bit depth".to_owned());
    }
    Ok((picture.chroma as u8, picture.bit_depth))
}

pub const META: u32 = 0x6d65_7461;
pub const IPRP: u32 = 0x6970_7270;
pub const IPCO: u32 = 0x6970_636f;
pub const HVCC: u32 = 0x6876_6343;
pub const ILOC: u32 = 0x696c_6f63;

/// The boxes of `d` from `at` as (type, body), up to the first one that is
/// shorter than its header or runs past the end.
pub open spec fn out_boxes(d: Seq<u8>, at: int) -> Seq<(u32, Seq<u8>)>
    decreases d.len() - at,
{
    if at < 0 || at + 8 > d.len() {
        Seq::empty()
    } else {
        let size = be_at(d, at, 4) as int;
        if size < 8 || at + size > d.len() {
            Seq::empty()
        } else {
            seq![(be_at(d, at + 4, 4) as u32, d.subrange(at + 8, at + size))] + out_boxes(d, at + size)
        }
    }
}

/// The body of the first box of type `kind` among `b` from `i` on.
pub open spec fn first_body(b: Seq<(u32, Seq<u8>)>, kind: u32, i: int) -> Option<Seq<u8>>
    decreases b.len() - i,
{
    if i < 0 || i >= b.len() { None } else if b[i].0 == kind { Some(b[i].1) } else { first_body(b, kind, i + 1) }
}

/// The body of the first child of type `kind`, or the complaint that it is missing.
pub open spec fn out_child(d: Seq<u8>, kind: u32) -> Result<Seq<u8>, Seq<char>> {
    match first_body(out_boxes(d, 0), kind, 0) {
        Some(b) => Ok(b),
        None => Err("hpvca output without "@ + fourcc_chars(kind)),
    }
}

/// The big-endian value of the `n` bytes at `at`; of more than eight bytes
/// only the last eight count.
pub open spec fn be_low(d: Seq<u8>, at: int, n: int) -> Result<u64, Seq<char>> {
    if at < 0 || n < 0 || at + n > d.len() {
        Err("truncated hpvca output"@)
    } else if n <= 8 {
        Ok(be_at(d, at, n) as u64)
    } else {
        Ok(be_at(d, at + n - 8, 8) as u64)
    }
}

/// The boxes of hpvca's output.
pub fn boxes(data: &[u8]) -> (r: Vec<(u32, &[u8])>)
    ensures
        r@.len() == out_boxes(data@, 0).len(),
        forall|k: int| 0 <= k < r@.len() ==> (#[trigger] r@[k]).0 == out_boxes(data@, 0)[k].0
            && r@[k].1@ == out_boxes(data@, 0)[k].1,
{
    let mut out: Vec<(u32, &[u8])> = Vec::new();
    let mut at: usize = 0;
    let mut stop = false;
    let ghost d = data@;
    proof {
        lemma_pow256_values();
    }
    while !stop && at < data.len() && data.len() - at >= 8
        invariant
            d == data@,
            at <= d.len(),
            out_boxes(d, 0) == out@.map_values(|b: (u32, &[u8])| (b.0, b.1@)) + out_boxes(d, at as int),
            stop ==> out_boxes(d, at as int) == Seq::<(u32, Seq<u8>)>::empty(),
        decreases d.len() - at, if stop { 0int } else { 1int },
    {
        let size = read_be(data, at, 4);
        let kind = read_be(data, at + 4, 4);
        proof {
            lemma_be_value_bound(d.subrange(at as int, at + 4));
            lemma_be_value_bound(d.subrange(at + 4, at + 8));
        }
        if size < 8 || size > (data.len() - at) as u64 {
            assert(out_boxes(d, at as int) =~= Seq::<(u32, Seq<u8>)>::empty());
            stop = true;
        } else {
            let size = size as usize;
            let body = vstd::slice::slice_subrange(data, at + 8, at + size);
            let ghost before = out@;
            out.push((kind as u32, body));
            proof {
                let f = |b: (u32, &[u8])| (b.0, b.1@);
                assert(out@.map_values(f) =~= before.map_values(f).push((kind as u32, body@)));
                assert(before.map_values(f) + out_boxes(d, at as int)
                    =~= out@.map_values(f) + out_boxes(d, at + size));
            }
            at = at + size;
        }
    }
    proof {
        let f = |b: (u32, &[u8])| (b.0, b.1@);
        assert(out_boxes(d, at as int) =~= Seq::<(u32, Seq<u8>)>::empty());
        assert(out_boxes(d, 0) =~= out@.map_values(f));
        assert forall|k: int| 0 <= k < out@.len() implies (#[trigger] out@[k]).0 == out_boxes(d, 0)[k].0
            && out@[k].1@ == out_boxes(d, 0)[k].1 by {
            assert(out_boxes(d, 0)[k] == f(out@[k]));
        }
    }
    out
}

/// Box bodies are no longer than the data they come from.
proof fn lemma_out_boxes_short(d: Seq<u8>, at: int)
    ensures
        forall|k: int| 0 <= k < out_boxes(d, at).len() ==> (#[trigger] out_boxes(d, at)[k]).1.len() <= d.len(),
    decreases d.len() - at,
{
    if !(at < 0 || at + 8 > d.len()) {
        let size = be_at(d, at, 4) as int;
        if !(size < 8 || at + size > d.len()) {
            lemma_out_boxes_short(d, at + size);
            let rest = out_boxes(d, at + size);
            assert forall|k: int| 0 <= k < out_boxes(d, at).len() implies (#[trigger] out_boxes(d, at)[k]).1.len() <= d.len() by {
                if k > 0 {
                    assert(out_boxes(d, at)[k] == rest[k - 1]);
                }
            }
        }
    }
}

/// The body of the first child of type `kind`.
pub fn child(data: &[u8], kind: u32) -> (r: Result<&[u8], String>)
    ensures
        match out_child(data@, kind) {
            Ok(b) => r is Ok && r->Ok_0@ == b,
            Err(e) => r is Err && (ascii_fourcc(kind) ==> r->Err_0@ == e),
        },
        r is Ok ==> r->Ok_0@.len() <= data@.len(),
{
    proof {
        lemma_out_boxes_short(data@, 0);
    }
    let all = boxes(data);
    let ghost v = out_boxes(data@, 0);
    let mut i: usize = 0;
    while i < all.len()
        invariant
            all@.len() == v.len(),
            v == out_boxes(data@, 0),
            forall|k: int| 0 <= k < all@.len() ==> (#[trigger] all@[k]).0 == v[k].0 && all@[k].1@ == v[k].1,
            i <= v.len(),
            first_body(v, kind, 0) == first_body(v, kind, i as int),
            forall|k: int| 0 <= k < v.len() ==> (#[trigger] v[k]).1.len() <= data@.len(),
        decreases v.len() - i,
    {
        let (k, b) = all[i];
        if k == kind {
            assert(v[i as int].1.len() <= data@.len());
            return Ok(b);
        }
        i = i + 1;
    }
    proof {
        reveal_strlit("");
    }
    Err(join_fourcc("hpvca output without ", kind, ""))
}

/// The big-endian value of the `n` bytes at `at` (of more, the last eight).
pub fn be(data: &[u8], at: usize, n: usize) -> (r: Result<u64, String>)
    ensures
        match be_low(data@, at as int, n as int) {
            Ok(v) => r == Ok::<u64, String>(v),
            Err(e) => r is Err && r->Err_0@ == e,
        },
{
    if n > data.len() || at > data.len() - n {
        return Err("truncated hpvca output".to_owned());
    }
    if n <= 8 {
        Ok(read_be(data, at, n))
    } else {
        Ok(read_be(data, at + n - 8, 8))
    }
}

/// The units of one `hvcC` array from `at`: `count` left, each with a 16-bit length.
pub open spec fn hv_units(h: Seq<u8>, at: int, count: int, units: Seq<Seq<u8>>) -> Result<(Seq<Seq<u8>>, int), Seq<char>>
    decreases count,
{
    if count <= 0 {
        Ok((units, at))
    } else {
        match be_low(h, at, 2) {
            Err(e) => Err(e),
            Ok(size) => if at + 2 + size > h.len() {
                Err("truncated hvcC"@)
            } else {
                hv_units(h, at + 2 + size, count - 1, units.push(h.subrange(at + 2, at + 2 + size)))
            },
        }
    }
}

/// The units of the `n` `hvcC` arrays left from `at`: a type byte, a count, the units.
pub open spec fn hv_arrays(h: Seq<u8>, at: int, n: int, units: Seq<Seq<u8>>) -> Result<(Seq<Seq<u8>>, int), Seq<char>>
    decreases n,
{
    if n <= 0 {
        Ok((units, at))
    } else {
        match be_low(h, at + 1, 2) {
            Err(e) => Err(e),
            Ok(count) => match hv_units(h, at + 3, count as int, units) {
                Err(e) => Err(e),
                Ok((u, a)) => hv_arrays(h, a, n - 1, u),
            },
        }
    }
}

/// The field sizes of hpvca's `iloc`: offset, length, base offset, extent index and item id.
pub struct IlocSizes {
    pub offset: int,
    pub length: int,
    pub base: int,
    pub index: int,
    pub id: int,
}

/// One extent: its bytes of the file where it belongs to item 1.
pub open spec fn il_extent_bytes(file: Seq<u8>, id: u64, base: u64, offset: u64, length: u64, data: Seq<u8>) -> Result<Seq<u8>, Seq<char>> {
    if id != 1 {
        Ok(data)
    } else {
        let start = ((base + offset) % 0x1_0000_0000_0000_0000) as usize as int;
        let end = start + length as usize as int;
        if end > usize::MAX || end > file.len() {
            Err("hpvca item extent outside the file"@)
        } else {
            Ok(data + file.subrange(start, end))
        }
    }
}

/// The data of item 1 after the `n` extents left from `at` of item `id`.
pub open spec fn il_extents(iloc: Seq<u8>, file: Seq<u8>, at: int, n: int, id: u64, base: u64, sz: IlocSizes, data: Seq<u8>) -> Result<(Seq<u8>, int), Seq<char>>
    decreases n,
{
    if n <= 0 {
        Ok((data, at))
    } else {
        let a1 = at + sz.index;
        match be_low(iloc, a1, sz.offset) {
            Err(e) => Err(e),
            Ok(offset) => match be_low(iloc, a1 + sz.offset, sz.length) {
                Err(e) => Err(e),
                Ok(length) => match il_extent_bytes(file, id, base, offset, length, data) {
                    Err(e) => Err(e),
                    Ok(d) => il_extents(iloc, file, a1 + sz.offset + sz.length, n - 1, id, base, sz, d),
                },
            },
        }
    }
}

/// The data of item 1 after the `n` `iloc` items left from `at`.
pub open spec fn il_items(iloc: Seq<u8>, file: Seq<u8>, at: int, n: int, sz: IlocSizes, version: u8, data: Seq<u8>) -> Result<(Seq<u8>, int), Seq<char>>
    decreases n,
{
    if n <= 0 {
        Ok((data, at))
    } else {
        match be_low(iloc, at, sz.id) {
            Err(e) => Err(e),
            Ok(id) => {
                let a1 = at + sz.id + (if version >= 1 { 2int } else { 0int }) + 2;
                match be_low(iloc, a1, sz.base) {
                    Err(e) => Err(e),
                    Ok(base) => match be_low(iloc, a1 + sz.base, 2) {
                        Err(e) => Err(e),
                        Ok(count) => match il_extents(iloc, file, a1 + sz.base + 2, count as int, id, base, sz, data) {
                            Err(e) => Err(e),
                            Ok((d, a2)) => il_items(iloc, file, a2, n - 1, sz, version, d),
                        },
                    },
                }
            },
        }
    }
}

/// The length-prefixed units of item data from `at`, after `units`.
pub open spec fn slice_units(d: Seq<u8>, at: int, units: Seq<Seq<u8>>) -> Result<Seq<Seq<u8>>, Seq<char>>
    decreases d.len() - at,
{
    if at < 0 || at >= d.len() {
        Ok(units)
    } else {
        match be_low(d, at, 4) {
            Err(e) => Err(e),
            Ok(size) => if at + 4 + size > d.len() {
                Err("truncated slice"@)
            } else {
                slice_units(d, at + 4 + size, units.push(d.subrange(at + 4, at + 4 + size)))
            },
        }
    }
}

/// The sizes of an `iloc` from its size word.
pub open spec fn iloc_sizes(sizes: u64, version: u8) -> IlocSizes {
    IlocSizes {
        offset: (sizes / 4096) as int,
        length: (sizes / 256 % 16) as int,
        base: (sizes / 16 % 16) as int,
        index: if version >= 1 { (sizes % 16) as int } else { 0 },
        id: if version < 2 { 2 } else { 4 },
    }
}

/// The units of item 1's data, after the `hvcC` units.
pub open spec fn item_units(file: Seq<u8>, meta: Seq<u8>, units: Seq<Seq<u8>>) -> Result<Seq<Seq<u8>>, Seq<char>> {
    match out_child(meta, ILOC) {
        Err(e) => Err(e),
        Ok(iloc) => if iloc.len() == 0 {
            Err("truncated iloc"@)
        } else {
            match be_low(iloc, 4, 2) {
                Err(e) => Err(e),
                Ok(sizes) => {
                    let sz = iloc_sizes(sizes, iloc[0]);
                    match be_low(iloc, 6, sz.id) {
                        Err(e) => Err(e),
                        Ok(items) => match il_items(iloc, file, 6 + sz.id, items as int, sz, iloc[0], Seq::empty()) {
                            Err(e) => Err(e),
                            Ok((data, _)) => slice_units(data, 0, units),
                        },
                    }
                },
            }
        },
    }
}

/// The units of the `hvcC` property of hpvca's output.
pub open spec fn hvcc_units(meta: Seq<u8>) -> Result<Seq<Seq<u8>>, Seq<char>> {
    match out_child(meta, IPRP) {
        Err(e) => Err(e),
        Ok(iprp) => match out_child(iprp, IPCO) {
            Err(e) => Err(e),
            Ok(ipco) => match out_child(ipco, HVCC) {
                Err(e) => Err(e),
                Ok(h) => if h.len() <= 22 {
                    Err("truncated hvcC"@)
                } else {
                    match hv_arrays(h, 23, h[22] as int, Seq::empty()) {
                        Err(e) => Err(e),
                        Ok((u, _)) => Ok(u),
                    }
                },
            },
        },
    }
}

/// The NAL units of hpvca's single-item HEIC output: the `hvcC` arrays, then
/// the length-prefixed units of item 1's data.
pub open spec fn spec_nal_units(file: Seq<u8>) -> Result<Seq<Seq<u8>>, Seq<char>> {
    match out_child(file, META) {
        Err(e) => Err(e),
        Ok(m) => if m.len() < 4 {
            Err("truncated meta"@)
        } else {
            let meta = m.subrange(4, m.len() as int);
            match hvcc_units(meta) {
                Err(e) => Err(e),
                Ok(u) => item_units(file, meta, u),
            }
        },
    }
}

/// Reads the units of one `hvcC` array into `units`; gives the position after them.
fn read_hv_units(h: &[u8], start: usize, count: u64, units: &mut Vec<Vec<u8>>) -> (r: Result<usize, String>)
    requires
        h@.len() <= usize::MAX - 64,
        start <= h@.len() + 3,
    ensures
        match hv_units(h@, start as int, count as int, unit_views(old(units)@)) {
            Ok((u, a)) => r == Ok::<usize, String>(a as usize) && unit_views(final(units)@) == u && 0 <= a <= h@.len() + 3,
            Err(e) => r is Err && r->Err_0@ == e,
        },
{
    let mut at = start;
    let mut k: u64 = 0;
    while k < count
        invariant
            h@.len() <= usize::MAX - 64,
            at <= h@.len() + 3,
            k <= count,
            hv_units(h@, start as int, count as int, unit_views(old(units)@))
                == hv_units(h@, at as int, count - k, unit_views(units@)),
            k > 0 ==> at <= h@.len(),
        decreases count - k,
    {
        let size = match be(h, at, 2) {
            Ok(v) => v,
            Err(e) => return Err(e),
        };
        if size > (h.len() - at - 2) as u64 {
            return Err("truncated hvcC".to_owned());
        }
        let end = at + 2 + size as usize;
        let ghost before = units@;
        let unit = vstd::slice::slice_to_vec(vstd::slice::slice_subrange(h, at + 2, end));
        units.push(unit);
        proof {
            assert(unit_views(units@) =~= unit_views(before).push(h@.subrange(at + 2, end as int)));
        }
        at = end;
        k = k + 1;
    }
    Ok(at)
}

/// Reads the units of the `n` `hvcC` arrays from `at` into `units`.
fn read_hv_arrays(h: &[u8], n: u8, units: &mut Vec<Vec<u8>>) -> (r: Result<(), String>)
    requires
        h@.len() <= usize::MAX - 64,
        h@.len() >= 23,
    ensures
        match hv_arrays(h@, 23, n as int, unit_views(old(units)@)) {
            Ok((u, _)) => r is Ok && unit_views(final(units)@) == u,
            Err(e) => r is Err && r->Err_0@ == e,
        },
{
    let mut at: usize = 23;
    let mut k: u8 = 0;
    while k < n
        invariant
            h@.len() <= usize::MAX - 64,
            at <= h@.len() + 3,
            k <= n,
            hv_arrays(h@, 23, n as int, unit_views(old(units)@)) == hv_arrays(h@, at as int, n - k, unit_views(units@)),
        decreases n - k,
    {
        let count = match be(h, at + 1, 2) {
            Ok(v) => v,
            Err(e) => return Err(e),
        };
        let ghost u0 = unit_views(units@);
        let ghost a0 = at as int;
        let next = match read_hv_units(h, at + 3, count, units) {
            Ok(a) => a,
            Err(e) => return Err(e),
        };
        proof {
            let res = hv_units(h@, a0 + 3, count as int, u0);
            assert(res is Ok);
            assert(res->Ok_0.1 == next as int);
            assert(hv_arrays(h@, a0, n - k, u0) == hv_arrays(h@, next as int, n - k - 1, unit_views(units@)));
        }
        at = next;
        k = k + 1;
    }
    Ok(())
}

/// Adds the bytes of one extent of item 1 to `data`.
fn add_extent(file: &[u8], id: u64, base: u64, offset: u64, length: u64, data: &mut Vec<u8>) -> (r: Result<(), String>)
    ensures
        match il_extent_bytes(file@, id, base, offset, length, old(data)@) {
            Ok(d) => r is Ok && final(data)@ == d,
            Err(e) => r is Err && r->Err_0@ == e,
        },
{
    if id != 1 {
        return Ok(());
    }
    let start = base.wrapping_add(offset) as usize;
    let length = length as usize;
    if length > usize::MAX - start {
        return Err("hpvca item extent outside the file".to_owned());
    }
    let end = start + length;
    if end > file.len() {
        return Err("hpvca item extent outside the file".to_owned());
    }
    let mut part = vstd::slice::slice_to_vec(vstd::slice::slice_subrange(file, start, end));
    data.append(&mut part);
    Ok(())
}

/// Reads the `n` extents of item `id` from `at`, adding item 1's bytes to `data`.
fn read_il_extents(iloc: &[u8], file: &[u8], start: usize, n: u64, id: u64, base: u64, sz: &IlocExec, data: &mut Vec<u8>) -> (r: Result<usize, String>)
    requires
        iloc@.len() <= usize::MAX - 64,
        start <= iloc@.len(),
        sz.wf(),
    ensures
        match il_extents(iloc@, file@, start as int, n as int, id, base, sz.spec(), old(data)@) {
            Ok((d, a)) => r == Ok::<usize, String>(a as usize) && final(data)@ == d && 0 <= a <= iloc@.len(),
            Err(e) => r is Err && r->Err_0@ == e,
        },
{
    let mut at = start;
    let mut k: u64 = 0;
    while k < n
        invariant
            iloc@.len() <= usize::MAX - 64,
            at <= iloc@.len(),
            sz.wf(),
            k <= n,
            il_extents(iloc@, file@, start as int, n as int, id, base, sz.spec(), old(data)@)
                == il_extents(iloc@, file@, at as int, n - k, id, base, sz.spec(), data@),
        decreases n - k,
    {
        let a1 = at + sz.index;
        let offset = match be(iloc, a1, sz.offset) {
            Ok(v) => v,
            Err(e) => return Err(e),
        };
        let length = match be(iloc, a1 + sz.offset, sz.length) {
            Ok(v) => v,
            Err(e) => return Err(e),
        };
        match add_extent(file, id, base, offset, length, data) {
            Ok(()) => {},
            Err(e) => return Err(e),
        }
        at = a1 + sz.offset + sz.length;
        k = k + 1;
    }
    Ok(at)
}

/// The `iloc` field sizes, as numbers.
pub struct IlocExec {
    pub offset: usize,
    pub length: usize,
    pub base: usize,
    pub index: usize,
    pub id: usize,
}

impl IlocExec {
    /// Each size at most 15.
    pub open spec fn wf(&self) -> bool {
        self.offset <= 15 && self.length <= 15 && self.base <= 15 && self.index <= 15 && self.id <= 15
    }

    /// The sizes as integers.
    pub open spec fn spec(&self) -> IlocSizes {
        IlocSizes {
            offset: self.offset as int,
            length: self.length as int,
            base: self.base as int,
            index: self.index as int,
            id: self.id as int,
        }
    }
}

/// Reads the `n` `iloc` items from `at`, collecting item 1's bytes into `data`.
fn read_il_items(iloc: &[u8], file: &[u8], start: usize, n: u64, sz: &IlocExec, version: u8, data: &mut Vec<u8>) -> (r: Result<(), String>)
    requires
        iloc@.len() <= usize::MAX - 64,
        start <= iloc@.len() + 15,
        sz.wf(),
    ensures
        match il_items(iloc@, file@, start as int, n as int, sz.spec(), version, old(data)@) {
            Ok((d, _)) => r is Ok && final(data)@ == d,
            Err(e) => r is Err && r->Err_0@ == e,
        },
{
    let mut at = start;
    let mut k: u64 = 0;
    while k < n
        invariant
            iloc@.len() <= usize::MAX - 64,
            at <= iloc@.len() + 15,
            sz.wf(),
            k <= n,
            il_items(iloc@, file@, start as int, n as int, sz.spec(), version, old(data)@)
                == il_items(iloc@, file@, at as int, n - k, sz.spec(), version, data@),
        decreases n - k,
    {
        let id = match be(iloc, at, sz.id) {
            Ok(v) => v,
            Err(e) => return Err(e),
        };
        let a1 = at + sz.id + (if version >= 1 { 2 } else { 0 }) + 2;
        let base = match be(iloc, a1, sz.base) {
            Ok(v) => v,
            Err(e) => return Err(e),
        };
        let count = match be(iloc, a1 + sz.base, 2) {
            Ok(v) => v,
            Err(e) => return Err(e),
        };
        at = match read_il_extents(iloc, file, a1 + sz.base + 2, count, id, base, sz, data) {
            Ok(a) => a,
            Err(e) => return Err(e),
        };
        k = k + 1;
    }
    Ok(())
}

/// Reads the length-prefixed units of item data into `units`.
fn read_slices(d: &[u8], units: &mut Vec<Vec<u8>>) -> (r: Result<(), String>)
    ensures
        match slice_units(d@, 0, unit_views(old(units)@)) {
            Ok(u) => r is Ok && unit_views(final(units)@) == u,
            Err(e) => r is Err && r->Err_0@ == e,
        },
{
    let mut at: usize = 0;
    while at < d.len()
        invariant
            at <= d@.len(),
            slice_units(d@, 0, unit_views(old(units)@)) == slice_units(d@, at as int, unit_views(units@)),
        decreases d@.len() - at,
    {
        let size = match be(d, at, 4) {
            Ok(v) => v,
            Err(e) => return Err(e),
        };
        if size > (d.len() - at - 4) as u64 {
            return Err("truncated slice".to_owned());
        }
        let end = at + 4 + size as usize;
        let ghost before = units@;
        units.push(vstd::slice::slice_to_vec(vstd::slice::slice_subrange(d, at + 4, end)));
        proof {
            assert(unit_views(units@) =~= unit_views(before).push(d@.subrange(at + 4, end as int)));
        }
        at = end;
    }
    Ok(())
}

/// The size word of an `iloc` split into its field sizes.
fn split_sizes(sizes: u64, version: u8) -> (r: IlocExec)
    requires
        sizes < 0x10000,
    ensures
        r.wf(),
        r.spec() == iloc_sizes(sizes, version),
{
    IlocExec {
        offset: (sizes / 4096) as usize,
        length: (sizes / 256 % 16) as usize,
        base: (sizes / 16 % 16) as usize,
        index: if version >= 1 { (sizes % 16) as usize } else { 0 },
        id: if version < 2 { 2 } else { 4 },
    }
}

/// Reads the `hvcC` units of hpvca's `meta` body.
fn read_hvcc_units(meta: &[u8]) -> (r: Result<Vec<Vec<u8>>, String>)
    requires
        meta@.len() <= usize::MAX - 64,
    ensures
        match hvcc_units(meta@) {
            Ok(u) => r is Ok && unit_views(r->Ok_0@) == u,
            Err(e) => r is Err && (ascii_fourcc(IPRP) && ascii_fourcc(IPCO) && ascii_fourcc(HVCC) ==> r->Err_0@ == e),
        },
{
    let iprp = match child(meta, IPRP) {
        Ok(b) => b,
        Err(e) => return Err(e),
    };
    let ipco = match child(iprp, IPCO) {
        Ok(b) => b,
        Err(e) => return Err(e),
    };
    let h = match child(ipco, HVCC) {
        Ok(b) => b,
        Err(e) => return Err(e),
    };
    if h.len() <= 22 {
        return Err("truncated hvcC".to_owned());
    }
    let mut units: Vec<Vec<u8>> = Vec::new();
    proof {
        assert(unit_views(units@) =~= Seq::<Seq<u8>>::empty());
    }
    match read_hv_arrays(h, h[22], &mut units) {
        Ok(()) => Ok(units),
        Err(e) => Err(e),
    }
}

/// The NAL units of hpvca's single-item HEIC output: the `hvcC` arrays, then
/// the length-prefixed units of item 1's data.
pub fn nal_units(file: &[u8]) -> (r: Result<Vec<Vec<u8>>, String>)
    requires
        file@.len() <= usize::MAX - 64,
    ensures
        match spec_nal_units(file@) {
            Ok(u) => r is Ok && unit_views(r->Ok_0@) == u,
            Err(e) => r is Err && r->Err_0@ == e,
        },
{
    proof {
        lemma_known_kinds_ascii();
    }
    let m = match child(file, META) {
        Ok(b) => b,
        Err(e) => return Err(e),
    };
    if m.len() < 4 {
        return Err("truncated meta".to_owned());
    }
    let meta = vstd::slice::slice_subrange(m, 4, m.len());
    let mut units = match read_hvcc_units(meta) {
        Ok(u) => u,
        Err(e) => return Err(e),
    };
    let iloc = match child(meta, ILOC) {
        Ok(b) => b,
        Err(e) => return Err(e),
    };
    if iloc.len() == 0 {
        return Err("truncated iloc".to_owned());
    }
    let version = iloc[0];
    let sizes = match be(iloc, 4, 2) {
        Ok(v) => v,
        Err(e) => return Err(e),
    };
    proof {
        lemma_pow256_values();
        lemma_be_value_bound(iloc@.subrange(4, 6));
    }
    let sz = split_sizes(sizes, version);
    let items = match be(iloc, 6, sz.id) {
        Ok(v) => v,
        Err(e) => return Err(e),
    };
    let mut data: Vec<u8> = Vec::new();
    match read_il_items(iloc, file, 6 + sz.id, items, &sz, version, &mut data) {
        Ok(()) => {},
        Err(e) => return Err(e),
    }
    match read_slices(data.as_slice(), &mut units) {
        Ok(()) => Ok(units),
        Err(e) => Err(e),
    }
}

/// The box types read here are ASCII.
proof fn lemma_known_kinds_ascii()
    ensures
        ascii_fourcc(META),
        ascii_fourcc(IPRP),
        ascii_fourcc(IPCO),
        ascii_fourcc(HVCC),
        ascii_fourcc(ILOC),
{
    assert(ascii_fourcc(META));
    assert(ascii_fourcc(IPRP));
    assert(ascii_fourcc(IPCO));
    assert(ascii_fourcc(HVCC));
    assert(ascii_fourcc(ILOC));
}

} // verus!




