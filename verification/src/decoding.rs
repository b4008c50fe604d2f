//! What a decoder is handed besides an item's data: the codec configuration
//! taken from the item's properties.
use vstd::prelude::*;
use crate::bytes::{be_at, read_be, lemma_be_value_bound, lemma_pow256_values};
use crate::container::{Container, ParseError, MetaView, spec_property, HVCC};
use crate::context::{ContextError, parse_failure_parts};
use crate::handle_properties::be4;

verus! {

/// The fourcc `av1C`.
pub const AV1C: u32 = 0x6176_3143;
/// The fourcc `jpgC`.
pub const JPGC: u32 = 0x6a70_6743;

/// The failure for a colour conversion that is not supported.
pub fn unsupported_conversion() -> (r: ContextError)
    ensures
        r.parts() == (4i32, 3003i32, "Unsupported feature: Unsupported color conversion"@),
{
    ContextError::new(4, 3003, "Unsupported feature: Unsupported color conversion")
}

/// The `count` units of one `hvcC` array from `at`, each appended to `out`
/// with a 32-bit length unless it is empty; with the position after them,
/// or none where the record ends early.
pub open spec fn config_units(c: Seq<u8>, at: int, count: int, out: Seq<u8>) -> Option<(Seq<u8>, int)>
    decreases count,
{
    if count <= 0 {
        Some((out, at))
    } else if at + 2 > c.len() {
        None
    } else {
        let size = be_at(c, at, 2) as int;
        if at + 2 + size > c.len() {
            None
        } else {
            let nal = c.subrange(at + 2, at + 2 + size);
            let out1 = if size > 0 { out + be4(size as u32) + nal } else { out };
            config_units(c, at + 2 + size, count - 1, out1)
        }
    }
}

/// The units of the `n` `hvcC` arrays from `at`, appended to `out`.
pub open spec fn config_arrays(c: Seq<u8>, at: int, n: int, out: Seq<u8>) -> Option<Seq<u8>>
    decreases n,
{
    if n <= 0 {
        Some(out)
    } else if at + 3 > c.len() {
        None
    } else {
        match config_units(c, at + 3, be_at(c, at + 1, 2) as int, out) {
            None => None,
            Some((o, a)) => config_arrays(c, a, n - 1, o),
        }
    }
}

/// The parameter sets of an `hvcC` body as length-prefixed units.
pub open spec fn hvcc_configuration(c: Seq<u8>) -> Option<Seq<u8>> {
    if c.len() < 23 {
        None
    } else {
        config_arrays(c, 23, c[22] as int, Seq::empty())
    }
}

/// The configuration bytes a decoder of the given format (1 HEVC, 3 JPEG,
/// 4 AV1) needs for an item; empty for other formats.
pub open spec fn spec_codec_configuration(v: MetaView, id: u32, format: i32) -> Result<Seq<u8>, ParseError> {
    if format == 1 {
        match spec_property(v, id, HVCC) {
            Err(e) => Err(e),
            Ok(c) => match hvcc_configuration(c) {
                None => Err(ParseError::Truncated),
                Some(b) => Ok(b),
            },
        }
    } else if format == 4 {
        match spec_property(v, id, AV1C) {
            Err(e) => Err(e),
            Ok(c) => if c.len() < 4 { Err(ParseError::Truncated) } else { Ok(c.subrange(4, c.len() as int)) },
        }
    } else if format == 3 {
        match spec_property(v, id, JPGC) {
            Ok(c) => Ok(c),
            Err(_) => Ok(Seq::empty()),
        }
    } else {
        Ok(Seq::empty())
    }
}

/// Appends the units of one `hvcC` array.
fn append_units(c: &[u8], start: usize, count: u64, out: &mut Vec<u8>) -> (r: Option<usize>)
    requires
        start <= c@.len(),
    ensures
        match config_units(c@, start as int, count as int, old(out)@) {
            None => r is None,
            Some((o, a)) => r is Some && r->Some_0 as int == a && final(out)@ == o && a <= c@.len(),
        },
{
    let mut at = start;
    let mut k: u64 = 0;
    while k < count
        invariant
            k <= count,
            at <= c@.len(),
            config_units(c@, at as int, (count - k) as int, out@)
                == config_units(c@, start as int, count as int, old(out)@),
        decreases count - k,
    {
        if c.len() - at < 2 {
            return None;
        }
        proof {
            lemma_be_value_bound(c@.subrange(at as int, at + 2));
            lemma_pow256_values();
        }
        let size = read_be(c, at, 2) as usize;
        if c.len() - at - 2 < size {
            return None;
        }
        if size > 0 {
            let ghost before = out@;
            let n = size as u32;
            out.push((n / 0x100_0000) as u8);
            out.push((n / 0x1_0000 % 256) as u8);
            out.push((n / 256 % 256) as u8);
            out.push((n % 256) as u8);
            let end = at + 2 + size;
            let mut i: usize = at + 2;
            while i < end
                invariant
                    end == at + 2 + size,
                    at + 2 <= i <= end <= c@.len(),
                    out@ == before + be4(n) + c@.subrange(at + 2, i as int),
                decreases end - i,
            {
                out.push(c[i]);
                assert(c@.subrange(at + 2, i + 1) =~= c@.subrange(at + 2, i as int).push(c@[i as int]));
                i = i + 1;
            }
        }
        at = at + 2 + size;
        k = k + 1;
    }
    Some(at)
}

/// The parameter sets of an `hvcC` body as length-prefixed units.
fn hvcc_parameter_sets(config: &[u8]) -> (r: Option<Vec<u8>>)
    ensures
        match hvcc_configuration(config@) {
            None => r is None,
            Some(b) => r is Some && r->Some_0@ == b,
        },
{
    if config.len() < 23 {
        return None;
    }
    let mut result: Vec<u8> = Vec::new();
    let n = config[22];
    let mut at: usize = 23;
    let mut j: u8 = 0;
    while j < n
        invariant
            j <= n,
            at <= config@.len(),
            n == config@[22],
            config@.len() >= 23,
            config_arrays(config@, at as int, (n - j) as int, result@)
                == config_arrays(config@, 23, n as int, Seq::empty()),
        decreases n - j,
    {
        if config.len() - at < 3 {
            return None;
        }
        proof {
            lemma_be_value_bound(config@.subrange(at + 1, at + 3));
            lemma_pow256_values();
        }
        let count = read_be(config, at + 1, 2);
        match append_units(config, at + 3, count, &mut result) {
            Some(a) => {
                at = a;
            },
            None => return None,
        }
        j = j + 1;
    }
    Some(result)
}

/// The configuration bytes a decoder of the given format (1 HEVC, 3 JPEG,
/// 4 AV1) needs for an item: for HEVC the `hvcC` parameter sets, each
/// non-empty one with a 32-bit big-endian length; for AV1 the `av1C` body
/// after its four header bytes; for JPEG the `jpgC` body where there is one;
/// empty for other formats.
pub fn codec_configuration(container: &Container, id: u32, format: i32) -> (r: Result<Vec<u8>, ContextError>)
    requires
        container.wf(),
    ensures
        match spec_codec_configuration(container.meta_view(), id, format) {
            Ok(b) => r is Ok && r->Ok_0@ == b,
            Err(e) => r is Err && r->Err_0.parts() == parse_failure_parts(e),
        },
{
    let mut result: Vec<u8> = Vec::new();
    if format == 1 {
        let config = match container.property(id, HVCC) {
            Ok(d) => d,
            Err(e) => return Err(ContextError::from_parse(e)),
        };
        match hvcc_parameter_sets(config) {
            Some(b) => {
                result = b;
            },
            None => return Err(ContextError::from_parse(ParseError::Truncated)),
        }
    } else if format == 4 {
        let config = match container.property(id, AV1C) {
            Ok(d) => d,
            Err(e) => return Err(ContextError::from_parse(e)),
        };
        if config.len() < 4 {
            return Err(ContextError::from_parse(ParseError::Truncated));
        }
        let mut i: usize = 4;
        while i < config.len()
            invariant
                4 <= i <= config@.len(),
                result@ == config@.subrange(4, i as int),
            decreases config@.len() - i,
        {
            result.push(config[i]);
            assert(config@.subrange(4, i + 1) =~= config@.subrange(4, i as int).push(config@[i as int]));
            i = i + 1;
        }
    } else if format == 3 {
        if let Ok(config) = container.property(id, JPGC) {
            let mut i: usize = 0;
            while i < config.len()
                invariant
                    i <= config@.len(),
                    result@ == config@.subrange(0, i as int),
                decreases config@.len() - i,
            {
                result.push(config[i]);
                assert(config@.subrange(0, i + 1) =~= config@.subrange(0, i as int).push(config@[i as int]));
                i = i + 1;
            }
            assert(result@ =~= config@);
        }
    }
    Ok(result)
}

/// What a grid needs of one of its tile images: whether the tile failed to
/// load, and its size.
#[derive(Clone, Copy)]
pub struct TileInfo {
    pub failed: bool,
    pub width: u32,
    pub height: u32,
}

/// Why a grid's tiles are refused.
#[derive(Clone, Copy, PartialEq, Eq, Structural)]
pub enum TileFailure {
    /// The tile at this index failed to load, and its failure is the grid's.
    Load(usize),
    /// The tiles do not cover the whole image.
    Cover,
    /// The tiles differ in size.
    Sizes,
}

/// One tile checked: skipped (none) or placed at its corner, with the tile
/// size seen so far; a tile that failed to load is skipped unless decoding is
/// strict or it is the first.
pub open spec fn tile_step(t: TileInfo, index: int, columns: u32, rows: u32, w: u32, h: u32, strict: bool,
    size: Option<(u32, u32)>) -> Result<(Option<(u32, u32)>, Option<(u32, u32)>), TileFailure> {
    if t.failed {
        if strict || index == 0 { Err(TileFailure::Load(index as usize)) } else { Ok((None, size)) }
    } else if t.width * columns < w || t.height * rows < h {
        Err(TileFailure::Cover)
    } else if size is Some && size->Some_0 != (t.width, t.height) {
        Err(TileFailure::Sizes)
    } else {
        Ok((Some((((index % columns as int) * t.width) as u32, ((index / columns as int) * t.height) as u32)),
            Some((t.width, t.height))))
    }
}

/// The placements of the tiles from `i` on after those in `done`, or the
/// first refusal.
pub open spec fn grid_tiles(tiles: Seq<TileInfo>, columns: u32, rows: u32, w: u32, h: u32, strict: bool, i: int,
    size: Option<(u32, u32)>, done: Seq<Option<(u32, u32)>>) -> Result<Seq<Option<(u32, u32)>>, TileFailure>
    decreases tiles.len() - i,
{
    if i < 0 || i >= tiles.len() {
        Ok(done)
    } else {
        match tile_step(tiles[i], i, columns, rows, w, h, strict, size) {
            Err(f) => Err(f),
            Ok((p, s)) => grid_tiles(tiles, columns, rows, w, h, strict, i + 1, s, done.push(p)),
        }
    }
}

/// Checks the tiles of a `columns` x `rows` grid image of `w` x `h` in order
/// and places each at its corner (its index's column and row times the tile
/// size); a tile that failed to load is skipped (its failure is then a
/// warning) unless decoding is strict or it is the first tile.
pub fn place_tiles(tiles: &Vec<TileInfo>, columns: u32, rows: u32, w: u32, h: u32, strict: bool)
    -> (r: Result<Vec<Option<(u32, u32)>>, TileFailure>)
    requires
        columns > 0,
        tiles@.len() <= u32::MAX,
        forall|k: int| 0 <= k < tiles@.len() ==> (k % columns as int) * (#[trigger] tiles@[k]).width <= u32::MAX
            && (k / columns as int) * tiles@[k].height <= u32::MAX,
    ensures
        match grid_tiles(tiles@, columns, rows, w, h, strict, 0, None, Seq::empty()) {
            Ok(p) => r matches Ok(v) && v@ == p,
            Err(f) => r == Err::<Vec<Option<(u32, u32)>>, TileFailure>(f),
        },
{
    let mut out: Vec<Option<(u32, u32)>> = Vec::new();
    let mut size: Option<(u32, u32)> = None;
    let mut index: usize = 0;
    while index < tiles.len()
        invariant
            columns > 0,
            tiles@.len() <= u32::MAX,
            forall|k: int| 0 <= k < tiles@.len() ==> (k % columns as int) * (#[trigger] tiles@[k]).width <= u32::MAX
                && (k / columns as int) * tiles@[k].height <= u32::MAX,
            index <= tiles@.len(),
            grid_tiles(tiles@, columns, rows, w, h, strict, 0, None, Seq::empty())
                == grid_tiles(tiles@, columns, rows, w, h, strict, index as int, size, out@),
        decreases tiles@.len() - index,
    {
        let t = tiles[index];
        if t.failed {
            if strict || index == 0 {
                return Err(TileFailure::Load(index));
            }
            out.push(None);
            index = index + 1;
            continue;
        }
        proof {
            let (a, b, c, d) = (t.width as int, columns as int, t.height as int, rows as int);
            assert(a * b <= 0xffff_ffff * 0xffff_ffff) by (nonlinear_arith)
                requires 0 <= a <= 0xffff_ffff, 0 <= b <= 0xffff_ffff;
            assert(c * d <= 0xffff_ffff * 0xffff_ffff) by (nonlinear_arith)
                requires 0 <= c <= 0xffff_ffff, 0 <= d <= 0xffff_ffff;
        }
        if (t.width as u64) * (columns as u64) < w as u64 || (t.height as u64) * (rows as u64) < h as u64 {
            return Err(TileFailure::Cover);
        }
        if let Some(s) = size {
            if s.0 != t.width || s.1 != t.height {
                return Err(TileFailure::Sizes);
            }
        }
        size = Some((t.width, t.height));
        let k = index as u32;
        proof {
            assert((index as int % columns as int) * tiles@[index as int].width <= u32::MAX);
            assert(0 <= index as int % columns as int);
            assert(0 <= index as int / columns as int);
        }
        let x = (k % columns) * t.width;
        let y = (k / columns) * t.height;
        out.push(Some((x, y)));
        index = index + 1;
    }
    Ok(out)
}

/// The failure a grid's tile refusal reports, other than a tile's own.
pub fn tile_failure_error(f: TileFailure) -> (r: ContextError)
    requires
        !(f is Load),
    ensures
        f is Cover ==> r.parts() == (2i32, 118i32, "Invalid input: "@ + "Invalid grid data: Grid tiles do not cover whole image"@),
        f is Sizes ==> r.parts() == (2i32, 118i32, "Invalid input: "@ + "Invalid grid data: Grid tiles have different sizes"@),
{
    match f {
        TileFailure::Cover => ContextError::invalid(118, "Invalid grid data: Grid tiles do not cover whole image"),
        _ => ContextError::invalid(118, "Invalid grid data: Grid tiles have different sizes"),
    }
}

} // verus!
