//! File-type and brand probing on the first bytes of a HEIF file.
use vstd::prelude::*;
use crate::bytes::{be_at, be_value, read_be, read_be32, lemma_be_value_bound, lemma_pow256_values};
use crate::error::Error;

verus! {

pub const FTYP: u32 = 0x6674_7970;
pub const UUID: u32 = 0x7575_6964;
pub const HEIC: u32 = 0x6865_6963;
pub const HEIX: u32 = 0x6865_6978;
pub const HEIM: u32 = 0x6865_696d;
pub const HEIS: u32 = 0x6865_6973;
pub const HEVC: u32 = 0x6865_7663;
pub const HEVX: u32 = 0x6865_7678;
pub const HEVM: u32 = 0x6865_766d;
pub const HEVS: u32 = 0x6865_7673;
pub const AVIF: u32 = 0x6176_6966;
pub const AVIS: u32 = 0x6176_6973;
pub const JPEG: u32 = 0x6a70_6567;
pub const J2KI: u32 = 0x6a32_6b69;
pub const J2IS: u32 = 0x6a32_6973;
pub const MIF1: u32 = 0x6d69_6631;
pub const MIF2: u32 = 0x6d69_6632;
pub const MIF3: u32 = 0x6d69_6633;
pub const MSF1: u32 = 0x6d73_6631;
pub const VVIC: u32 = 0x7676_6963;
pub const MIAF: u32 = 0x6d69_6166;
pub const ISOM: u32 = 0x6973_6f6d;
pub const MP41: u32 = 0x6d70_3431;
pub const MP42: u32 = 0x6d70_3432;

/// The big-endian 32-bit value of four bytes.
pub open spec fn spec_fourcc(b: Seq<u8>) -> u32
    recommends
        b.len() == 4,
{
    (b[0] as int * 0x1000000 + b[1] as int * 0x10000 + b[2] as int * 0x100 + b[3] as int) as u32
}

/// The big-endian 32-bit value of four bytes.
pub fn fourcc(bytes: [u8; 4]) -> (r: u32)
    ensures
        r == spec_fourcc(bytes@),
{
    (bytes[0] as u32) * 0x1000000 + (bytes[1] as u32) * 0x10000 + (bytes[2] as u32) * 0x100
        + (bytes[3] as u32)
}

/// A brand code of four bytes; a zero byte anywhere makes it 0.
pub open spec fn spec_to_brand(b: Seq<u8>) -> u32 {
    if b.contains(0u8) {
        0
    } else {
        spec_fourcc(b)
    }
}

/// libheif's conversion rejects a zero byte anywhere in the fourcc.
pub fn to_brand(bytes: [u8; 4]) -> (r: u32)
    ensures
        r == spec_to_brand(bytes@),
{
    if bytes[0] == 0 || bytes[1] == 0 || bytes[2] == 0 || bytes[3] == 0 {
        assert(bytes@.contains(0u8)) by {
            if bytes[0] == 0 { assert(bytes@[0] == 0); }
            else if bytes[1] == 0 { assert(bytes@[1] == 0); }
            else if bytes[2] == 0 { assert(bytes@[2] == 0); }
            else { assert(bytes@[3] == 0); }
        }
        0
    } else {
        assert(!bytes@.contains(0u8)) by {
            assert forall|i: int| 0 <= i < 4 implies bytes@[i] != 0u8 by {
                if i == 0 {} else if i == 1 {} else if i == 2 {} else {}
            }
        }
        fourcc(bytes)
    }
}

/// The four bytes of `data` at `at`.
fn quad(data: &[u8], at: usize) -> (r: [u8; 4])
    requires
        at + 4 <= data@.len(),
    ensures
        r@ == data@.subrange(at as int, at + 4),
{
    let r = [data[at], data[at + 1], data[at + 2], data[at + 3]];
    assert(r@ =~= data@.subrange(at as int, at + 4));
    r
}

/// The brand in the major-brand field of an `ftyp` box at the start of `data`.
pub open spec fn spec_main_brand(data: Seq<u8>) -> u32 {
    if data.len() >= 12 {
        spec_to_brand(data.subrange(8, 12))
    } else {
        0
    }
}

/// The major brand of the file, 0 when it is absent or holds a zero byte.
pub fn main_brand(data: &[u8]) -> (r: u32)
    ensures
        r == spec_main_brand(data@),
{
    if data.len() >= 12 {
        to_brand(quad(data, 8))
    } else {
        0
    }
}

/// The brand in the minor-version field of an `ftyp` box at the start of `data`.
pub open spec fn spec_minor_version_brand(data: Seq<u8>) -> u32 {
    if data.len() >= 16 {
        spec_to_brand(data.subrange(12, 16))
    } else {
        0
    }
}

/// The minor-version field read as a brand, 0 when absent or holding a zero byte.
pub fn minor_version_brand(data: &[u8]) -> (r: u32)
    ensures
        r == spec_minor_version_brand(data@),
{
    if data.len() >= 16 {
        to_brand(quad(data, 12))
    } else {
        0
    }
}

/// libheif's answer to "is this a HEIF file?".
#[derive(Debug, Clone, Copy, PartialEq, Eq)]
pub enum FileType {
    No,
    Supported,
    Unsupported,
    Maybe,
}

/// The classification of a file prefix by its first box and major brand.
pub open spec fn spec_check_filetype(data: Seq<u8>) -> FileType {
    if data.len() < 8 {
        FileType::Maybe
    } else if be_at(data, 4, 4) != FTYP {
        FileType::No
    } else if data.len() < 12 {
        FileType::Maybe
    } else {
        let b = be_at(data, 8, 4);
        if b == HEIC || b == HEIX || b == AVIF || b == JPEG || b == J2KI {
            FileType::Supported
        } else if b == MIF1 || b == MIF2 {
            FileType::Maybe
        } else {
            FileType::Unsupported
        }
    }
}

/// Classifies a file prefix: not HEIF, supported, unsupported, or undecided.
pub fn check_filetype(data: &[u8]) -> (r: FileType)
    ensures
        r == spec_check_filetype(data@),
{
    if data.len() < 8 {
        return FileType::Maybe;
    }
    if read_be32(data, 4) != FTYP {
        return FileType::No;
    }
    if data.len() < 12 {
        return FileType::Maybe;
    }
    let b = read_be32(data, 8);
    if b == HEIC || b == HEIX || b == AVIF || b == JPEG || b == J2KI {
        FileType::Supported
    } else if b == MIF1 || b == MIF2 {
        FileType::Maybe
    } else {
        FileType::Unsupported
    }
}

/// The JPEG probe: -1 with fewer than four bytes, else 1 for an SOI marker
/// followed by an APPn marker and 0 otherwise.
pub open spec fn spec_check_jpeg(data: Seq<u8>) -> i32 {
    if data.len() < 4 {
        -1i32
    } else if data[0] == 0xff && data[1] == 0xd8 && data[2] == 0xff && data[3] & 0xf0 == 0xe0 {
        1
    } else {
        0
    }
}

/// Whether `data` starts like a JPEG file (-1: too short to tell).
pub fn check_jpeg(data: &[u8]) -> (r: i32)
    ensures
        r == spec_check_jpeg(data@),
{
    if data.len() < 4 {
        -1
    } else if data[0] == 0xff && data[1] == 0xd8 && data[2] == 0xff && data[3] & 0xf0 == 0xe0 {
        1
    } else {
        0
    }
}

/// The legacy brand enumeration value of a major brand.
pub open spec fn spec_legacy_code(b: int) -> i32 {
    if b == HEIC as int as int { 1 }
    else if b == HEIX as int { 2 }
    else if b == HEVC as int { 3 }
    else if b == HEVX as int { 4 }
    else if b == HEIM as int { 5 }
    else if b == HEIS as int { 6 }
    else if b == HEVM as int { 7 }
    else if b == HEVS as int { 8 }
    else if b == MIF1 as int { 9 }
    else if b == MSF1 as int { 10 }
    else if b == AVIF as int { 11 }
    else if b == AVIS as int { 12 }
    else if b == VVIC as int { 13 }
    else if b == J2KI as int { 17 }
    else if b == J2IS as int { 18 }
    else { 0 }
}

/// The legacy brand number of the file's major brand (0 when unknown or absent).
pub open spec fn spec_legacy_brand(data: Seq<u8>) -> i32 {
    if data.len() >= 12 {
        spec_legacy_code(be_at(data, 8, 4) as int)
    } else {
        0
    }
}

/// The legacy brand number of the file's major brand.
pub fn legacy_brand(data: &[u8]) -> (r: i32)
    ensures
        r == spec_legacy_brand(data@),
{
    if data.len() < 12 {
        return 0;
    }
    let b = read_be32(data, 8);
    if b == HEIC { 1 }
    else if b == HEIX { 2 }
    else if b == HEVC { 3 }
    else if b == HEVX { 4 }
    else if b == HEIM { 5 }
    else if b == HEIS { 6 }
    else if b == HEVM { 7 }
    else if b == HEVS { 8 }
    else if b == MIF1 { 9 }
    else if b == MSF1 { 10 }
    else if b == AVIF { 11 }
    else if b == AVIS { 12 }
    else if b == VVIC { 13 }
    else if b == J2KI { 17 }
    else if b == J2IS { 18 }
    else { 0 }
}

} // verus!

verus! {

/// The compatible-brand list of a leading `ftyp` box: the byte range of its
/// complete four-byte entries, or the failure libheif reports.
pub open spec fn spec_brand_range(data: Seq<u8>) -> Result<(int, int), (i32, i32, Seq<char>)> {
    if data.len() == 0 {
        Err((5, 2006, "data length must be positive"@))
    } else if data.len() < 8 {
        Err((2, 100, "error reading ftype box header"@))
    } else {
        let size32 = be_at(data, 0, 4);
        let large = size32 == 1;
        if large && data.len() < 16 {
            Err((2, 100, "error reading ftype box header"@))
        } else if large && be_at(data, 8, 8) > 0x0fff_ffff_ffff_ffff {
            Err((6, 1000, "error reading ftype box header"@))
        } else {
            let size: int = if large { be_at(data, 8, 8) as int } else { size32 as int };
            let uuid = be_at(data, 4, 4) == UUID;
            let header: int = (if large { 16int } else { 8int }) + (if uuid { 16int } else { 0int });
            if uuid && data.len() < header {
                Err((2, 100, "error reading ftype box header"@))
            } else if be_at(data, 4, 4) != FTYP {
                Err((2, 0, "File does not begin with 'ftyp' box."@))
            } else if size != 0 && size < header {
                Err((2, 101, "error reading ftyp box"@))
            } else if size > data.len() {
                Err((2, 100, "insufficient input data"@))
            } else if size < header + 8 {
                Err((2, 101, "error reading ftyp box"@))
            } else if (size - header - 8) / 4 > 1000 {
                Err((6, 1000, "error reading ftyp box"@))
            } else {
                Ok((header + 8, header + 8 + (size - header - 8) / 4 * 4))
            }
        }
    }
}

/// Borrowed, validated compatible-brand list. Parsing does not allocate.
#[derive(Clone, Copy, Debug)]
pub struct CompatibleBrands<'a> {
    bytes: &'a [u8],
}

/// The `i`-th four-byte brand of a brand list.
pub open spec fn brand_at(bytes: Seq<u8>, i: int) -> u32 {
    be_at(bytes, 4 * i, 4) as u32
}

/// The brands of a brand list, in order.
pub open spec fn brand_seq(bytes: Seq<u8>) -> Seq<u32> {
    Seq::new((bytes.len() / 4) as nat, |i: int| brand_at(bytes, i))
}

impl<'a> CompatibleBrands<'a> {
    /// The list's bytes: a whole number of four-byte brands.
    pub closed spec fn bytes(self) -> Seq<u8> {
        self.bytes@
    }

    /// The brands in file order, duplicates kept.
    pub open spec fn brands(self) -> Seq<u32> {
        brand_seq(self.bytes())
    }

    /// Reads the compatible brands of the `ftyp` box that starts `data`.
    pub fn parse(data: &'a [u8]) -> (r: Result<Self, Error>)
        ensures
            match spec_brand_range(data@) {
                Ok((start, end)) => r is Ok && r->Ok_0.bytes() == data@.subrange(start, end),
                Err(e) => r is Err && r->Err_0.parts() == e,
            },
    {
        if data.len() == 0 {
            return Err(Error::new(5, 2006, "data length must be positive"));
        }
        if data.len() < 8 {
            return Err(Error::new(2, 100, "error reading ftype box header"));
        }
        let size32 = read_be32(data, 0);
        let mut size: u64;
        let mut header: usize;
        if size32 == 1 {
            if data.len() < 16 {
                return Err(Error::new(2, 100, "error reading ftype box header"));
            }
            let n = read_be(data, 8, 8);
            if n > 0x0fff_ffff_ffff_ffff {
                return Err(Error::new(6, 1000, "error reading ftype box header"));
            }
            size = n;
            header = 16;
        } else {
            size = size32 as u64;
            header = 8;
        }
        let kind = read_be32(data, 4);
        if kind == UUID {
            header = header + 16;
            if data.len() < header {
                return Err(Error::new(2, 100, "error reading ftype box header"));
            }
        }
        if kind != FTYP {
            return Err(Error::new(2, 0, "File does not begin with 'ftyp' box."));
        }
        if size != 0 && size < header as u64 {
            return Err(Error::new(2, 101, "error reading ftyp box"));
        }
        if size > data.len() as u64 {
            return Err(Error::new(2, 100, "insufficient input data"));
        }
        if size < (header + 8) as u64 {
            return Err(Error::new(2, 101, "error reading ftyp box"));
        }
        let count = (size as usize - header - 8) / 4;
        if count > 1000 {
            return Err(Error::new(6, 1000, "error reading ftyp box"));
        }
        Ok(CompatibleBrands { bytes: &data[header + 8..header + 8 + count * 4] })
    }

    /// The number of brands.
    pub fn len(self) -> (r: usize)
        ensures
            r == self.brands().len(),
    {
        self.bytes.len() / 4
    }

    /// Whether the list holds no brand.
    pub fn is_empty(self) -> (r: bool)
        ensures
            r == (self.brands().len() == 0),
    {
        self.bytes.len() < 4
    }

    /// The brands in file order.
    pub fn iter(self) -> (r: Vec<u32>)
        ensures
            r@ == self.brands(),
    {
        let len = self.bytes.len();
        let n = len / 4;
        let mut out: Vec<u32> = Vec::new();
        let mut i: usize = 0;
        while i < n
            invariant
                n == self.bytes().len() / 4,
                len == self.bytes@.len(),
                n == len / 4,
                self.bytes@ == self.bytes(),
                i <= n,
                out@ == self.brands().subrange(0, i as int),
            decreases n - i,
        {
            let b = read_be32(self.bytes, 4 * i);
            out.push(b);
            i = i + 1;
            assert(out@ =~= self.brands().subrange(0, i as int));
        }
        assert(out@ =~= self.brands());
        out
    }

    /// Whether `brand` is among the compatible brands.
    pub fn contains(self, brand: u32) -> (r: bool)
        ensures
            r == self.brands().contains(brand),
    {
        let len = self.bytes.len();
        let n = len / 4;
        let mut i: usize = 0;
        while i < n
            invariant
                n == self.bytes().len() / 4,
                len == self.bytes@.len(),
                n == len / 4,
                self.bytes@ == self.bytes(),
                i <= n,
                forall|j: int| 0 <= j < i ==> self.brands()[j] != brand,
            decreases n - i,
        {
            if read_be32(self.bytes, 4 * i) == brand {
                assert(self.brands()[i as int] == brand);
                return true;
            }
            i = i + 1;
        }
        false
    }
}

} // verus!

verus! {

/// The brands that libheif accepts as a sign of a readable file.
pub open spec fn spec_supported_brand(b: u32) -> bool {
    b == AVIF || b == HEIC || b == HEIX || b == J2KI || b == JPEG || b == MIAF || b == MIF1
        || b == MIF2 || b == MIF3 || b == MSF1 || b == ISOM || b == MP41 || b == MP42
}

/// Whether a brand marks a file that libheif can read.
pub fn supported_brand(b: u32) -> (r: bool)
    ensures
        r == spec_supported_brand(b),
{
    b == AVIF || b == HEIC || b == HEIX || b == J2KI || b == JPEG || b == MIAF || b == MIF1
        || b == MIF2 || b == MIF3 || b == MSF1 || b == ISOM || b == MP41 || b == MP42
}

/// Accepts a file whose major brand or one of whose compatible brands is supported.
pub fn has_compatible_filetype(data: &[u8]) -> (r: Result<(), Error>)
    ensures
        match spec_brand_range(data@) {
            Err(e) => r is Err && r->Err_0.parts() == e,
            Ok((start, end)) => {
                let brands = brand_seq(data@.subrange(start, end));
                let ok = spec_supported_brand(spec_main_brand(data@)) || exists|i: int|
                    0 <= i < brands.len() && spec_supported_brand(#[trigger] brands[i]);
                if ok {
                    r is Ok
                } else {
                    r is Err && r->Err_0.parts() == (2i32, 3001i32, "No supported brands found."@)
                }
            },
        },
{
    let brands = match CompatibleBrands::parse(data) {
        Ok(b) => b,
        Err(e) => return Err(e),
    };
    if supported_brand(main_brand(data)) {
        return Ok(());
    }
    let list = brands.iter();
    let mut i: usize = 0;
    while i < list.len()
        invariant
            list@ == brands.brands(),
            spec_brand_range(data@) is Ok,
            brands.bytes() == data@.subrange(
                spec_brand_range(data@)->Ok_0.0,
                spec_brand_range(data@)->Ok_0.1,
            ),
            i <= list@.len(),
            forall|j: int| 0 <= j < i ==> !spec_supported_brand(#[trigger] list@[j]),
        decreases list.len() - i,
    {
        if supported_brand(list[i]) {
            proof {
                let (start, end) = spec_brand_range(data@)->Ok_0;
                let bs = brand_seq(data@.subrange(start, end));
                assert(bs == list@);
                assert(spec_supported_brand(bs[i as int]));
            }
            return Ok(());
        }
        i = i + 1;
    }
    proof {
        let (start, end) = spec_brand_range(data@)->Ok_0;
        let bs = brand_seq(data@.subrange(start, end));
        assert(bs == list@);
        assert(!(exists|k: int| 0 <= k < bs.len() && spec_supported_brand(#[trigger] bs[k])));
    }
    Err(Error::new(2, 3001, "No supported brands found."))
}

/// Whether the bytes of `data` from `at` on start with `prefix`.
pub open spec fn has_prefix_at(data: Seq<u8>, at: int, prefix: Seq<u8>) -> bool {
    at + prefix.len() <= data.len() && data.subrange(at, at + prefix.len()) == prefix
}

/// Whether the file starts with a JFIF or Exif JPEG header.
pub open spec fn spec_jpeg_header(data: Seq<u8>) -> bool {
    has_prefix_at(data, 0, seq![0xffu8, 0xd8, 0xff, 0xe0, 0, 0x10, 0x4a, 0x46, 0x49, 0x46, 0, 1])
        || (data.len() >= 12 && has_prefix_at(data, 0, seq![0xffu8, 0xd8, 0xff, 0xe1])
        && has_prefix_at(data, 6, seq![0x45u8, 0x78, 0x69, 0x66, 0, 0]))
}

/// Whether the file starts with the PNG signature.
pub open spec fn spec_png_header(data: Seq<u8>) -> bool {
    has_prefix_at(data, 0, seq![0x89u8, 0x50, 0x4e, 0x47, 0x0d, 0x0a, 0x1a, 0x0a])
}

/// The MIME type libheif reports: the major brand decides first, then JPEG and PNG
/// signatures; the empty text when nothing matches.
pub open spec fn spec_mime_type(data: Seq<u8>) -> Seq<char> {
    let b: int = if data.len() >= 12 { be_at(data, 8, 4) as int } else { -1 };
    let m: int = if data.len() >= 16 { be_at(data, 12, 4) as int } else { -1 };
    if b == HEIC || b == HEIX || b == HEIM || b == HEIS {
        "image/heic"@
    } else if b == MIF1 {
        "image/heif"@
    } else if b == HEVC || b == HEVX || b == HEVM || b == HEVS {
        "image/heic-sequence"@
    } else if b == MSF1 {
        "image/heif-sequence"@
    } else if b == AVIF {
        "image/avif"@
    } else if b == AVIS {
        "image/avif-sequence"@
    } else if b == 0x6176_6369 {
        "image/avci"@
    } else if b == 0x6176_6373 {
        "image/avcs"@
    } else if b == J2KI {
        "image/hej2k"@
    } else if b == J2IS {
        "image/j2is"@
    } else if b == MIF3 {
        if m == AVIF {
            "image/avif"@
        } else if m == HEIC || m == HEIX || m == HEIM || m == HEIS {
            "image/heic"@
        } else {
            "image/heif"@
        }
    } else if spec_jpeg_header(data) {
        "image/jpeg"@
    } else if spec_png_header(data) {
        "image/png"@
    } else {
        ""@
    }
}

/// Whether `data` holds `prefix` at `at`.
fn prefix_at(data: &[u8], at: usize, prefix: &[u8]) -> (r: bool)
    ensures
        r == has_prefix_at(data@, at as int, prefix@),
{
    let len = data.len();
    if at > len || prefix.len() > len - at {
        return false;
    }
    let mut i: usize = 0;
    while i < prefix.len()
        invariant
            at + prefix@.len() <= data@.len(),
            len == data@.len(),
            i <= prefix@.len(),
            forall|j: int| 0 <= j < i ==> data@[at + j] == prefix@[j],
        decreases prefix.len() - i,
    {
        if data[at + i] != prefix[i] {
            assert(data@.subrange(at as int, at + prefix@.len())[i as int] != prefix@[i as int]);
            return false;
        }
        i = i + 1;
    }
    assert(data@.subrange(at as int, at + prefix@.len()) =~= prefix@);
    true
}

/// The MIME type of a file, judged from its first bytes.
pub fn mime_type(data: &[u8]) -> (r: &'static str)
    ensures
        r@ == spec_mime_type(data@),
{
    let b: u64 = if data.len() >= 12 { read_be32(data, 8) as u64 } else { u64::MAX };
    let m: u64 = if data.len() >= 16 { read_be32(data, 12) as u64 } else { u64::MAX };
    let bu = b as u32;
    let big = b > 0xffff_ffff;
    let mu = m as u32;
    let mbig = m > 0xffff_ffff;
    if !big && (bu == HEIC || bu == HEIX || bu == HEIM || bu == HEIS) {
        "image/heic"
    } else if !big && bu == MIF1 {
        "image/heif"
    } else if !big && (bu == HEVC || bu == HEVX || bu == HEVM || bu == HEVS) {
        "image/heic-sequence"
    } else if !big && bu == MSF1 {
        "image/heif-sequence"
    } else if !big && bu == AVIF {
        "image/avif"
    } else if !big && bu == 0x6176_6369 {
        "image/avci"
    } else if !big && bu == 0x6176_6373 {
        "image/avcs"
    } else if !big && bu == AVIS {
        "image/avif-sequence"
    } else if !big && bu == J2KI {
        "image/hej2k"
    } else if !big && bu == J2IS {
        "image/j2is"
    } else if !big && bu == MIF3 {
        if !mbig && mu == AVIF {
            "image/avif"
        } else if !mbig && (mu == HEIC || mu == HEIX || mu == HEIM || mu == HEIS) {
            "image/heic"
        } else {
            "image/heif"
        }
    } else if prefix_at(data, 0, &[0xffu8, 0xd8, 0xff, 0xe0, 0, 0x10, 0x4a, 0x46, 0x49, 0x46, 0, 1])
        || (data.len() >= 12 && prefix_at(data, 0, &[0xffu8, 0xd8, 0xff, 0xe1]) && prefix_at(
        data,
        6,
        &[0x45u8, 0x78, 0x69, 0x66, 0, 0],
    )) {
        "image/jpeg"
    } else if prefix_at(data, 0, &[0x89u8, 0x50, 0x4e, 0x47, 0x0d, 0x0a, 0x1a, 0x0a]) {
        "image/png"
    } else {
        ""
    }
}

/// Four bytes read big-endian are their weighted sum.
pub proof fn lemma_be_at_four(data: Seq<u8>, at: int)
    requires
        0 <= at,
        at + 4 <= data.len(),
    ensures
        be_at(data, at, 4) == data[at] * 0x100_0000 + data[at + 1] * 0x1_0000 + data[at + 2] * 0x100 + data[at + 3],
{
    let s = data.subrange(at, at + 4);
    reveal_with_fuel(be_value, 5);
    assert(s.drop_last() =~= data.subrange(at, at + 3));
    assert(s.drop_last().drop_last() =~= data.subrange(at, at + 2));
    assert(s.drop_last().drop_last().drop_last() =~= data.subrange(at, at + 1));
    assert(s.drop_last().drop_last().drop_last().drop_last() =~= Seq::<u8>::empty());
}

/// Whether the four bytes of `data` at `at` spell `a`, `b`, `c`, `d`.
pub open spec fn spells(data: Seq<u8>, at: int, a: char, b: char, c: char, d: char) -> bool {
    &&& data[at] == a as u8
    &&& data[at + 1] == b as u8
    &&& data[at + 2] == c as u8
    &&& data[at + 3] == d as u8
}

/// How a file prefix is classified, in terms of its bytes: too short to
/// hold a box header, undecided; a first box other than `ftyp`, not HEIF;
/// too short to hold the major brand, undecided; major brand `heic`, `heix`,
/// `avif`, `jpeg` or `j2ki`, supported; `mif1` or `mif2`, undecided; any
/// other major brand, unsupported.
pub proof fn lemma_filetype_by_bytes(data: Seq<u8>)
    ensures
        data.len() < 8 ==> spec_check_filetype(data) == FileType::Maybe,
        data.len() >= 8 && !spells(data, 4, 'f', 't', 'y', 'p') ==> spec_check_filetype(data) == FileType::No,
        8 <= data.len() < 12 && spells(data, 4, 'f', 't', 'y', 'p') ==> spec_check_filetype(data) == FileType::Maybe,
        data.len() >= 12 && spells(data, 4, 'f', 't', 'y', 'p') ==> {
            let supported = spells(data, 8, 'h', 'e', 'i', 'c') || spells(data, 8, 'h', 'e', 'i', 'x') || spells(
                data,
                8,
                'a',
                'v',
                'i',
                'f',
            ) || spells(data, 8, 'j', 'p', 'e', 'g') || spells(data, 8, 'j', '2', 'k', 'i');
            let maybe = spells(data, 8, 'm', 'i', 'f', '1') || spells(data, 8, 'm', 'i', 'f', '2');
            &&& supported <==> spec_check_filetype(data) == FileType::Supported
            &&& maybe <==> spec_check_filetype(data) == FileType::Maybe
            &&& !supported && !maybe <==> spec_check_filetype(data) == FileType::Unsupported
        },
{
    if data.len() >= 8 {
        lemma_be_at_four(data, 4);
    }
    if data.len() >= 12 {
        lemma_be_at_four(data, 8);
    }
}

} // verus!
