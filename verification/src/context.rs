//! Box headers and bodies, required child boxes and property validation.
use vstd::prelude::*;
use vstd::string::*;
use crate::bytes::{be_at, read_be, read_be32, lemma_be_value_bound, lemma_pow256_values};
use crate::text::{decimal, join_number};
use crate::container::ParseError;

verus! {

/// A failure reported with libheif's code, subcode and message.
#[derive(Debug)]
pub struct ContextError {
    pub code: i32,
    pub subcode: i32,
    pub message: String,
}

impl ContextError {
    /// The code, subcode and message text of a failure.
    pub open spec fn parts(&self) -> (i32, i32, Seq<char>) {
        (self.code, self.subcode, self.message@)
    }

    /// The code and subcode of a failure.
    pub open spec fn codes(&self) -> (i32, i32) {
        (self.code, self.subcode)
    }

    /// A failure with the given code, subcode and text.
    pub fn new(code: i32, subcode: i32, message: &str) -> (r: ContextError)
        ensures
            r.parts() == (code, subcode, message@),
    {
        ContextError { code, subcode, message: message.to_owned() }
    }

    /// A failure with the given code, subcode and owned text.
    pub fn owned(code: i32, subcode: i32, message: String) -> (r: ContextError)
        ensures
            r.parts() == (code, subcode, message@),
    {
        ContextError { code, subcode, message }
    }

    /// An invalid-input failure (code 2) whose text is prefixed with "Invalid input: ".
    pub fn invalid(subcode: i32, description: &str) -> (r: ContextError)
        ensures
            r.parts() == (2i32, subcode, "Invalid input: "@ + description@),
    {
        ContextError { code: 2, subcode, message: join_text("Invalid input: ", description) }
    }

    /// The end-of-data failure.
    pub fn truncated() -> (r: ContextError)
        ensures
            r.parts() == (2i32, 100i32, "Invalid input: "@ + "Unexpected end of file"@),
    {
        ContextError::invalid(100, "Unexpected end of file")
    }

    /// The failure reported for a container parse failure.
    pub fn from_parse(e: ParseError) -> (r: ContextError)
        ensures
            r.parts() == parse_failure_parts(e),
    {
        match e {
            ParseError::Truncated => ContextError::truncated(),
            ParseError::Limit => ContextError::new(6, 1000, "Memory allocation error: Security limit exceeded"),
            ParseError::Unsupported => ContextError::new(4, 3000, "Unsupported feature: Unsupported data version"),
            ParseError::InvalidSize => ContextError::invalid(101, "Invalid box size"),
            _ => ContextError::invalid(0, "Unspecified"),
        }
    }
}

/// The code, subcode and text reported for a container parse failure.
pub open spec fn parse_failure_parts(e: ParseError) -> (i32, i32, Seq<char>) {
    match e {
        ParseError::Truncated => (2i32, 100i32, "Invalid input: "@ + "Unexpected end of file"@),
        ParseError::Limit => (6i32, 1000i32, "Memory allocation error: Security limit exceeded"@),
        ParseError::Unsupported => (4i32, 3000i32, "Unsupported feature: Unsupported data version"@),
        ParseError::InvalidSize => (2i32, 101i32, "Invalid input: "@ + "Invalid box size"@),
        _ => (2i32, 0i32, "Invalid input: "@ + "Unspecified"@),
    }
}

/// Two texts joined.
pub fn join_text(a: &str, b: &str) -> (r: String)
    ensures
        r@ == a@ + b@,
{
    let mut r = String::from_str(a);
    r.append(b);
    r
}

/// The end-of-data failure as a value.
pub open spec fn truncated_parts() -> (i32, i32, Seq<char>) {
    (2i32, 100i32, "Invalid input: "@ + "Unexpected end of file"@)
}

/// A parsed box header: type, declared size (0: to the end) and header length.
#[derive(Clone, Copy)]
pub struct Header {
    pub kind: u32,
    pub size: u64,
    pub header: usize,
}

/// The fourcc `uuid`.
pub const UUID: u32 = 0x7575_6964;

/// The header of the box at the start of `data`.
pub open spec fn spec_header(data: Seq<u8>) -> Result<Header, (i32, i32)> {
    if data.len() < 8 {
        Err((2, 100))
    } else {
        let size32 = be_at(data, 0, 4);
        let kind = be_at(data, 4, 4) as u32;
        if size32 == 1 && data.len() < 16 {
            Err((2, 100))
        } else if size32 == 1 && be_at(data, 8, 8) > 0x0fff_ffff_ffff_ffff {
            Err((6, 1000))
        } else {
            let size: u64 = if size32 == 1 { be_at(data, 8, 8) as u64 } else { size32 as u64 };
            let n: int = (if size32 == 1 { 16int } else { 8int }) + (if kind == UUID { 16int } else { 0int });
            if data.len() < n {
                Err((2, 100))
            } else {
                Ok(Header { kind, size, header: n as usize })
            }
        }
    }
}

/// Reads the header of the box at the start of `data`.
pub fn header(data: &[u8]) -> (r: Result<Header, ContextError>)
    ensures
        match spec_header(data@) {
            Ok(h) => r is Ok && r->Ok_0 == h,
            Err(c) => r is Err && r->Err_0.codes() == c,
        },
        r is Err && r->Err_0.subcode == 100 ==> r->Err_0.parts() == truncated_parts(),
{
    if data.len() < 8 {
        return Err(ContextError::truncated());
    }
    let size32 = read_be32(data, 0);
    let kind = read_be32(data, 4);
    let mut size = size32 as u64;
    let mut n: usize = 8;
    if size32 == 1 {
        if data.len() < 16 {
            return Err(ContextError::truncated());
        }
        size = read_be(data, 8, 8);
        n = 16;
        if size > 0x0fff_ffff_ffff_ffff {
            let m = join_number("Memory allocation error: Security limit exceeded: Box size ", size,
                " exceeds security limit.");
            return Err(ContextError::owned(6, 1000, m));
        }
    }
    if kind == UUID {
        n = n + 16;
    }
    if data.len() < n {
        return Err(ContextError::truncated());
    }
    Ok(Header { kind, size, header: n })
}

/// The body of the box whose header `h` starts `data`: the bytes between the
/// header and the declared size (or the end, for size 0).
pub open spec fn spec_body(data: Seq<u8>, h: Header) -> Result<(int, int), (i32, i32)> {
    let size: int = if h.size == 0 { data.len() as int } else { h.size as int };
    if h.size != 0 && h.size > usize::MAX {
        Err((2, 100))
    } else if size < h.header {
        Err((2, 101))
    } else if size > data.len() {
        Err((2, 100))
    } else {
        Ok((h.header as int, size))
    }
}

/// The body of a box, checked against the available bytes.
pub fn body<'a>(data: &'a [u8], h: Header) -> (r: Result<&'a [u8], ContextError>)
    ensures
        match spec_body(data@, h) {
            Ok((a, b)) => r is Ok && r->Ok_0@ == data@.subrange(a, b),
            Err(c) => r is Err && r->Err_0.codes() == c,
        },
        r is Err && r->Err_0.subcode == 100 ==> r->Err_0.parts() == truncated_parts(),
{
    let size: usize = if h.size == 0 {
        data.len()
    } else {
        if h.size > usize::MAX as u64 {
            return Err(ContextError::truncated());
        }
        h.size as usize
    };
    if size < h.header {
        let first = join_number("Invalid box size: Box size (", size as u64, " bytes) smaller than header size (");
        let m = join_number(first.as_str(), h.header as u64, " bytes)");
        return Err(ContextError::invalid(101, m.as_str()));
    }
    if size > data.len() {
        return Err(ContextError::truncated());
    }
    Ok(&data[h.header..size])
}

} // verus!

verus! {

/// The child boxes of `data`, each as its type and body, or the first failure.
pub open spec fn spec_children(data: Seq<u8>) -> Result<Seq<(u32, Seq<u8>)>, (i32, i32)>
    decreases data.len(),
{
    if data.len() == 0 {
        Ok(Seq::empty())
    } else {
        match spec_header(data) {
            Err(c) => Err(c),
            Ok(h) => match spec_body(data, h) {
                Err(c) => Err(c),
                Ok((a, b)) => if b <= 0 {
                    Err((0, 0))
                } else {
                    match spec_children(data.subrange(b, data.len() as int)) {
                        Err(c) => Err(c),
                        Ok(rest) => Ok(seq![(h.kind, data.subrange(a, b))] + rest),
                    }
                },
            },
        }
    }
}

/// The type and body bytes of each box in a list.
pub open spec fn boxes_view(v: Seq<(u32, &[u8])>) -> Seq<(u32, Seq<u8>)> {
    v.map_values(|e: (u32, &[u8])| (e.0, e.1@))
}

/// Splits `data` into consecutive boxes.
pub fn children<'a>(data: &'a [u8]) -> (r: Result<Vec<(u32, &'a [u8])>, ContextError>)
    ensures
        match spec_children(data@) {
            Ok(v) => r is Ok && boxes_view(r->Ok_0@) == v,
            Err(c) => r is Err && r->Err_0.codes() == c,
        },
{
    let mut out: Vec<(u32, &'a [u8])> = Vec::new();
    let mut rest: &'a [u8] = data;
    while rest.len() != 0
        invariant
            spec_children(data@) == match spec_children(rest@) {
                Ok(t) => Ok(boxes_view(out@) + t),
                Err(c) => Err(c),
            },
        decreases rest@.len(),
    {
        let h = match header(rest) {
            Ok(h) => h,
            Err(e) => return Err(e),
        };
        let b = match body(rest, h) {
            Ok(b) => b,
            Err(e) => return Err(e),
        };
        let end = h.header + b.len();
        let ghost before = out@;
        out.push((h.kind, b));
        proof {
            assert(boxes_view(out@) =~= boxes_view(before) + seq![(h.kind, b@)]);
        }
        let next = &rest[end..rest.len()];
        proof {
            let t = spec_children(next@);
            assert(next@ =~= rest@.subrange(end as int, rest@.len() as int));
            match t {
                Ok(t) => {
                    assert(boxes_view(before) + (seq![(h.kind, b@)] + t) =~= boxes_view(out@) + t);
                },
                Err(_) => {},
            }
        }
        rest = next;
    }
    proof {
        assert(boxes_view(out@) + Seq::<(u32, Seq<u8>)>::empty() =~= boxes_view(out@));
    }
    Ok(out)
}

} // verus!

verus! {

/// The index of the first box of type `kind` in a box list.
pub open spec fn first_of_kind(boxes: Seq<(u32, Seq<u8>)>, kind: u32) -> Option<int> {
    if exists|i: int| 0 <= i < boxes.len() && (#[trigger] boxes[i]).0 == kind {
        Some(choose|i: int| 0 <= i < boxes.len() && boxes[i].0 == kind && forall|j: int| 0 <= j < i ==> (#[trigger] boxes[j]).0 != kind)
    } else {
        None
    }
}

/// Whether `i` is the first box of type `kind`.
pub open spec fn is_first_of_kind(boxes: Seq<(u32, Seq<u8>)>, kind: u32, i: int) -> bool {
    0 <= i < boxes.len() && boxes[i].0 == kind && forall|j: int| 0 <= j < i ==> (#[trigger] boxes[j]).0 != kind
}

/// The position of the first box of type `kind`.
pub fn find_kind(boxes: &Vec<(u32, &[u8])>, kind: u32) -> (r: Option<usize>)
    ensures
        match r {
            Some(i) => is_first_of_kind(boxes_view(boxes@), kind, i as int),
            None => forall|j: int| 0 <= j < boxes@.len() ==> (#[trigger] boxes_view(boxes@)[j]).0 != kind,
        },
{
    let mut i: usize = 0;
    while i < boxes.len()
        invariant
            i <= boxes@.len(),
            forall|j: int| 0 <= j < i ==> (#[trigger] boxes_view(boxes@)[j]).0 != kind,
        decreases boxes@.len() - i,
    {
        if boxes[i].0 == kind {
            return Some(i);
        }
        i = i + 1;
    }
    None
}

/// The body of the first box of type `kind`; a failure with `subcode` naming the
/// missing box otherwise.
pub fn required<'a>(boxes: &Vec<(u32, &'a [u8])>, kind: u32, subcode: i32) -> (r: Result<&'a [u8], ContextError>)
    ensures
        match r {
            Ok(b) => exists|i: int| is_first_of_kind(boxes_view(boxes@), kind, i) && b@ == boxes_view(boxes@)[i].1,
            Err(e) => {
                &&& forall|j: int| 0 <= j < boxes@.len() ==> (#[trigger] boxes_view(boxes@)[j]).0 != kind
                &&& e.codes() == (2i32, subcode)
                &&& crate::text::ascii_fourcc(kind) ==> e.message@ == "Invalid input: "@ + ("No '"@ + crate::text::fourcc_chars(kind) + "' box"@)
            },
        },
{
    match find_kind(boxes, kind) {
        Some(i) => Ok(boxes[i].1),
        None => {
            let m = crate::text::join_fourcc("No '", kind, "' box");
            Err(ContextError::invalid(subcode, m.as_str()))
        },
    }
}

/// The fourcc `hdlr`.
pub const HDLR: u32 = 0x6864_6c72;
/// The fourcc `pict`.
pub const PICT: u32 = 0x7069_6374;

/// Whether the first handler box declares picture content.
pub open spec fn spec_has_images(boxes: Seq<(u32, Seq<u8>)>) -> bool {
    exists|i: int| #[trigger] is_first_of_kind(boxes, HDLR, i) && boxes[i].1.len() >= 12 && be_at(boxes[i].1, 8, 4) == PICT
}

/// Whether the `hdlr` box of a `meta` box declares the `pict` handler.
pub fn has_images(boxes: &Vec<(u32, &[u8])>) -> (r: bool)
    ensures
        r == spec_has_images(boxes_view(boxes@)),
{
    match find_kind(boxes, HDLR) {
        Some(i) => {
            let b = boxes[i].1;
            let r = b.len() >= 12 && read_be32(b, 8) == PICT;
            proof {
                if !r {
                    assert forall|k: int| #[trigger] is_first_of_kind(boxes_view(boxes@), HDLR, k) implies k == i by {
                        if k < i {
                            assert(boxes_view(boxes@)[k].0 != HDLR);
                        } else if k > i {
                            assert(boxes_view(boxes@)[i as int].0 != HDLR);
                        }
                    }
                }
            }
            r
        },
        None => false,
    }
}

} // verus!

verus! {

pub const AUXC: u32 = 0x6175_7843;
pub const MSKC: u32 = 0x6d73_6b43;
pub const ISPE: u32 = 0x6973_7065;
pub const HVCC: u32 = 0x6876_6343;
pub const COLR: u32 = 0x636f_6c72;
pub const NCLX: u32 = 0x6e63_6c78;
pub const NCLC: u32 = 0x6e63_6c63;
pub const PROF: u32 = 0x7072_6f66;
pub const RICC: u32 = 0x7249_4343;

/// The structural check of a property body before it is stored: the failure
/// code and subcode, or success.
pub open spec fn spec_validate_property(kind: u32, p: Seq<u8>) -> Result<(), (i32, i32)> {
    if kind == AUXC {
        if p.len() < 4 {
            Err((2, 100))
        } else if p[0] != 0 {
            Err((4, 3002))
        } else {
            Ok(())
        }
    } else if kind == MSKC && p.len() < 5 {
        Err((2, 100))
    } else if kind == ISPE && p.len() < 12 {
        Err((2, 100))
    } else if kind == HVCC {
        if crate::hvcc::hvcc_complete(p) { Ok(()) } else { Err((2, 100)) }
    } else if kind == COLR {
        if p.len() < 4 {
            Err((2, 126))
        } else {
            let t = be_at(p, 0, 4);
            if t == NCLX {
                if p.len() >= 11 { Ok(()) } else { Err((2, 100)) }
            } else if t == NCLC {
                if p.len() >= 10 { Ok(()) } else { Err((2, 100)) }
            } else if t == PROF || t == RICC {
                Ok(())
            } else {
                Err((2, 126))
            }
        }
    } else {
        Ok(())
    }
}

/// Checks that a property body holds what its type requires.
pub fn validate_property(kind: u32, p: &[u8]) -> (r: Result<(), ContextError>)
    ensures
        match spec_validate_property(kind, p@) {
            Ok(()) => r is Ok,
            Err(c) => r is Err && r->Err_0.codes() == c,
        },
        r is Err && r->Err_0.subcode == 100 ==> r->Err_0.parts() == truncated_parts(),
{
    if kind == AUXC {
        if p.len() < 4 {
            return Err(ContextError::truncated());
        }
        if p[0] != 0 {
            let m = join_number("Unsupported feature: Unsupported data version: auxC box data version ",
                p[0] as u64, " is not implemented yet");
            return Err(ContextError::owned(4, 3002, m));
        }
        Ok(())
    } else if kind == MSKC && p.len() < 5 {
        Err(ContextError::truncated())
    } else if kind == ISPE && p.len() < 12 {
        Err(ContextError::truncated())
    } else if kind == HVCC {
        if crate::hvcc::check_hvcc(p) {
            Ok(())
        } else {
            Err(ContextError::truncated())
        }
    } else if kind == COLR {
        if p.len() < 4 {
            return Err(ContextError::invalid(126, "Unknown color profile type"));
        }
        let t = read_be32(p, 0);
        if t == NCLX {
            if p.len() >= 11 { Ok(()) } else { Err(ContextError::truncated()) }
        } else if t == NCLC {
            if p.len() >= 10 { Ok(()) } else { Err(ContextError::truncated()) }
        } else if t == PROF || t == RICC {
            Ok(())
        } else {
            Err(ContextError::invalid(126, "Unknown color profile type"))
        }
    } else {
        Ok(())
    }
}

} // verus!
