//! Bounded, borrowed ISO BMFF item parsing: an initial subset of the item
//! model, where unsupported construction methods fail explicitly.
use vstd::prelude::*;
use crate::bytes::{be_at, read_be, read_be32, lemma_be_value_bound, lemma_pow256_values};
use std::collections::BTreeMap;
use vstd::std_specs::iter::IteratorSpec;

verus! {

/// Why a container could not be read.
#[derive(Clone, Copy, Debug, PartialEq, Eq, Structural)]
pub enum ParseError {
    Truncated,
    InvalidSize,
    InvalidField,
    Limit,
    Unsupported,
    MissingItem,
    MissingProperty,
}

/// The fourcc `uuid`.
pub const UUID: u32 = 0x7575_6964;

/// The next box of `data`: its type, header length and total size, or the failure.
pub open spec fn spec_box_frame(data: Seq<u8>) -> Result<(u32, int, int), ParseError> {
    if data.len() < 8 {
        Err(ParseError::Truncated)
    } else {
        let size32 = be_at(data, 0, 4) as int;
        let kind = be_at(data, 4, 4) as u32;
        if size32 == 1 && data.len() < 16 {
            Err(ParseError::Truncated)
        } else {
            let size: int = if size32 == 0 {
                data.len() as int
            } else if size32 == 1 {
                be_at(data, 8, 8) as int
            } else {
                size32
            };
            let header: int = (if size32 == 1 { 16int } else { 8int }) + (if kind == UUID { 16int } else { 0int });
            if data.len() < header {
                Err(ParseError::Truncated)
            } else if size > usize::MAX {
                Err(ParseError::InvalidSize)
            } else if size < header {
                Err(ParseError::InvalidSize)
            } else if size > data.len() {
                Err(ParseError::Truncated)
            } else {
                Ok((kind, header, size))
            }
        }
    }
}

/// The consecutive boxes of `data` (type and body), at most `limit` of them
/// counting the `count` already read.
pub open spec fn spec_boxes(data: Seq<u8>, limit: nat, count: nat) -> Result<Seq<(u32, Seq<u8>)>, ParseError>
    decreases data.len(),
{
    if data.len() == 0 {
        Ok(Seq::empty())
    } else if count >= limit {
        Err(ParseError::Limit)
    } else {
        match spec_box_frame(data) {
            Err(e) => Err(e),
            Ok((kind, header, size)) => if size <= 0 {
                Err(ParseError::InvalidSize)
            } else {
                match spec_boxes(data.subrange(size, data.len() as int), limit, count + 1) {
                    Err(e) => Err(e),
                    Ok(rest) => Ok(seq![(kind, data.subrange(header, size))] + rest),
                }
            },
        }
    }
}

/// A box of the input: its type and its body.
#[derive(Clone, Copy, Debug)]
pub struct BoxView<'a> {
    pub kind: u32,
    pub data: &'a [u8],
}

/// The type and body bytes of each box.
pub open spec fn views(v: Seq<BoxView>) -> Seq<(u32, Seq<u8>)> {
    v.map_values(|b: BoxView| (b.kind, b.data@))
}

/// Reads the frame of the next box.
fn box_frame(data: &[u8]) -> (r: Result<(u32, usize, usize), ParseError>)
    ensures
        match spec_box_frame(data@) {
            Ok((k, h, s)) => r == Ok::<(u32, usize, usize), ParseError>((k, h as usize, s as usize)),
            Err(e) => r == Err::<(u32, usize, usize), ParseError>(e),
        },
{
    if data.len() < 8 {
        return Err(ParseError::Truncated);
    }
    let size32 = read_be32(data, 0);
    let kind = read_be32(data, 4);
    if size32 == 1 && data.len() < 16 {
        return Err(ParseError::Truncated);
    }
    let size: u64 = if size32 == 0 {
        data.len() as u64
    } else if size32 == 1 {
        read_be(data, 8, 8)
    } else {
        size32 as u64
    };
    let header: usize = (if size32 == 1 { 16 } else { 8 }) + (if kind == UUID { 16 } else { 0 });
    if data.len() < header {
        return Err(ParseError::Truncated);
    }
    if size > usize::MAX as u64 {
        return Err(ParseError::InvalidSize);
    }
    let size = size as usize;
    if size < header {
        return Err(ParseError::InvalidSize);
    }
    if size > data.len() {
        return Err(ParseError::Truncated);
    }
    Ok((kind, header, size))
}

/// Splits `data` into at most `limit` consecutive boxes.
pub fn boxes<'a>(data: &'a [u8], limit: usize) -> (r: Result<Vec<BoxView<'a>>, ParseError>)
    ensures
        match spec_boxes(data@, limit as nat, 0) {
            Ok(v) => r is Ok && views(r->Ok_0@) == v,
            Err(e) => r == Err::<Vec<BoxView<'a>>, ParseError>(e),
        },
{
    let mut result: Vec<BoxView<'a>> = Vec::new();
    let mut rest: &'a [u8] = data;
    while rest.len() != 0
        invariant
            spec_boxes(data@, limit as nat, 0) == match spec_boxes(rest@, limit as nat, result@.len() as nat) {
                Ok(t) => Ok(views(result@) + t),
                Err(e) => Err(e),
            },
        decreases rest@.len(),
    {
        if result.len() >= limit {
            return Err(ParseError::Limit);
        }
        let (kind, header, size) = match box_frame(rest) {
            Ok(f) => f,
            Err(e) => return Err(e),
        };
        let ghost before = result@;
        result.push(BoxView { kind, data: &rest[header..size] });
        let next = &rest[size..rest.len()];
        proof {
            assert(views(result@) =~= views(before) + seq![(kind, rest@.subrange(header as int, size as int))]);
            assert(next@ =~= rest@.subrange(size as int, rest@.len() as int));
            match spec_boxes(next@, limit as nat, result@.len() as nat) {
                Ok(t) => {
                    assert(views(before) + (seq![(kind, rest@.subrange(header as int, size as int))] + t)
                        =~= views(result@) + t);
                },
                Err(_) => {},
            }
        }
        rest = next;
    }
    proof {
        assert(views(result@) + Seq::<(u32, Seq<u8>)>::empty() =~= views(result@));
    }
    Ok(result)
}

} // verus!

verus! {

/// The first `n` bytes of `s` and the rest.
pub open spec fn rd_take(s: Seq<u8>, n: int) -> Result<(Seq<u8>, Seq<u8>), ParseError> {
    if n > s.len() { Err(ParseError::Truncated) } else { Ok((s.subrange(0, n), s.subrange(n, s.len() as int))) }
}

/// A big-endian number of `n` bytes (at most eight) and the rest.
pub open spec fn rd_number(s: Seq<u8>, n: int) -> Result<(u64, Seq<u8>), ParseError> {
    if n > 8 {
        Err(ParseError::InvalidField)
    } else if n > s.len() {
        Err(ParseError::Truncated)
    } else {
        Ok((be_at(s, 0, n) as u64, s.subrange(n, s.len() as int)))
    }
}

/// The index of the first zero byte of `s` at or after `i`, or -1.
pub open spec fn zero_from(s: Seq<u8>, i: int) -> int
    decreases s.len() - i,
{
    if i < 0 || i >= s.len() { -1 } else if s[i] == 0 { i } else { zero_from(s, i + 1) }
}

/// A zero-terminated string (without its terminator) and the rest.
pub open spec fn rd_string(s: Seq<u8>) -> Result<(Seq<u8>, Seq<u8>), ParseError> {
    let end = zero_from(s, 0);
    if end < 0 { Err(ParseError::Truncated) } else { Ok((s.subrange(0, end), s.subrange(end + 1, s.len() as int))) }
}

/// A full box's version and flags, and the rest.
pub open spec fn rd_fullbox(s: Seq<u8>) -> Result<(u8, u32, Seq<u8>), ParseError> {
    if s.len() < 4 { Err(ParseError::Truncated) } else { Ok((s[0], be_at(s, 1, 3) as u32, s.subrange(4, s.len() as int))) }
}

/// An item id of two or (`wide`) four bytes, and the rest.
pub open spec fn rd_id(s: Seq<u8>, wide: bool) -> Result<(u32, Seq<u8>), ParseError> {
    match rd_number(s, if wide { 4 } else { 2 }) {
        Ok((v, r)) => Ok((v as u32, r)),
        Err(e) => Err(e),
    }
}

/// A cursor over the bytes of a box body.
pub struct Reader<'a> {
    pub rest: &'a [u8],
}

impl<'a> Reader<'a> {
    /// Takes the next `n` bytes.
    pub fn take(&mut self, n: usize) -> (r: Result<&'a [u8], ParseError>)
        ensures
            match rd_take(old(self).rest@, n as int) {
                Ok((a, b)) => r is Ok && r->Ok_0@ == a && final(self).rest@ == b,
                Err(e) => r == Err::<&'a [u8], ParseError>(e),
            },
    {
        if n > self.rest.len() {
            return Err(ParseError::Truncated);
        }
        let a = vstd::slice::slice_subrange(self.rest, 0, n);
        self.rest = vstd::slice::slice_subrange(self.rest, n, self.rest.len());
        Ok(a)
    }

    /// Reads a big-endian number of `bytes` bytes.
    pub fn number(&mut self, bytes: usize) -> (r: Result<u64, ParseError>)
        ensures
            match rd_number(old(self).rest@, bytes as int) {
                Ok((v, b)) => r == Ok::<u64, ParseError>(v) && final(self).rest@ == b,
                Err(e) => r == Err::<u64, ParseError>(e),
            },
    {
        if bytes > 8 {
            return Err(ParseError::InvalidField);
        }
        if bytes > self.rest.len() {
            return Err(ParseError::Truncated);
        }
        let v = read_be(self.rest, 0, bytes);
        self.rest = vstd::slice::slice_subrange(self.rest, bytes, self.rest.len());
        Ok(v)
    }

    /// Reads a full box's version and flags.
    pub fn fullbox(&mut self) -> (r: Result<(u8, u32), ParseError>)
        ensures
            match rd_fullbox(old(self).rest@) {
                Ok((v, f, b)) => r == Ok::<(u8, u32), ParseError>((v, f)) && final(self).rest@ == b,
                Err(e) => r == Err::<(u8, u32), ParseError>(e),
            },
    {
        if self.rest.len() < 4 {
            return Err(ParseError::Truncated);
        }
        let version = self.rest[0];
        let flags = read_be(self.rest, 1, 3);
        proof {
            lemma_be_value_bound(self.rest@.subrange(1, 4));
            lemma_pow256_values();
        }
        self.rest = vstd::slice::slice_subrange(self.rest, 4, self.rest.len());
        Ok((version, flags as u32))
    }

    /// Reads a zero-terminated string.
    pub fn string(&mut self) -> (r: Result<Vec<u8>, ParseError>)
        ensures
            match rd_string(old(self).rest@) {
                Ok((a, b)) => r is Ok && r->Ok_0@ == a && final(self).rest@ == b,
                Err(e) => r is Err && r->Err_0 == e,
            },
    {
        let mut end: usize = 0;
        while end < self.rest.len() && self.rest[end] != 0
            invariant
                end <= self.rest@.len(),
                zero_from(self.rest@, 0) == zero_from(self.rest@, end as int),
            decreases self.rest@.len() - end,
        {
            end = end + 1;
        }
        if end == self.rest.len() {
            return Err(ParseError::Truncated);
        }
        let a = vstd::slice::slice_to_vec(vstd::slice::slice_subrange(self.rest, 0, end));
        self.rest = vstd::slice::slice_subrange(self.rest, end + 1, self.rest.len());
        Ok(a)
    }

    /// Reads an item id of two or (`wide`) four bytes.
    pub fn id(&mut self, wide: bool) -> (r: Result<u32, ParseError>)
        ensures
            match rd_id(old(self).rest@, wide) {
                Ok((v, b)) => r == Ok::<u32, ParseError>(v) && final(self).rest@ == b,
                Err(e) => r == Err::<u32, ParseError>(e),
            },
    {
        let n: usize = if wide { 4 } else { 2 };
        proof {
            if n <= old(self).rest@.len() {
                lemma_be_value_bound(old(self).rest@.subrange(0, n as int));
                lemma_pow256_values();
            }
        }
        match self.number(n) {
            Ok(v) => Ok(v as u32),
            Err(e) => Err(e),
        }
    }
}

} // verus!

verus! {

pub const MIME: u32 = 0x6d69_6d65;
pub const URI: u32 = 0x7572_6920;
pub const INFE: u32 = 0x696e_6665;

/// An item: its `infe` entry, its property indices, its extents
/// (in `idat`, start, end) and its references by type.
#[derive(Debug)]
pub struct Item {
    pub id: u32,
    pub kind: u32,
    pub hidden: bool,
    pub name: Vec<u8>,
    pub content_type: Vec<u8>,
    pub content_encoding: Vec<u8>,
    pub uri_type: Vec<u8>,
    pub properties: Vec<usize>,
    pub extents: Vec<(bool, usize, usize)>,
    pub references: BTreeMap<u32, Vec<u32>>,
}

/// An item as values.
pub struct ItemView {
    pub id: u32,
    pub kind: u32,
    pub hidden: bool,
    pub name: Seq<u8>,
    pub content_type: Seq<u8>,
    pub content_encoding: Seq<u8>,
    pub uri_type: Seq<u8>,
    pub properties: Seq<usize>,
    pub extents: Seq<(bool, usize, usize)>,
    pub references: Map<u32, Seq<u32>>,
}

impl View for Item {
    type V = ItemView;

    open spec fn view(&self) -> ItemView {
        ItemView {
            id: self.id,
            kind: self.kind,
            hidden: self.hidden,
            name: self.name@,
            content_type: self.content_type@,
            content_encoding: self.content_encoding@,
            uri_type: self.uri_type@,
            properties: self.properties@,
            extents: self.extents@,
            references: self.references@.map_values(|v: Vec<u32>| v@),
        }
    }
}

/// An `infe` entry's version and flags, after checking the version is 2 or 3.
pub open spec fn infe_version(d: Seq<u8>) -> Result<(u8, u32, Seq<u8>), ParseError> {
    match rd_fullbox(d) {
        Err(e) => Err(e),
        Ok((version, flags, r)) => if version != 2 && version != 3 {
            Err(ParseError::Unsupported)
        } else {
            Ok((version, flags, r))
        },
    }
}

/// An `infe` entry's item id and item type, after its zero protection index.
pub open spec fn infe_ids(version: u8, r: Seq<u8>) -> Result<(u32, u32, Seq<u8>), ParseError> {
    match rd_id(r, version == 3) {
        Err(e) => Err(e),
        Ok((id, r1)) => match rd_number(r1, 2) {
            Err(e) => Err(e),
            Ok((protection, r2)) => if protection != 0 {
                Err(ParseError::Unsupported)
            } else {
                match rd_number(r2, 4) {
                    Err(e) => Err(e),
                    Ok((kind, r3)) => Ok((id, kind as u32, r3)),
                }
            },
        },
    }
}

/// A string read where `present`, else empty.
pub open spec fn rd_string_if(present: bool, r: Seq<u8>) -> Result<(Seq<u8>, Seq<u8>), ParseError> {
    if present { rd_string(r) } else { Ok((Seq::empty(), r)) }
}

/// The strings of an `infe` entry after the name: content type and encoding
/// for `mime` items, the URI type for `uri ` items.
pub open spec fn infe_tail(kind: u32, r: Seq<u8>) -> Result<(Seq<u8>, Seq<u8>, Seq<u8>), ParseError> {
    match rd_string_if(kind == MIME, r) {
        Err(e) => Err(e),
        Ok((content_type, r1)) => match rd_string_if(kind == MIME && r1.len() > 0, r1) {
            Err(e) => Err(e),
            Ok((content_encoding, r2)) => match rd_string_if(kind == URI, r2) {
                Err(e) => Err(e),
                Ok((uri_type, _)) => Ok((content_type, content_encoding, uri_type)),
            },
        },
    }
}

/// An item read from an `infe` entry, without properties, extents or references.
pub open spec fn spec_infe(d: Seq<u8>) -> Result<ItemView, ParseError> {
    match infe_version(d) {
        Err(e) => Err(e),
        Ok((version, flags, r)) => match infe_ids(version, r) {
            Err(e) => Err(e),
            Ok((id, kind, r1)) => match rd_string(r1) {
                Err(e) => Err(e),
                Ok((name, r2)) => match infe_tail(kind, r2) {
                    Err(e) => Err(e),
                    Ok((ct, ce, uri)) => Ok(ItemView {
                        id,
                        kind,
                        hidden: flags & 1 != 0,
                        name,
                        content_type: ct,
                        content_encoding: ce,
                        uri_type: uri,
                        properties: Seq::empty(),
                        extents: Seq::empty(),
                        references: Map::empty(),
                    }),
                },
            },
        },
    }
}

/// Reads a string where `present`, else gives an empty one.
fn string_if(r: &mut Reader, present: bool) -> (res: Result<Vec<u8>, ParseError>)
    ensures
        match rd_string_if(present, old(r).rest@) {
            Ok((a, b)) => res is Ok && res->Ok_0@ == a && final(r).rest@ == b,
            Err(e) => res is Err && res->Err_0 == e,
        },
{
    if present { r.string() } else { Ok(Vec::new()) }
}

/// Reads an item from an `infe` entry.
fn parse_infe(data: &[u8]) -> (r: Result<Item, ParseError>)
    ensures
        match spec_infe(data@) {
            Ok(v) => r is Ok && r->Ok_0@ == v,
            Err(e) => r is Err && r->Err_0 == e,
        },
{
    let mut r = Reader { rest: data };
    let (version, flags) = match r.fullbox() {
        Ok(v) => v,
        Err(e) => return Err(e),
    };
    if version != 2 && version != 3 {
        return Err(ParseError::Unsupported);
    }
    let id = match r.id(version == 3) {
        Ok(v) => v,
        Err(e) => return Err(e),
    };
    match r.number(2) {
        Ok(0) => {},
        Ok(_) => return Err(ParseError::Unsupported),
        Err(e) => return Err(e),
    }
    let kind = match r.number(4) {
        Ok(v) => v,
        Err(e) => return Err(e),
    };
    let kind = kind as u32;
    let name = match r.string() {
        Ok(v) => v,
        Err(e) => return Err(e),
    };
    let content_type = match string_if(&mut r, kind == MIME) {
        Ok(v) => v,
        Err(e) => return Err(e),
    };
    let more = r.rest.len() > 0;
    let content_encoding = match string_if(&mut r, kind == MIME && more) {
        Ok(v) => v,
        Err(e) => return Err(e),
    };
    let uri_type = match string_if(&mut r, kind == URI) {
        Ok(v) => v,
        Err(e) => return Err(e),
    };
    let item = Item {
        id,
        kind,
        hidden: flags & 1 != 0,
        name,
        content_type,
        content_encoding,
        uri_type,
        properties: Vec::new(),
        extents: Vec::new(),
        references: BTreeMap::new(),
    };
    proof {
        assert(item.references@.map_values(|v: Vec<u32>| v@) =~= Map::<u32, Seq<u32>>::empty());
    }
    Ok(item)
}

} // verus!

verus! {

/// The items of a map, as values.
pub open spec fn item_map(m: Map<u32, Item>) -> Map<u32, ItemView> {
    m.map_values(|i: Item| i@)
}

/// The items of the `infe` entries from `i` on, added to `m`; every entry must
/// be an `infe` box and no id may repeat.
pub open spec fn spec_item_infos(m: Map<u32, ItemView>, entries: Seq<(u32, Seq<u8>)>, i: int) -> Result<Map<u32, ItemView>, ParseError>
    decreases entries.len() - i,
{
    if i < 0 || i >= entries.len() {
        Ok(m)
    } else if entries[i].0 != INFE {
        Err(ParseError::InvalidField)
    } else {
        match spec_infe(entries[i].1) {
            Err(e) => Err(e),
            Ok(item) => if m.contains_key(item.id) {
                Err(ParseError::InvalidField)
            } else {
                spec_item_infos(m.insert(item.id, item), entries, i + 1)
            },
        }
    }
}

/// Whether `u32` keys are ordered as `BTreeMap` needs.
pub open spec fn u32_keys_ordered() -> bool {
    vstd::laws_cmp::obeys_cmp::<u32>()
}

/// `u32` keys are ordered as `BTreeMap` needs.
proof fn lemma_u32_ordered()
    ensures
        u32_keys_ordered(),
{
    broadcast use vstd::laws_cmp::group_laws_cmp;
}

/// Reads the items of a list of `infe` entries.
fn parse_item_infos(entries: &Vec<BoxView>) -> (r: Result<BTreeMap<u32, Item>, ParseError>)
    ensures
        match spec_item_infos(Map::empty(), views(entries@), 0) {
            Ok(m) => r is Ok && item_map(r->Ok_0@) == m,
            Err(e) => r is Err && r->Err_0 == e,
        },
{
    proof {
        lemma_u32_ordered();
    }
    let ghost all = views(entries@);
    let mut items: BTreeMap<u32, Item> = BTreeMap::new();
    proof {
        assert(item_map(items@) =~= Map::<u32, ItemView>::empty());
    }
    let mut i: usize = 0;
    while i < entries.len()
        invariant
            u32_keys_ordered(),
            all == views(entries@),
            i <= entries@.len(),
            spec_item_infos(Map::empty(), all, 0) == spec_item_infos(item_map(items@), all, i as int),
        decreases entries@.len() - i,
    {
        let entry = entries[i];
        assert(all[i as int] == (entry.kind, entry.data@));
        if entry.kind != INFE {
            return Err(ParseError::InvalidField);
        }
        let item = match parse_infe(entry.data) {
            Ok(v) => v,
            Err(e) => return Err(e),
        };
        let id = item.id;
        if items.contains_key(&id) {
            return Err(ParseError::InvalidField);
        }
        let ghost before = items@;
        let ghost v = item@;
        items.insert(id, item);
        proof {
            assert(item_map(items@) =~= item_map(before).insert(id, v));
        }
        i = i + 1;
    }
    Ok(items)
}

/// The field sizes of an `iloc` box: offset, length, base offset and extent index.
pub struct LocSizes {
    pub offset: usize,
    pub length: usize,
    pub base: usize,
    pub index: usize,
}

/// The extents of one `iloc` entry from the `n` left to read: each an
/// ignored index, an offset added to `base` and a length, checked for
/// overflow of 64 bits and of the address width.
pub open spec fn spec_extents(r: Seq<u8>, n: int, base: u64, sizes: LocSizes, idat: bool) -> Result<(Seq<(bool, usize, usize)>, Seq<u8>), ParseError>
    decreases n, 1int,
{
    if n <= 0 {
        Ok((Seq::empty(), r))
    } else {
        match rd_number(r, sizes.index as int) {
            Err(e) => Err(e),
            Ok((_, r1)) => match rd_number(r1, sizes.offset as int) {
                Err(e) => Err(e),
                Ok((offset, r2)) => if base + offset > u64::MAX {
                    Err(ParseError::InvalidSize)
                } else {
                    match rd_number(r2, sizes.length as int) {
                        Err(e) => Err(e),
                        Ok((length, r3)) => extent_end(r3, n, base, sizes, idat, base + offset, length),
                    }
                },
            },
        }
    }
}

/// The rest of one extent once its start and length are read.
pub open spec fn extent_end(r: Seq<u8>, n: int, base: u64, sizes: LocSizes, idat: bool, start: int, length: u64) -> Result<(Seq<(bool, usize, usize)>, Seq<u8>), ParseError>
    decreases n, 0int,
{
    if start + length > u64::MAX || start > usize::MAX || start + length > usize::MAX {
        Err(ParseError::InvalidSize)
    } else if n <= 0 {
        Ok((Seq::empty(), r))
    } else {
        match spec_extents(r, n - 1, base, sizes, idat) {
            Err(e) => Err(e),
            Ok((rest, r1)) => Ok((seq![(idat, start as usize, (start + length) as usize)] + rest, r1)),
        }
    }
}

/// An item with more extents.
pub open spec fn with_extents(item: ItemView, e: Seq<(bool, usize, usize)>) -> ItemView {
    ItemView { extents: item.extents + e, ..item }
}

/// The head of one `iloc` entry: item id, construction method (0 or 1), a
/// zero data reference, base offset and extent count (at most 32).
pub open spec fn loc_head(r: Seq<u8>, version: u8, sizes: LocSizes) -> Result<(u32, int, u64, int, Seq<u8>), ParseError> {
    match rd_id(r, version == 2) {
        Err(e) => Err(e),
        Ok((id, r1)) => {
            let c = if version > 0 { rd_number(r1, 2) } else { Ok((0u64, r1)) };
            match c {
                Err(e) => Err(e),
                Ok((construction, r2)) => if construction % 16 > 1 {
                    Err(ParseError::Unsupported)
                } else {
                    loc_base(r2, id, (construction % 16) as int, sizes)
                },
            }
        },
    }
}

/// The rest of an `iloc` entry's head after its construction method.
pub open spec fn loc_base(r: Seq<u8>, id: u32, construction: int, sizes: LocSizes) -> Result<(u32, int, u64, int, Seq<u8>), ParseError> {
    match rd_number(r, 2) {
        Err(e) => Err(e),
        Ok((reference, r1)) => if reference != 0 {
            Err(ParseError::Unsupported)
        } else {
            match rd_number(r1, sizes.base as int) {
                Err(e) => Err(e),
                Ok((base, r2)) => match rd_number(r2, 2) {
                    Err(e) => Err(e),
                    Ok((count, r3)) => if count > 32 {
                        Err(ParseError::Limit)
                    } else {
                        Ok((id, construction, base, count as int, r3))
                    },
                },
            }
        },
    }
}

/// The items and the rest after one `iloc` entry, which adds its extents to an existing item.
pub open spec fn spec_loc_entry(m: Map<u32, ItemView>, r: Seq<u8>, version: u8, sizes: LocSizes) -> Result<(Map<u32, ItemView>, Seq<u8>), ParseError> {
    match loc_head(r, version, sizes) {
        Err(e) => Err(e),
        Ok((id, construction, base, count, r1)) => if !m.contains_key(id) {
            Err(ParseError::MissingItem)
        } else {
            match spec_extents(r1, count, base, sizes, construction == 1) {
                Err(e) => Err(e),
                Ok((e, r2)) => Ok((m.insert(id, with_extents(m[id], e)), r2)),
            }
        },
    }
}

/// The items after the `n` `iloc` entries left in `r`.
pub open spec fn spec_loc_entries(m: Map<u32, ItemView>, r: Seq<u8>, n: int, version: u8, sizes: LocSizes) -> Result<Map<u32, ItemView>, ParseError>
    decreases n,
{
    if n <= 0 {
        Ok(m)
    } else {
        match spec_loc_entry(m, r, version, sizes) {
            Err(e) => Err(e),
            Ok((m1, r1)) => spec_loc_entries(m1, r1, n - 1, version, sizes),
        }
    }
}

/// The items after an `iloc` box: version at most 2, field sizes at most 8,
/// at most 1000 entries.
pub open spec fn spec_locations(m: Map<u32, ItemView>, d: Seq<u8>) -> Result<Map<u32, ItemView>, ParseError> {
    match rd_fullbox(d) {
        Err(e) => Err(e),
        Ok((version, _, r)) => if version > 2 {
            Err(ParseError::Unsupported)
        } else {
            match rd_number(r, 1) {
                Err(e) => Err(e),
                Ok((a, r1)) => match rd_number(r1, 1) {
                    Err(e) => Err(e),
                    Ok((b, r2)) => loc_count(m, r2, version, LocSizes {
                        offset: (a / 16) as usize,
                        length: (a % 16) as usize,
                        base: (b / 16) as usize,
                        index: if version > 0 { (b % 16) as usize } else { 0 },
                    }),
                },
            }
        },
    }
}

/// The entry count of an `iloc` box, then its entries.
pub open spec fn loc_count(m: Map<u32, ItemView>, r: Seq<u8>, version: u8, sizes: LocSizes) -> Result<Map<u32, ItemView>, ParseError> {
    if sizes.offset > 8 || sizes.length > 8 || sizes.base > 8 || sizes.index > 8 {
        Err(ParseError::InvalidField)
    } else {
        match rd_number(r, if version < 2 { 2 } else { 4 }) {
            Err(e) => Err(e),
            Ok((count, r1)) => if count > 1000 {
                Err(ParseError::Limit)
            } else {
                spec_loc_entries(m, r1, count as int, version, sizes)
            },
        }
    }
}

/// `res` with `acc` before the extents it reads.
pub open spec fn after_extents(acc: Seq<(bool, usize, usize)>, res: Result<(Seq<(bool, usize, usize)>, Seq<u8>), ParseError>) -> Result<(Seq<(bool, usize, usize)>, Seq<u8>), ParseError> {
    match res {
        Ok((e, r)) => Ok((acc + e, r)),
        Err(e) => Err(e),
    }
}

/// Reads `n` extents into `out`.
fn read_extents(r: &mut Reader, n: u64, base: u64, sizes: &LocSizes, idat: bool, out: &mut Vec<(bool, usize, usize)>) -> (res: Result<(), ParseError>)
    ensures
        match spec_extents(old(r).rest@, n as int, base, *sizes, idat) {
            Ok((e, rest)) => res is Ok && final(out)@ == old(out)@ + e && final(r).rest@ == rest,
            Err(e) => res is Err && res->Err_0 == e,
        },
{
    let ghost r0 = r.rest@;
    let ghost start = out@;
    let mut i: u64 = 0;
    while i < n
        invariant
            i <= n,
            r0 == old(r).rest@,
            start == old(out)@,
            out@.len() >= start.len(),
            out@.subrange(0, start.len() as int) == start,
            spec_extents(r0, n as int, base, *sizes, idat)
                == after_extents(out@.subrange(start.len() as int, out@.len() as int), spec_extents(r.rest@, n - i, base, *sizes, idat)),
        decreases n - i,
    {
        let ghost acc = out@.subrange(start.len() as int, out@.len() as int);
        let ghost cur = r.rest@;
        if let Err(e) = r.number(sizes.index) {
            assert(spec_extents(cur, n - i, base, *sizes, idat) == Err::<(Seq<(bool, usize, usize)>, Seq<u8>), ParseError>(e));
            return Err(e);
        }
        let ghost cur1 = r.rest@;
        let offset = match r.number(sizes.offset) {
            Ok(v) => v,
            Err(e) => {
                assert(rd_number(cur1, sizes.offset as int) == Err::<(u64, Seq<u8>), ParseError>(e));
                assert(spec_extents(cur, n - i, base, *sizes, idat) == Err::<(Seq<(bool, usize, usize)>, Seq<u8>), ParseError>(e));
                return Err(e);
            },
        };
        if offset > u64::MAX - base {
            return Err(ParseError::InvalidSize);
        }
        let first = base + offset;
        let length = match r.number(sizes.length) {
            Ok(v) => v,
            Err(e) => return Err(e),
        };
        if length > u64::MAX - first || first > usize::MAX as u64 || first + length > usize::MAX as u64 {
            return Err(ParseError::InvalidSize);
        }
        let x = (idat, first as usize, (first + length) as usize);
        out.push(x);
        i = i + 1;
        proof {
            assert(spec_extents(cur, n - i + 1, base, *sizes, idat)
                == after_extents(seq![x], spec_extents(r.rest@, n - i, base, *sizes, idat)));
            assert(out@.subrange(start.len() as int, out@.len() as int) =~= acc + seq![x]);
            assert(out@.subrange(0, start.len() as int) =~= start);
            match spec_extents(r.rest@, n - i, base, *sizes, idat) {
                Ok((t, rr)) => {
                    assert(acc + (seq![x] + t) =~= (acc + seq![x]) + t);
                },
                Err(_) => {},
            }
        }
    }
    proof {
        assert(out@ =~= start + out@.subrange(start.len() as int, out@.len() as int));
        assert(out@.subrange(start.len() as int, out@.len() as int) + Seq::<(bool, usize, usize)>::empty()
            =~= out@.subrange(start.len() as int, out@.len() as int));
    }
    Ok(())
}

/// Reads the head of an `iloc` entry.
fn read_loc_head(r: &mut Reader, version: u8, sizes: &LocSizes) -> (res: Result<(u32, u64, u64, u64), ParseError>)
    ensures
        match loc_head(old(r).rest@, version, *sizes) {
            Ok((id, c, b, n, rest)) => res is Ok && res->Ok_0 == (id, c as u64, b, n as u64) && final(r).rest@ == rest,
            Err(e) => res is Err && res->Err_0 == e,
        },
{
    let id = match r.id(version == 2) {
        Ok(v) => v,
        Err(e) => return Err(e),
    };
    let construction = if version > 0 {
        match r.number(2) {
            Ok(v) => v % 16,
            Err(e) => return Err(e),
        }
    } else {
        0
    };
    if construction > 1 {
        return Err(ParseError::Unsupported);
    }
    match r.number(2) {
        Ok(0) => {},
        Ok(_) => return Err(ParseError::Unsupported),
        Err(e) => return Err(e),
    }
    let base = match r.number(sizes.base) {
        Ok(v) => v,
        Err(e) => return Err(e),
    };
    let count = match r.number(2) {
        Ok(v) => v,
        Err(e) => return Err(e),
    };
    if count > 32 {
        return Err(ParseError::Limit);
    }
    Ok((id, construction, base, count))
}

/// Adds the extents of an `iloc` box to the items.
pub fn parse_locations(items: &mut BTreeMap<u32, Item>, data: &[u8]) -> (r: Result<(), ParseError>)
    ensures
        match spec_locations(item_map(old(items)@), data@) {
            Ok(m) => r is Ok && item_map(final(items)@) == m,
            Err(e) => r is Err && r->Err_0 == e,
        },
{
    proof {
        lemma_u32_ordered();
    }
    let mut r = Reader { rest: data };
    let (version, _) = match r.fullbox() {
        Ok(v) => v,
        Err(e) => return Err(e),
    };
    if version > 2 {
        return Err(ParseError::Unsupported);
    }
    let a = match r.number(1) {
        Ok(v) => v,
        Err(e) => return Err(e),
    };
    let b = match r.number(1) {
        Ok(v) => v,
        Err(e) => return Err(e),
    };
    proof {
        lemma_pow256_values();
        lemma_be_value_bound(data@.subrange(4, 5));
        lemma_be_value_bound(data@.subrange(5, 6));
    }
    let sizes = LocSizes {
        offset: (a / 16) as usize,
        length: (a % 16) as usize,
        base: (b / 16) as usize,
        index: if version > 0 { (b % 16) as usize } else { 0 },
    };
    if sizes.offset > 8 || sizes.length > 8 || sizes.base > 8 || sizes.index > 8 {
        return Err(ParseError::InvalidField);
    }
    let count = match r.number(if version < 2 { 2 } else { 4 }) {
        Ok(v) => v,
        Err(e) => return Err(e),
    };
    if count > 1000 {
        return Err(ParseError::Limit);
    }
    let mut k: u64 = 0;
    while k < count
        invariant
            u32_keys_ordered(),
            k <= count,
            spec_locations(item_map(old(items)@), data@)
                == spec_loc_entries(item_map(items@), r.rest@, count - k, version, sizes),
        decreases count - k,
    {
        match add_loc_entry(items, &mut r, version, &sizes) {
            Ok(()) => {},
            Err(e) => return Err(e),
        }
        k = k + 1;
    }
    Ok(())
}

/// Reads one `iloc` entry and adds its extents to its item.
fn add_loc_entry(items: &mut BTreeMap<u32, Item>, r: &mut Reader, version: u8, sizes: &LocSizes) -> (res: Result<(), ParseError>)
    requires
        u32_keys_ordered(),
    ensures
        match spec_loc_entry(item_map(old(items)@), old(r).rest@, version, *sizes) {
            Ok((m, rest)) => res is Ok && item_map(final(items)@) == m && final(r).rest@ == rest,
            Err(e) => res is Err && res->Err_0 == e,
        },
{
    let (id, construction, base, n) = match read_loc_head(r, version, sizes) {
        Ok(v) => v,
        Err(e) => return Err(e),
    };
    if !items.contains_key(&id) {
        return Err(ParseError::MissingItem);
    }
    let ghost before = items@;
    let mut item = match items.remove(&id) {
        Some(v) => v,
        None => return Err(ParseError::MissingItem),
    };
    let ghost old_item = item@;
    assert(old_item == item_map(before)[id]);
    match read_extents(r, n, base, sizes, construction == 1, &mut item.extents) {
        Ok(()) => {},
        Err(e) => return Err(e),
    }
    let ghost new_item = item@;
    items.insert(id, item);
    proof {
        assert(item_map(items@) =~= item_map(before).insert(id, new_item));
    }
    Ok(())
}

/// The property indices of one `ipma` entry from the `n` left: each of 15
/// (`wide`) or 7 bits, index 0 skipped, the rest 1-based into `count` properties.
pub open spec fn spec_assoc_props(r: Seq<u8>, n: int, wide: bool, count: int) -> Result<(Seq<usize>, Seq<u8>), ParseError>
    decreases n,
{
    if n <= 0 {
        Ok((Seq::empty(), r))
    } else {
        let raw = if wide { rd_number(r, 2) } else { rd_number(r, 1) };
        match raw {
            Err(e) => Err(e),
            Ok((v, r1)) => {
                let index: int = if wide { (v % 0x8000) as int } else { (v % 0x80) as int };
                if index == 0 {
                    spec_assoc_props(r1, n - 1, wide, count)
                } else if index > count {
                    Err(ParseError::MissingProperty)
                } else {
                    match spec_assoc_props(r1, n - 1, wide, count) {
                        Err(e) => Err(e),
                        Ok((rest, r2)) => Ok((seq![(index - 1) as usize] + rest, r2)),
                    }
                }
            },
        }
    }
}

/// An item with more property indices.
pub open spec fn with_properties(item: ItemView, p: Seq<usize>) -> ItemView {
    ItemView { properties: item.properties + p, ..item }
}

/// The items after the `n` `ipma` entries left in `r`.
pub open spec fn spec_assoc_entries(m: Map<u32, ItemView>, r: Seq<u8>, n: int, version: u8, wide: bool, count: int) -> Result<Map<u32, ItemView>, ParseError>
    decreases n,
{
    if n <= 0 {
        Ok(m)
    } else {
        match rd_id(r, version == 1) {
            Err(e) => Err(e),
            Ok((id, r1)) => match rd_number(r1, 1) {
                Err(e) => Err(e),
                Ok((k, r2)) => if !m.contains_key(id) {
                    Err(ParseError::MissingItem)
                } else {
                    match spec_assoc_props(r2, k as int, wide, count) {
                        Err(e) => Err(e),
                        Ok((p, r3)) => spec_assoc_entries(m.insert(id, with_properties(m[id], p)), r3, n - 1, version, wide, count),
                    }
                },
            },
        }
    }
}

/// The items after an `ipma` box over `count` properties.
pub open spec fn spec_associations(m: Map<u32, ItemView>, d: Seq<u8>, count: int) -> Result<Map<u32, ItemView>, ParseError> {
    match rd_fullbox(d) {
        Err(e) => Err(e),
        Ok((version, flags, r)) => if version > 1 {
            Err(ParseError::Unsupported)
        } else {
            match rd_number(r, 4) {
                Err(e) => Err(e),
                Ok((n, r1)) => if n > 1000 {
                    Err(ParseError::Limit)
                } else {
                    spec_assoc_entries(m, r1, n as int, version, flags % 2 == 1, count)
                },
            }
        },
    }
}

/// `res` with `acc` before the values it reads.
pub open spec fn after<T>(acc: Seq<T>, res: Result<(Seq<T>, Seq<u8>), ParseError>) -> Result<(Seq<T>, Seq<u8>), ParseError> {
    match res {
        Ok((e, r)) => Ok((acc + e, r)),
        Err(e) => Err(e),
    }
}

/// Reads the property indices of one `ipma` entry into `out`.
fn read_assoc_props(r: &mut Reader, n: u64, wide: bool, count: usize, out: &mut Vec<usize>) -> (res: Result<(), ParseError>)
    ensures
        match spec_assoc_props(old(r).rest@, n as int, wide, count as int) {
            Ok((p, rest)) => res is Ok && final(out)@ == old(out)@ + p && final(r).rest@ == rest,
            Err(e) => res is Err && res->Err_0 == e,
        },
{
    let ghost r0 = r.rest@;
    let ghost start = out@;
    let mut i: u64 = 0;
    while i < n
        invariant
            i <= n,
            r0 == old(r).rest@,
            start == old(out)@,
            out@.len() >= start.len(),
            out@.subrange(0, start.len() as int) == start,
            spec_assoc_props(r0, n as int, wide, count as int)
                == after(out@.subrange(start.len() as int, out@.len() as int), spec_assoc_props(r.rest@, n - i, wide, count as int)),
        decreases n - i,
    {
        let ghost acc = out@.subrange(start.len() as int, out@.len() as int);
        let ghost cur = r.rest@;
        let raw = if wide { r.number(2) } else { r.number(1) };
        let v = match raw {
            Ok(v) => v,
            Err(e) => {
                assert(spec_assoc_props(cur, n - i, wide, count as int) == Err::<(Seq<usize>, Seq<u8>), ParseError>(e));
                return Err(e);
            },
        };
        let index = if wide { v % 0x8000 } else { v % 0x80 };
        i = i + 1;
        if index != 0 {
            if index > count as u64 {
                return Err(ParseError::MissingProperty);
            }
            let x = (index - 1) as usize;
            out.push(x);
            proof {
                assert(out@.subrange(start.len() as int, out@.len() as int) =~= acc + seq![x]);
                match spec_assoc_props(r.rest@, n - i, wide, count as int) {
                    Ok((t, rr)) => {
                        assert(acc + (seq![x] + t) =~= (acc + seq![x]) + t);
                    },
                    Err(_) => {},
                }
            }
        }
        proof {
            assert(out@.subrange(0, start.len() as int) =~= start);
        }
    }
    proof {
        assert(out@ =~= start + out@.subrange(start.len() as int, out@.len() as int));
        assert(out@.subrange(start.len() as int, out@.len() as int) + Seq::<usize>::empty()
            =~= out@.subrange(start.len() as int, out@.len() as int));
    }
    Ok(())
}

/// Adds the property associations of an `ipma` box over `count` properties to the items.
pub fn parse_associations(items: &mut BTreeMap<u32, Item>, data: &[u8], count: usize) -> (r: Result<(), ParseError>)
    ensures
        match spec_associations(item_map(old(items)@), data@, count as int) {
            Ok(m) => r is Ok && item_map(final(items)@) == m,
            Err(e) => r is Err && r->Err_0 == e,
        },
{
    proof {
        lemma_u32_ordered();
    }
    let mut r = Reader { rest: data };
    let (version, flags) = match r.fullbox() {
        Ok(v) => v,
        Err(e) => return Err(e),
    };
    if version > 1 {
        return Err(ParseError::Unsupported);
    }
    let n = match r.number(4) {
        Ok(v) => v,
        Err(e) => return Err(e),
    };
    if n > 1000 {
        return Err(ParseError::Limit);
    }
    let wide = flags % 2 == 1;
    let mut k: u64 = 0;
    while k < n
        invariant
            u32_keys_ordered(),
            k <= n,
            spec_associations(item_map(old(items)@), data@, count as int)
                == spec_assoc_entries(item_map(items@), r.rest@, n - k, version, wide, count as int),
        decreases n - k,
    {
        let id = match r.id(version == 1) {
            Ok(v) => v,
            Err(e) => return Err(e),
        };
        let m = match r.number(1) {
            Ok(v) => v,
            Err(e) => return Err(e),
        };
        if !items.contains_key(&id) {
            return Err(ParseError::MissingItem);
        }
        let ghost before = items@;
        let mut item = match items.remove(&id) {
            Some(v) => v,
            None => return Err(ParseError::MissingItem),
        };
        assert(item@ == item_map(before)[id]);
        match read_assoc_props(&mut r, m, wide, count, &mut item.properties) {
            Ok(()) => {},
            Err(e) => return Err(e),
        }
        let ghost new_item = item@;
        items.insert(id, item);
        proof {
            assert(item_map(items@) =~= item_map(before).insert(id, new_item));
        }
        k = k + 1;
    }
    Ok(())
}

/// `n` item ids of two or (`wide`) four bytes.
pub open spec fn spec_ids(r: Seq<u8>, n: int, wide: bool) -> Result<(Seq<u32>, Seq<u8>), ParseError>
    decreases n,
{
    if n <= 0 {
        Ok((Seq::empty(), r))
    } else {
        match rd_id(r, wide) {
            Err(e) => Err(e),
            Ok((id, r1)) => match spec_ids(r1, n - 1, wide) {
                Err(e) => Err(e),
                Ok((rest, r2)) => Ok((seq![id] + rest, r2)),
            },
        }
    }
}

/// An item with more references of type `kind`.
pub open spec fn with_references(item: ItemView, kind: u32, ids: Seq<u32>) -> ItemView {
    let before = if item.references.contains_key(kind) { item.references[kind] } else { Seq::empty() };
    ItemView { references: item.references.insert(kind, before + ids), ..item }
}

/// The items after the reference boxes of an `iref` box from `i` on.
pub open spec fn spec_ref_boxes(m: Map<u32, ItemView>, refs: Seq<(u32, Seq<u8>)>, i: int, wide: bool) -> Result<Map<u32, ItemView>, ParseError>
    decreases refs.len() - i,
{
    if i < 0 || i >= refs.len() {
        Ok(m)
    } else {
        match rd_id(refs[i].1, wide) {
            Err(e) => Err(e),
            Ok((from, r1)) => match rd_number(r1, 2) {
                Err(e) => Err(e),
                Ok((n, r2)) => if n > 1000 {
                    Err(ParseError::Limit)
                } else if !m.contains_key(from) {
                    Err(ParseError::MissingItem)
                } else {
                    match spec_ids(r2, n as int, wide) {
                        Err(e) => Err(e),
                        Ok((ids, _)) => spec_ref_boxes(m.insert(from, with_references(m[from], refs[i].0, ids)), refs, i + 1, wide),
                    }
                },
            },
        }
    }
}

/// The items after an `iref` box.
pub open spec fn spec_references(m: Map<u32, ItemView>, d: Seq<u8>) -> Result<Map<u32, ItemView>, ParseError> {
    match rd_fullbox(d) {
        Err(e) => Err(e),
        Ok((version, _, r)) => if version > 1 {
            Err(ParseError::Unsupported)
        } else {
            match spec_boxes(r, 1000, 0) {
                Err(e) => Err(e),
                Ok(refs) => spec_ref_boxes(m, refs, 0, version == 1),
            }
        },
    }
}

/// Reads `n` item ids into `out`.
fn read_ids(r: &mut Reader, n: u64, wide: bool, out: &mut Vec<u32>) -> (res: Result<(), ParseError>)
    ensures
        match spec_ids(old(r).rest@, n as int, wide) {
            Ok((ids, rest)) => res is Ok && final(out)@ == old(out)@ + ids && final(r).rest@ == rest,
            Err(e) => res is Err && res->Err_0 == e,
        },
{
    let ghost r0 = r.rest@;
    let ghost start = out@;
    let mut i: u64 = 0;
    while i < n
        invariant
            i <= n,
            r0 == old(r).rest@,
            start == old(out)@,
            out@.len() >= start.len(),
            out@.subrange(0, start.len() as int) == start,
            spec_ids(r0, n as int, wide) == after(out@.subrange(start.len() as int, out@.len() as int), spec_ids(r.rest@, n - i, wide)),
        decreases n - i,
    {
        let ghost acc = out@.subrange(start.len() as int, out@.len() as int);
        let ghost cur = r.rest@;
        let id = match r.id(wide) {
            Ok(v) => v,
            Err(e) => {
                assert(spec_ids(cur, n - i, wide) == Err::<(Seq<u32>, Seq<u8>), ParseError>(e));
                return Err(e);
            },
        };
        out.push(id);
        i = i + 1;
        proof {
            assert(out@.subrange(start.len() as int, out@.len() as int) =~= acc + seq![id]);
            assert(out@.subrange(0, start.len() as int) =~= start);
            match spec_ids(r.rest@, n - i, wide) {
                Ok((t, rr)) => {
                    assert(acc + (seq![id] + t) =~= (acc + seq![id]) + t);
                },
                Err(_) => {},
            }
        }
    }
    proof {
        assert(out@ =~= start + out@.subrange(start.len() as int, out@.len() as int));
        assert(out@.subrange(start.len() as int, out@.len() as int) + Seq::<u32>::empty()
            =~= out@.subrange(start.len() as int, out@.len() as int));
    }
    Ok(())
}

/// Adds the references of an `iref` box to the items.
pub fn parse_references(items: &mut BTreeMap<u32, Item>, data: &[u8]) -> (r: Result<(), ParseError>)
    ensures
        match spec_references(item_map(old(items)@), data@) {
            Ok(m) => r is Ok && item_map(final(items)@) == m,
            Err(e) => r is Err && r->Err_0 == e,
        },
{
    proof {
        lemma_u32_ordered();
    }
    let mut r = Reader { rest: data };
    let (version, _) = match r.fullbox() {
        Ok(v) => v,
        Err(e) => return Err(e),
    };
    if version > 1 {
        return Err(ParseError::Unsupported);
    }
    let refs = match boxes(r.rest, 1000) {
        Ok(v) => v,
        Err(e) => return Err(e),
    };
    let ghost all = views(refs@);
    let wide = version == 1;
    let mut i: usize = 0;
    while i < refs.len()
        invariant
            u32_keys_ordered(),
            all == views(refs@),
            i <= refs@.len(),
            spec_references(item_map(old(items)@), data@) == spec_ref_boxes(item_map(items@), all, i as int, wide),
        decreases refs@.len() - i,
    {
        let reference = refs[i];
        assert(all[i as int] == (reference.kind, reference.data@));
        let mut rr = Reader { rest: reference.data };
        let from = match rr.id(wide) {
            Ok(v) => v,
            Err(e) => return Err(e),
        };
        let n = match rr.number(2) {
            Ok(v) => v,
            Err(e) => return Err(e),
        };
        if n > 1000 {
            return Err(ParseError::Limit);
        }
        if !items.contains_key(&from) {
            return Err(ParseError::MissingItem);
        }
        let ghost before = items@;
        let mut item = match items.remove(&from) {
            Some(v) => v,
            None => return Err(ParseError::MissingItem),
        };
        let ghost old_item = item@;
        assert(old_item == item_map(before)[from]);
        let kind = reference.kind;
        let ghost refs_before = item.references@;
        let mut list = match item.references.remove(&kind) {
            Some(v) => v,
            None => Vec::new(),
        };
        assert(list@ == (if old_item.references.contains_key(kind) { old_item.references[kind] } else { Seq::<u32>::empty() }));
        match read_ids(&mut rr, n, wide, &mut list) {
            Ok(()) => {},
            Err(e) => return Err(e),
        }
        let ghost list_view = list@;
        item.references.insert(kind, list);
        proof {
            assert(item.references@.map_values(|v: Vec<u32>| v@) =~= old_item.references.insert(kind, list_view));
        }
        let ghost new_item = item@;
        items.insert(from, item);
        proof {
            assert(item_map(items@) =~= item_map(before).insert(from, new_item));
        }
        i = i + 1;
    }
    Ok(())
}

pub const PITM: u32 = 0x7069_746d;
pub const IINF: u32 = 0x6969_6e66;
pub const ILOC: u32 = 0x696c_6f63;
pub const IPRP: u32 = 0x6970_7270;
pub const IPCO: u32 = 0x6970_636f;
pub const IPMA: u32 = 0x6970_6d61;
pub const IREF: u32 = 0x6972_6566;
pub const IDAT: u32 = 0x6964_6174;
pub const FTYP: u32 = 0x6674_7970;
pub const META: u32 = 0x6d65_7461;

/// The body of the first box of type `kind` from `i` on.
pub open spec fn first_child(children: Seq<(u32, Seq<u8>)>, kind: u32, i: int) -> Option<Seq<u8>>
    decreases children.len() - i,
{
    if i < 0 || i >= children.len() {
        None
    } else if children[i].0 == kind {
        Some(children[i].1)
    } else {
        first_child(children, kind, i + 1)
    }
}

/// The items of an `iinf` box: an entry count (at most 1000) that the `infe`
/// boxes after it must match.
pub open spec fn spec_iinf(d: Seq<u8>) -> Result<Map<u32, ItemView>, ParseError> {
    match rd_fullbox(d) {
        Err(e) => Err(e),
        Ok((version, _, r)) => match rd_number(r, if version == 0 { 2 } else { 4 }) {
            Err(e) => Err(e),
            Ok((count, r1)) => if count > 1000 {
                Err(ParseError::Limit)
            } else {
                match spec_boxes(r1, 1000, 0) {
                    Err(e) => Err(e),
                    Ok(entries) => if entries.len() != count {
                        Err(ParseError::InvalidField)
                    } else {
                        spec_item_infos(Map::empty(), entries, 0)
                    },
                }
            },
        },
    }
}

/// The items after the `ipma` boxes among `children` from `i` on.
pub open spec fn spec_ipma_all(m: Map<u32, ItemView>, children: Seq<(u32, Seq<u8>)>, i: int, count: int) -> Result<Map<u32, ItemView>, ParseError>
    decreases children.len() - i,
{
    if i < 0 || i >= children.len() {
        Ok(m)
    } else if children[i].0 != IPMA {
        spec_ipma_all(m, children, i + 1, count)
    } else {
        match spec_associations(m, children[i].1, count) {
            Err(e) => Err(e),
            Ok(m1) => spec_ipma_all(m1, children, i + 1, count),
        }
    }
}

/// The parsed metadata: the `idat` body, the primary item, the items and the properties.
pub struct MetaView {
    pub idat: Option<Seq<u8>>,
    pub primary: u32,
    pub items: Map<u32, ItemView>,
    pub properties: Seq<(u32, Seq<u8>)>,
}

/// The metadata once the references (`iref`, where present) are read.
pub open spec fn meta_references(ch: Seq<(u32, Seq<u8>)>, primary: u32, m: Map<u32, ItemView>, props: Seq<(u32, Seq<u8>)>) -> Result<MetaView, ParseError> {
    let refs = match first_child(ch, IREF, 0) {
        None => Ok(m),
        Some(d) => spec_references(m, d),
    };
    match refs {
        Err(e) => Err(e),
        Ok(m1) => Ok(MetaView { idat: first_child(ch, IDAT, 0), primary, items: m1, properties: props }),
    }
}

/// The items and properties after an `iprp` body: its `ipco` boxes and the
/// associations of its `ipma` boxes.
pub open spec fn spec_iprp(m: Map<u32, ItemView>, d: Seq<u8>) -> Result<(Map<u32, ItemView>, Seq<(u32, Seq<u8>)>), ParseError> {
    match spec_boxes(d, 100, 0) {
        Err(e) => Err(e),
        Ok(pc) => match first_child(pc, IPCO, 0) {
            None => Err(ParseError::MissingProperty),
            Some(ipco) => match spec_boxes(ipco, 1000, 0) {
                Err(e) => Err(e),
                Ok(props) => match spec_ipma_all(m, pc, 0, props.len() as int) {
                    Err(e) => Err(e),
                    Ok(m1) => Ok((m1, props)),
                },
            },
        },
    }
}

/// The metadata once the properties (`iprp`, where present) are read.
pub open spec fn meta_properties(ch: Seq<(u32, Seq<u8>)>, primary: u32, m: Map<u32, ItemView>) -> Result<MetaView, ParseError> {
    match first_child(ch, IPRP, 0) {
        None => meta_references(ch, primary, m, Seq::empty()),
        Some(d) => match spec_iprp(m, d) {
            Err(e) => Err(e),
            Ok((m1, props)) => meta_references(ch, primary, m1, props),
        },
    }
}

/// The items (`iinf`) with their locations (`iloc`).
pub open spec fn spec_items(ch: Seq<(u32, Seq<u8>)>) -> Result<Map<u32, ItemView>, ParseError> {
    match first_child(ch, IINF, 0) {
        None => Err(ParseError::MissingProperty),
        Some(d) => match spec_iinf(d) {
            Err(e) => Err(e),
            Ok(m) => match first_child(ch, ILOC, 0) {
                None => Err(ParseError::MissingProperty),
                Some(l) => spec_locations(m, l),
            },
        },
    }
}

/// The metadata once the items are read.
pub open spec fn meta_items(ch: Seq<(u32, Seq<u8>)>, primary: u32) -> Result<MetaView, ParseError> {
    match spec_items(ch) {
        Err(e) => Err(e),
        Ok(m) => meta_properties(ch, primary, m),
    }
}

/// The metadata of a `meta` body: version 0, a `pitm` (version at most 1)
/// naming the primary item, then the items.
pub open spec fn spec_parse_meta(meta: Seq<u8>) -> Result<MetaView, ParseError> {
    match rd_fullbox(meta) {
        Err(e) => Err(e),
        Ok((version, _, r)) => if version != 0 {
            Err(ParseError::Unsupported)
        } else {
            match spec_boxes(r, 100, 0) {
                Err(e) => Err(e),
                Ok(ch) => match first_child(ch, PITM, 0) {
                    None => Err(ParseError::MissingProperty),
                    Some(p) => match rd_fullbox(p) {
                        Err(e) => Err(e),
                        Ok((pv, _, pr)) => if pv > 1 {
                            Err(ParseError::Unsupported)
                        } else {
                            match rd_id(pr, pv == 1) {
                                Err(e) => Err(e),
                                Ok((primary, _)) => meta_items(ch, primary),
                            }
                        },
                    },
                },
            }
        },
    }
}

/// Whether some box of `boxes` has type `kind`.
pub open spec fn has_box(boxes: Seq<(u32, Seq<u8>)>, kind: u32) -> bool {
    exists|i: int| 0 <= i < boxes.len() && #[trigger] boxes[i].0 == kind
}

/// The metadata of a file: its top-level boxes must include `ftyp` and a `meta`.
pub open spec fn spec_parse(data: Seq<u8>) -> Result<MetaView, ParseError> {
    match spec_boxes(data, 100, 0) {
        Err(e) => Err(e),
        Ok(top) => if !has_box(top, FTYP) {
            Err(ParseError::InvalidField)
        } else {
            match first_child(top, META, 0) {
                None => Err(ParseError::MissingItem),
                Some(m) => spec_parse_meta(m),
            }
        },
    }
}

/// An item file: the input, its `idat`, the primary item, the items and the
/// item properties. All slices refer to the input.
#[derive(Debug)]
pub struct Container<'a> {
    pub data: &'a [u8],
    pub idat: Option<&'a [u8]>,
    pub primary: u32,
    pub items: BTreeMap<u32, Item>,
    pub properties: Vec<BoxView<'a>>,
}

/// Finds the body of the first box of type `kind`.
fn find_child<'a>(children: &Vec<BoxView<'a>>, kind: u32) -> (r: Option<&'a [u8]>)
    ensures
        match first_child(views(children@), kind, 0) {
            Some(d) => r is Some && r->Some_0@ == d,
            None => r is None,
        },
{
    let ghost all = views(children@);
    let mut i: usize = 0;
    while i < children.len()
        invariant
            all == views(children@),
            i <= children@.len(),
            first_child(all, kind, 0) == first_child(all, kind, i as int),
        decreases children@.len() - i,
    {
        assert(all[i as int] == (children@[i as int].kind, children@[i as int].data@));
        if children[i].kind == kind {
            return Some(children[i].data);
        }
        i = i + 1;
    }
    None
}

impl<'a> Container<'a> {
    /// The metadata as values.
    pub open spec fn meta_view(&self) -> MetaView {
        MetaView {
            idat: match self.idat { Some(d) => Some(d@), None => None },
            primary: self.primary,
            items: item_map(self.items@),
            properties: views(self.properties@),
        }
    }

    /// Reads a file's `meta` box whose body is `meta`.
    pub fn parse_meta(data: &'a [u8], meta: &'a [u8]) -> (r: Result<Container<'a>, ParseError>)
        ensures
            match spec_parse_meta(meta@) {
                Ok(v) => r is Ok && r->Ok_0.meta_view() == v && r->Ok_0.data@ == data@,
                Err(e) => r is Err && r->Err_0 == e,
            },
            r is Ok ==> r->Ok_0.wf(),
    {
        let mut reader = Reader { rest: meta };
        let (version, _) = match reader.fullbox() {
            Ok(v) => v,
            Err(e) => return Err(e),
        };
        if version != 0 {
            return Err(ParseError::Unsupported);
        }
        let children = match boxes(reader.rest, 100) {
            Ok(v) => v,
            Err(e) => return Err(e),
        };
        let mut primary = match find_child(&children, PITM) {
            Some(p) => Reader { rest: p },
            None => return Err(ParseError::MissingProperty),
        };
        let (pv, _) = match primary.fullbox() {
            Ok(v) => v,
            Err(e) => return Err(e),
        };
        if pv > 1 {
            return Err(ParseError::Unsupported);
        }
        let primary = match primary.id(pv == 1) {
            Ok(v) => v,
            Err(e) => return Err(e),
        };
        let items = match parse_items(&children) {
            Ok(m) => m,
            Err(e) => return Err(e),
        };
        let result = meta_tail(data, &children, primary, items);
        proof {
            if result is Ok {
                lemma_meta_bounded(meta@);
            }
        }
        result
    }

    /// Reads a file: its top-level boxes must include `ftyp` and a `meta`.
    pub fn parse(data: &'a [u8]) -> (r: Result<Container<'a>, ParseError>)
        ensures
            match spec_parse(data@) {
                Ok(v) => r is Ok && r->Ok_0.meta_view() == v && r->Ok_0.data@ == data@,
                Err(e) => r is Err && r->Err_0 == e,
            },
            r is Ok ==> r->Ok_0.wf(),
    {
        let top = match boxes(data, 100) {
            Ok(v) => v,
            Err(e) => return Err(e),
        };
        let ghost t = views(top@);
        let mut found = false;
        let mut i: usize = 0;
        while i < top.len()
            invariant
                t == views(top@),
                i <= top@.len(),
                found <==> exists|j: int| 0 <= j < i && #[trigger] t[j].0 == FTYP,
            decreases top@.len() - i,
        {
            assert(t[i as int].0 == top@[i as int].kind);
            if top[i].kind == FTYP {
                found = true;
            }
            i = i + 1;
        }
        if !found {
            return Err(ParseError::InvalidField);
        }
        match find_child(&top, META) {
            Some(m) => Container::parse_meta(data, m),
            None => Err(ParseError::MissingItem),
        }
    }
}

/// Reads the items of an `iinf` box.
fn parse_iinf(d: &[u8]) -> (r: Result<BTreeMap<u32, Item>, ParseError>)
    ensures
        match spec_iinf(d@) {
            Ok(m) => r is Ok && item_map(r->Ok_0@) == m,
            Err(e) => r is Err && r->Err_0 == e,
        },
{
    let mut info = Reader { rest: d };
    let (version, _) = match info.fullbox() {
        Ok(v) => v,
        Err(e) => return Err(e),
    };
    let count = match info.number(if version == 0 { 2 } else { 4 }) {
        Ok(v) => v,
        Err(e) => return Err(e),
    };
    if count > 1000 {
        return Err(ParseError::Limit);
    }
    let entries = match boxes(info.rest, 1000) {
        Ok(v) => v,
        Err(e) => return Err(e),
    };
    if entries.len() as u64 != count {
        return Err(ParseError::InvalidField);
    }
    parse_item_infos(&entries)
}

/// Reads the associations of every `ipma` box among `children`.
fn parse_all_ipma(items: &mut BTreeMap<u32, Item>, children: &Vec<BoxView>, count: usize) -> (r: Result<(), ParseError>)
    ensures
        match spec_ipma_all(item_map(old(items)@), views(children@), 0, count as int) {
            Ok(m) => r is Ok && item_map(final(items)@) == m,
            Err(e) => r is Err && r->Err_0 == e,
        },
{
    let ghost all = views(children@);
    let mut i: usize = 0;
    while i < children.len()
        invariant
            all == views(children@),
            i <= children@.len(),
            spec_ipma_all(item_map(old(items)@), all, 0, count as int) == spec_ipma_all(item_map(items@), all, i as int, count as int),
        decreases children@.len() - i,
    {
        assert(all[i as int] == (children@[i as int].kind, children@[i as int].data@));
        if children[i].kind == IPMA {
            match parse_associations(items, children[i].data, count) {
                Ok(()) => {},
                Err(e) => return Err(e),
            }
        }
        i = i + 1;
    }
    Ok(())
}

/// Reads the items (`iinf`) and their locations (`iloc`) among the `meta` children.
fn parse_items(children: &Vec<BoxView>) -> (r: Result<BTreeMap<u32, Item>, ParseError>)
    ensures
        match spec_items(views(children@)) {
            Ok(m) => r is Ok && item_map(r->Ok_0@) == m,
            Err(e) => r is Err && r->Err_0 == e,
        },
{
    let mut items = match find_child(children, IINF) {
        Some(d) => match parse_iinf(d) {
            Ok(m) => m,
            Err(e) => return Err(e),
        },
        None => return Err(ParseError::MissingProperty),
    };
    match find_child(children, ILOC) {
        Some(d) => match parse_locations(&mut items, d) {
            Ok(()) => Ok(items),
            Err(e) => Err(e),
        },
        None => Err(ParseError::MissingProperty),
    }
}

/// Reads an `iprp` body: its `ipco` boxes, and the associations of its `ipma` boxes.
fn read_iprp<'a>(items: &mut BTreeMap<u32, Item>, d: &'a [u8]) -> (r: Result<Vec<BoxView<'a>>, ParseError>)
    ensures
        match spec_iprp(item_map(old(items)@), d@) {
            Ok((m, p)) => r is Ok && item_map(final(items)@) == m && views(r->Ok_0@) == p,
            Err(e) => r is Err && r->Err_0 == e,
        },
{
    let pc = match boxes(d, 100) {
        Ok(v) => v,
        Err(e) => return Err(e),
    };
    let ipco = match find_child(&pc, IPCO) {
        Some(v) => v,
        None => return Err(ParseError::MissingProperty),
    };
    let properties = match boxes(ipco, 1000) {
        Ok(v) => v,
        Err(e) => return Err(e),
    };
    match parse_all_ipma(items, &pc, properties.len()) {
        Ok(()) => Ok(properties),
        Err(e) => Err(e),
    }
}

/// Reads the properties and references of a `meta` box once its items are read.
fn meta_tail<'a>(data: &'a [u8], children: &Vec<BoxView<'a>>, primary: u32, items: BTreeMap<u32, Item>) -> (r: Result<Container<'a>, ParseError>)
    ensures
        match meta_properties(views(children@), primary, item_map(items@)) {
            Ok(v) => r is Ok && r->Ok_0.meta_view() == v && r->Ok_0.data@ == data@,
            Err(e) => r is Err && r->Err_0 == e,
        },
{
    let mut items = items;
    let mut properties: Vec<BoxView<'a>> = Vec::new();
    if let Some(d) = find_child(children, IPRP) {
        properties = match read_iprp(&mut items, d) {
            Ok(v) => v,
            Err(e) => return Err(e),
        };
    }
    proof {
        if first_child(views(children@), IPRP, 0) is None {
            assert(views(properties@) =~= Seq::<(u32, Seq<u8>)>::empty());
        }
    }
    if let Some(d) = find_child(children, IREF) {
        match parse_references(&mut items, d) {
            Ok(()) => {},
            Err(e) => return Err(e),
        }
    }
    let idat = find_child(children, IDAT);
    let result = Container { data, idat, primary, items, properties };
    Ok(result)
}

/// Every property index of every item is below `n`.
pub open spec fn props_below(m: Map<u32, ItemView>, n: int) -> bool {
    forall|id: u32, j: int| #![trigger m[id].properties[j]]
        m.contains_key(id) && 0 <= j < m[id].properties.len() ==> m[id].properties[j] < n
}

/// Inserting an item whose property indices are below `n` keeps every index below `n`.
proof fn lemma_props_insert(m: Map<u32, ItemView>, id: u32, item: ItemView, n: int)
    requires
        props_below(m, n),
        forall|j: int| 0 <= j < item.properties.len() ==> #[trigger] item.properties[j] < n,
    ensures
        props_below(m.insert(id, item), n),
{
    let m1 = m.insert(id, item);
    assert forall|x: u32, j: int| m1.contains_key(x) && 0 <= j < m1[x].properties.len()
        implies #[trigger] m1[x].properties[j] < n by {
        if x == id {
            assert(m1[x] == item);
        } else {
            assert(m1[x] == m[x]);
        }
    }
}

/// Items read from `infe` entries have no properties.
proof fn lemma_infos_bounded(m: Map<u32, ItemView>, entries: Seq<(u32, Seq<u8>)>, i: int, n: int)
    requires
        props_below(m, n),
        spec_item_infos(m, entries, i) is Ok,
    ensures
        props_below(spec_item_infos(m, entries, i)->Ok_0, n),
    decreases entries.len() - i,
{
    if 0 <= i < entries.len() && entries[i].0 == INFE {
        if let Ok(item) = spec_infe(entries[i].1) {
            if !m.contains_key(item.id) {
                let m1 = m.insert(item.id, item);
                lemma_props_insert(m, item.id, item, n);
                lemma_infos_bounded(m1, entries, i + 1, n);
            }
        }
    }
}

/// Locations leave property indices alone.
proof fn lemma_loc_bounded(m: Map<u32, ItemView>, r: Seq<u8>, k: int, version: u8, sizes: LocSizes, n: int)
    requires
        props_below(m, n),
        spec_loc_entries(m, r, k, version, sizes) is Ok,
    ensures
        props_below(spec_loc_entries(m, r, k, version, sizes)->Ok_0, n),
    decreases k,
{
    if k > 0 {
        if let Ok((id, construction, base, count, r1)) = loc_head(r, version, sizes) {
            if m.contains_key(id) {
                if let Ok((e, r2)) = spec_extents(r1, count, base, sizes, construction == 1) {
                    let m1 = m.insert(id, with_extents(m[id], e));
                    assert(with_extents(m[id], e).properties == m[id].properties);
                    lemma_props_insert(m, id, with_extents(m[id], e), n);
                    lemma_loc_bounded(m1, r2, k - 1, version, sizes, n);
                }
            }
        }
    }
}

/// The indices of an `ipma` entry are below the property count.
proof fn lemma_assoc_props_bounded(r: Seq<u8>, k: int, wide: bool, count: int)
    requires
        spec_assoc_props(r, k, wide, count) is Ok,
    ensures
        forall|j: int| 0 <= j < spec_assoc_props(r, k, wide, count)->Ok_0.0.len()
            ==> #[trigger] spec_assoc_props(r, k, wide, count)->Ok_0.0[j] < count,
    decreases k,
{
    if k > 0 {
        let raw = if wide { rd_number(r, 2) } else { rd_number(r, 1) };
        if let Ok((v, r1)) = raw {
            lemma_assoc_props_bounded(r1, k - 1, wide, count);
            let index: int = if wide { (v % 0x8000) as int } else { (v % 0x80) as int };
            if index != 0 && index <= count {
                let rest = spec_assoc_props(r1, k - 1, wide, count)->Ok_0.0;
                assert forall|j: int| 0 <= j < spec_assoc_props(r, k, wide, count)->Ok_0.0.len()
                    implies #[trigger] spec_assoc_props(r, k, wide, count)->Ok_0.0[j] < count by {
                    if j > 0 {
                        assert(spec_assoc_props(r, k, wide, count)->Ok_0.0[j] == rest[j - 1]);
                    }
                }
            }
        }
    }
}

/// Associations keep property indices below the property count.
proof fn lemma_assoc_bounded(m: Map<u32, ItemView>, r: Seq<u8>, k: int, version: u8, wide: bool, count: int)
    requires
        props_below(m, count),
        spec_assoc_entries(m, r, k, version, wide, count) is Ok,
    ensures
        props_below(spec_assoc_entries(m, r, k, version, wide, count)->Ok_0, count),
    decreases k,
{
    if k > 0 {
        if let Ok((id, r1)) = rd_id(r, version == 1) {
            if let Ok((c, r2)) = rd_number(r1, 1) {
                if m.contains_key(id) {
                    if let Ok((p, r3)) = spec_assoc_props(r2, c as int, wide, count) {
                        lemma_assoc_props_bounded(r2, c as int, wide, count);
                        let item = with_properties(m[id], p);
                        let m1 = m.insert(id, item);
                        assert forall|j: int| 0 <= j < item.properties.len() implies #[trigger] item.properties[j] < count by {
                            if j < m[id].properties.len() {
                                assert(item.properties[j] == m[id].properties[j]);
                            } else {
                                assert(item.properties[j] == p[j - m[id].properties.len()]);
                            }
                        }
                        lemma_props_insert(m, id, item, count);
                        lemma_assoc_bounded(m1, r3, k - 1, version, wide, count);
                    }
                }
            }
        }
    }
}

/// Every `ipma` box keeps property indices below the property count.
proof fn lemma_ipma_bounded(m: Map<u32, ItemView>, children: Seq<(u32, Seq<u8>)>, i: int, count: int)
    requires
        props_below(m, count),
        spec_ipma_all(m, children, i, count) is Ok,
    ensures
        props_below(spec_ipma_all(m, children, i, count)->Ok_0, count),
    decreases children.len() - i,
{
    if 0 <= i < children.len() {
        if children[i].0 != IPMA {
            lemma_ipma_bounded(m, children, i + 1, count);
        } else if let Ok(m1) = spec_associations(m, children[i].1, count) {
            if let Ok((version, flags, r)) = rd_fullbox(children[i].1) {
                if let Ok((k, r1)) = rd_number(r, 4) {
                    lemma_assoc_bounded(m, r1, k as int, version, flags % 2 == 1, count);
                }
            }
            lemma_ipma_bounded(m1, children, i + 1, count);
        }
    }
}

/// References leave property indices alone.
proof fn lemma_refs_bounded(m: Map<u32, ItemView>, refs: Seq<(u32, Seq<u8>)>, i: int, wide: bool, n: int)
    requires
        props_below(m, n),
        spec_ref_boxes(m, refs, i, wide) is Ok,
    ensures
        props_below(spec_ref_boxes(m, refs, i, wide)->Ok_0, n),
    decreases refs.len() - i,
{
    if 0 <= i < refs.len() {
        if let Ok((from, r1)) = rd_id(refs[i].1, wide) {
            if let Ok((k, r2)) = rd_number(r1, 2) {
                if k <= 1000 && m.contains_key(from) {
                    if let Ok((ids, _)) = spec_ids(r2, k as int, wide) {
                        let m1 = m.insert(from, with_references(m[from], refs[i].0, ids));
                        assert(with_references(m[from], refs[i].0, ids).properties == m[from].properties);
                        lemma_props_insert(m, from, with_references(m[from], refs[i].0, ids), n);
                        lemma_refs_bounded(m1, refs, i + 1, wide, n);
                    }
                }
            }
        }
    }
}

/// Items with their locations have no properties yet.
proof fn lemma_items_bounded(ch: Seq<(u32, Seq<u8>)>, n: int)
    requires
        spec_items(ch) is Ok,
    ensures
        props_below(spec_items(ch)->Ok_0, n),
{
    let d = first_child(ch, IINF, 0)->Some_0;
    let l = first_child(ch, ILOC, 0)->Some_0;
    let m = spec_iinf(d)->Ok_0;
    if let Ok((version, _, r)) = rd_fullbox(d) {
        if let Ok((count, r1)) = rd_number(r, if version == 0 { 2 } else { 4 }) {
            if let Ok(entries) = spec_boxes(r1, 1000, 0) {
                assert(props_below(Map::<u32, ItemView>::empty(), n));
                lemma_infos_bounded(Map::empty(), entries, 0, n);
            }
        }
    }
    if let Ok((version, _, r)) = rd_fullbox(l) {
        if let Ok((a, r1)) = rd_number(r, 1) {
            if let Ok((b, r2)) = rd_number(r1, 1) {
                let sizes = LocSizes {
                    offset: (a / 16) as usize,
                    length: (a % 16) as usize,
                    base: (b / 16) as usize,
                    index: if version > 0 { (b % 16) as usize } else { 0 },
                };
                if let Ok((count, r3)) = rd_number(r2, if version < 2 { 2 } else { 4 }) {
                    lemma_loc_bounded(m, r3, count as int, version, sizes, n);
                }
            }
        }
    }
}

/// Every property index of parsed metadata names a property.
pub proof fn lemma_meta_bounded(meta: Seq<u8>)
    requires
        spec_parse_meta(meta) is Ok,
    ensures
        props_below(spec_parse_meta(meta)->Ok_0.items, spec_parse_meta(meta)->Ok_0.properties.len() as int),
{
    let r = rd_fullbox(meta)->Ok_0.2;
    let ch = spec_boxes(r, 100, 0)->Ok_0;
    let p = first_child(ch, PITM, 0)->Some_0;
    let (pv, _, pr) = rd_fullbox(p)->Ok_0;
    let primary = rd_id(pr, pv == 1)->Ok_0.0;
    assert(spec_parse_meta(meta) == meta_items(ch, primary));
    let m = spec_items(ch)->Ok_0;
    match first_child(ch, IPRP, 0) {
        None => {
            lemma_items_bounded(ch, 0);
            lemma_meta_refs_bounded(ch, primary, m, Seq::empty());
        },
        Some(d) => {
            let pc = spec_boxes(d, 100, 0)->Ok_0;
            let ipco = first_child(pc, IPCO, 0)->Some_0;
            let props = spec_boxes(ipco, 1000, 0)->Ok_0;
            lemma_items_bounded(ch, props.len() as int);
            lemma_ipma_bounded(m, pc, 0, props.len() as int);
            let m1 = spec_ipma_all(m, pc, 0, props.len() as int)->Ok_0;
            lemma_meta_refs_bounded(ch, primary, m1, props);
        },
    }
}

/// Reading references keeps property indices in range.
proof fn lemma_meta_refs_bounded(ch: Seq<(u32, Seq<u8>)>, primary: u32, m: Map<u32, ItemView>, props: Seq<(u32, Seq<u8>)>)
    requires
        props_below(m, props.len() as int),
        meta_references(ch, primary, m, props) is Ok,
    ensures
        props_below(meta_references(ch, primary, m, props)->Ok_0.items, props.len() as int),
{
    if let Some(d) = first_child(ch, IREF, 0) {
        if let Ok((version, _, r)) = rd_fullbox(d) {
            if let Ok(refs) = spec_boxes(r, 1000, 0) {
                lemma_refs_bounded(m, refs, 0, version == 1, props.len() as int);
            }
        }
    }
}

impl<'a> Container<'a> {
    /// Every property index of every item names a property.
    pub open spec fn wf(&self) -> bool {
        props_below(item_map(self.items@), self.properties@.len() as int)
    }
}

pub const ISPE: u32 = 0x6973_7065;
pub const HVCC: u32 = 0x6876_6343;
pub const HVC1: u32 = 0x6876_6331;

/// The body of the first property of type `kind` among the property indices
/// `idx` from `j` on.
pub open spec fn first_property(props: Seq<(u32, Seq<u8>)>, idx: Seq<usize>, kind: u32, j: int) -> Option<Seq<u8>>
    decreases idx.len() - j,
{
    if j < 0 || j >= idx.len() {
        None
    } else if props[idx[j] as int].0 == kind {
        Some(props[idx[j] as int].1)
    } else {
        first_property(props, idx, kind, j + 1)
    }
}

/// An item's first property of type `kind`.
pub open spec fn spec_property(v: MetaView, id: u32, kind: u32) -> Result<Seq<u8>, ParseError> {
    if !v.items.contains_key(id) {
        Err(ParseError::MissingItem)
    } else {
        match first_property(v.properties, v.items[id].properties, kind, 0) {
            Some(d) => Ok(d),
            None => Err(ParseError::MissingProperty),
        }
    }
}

/// The width and height of an `ispe` body.
pub open spec fn spec_ispe(d: Seq<u8>) -> Result<(u32, u32), ParseError> {
    match rd_fullbox(d) {
        Err(e) => Err(e),
        Ok((_, _, r)) => match rd_number(r, 4) {
            Err(e) => Err(e),
            Ok((w, r1)) => match rd_number(r1, 4) {
                Err(e) => Err(e),
                Ok((h, _)) => Ok((w as u32, h as u32)),
            },
        },
    }
}

impl<'a> Container<'a> {
    /// The body of an item's first property of type `kind`.
    pub fn property(&self, id: u32, kind: u32) -> (r: Result<&'a [u8], ParseError>)
        requires
            self.wf(),
        ensures
            match spec_property(self.meta_view(), id, kind) {
                Ok(d) => r is Ok && r->Ok_0@ == d,
                Err(e) => r == Err::<&'a [u8], ParseError>(e),
            },
    {
        proof {
            lemma_u32_ordered();
        }
        let item = match self.items.get(&id) {
            Some(v) => v,
            None => return Err(ParseError::MissingItem),
        };
        let ghost v = self.meta_view();
        let ghost idx = item.properties@;
        assert(idx == v.items[id].properties);
        let mut j: usize = 0;
        while j < item.properties.len()
            invariant
                v == self.meta_view(),
                idx == item.properties@,
                v.items.contains_key(id),
                idx == v.items[id].properties,
                props_below(v.items, v.properties.len() as int),
                j <= idx.len(),
                first_property(v.properties, idx, kind, 0) == first_property(v.properties, idx, kind, j as int),
            decreases idx.len() - j,
        {
            let i = item.properties[j];
            assert(v.items[id].properties[j as int] < v.properties.len());
            let p = self.properties[i];
            assert(v.properties[i as int] == (p.kind, p.data@));
            if p.kind == kind {
                return Ok(p.data);
            }
            j = j + 1;
        }
        Err(ParseError::MissingProperty)
    }

    /// The type and body of each of an item's properties.
    pub fn properties(&self, id: u32) -> (r: Result<Vec<(u32, &'a [u8])>, ParseError>)
        requires
            self.wf(),
        ensures
            !self.meta_view().items.contains_key(id) ==> r == Err::<Vec<(u32, &'a [u8])>, ParseError>(ParseError::MissingItem),
            self.meta_view().items.contains_key(id) ==> r is Ok
                && r->Ok_0@.len() == self.meta_view().items[id].properties.len()
                && forall|j: int| 0 <= j < r->Ok_0@.len() ==> {
                    let p = self.meta_view().properties[self.meta_view().items[id].properties[j] as int];
                    (#[trigger] r->Ok_0@[j]).0 == p.0 && r->Ok_0@[j].1@ == p.1
                },
    {
        proof {
            lemma_u32_ordered();
        }
        let item = match self.items.get(&id) {
            Some(v) => v,
            None => return Err(ParseError::MissingItem),
        };
        let ghost v = self.meta_view();
        let ghost idx = item.properties@;
        let mut out: Vec<(u32, &'a [u8])> = Vec::new();
        let mut j: usize = 0;
        while j < item.properties.len()
            invariant
                v == self.meta_view(),
                idx == item.properties@,
                v.items.contains_key(id),
                idx == v.items[id].properties,
                props_below(v.items, v.properties.len() as int),
                j <= idx.len(),
                out@.len() == j,
                forall|k: int| 0 <= k < j ==> {
                    let p = v.properties[idx[k] as int];
                    (#[trigger] out@[k]).0 == p.0 && out@[k].1@ == p.1
                },
            decreases idx.len() - j,
        {
            let i = item.properties[j];
            assert(v.items[id].properties[j as int] < v.properties.len());
            let p = self.properties[i];
            assert(v.properties[i as int] == (p.kind, p.data@));
            out.push((p.kind, p.data));
            j = j + 1;
        }
        Ok(out)
    }

    /// An item's width and height from its `ispe` property.
    pub fn dimensions(&self, id: u32) -> (r: Result<(u32, u32), ParseError>)
        requires
            self.wf(),
        ensures
            match spec_property(self.meta_view(), id, ISPE) {
                Err(e) => r == Err::<(u32, u32), ParseError>(e),
                Ok(d) => match spec_ispe(d) {
                    Ok(s) => r == Ok::<(u32, u32), ParseError>(s),
                    Err(e) => r == Err::<(u32, u32), ParseError>(e),
                },
            },
    {
        let mut r = Reader { rest: match self.property(id, ISPE) {
            Ok(d) => d,
            Err(e) => return Err(e),
        } };
        match r.fullbox() {
            Ok(_) => {},
            Err(e) => return Err(e),
        }
        let w = match r.number(4) {
            Ok(v) => v,
            Err(e) => return Err(e),
        };
        let h = match r.number(4) {
            Ok(v) => v,
            Err(e) => return Err(e),
        };
        Ok((w as u32, h as u32))
    }
}

/// The byte count of an extent (none where it ends before it starts).
pub open spec fn extent_len(e: (bool, usize, usize)) -> int {
    if e.1 < e.2 { e.2 - e.1 } else { 0 }
}

/// The byte count of the first `n` extents.
pub open spec fn extents_total(es: Seq<(bool, usize, usize)>, n: int) -> int
    decreases n,
{
    if n <= 0 || n > es.len() { 0 } else { extents_total(es, n - 1) + extent_len(es[n - 1]) }
}

/// The bytes of the first `n` extents, each from `idat` or the file.
pub open spec fn extent_bytes(v: MetaView, data: Seq<u8>, es: Seq<(bool, usize, usize)>, n: int) -> Result<Seq<u8>, ParseError>
    decreases n,
{
    if n <= 0 || n > es.len() {
        Ok(Seq::empty())
    } else {
        match extent_bytes(v, data, es, n - 1) {
            Err(e) => Err(e),
            Ok(before) => {
                let e = es[n - 1];
                if e.0 && v.idat is None {
                    Err(ParseError::MissingItem)
                } else {
                    let source = if e.0 { v.idat->Some_0 } else { data };
                    if e.1 > e.2 || e.2 > source.len() {
                        Err(ParseError::Truncated)
                    } else {
                        Ok(before + source.subrange(e.1 as int, e.2 as int))
                    }
                }
            },
        }
    }
}

/// An item's data: its extents joined, at most 256 MiB in all.
pub open spec fn spec_payload(v: MetaView, data: Seq<u8>, id: u32) -> Result<Seq<u8>, ParseError> {
    if !v.items.contains_key(id) {
        Err(ParseError::MissingItem)
    } else {
        let es = v.items[id].extents;
        let total = extents_total(es, es.len() as int);
        if total > usize::MAX || total > 256 * 1024 * 1024 {
            Err(ParseError::Limit)
        } else {
            extent_bytes(v, data, es, es.len() as int)
        }
    }
}

/// The units of one `hvcC` array: a type byte, a unit count and the units.
pub open spec fn hvcc_array(r: Seq<u8>, nals: Seq<Seq<u8>>) -> Result<(Seq<Seq<u8>>, Seq<u8>), ParseError> {
    match rd_number(r, 1) {
        Err(e) => Err(e),
        Ok((_, r1)) => match rd_number(r1, 2) {
            Err(e) => Err(e),
            Ok((count, r2)) => hvcc_units(r2, count as int, nals),
        },
    }
}

/// The units of the `n` `hvcC` arrays left, each unit with a 16-bit length;
/// at most 65536 units in all.
pub open spec fn hvcc_arrays(r: Seq<u8>, n: int, nals: Seq<Seq<u8>>) -> Result<(Seq<Seq<u8>>, Seq<u8>), ParseError>
    decreases n,
{
    if n <= 0 {
        Ok((nals, r))
    } else {
        match hvcc_array(r, nals) {
            Err(e) => Err(e),
            Ok((nals1, r1)) => hvcc_arrays(r1, n - 1, nals1),
        }
    }
}

/// The `count` units left of one `hvcC` array.
pub open spec fn hvcc_units(r: Seq<u8>, count: int, nals: Seq<Seq<u8>>) -> Result<(Seq<Seq<u8>>, Seq<u8>), ParseError>
    decreases count,
{
    if count <= 0 {
        Ok((nals, r))
    } else {
        match rd_number(r, 2) {
            Err(e) => Err(e),
            Ok((size, r1)) => if nals.len() >= 65536 {
                Err(ParseError::Limit)
            } else {
                match rd_take(r1, size as int) {
                    Err(e) => Err(e),
                    Ok((unit, r2)) => hvcc_units(r2, count - 1, nals.push(unit)),
                }
            },
        }
    }
}

/// One length-prefixed unit of an item's data, after `nals`.
pub open spec fn payload_unit(r: Seq<u8>, length_size: int, nals: Seq<Seq<u8>>) -> Result<(Seq<Seq<u8>>, Seq<u8>), ParseError> {
    match rd_number(r, length_size) {
        Err(e) => Err(e),
        Ok((size, r1)) => if nals.len() >= 65536 {
            Err(ParseError::Limit)
        } else {
            match rd_take(r1, size as int) {
                Err(e) => Err(e),
                Ok((unit, r2)) => Ok((nals.push(unit), r2)),
            }
        },
    }
}

/// The length-prefixed units of an item's data (lengths of one to eight
/// bytes), after `nals`.
pub open spec fn payload_units(r: Seq<u8>, length_size: int, nals: Seq<Seq<u8>>) -> Result<Seq<Seq<u8>>, ParseError>
    decreases r.len(),
{
    if r.len() == 0 || !(1 <= length_size <= 8) {
        Ok(nals)
    } else {
        match payload_unit(r, length_size, nals) {
            Err(e) => Err(e),
            Ok((nals1, r1)) => if r1.len() < r.len() { payload_units(r1, length_size, nals1) } else { Ok(nals1) },
        }
    }
}

/// The units of an item's data after the `hvcC` units.
pub open spec fn nals_with_payload(v: MetaView, data: Seq<u8>, id: u32, nals: Seq<Seq<u8>>, length_size: int) -> Result<Seq<Seq<u8>>, ParseError> {
    match spec_payload(v, data, id) {
        Err(e) => Err(e),
        Ok(p) => payload_units(p, length_size, nals),
    }
}

/// The parameter-set units of an `hvc1` item's `hvcC`, then the units of its data.
pub open spec fn spec_hevc_nals(v: MetaView, data: Seq<u8>, id: u32) -> Result<Seq<Seq<u8>>, ParseError> {
    if !v.items.contains_key(id) {
        Err(ParseError::MissingItem)
    } else if v.items[id].kind != HVC1 {
        Err(ParseError::Unsupported)
    } else {
        match spec_property(v, id, HVCC) {
            Err(e) => Err(e),
            Ok(c) => match rd_take(c, 23) {
                Err(e) => Err(e),
                Ok((h, r)) => if h[0] != 1 {
                    Err(ParseError::Unsupported)
                } else {
                    match hvcc_arrays(r, h[22] as int, Seq::empty()) {
                        Err(e) => Err(e),
                        Ok((nals, _)) => nals_with_payload(v, data, id, nals, (h[21] % 4) as int + 1),
                    }
                },
            },
        }
    }
}

/// The units as values.
pub open spec fn unit_views(v: Seq<Vec<u8>>) -> Seq<Seq<u8>> {
    v.map_values(|u: Vec<u8>| u@)
}

/// Reads the `count` units left of one `hvcC` array into `nals`.
fn read_hvcc_units(r: &mut Reader, count: u64, nals: &mut Vec<Vec<u8>>) -> (res: Result<(), ParseError>)
    ensures
        match hvcc_units(old(r).rest@, count as int, unit_views(old(nals)@)) {
            Ok((u, rest)) => res is Ok && unit_views(final(nals)@) == u && final(r).rest@ == rest,
            Err(e) => res is Err && res->Err_0 == e,
        },
{
    let mut k: u64 = 0;
    while k < count
        invariant
            k <= count,
            hvcc_units(old(r).rest@, count as int, unit_views(old(nals)@))
                == hvcc_units(r.rest@, count - k, unit_views(nals@)),
        decreases count - k,
    {
        let size = match r.number(2) {
            Ok(v) => v,
            Err(e) => return Err(e),
        };
        if nals.len() >= 65536 {
            return Err(ParseError::Limit);
        }
        if size > r.rest.len() as u64 {
            return Err(ParseError::Truncated);
        }
        let unit = match r.take(size as usize) {
            Ok(u) => u,
            Err(e) => return Err(e),
        };
        let ghost before = nals@;
        nals.push(vstd::slice::slice_to_vec(unit));
        proof {
            assert(unit_views(nals@) =~= unit_views(before).push(unit@));
        }
        k = k + 1;
    }
    Ok(())
}

/// A failed prefix of the extents fails the whole.
proof fn lemma_extent_bytes_err(v: MetaView, data: Seq<u8>, es: Seq<(bool, usize, usize)>, a: int, b: int)
    requires
        1 <= a <= b <= es.len(),
        extent_bytes(v, data, es, a) is Err,
    ensures
        extent_bytes(v, data, es, b) == extent_bytes(v, data, es, a),
    decreases b - a,
{
    if a < b {
        lemma_extent_bytes_err(v, data, es, a, b - 1);
    }
}

/// Reads one `hvcC` array into `nals`.
fn read_hvcc_array(r: &mut Reader, nals: &mut Vec<Vec<u8>>) -> (res: Result<(), ParseError>)
    ensures
        match hvcc_array(old(r).rest@, unit_views(old(nals)@)) {
            Ok((u, rest)) => res is Ok && unit_views(final(nals)@) == u && final(r).rest@ == rest,
            Err(e) => res is Err && res->Err_0 == e,
        },
{
    match r.number(1) {
        Ok(_) => {},
        Err(e) => return Err(e),
    }
    let count = match r.number(2) {
        Ok(v) => v,
        Err(e) => return Err(e),
    };
    read_hvcc_units(r, count, nals)
}

/// Reads one length-prefixed unit into `nals`.
fn read_payload_unit(r: &mut Reader, length_size: usize, nals: &mut Vec<Vec<u8>>) -> (res: Result<(), ParseError>)
    ensures
        match payload_unit(old(r).rest@, length_size as int, unit_views(old(nals)@)) {
            Ok((u, rest)) => res is Ok && unit_views(final(nals)@) == u && final(r).rest@ == rest,
            Err(e) => res is Err && res->Err_0 == e,
        },
{
    let size = match r.number(length_size) {
        Ok(v) => v,
        Err(e) => return Err(e),
    };
    if nals.len() >= 65536 {
        return Err(ParseError::Limit);
    }
    if size > r.rest.len() as u64 {
        return Err(ParseError::Truncated);
    }
    let unit = match r.take(size as usize) {
        Ok(u) => u,
        Err(e) => return Err(e),
    };
    let ghost before = nals@;
    nals.push(vstd::slice::slice_to_vec(unit));
    proof {
        assert(unit_views(nals@) =~= unit_views(before).push(unit@));
    }
    Ok(())
}

impl<'a> Container<'a> {
    /// An item's data: its extents from the file or from `idat`, joined.
    pub fn payload(&self, id: u32) -> (r: Result<Vec<u8>, ParseError>)
        ensures
            match spec_payload(self.meta_view(), self.data@, id) {
                Ok(d) => r is Ok && r->Ok_0@ == d,
                Err(e) => r is Err && r->Err_0 == e,
            },
    {
        proof {
            lemma_u32_ordered();
        }
        let item = match self.items.get(&id) {
            Some(v) => v,
            None => return Err(ParseError::MissingItem),
        };
        let ghost v = self.meta_view();
        let ghost es = item.extents@;
        assert(es == v.items[id].extents);
        let mut len: usize = 0;
        let mut j: usize = 0;
        while j < item.extents.len()
            invariant
                v == self.meta_view(),
                v.items.contains_key(id),
                es == v.items[id].extents,
                es == item.extents@,
                j <= es.len(),
                len == extents_total(es, j as int),
            decreases es.len() - j,
        {
            let (_, start, end) = item.extents[j];
            let n = if start < end { end - start } else { 0 };
            assert(extents_total(es, j + 1) == len + n);
            if n > usize::MAX - len {
                proof {
                    lemma_totals_grow(es, j as int + 1, es.len() as int);
                }
                return Err(ParseError::Limit);
            }
            len = len + n;
            j = j + 1;
        }
        if len > 256 * 1024 * 1024 {
            return Err(ParseError::Limit);
        }
        let mut bytes: Vec<u8> = Vec::new();
        let mut j: usize = 0;
        while j < item.extents.len()
            invariant
                v == self.meta_view(),
                v.items.contains_key(id),
                es == v.items[id].extents,
                spec_payload(v, self.data@, id) == extent_bytes(v, self.data@, es, es.len() as int),
                es == item.extents@,
                j <= es.len(),
                extent_bytes(v, self.data@, es, j as int) == Ok::<Seq<u8>, ParseError>(bytes@),
            decreases es.len() - j,
        {
            let (idat, start, end) = item.extents[j];
            let source: &[u8] = if idat {
                match self.idat {
                    Some(d) => d,
                    None => {
                        proof {
                            lemma_extent_bytes_err(v, self.data@, es, j + 1, es.len() as int);
                        }
                        return Err(ParseError::MissingItem);
                    },
                }
            } else {
                self.data
            };
            if start > end || end > source.len() {
                proof {
                    lemma_extent_bytes_err(v, self.data@, es, j + 1, es.len() as int);
                }
                return Err(ParseError::Truncated);
            }
            let mut part = vstd::slice::slice_to_vec(vstd::slice::slice_subrange(source, start, end));
            bytes.append(&mut part);
            j = j + 1;
        }
        Ok(bytes)
    }

    /// The parameter-set and picture units of an `hvc1` item: its `hvcC`
    /// arrays, then the length-prefixed units of its data.
    pub fn hevc_nals(&self, id: u32) -> (r: Result<Vec<Vec<u8>>, ParseError>)
        requires
            self.wf(),
        ensures
            match spec_hevc_nals(self.meta_view(), self.data@, id) {
                Ok(u) => r is Ok && unit_views(r->Ok_0@) == u,
                Err(e) => r is Err && r->Err_0 == e,
            },
    {
        proof {
            lemma_u32_ordered();
        }
        match self.items.get(&id) {
            Some(item) => {
                if item.kind != HVC1 {
                    return Err(ParseError::Unsupported);
                }
            },
            None => return Err(ParseError::MissingItem),
        }
        let mut config = Reader { rest: match self.property(id, HVCC) {
            Ok(d) => d,
            Err(e) => return Err(e),
        } };
        let header = match config.take(23) {
            Ok(h) => h,
            Err(e) => return Err(e),
        };
        if header[0] != 1 {
            return Err(ParseError::Unsupported);
        }
        let length_size = (header[21] % 4) as usize + 1;
        let arrays = header[22];
        let mut nals: Vec<Vec<u8>> = Vec::new();
        proof {
            assert(unit_views(nals@) =~= Seq::<Seq<u8>>::empty());
        }
        let ghost v = self.meta_view();
        let ghost data = self.data@;
        let mut a: u8 = 0;
        while a < arrays
            invariant
                a <= arrays,
                v == self.meta_view(),
                data == self.data@,
                spec_hevc_nals(v, data, id) == match hvcc_arrays(config.rest@, arrays - a, unit_views(nals@)) {
                    Err(e) => Err(e),
                    Ok((n1, _)) => nals_with_payload(v, data, id, n1, length_size as int),
                },
            decreases arrays - a,
        {
            let ghost cur = config.rest@;
            let ghost before = unit_views(nals@);
            match read_hvcc_array(&mut config, &mut nals) {
                Ok(()) => {},
                Err(e) => {
                    assert(hvcc_arrays(cur, arrays - a, before) == Err::<(Seq<Seq<u8>>, Seq<u8>), ParseError>(e));
                    return Err(e);
                },
            }
            a = a + 1;
        }
        let payload = match self.payload(id) {
            Ok(p) => p,
            Err(e) => return Err(e),
        };
        let mut r = Reader { rest: payload.as_slice() };
        while r.rest.len() != 0
            invariant
                1 <= length_size <= 4,
                v == self.meta_view(),
                data == self.data@,
                spec_hevc_nals(v, data, id) == payload_units(r.rest@, length_size as int, unit_views(nals@)),
            decreases r.rest@.len(),
        {
            let ghost before = r.rest@;
            let ghost units = unit_views(nals@);
            match read_payload_unit(&mut r, length_size, &mut nals) {
                Ok(()) => {},
                Err(e) => {
                    assert(payload_units(before, length_size as int, units) == Err::<Seq<Seq<u8>>, ParseError>(e));
                    return Err(e);
                },
            }
            assert(r.rest@.len() < before.len());
        }
        Ok(nals)
    }
}

/// Extent totals grow with the number of extents.
proof fn lemma_totals_grow(es: Seq<(bool, usize, usize)>, a: int, b: int)
    requires
        0 <= a <= b <= es.len(),
    ensures
        extents_total(es, a) <= extents_total(es, b),
    decreases b - a,
{
    if a < b {
        lemma_totals_grow(es, a, b - 1);
    }
}

pub const THMB: u32 = 0x7468_6d62;
pub const AUXL: u32 = 0x6175_786c;

/// Whether an item is a top-level image: shown, neither a thumbnail nor an
/// auxiliary image, and of a coded or derived image type.
pub open spec fn is_top_level(i: ItemView) -> bool {
    &&& !i.hidden
    &&& !i.references.contains_key(THMB)
    &&& !i.references.contains_key(AUXL)
    &&& (i.kind == HVC1 || i.kind == 0x6176_3031 || i.kind == 0x6772_6964 || i.kind == 0x696f_766c
        || i.kind == 0x6964_656e || i.kind == 0x756e_6369 || i.kind == 0x6a70_6567 || i.kind == 0x6a32_6b31
        || i.kind == 0x7676_6331 || i.kind == 0x6176_6331)
}

/// The top-level images among the first `n` items of `s`, in order.
pub open spec fn top_level_of<'b>(s: Seq<(&'b u32, &'b Item)>, n: int) -> Seq<&'b Item>
    decreases n,
{
    if n <= 0 || n > s.len() {
        Seq::empty()
    } else if is_top_level(s[n - 1].1@) {
        top_level_of(s, n - 1).push(s[n - 1].1)
    } else {
        top_level_of(s, n - 1)
    }
}

/// Whether an item is of a coded or derived image type: `hvc1`, `av01`,
/// `grid`, `iovl`, `iden`, `unci`, `jpeg`, `j2k1`, `vvc1` or `avc1`.
pub open spec fn image_kind(kind: u32) -> bool {
    kind == 0x6876_6331 || kind == 0x6176_3031 || kind == 0x6772_6964 || kind == 0x696f_766c || kind == 0x6964_656e
        || kind == 0x756e_6369 || kind == 0x6a70_6567 || kind == 0x6a32_6b31 || kind == 0x7676_6331 || kind
        == 0x6176_6331
}

/// The top-level images among the first `n` items are exactly those items
/// that are shown, of an image type, and refer to nothing by a `thmb`
/// (thumbnail) or an `auxl` (auxiliary image, such as an alpha plane)
/// reference; in their order.
pub proof fn lemma_top_level_images<'b>(s: Seq<(&'b u32, &'b Item)>, n: int)
    requires
        0 <= n <= s.len(),
    ensures
        forall|k: int| 0 <= k < top_level_of(s, n).len() ==> {
            let i = (#[trigger] top_level_of(s, n)[k])@;
            &&& !i.hidden
            &&& !i.references.contains_key(0x7468_6d62u32)
            &&& !i.references.contains_key(0x6175_786cu32)
            &&& image_kind(i.kind)
        },
        forall|j: int| 0 <= j < n ==> {
            let i = (#[trigger] s[j]).1@;
            (!i.hidden && !i.references.contains_key(0x7468_6d62u32) && !i.references.contains_key(0x6175_786cu32)
                && image_kind(i.kind)) <==> top_level_of(s, n).contains(s[j].1)
        } || exists|j2: int| 0 <= j2 < n && j2 != j && s[j2].1 == s[j].1,
        top_level_of(s, n).len() <= n,
    decreases n,
{
    if n > 0 {
        lemma_top_level_images(s, n - 1);
        let prev = top_level_of(s, n - 1);
        let cur = top_level_of(s, n);
        if is_top_level(s[n - 1].1@) {
            assert(cur == prev.push(s[n - 1].1));
            assert forall|k: int| 0 <= k < cur.len() implies {
                let i = (#[trigger] cur[k])@;
                &&& !i.hidden
                &&& !i.references.contains_key(0x7468_6d62u32)
                &&& !i.references.contains_key(0x6175_786cu32)
                &&& image_kind(i.kind)
            } by {
                if k < prev.len() {
                    assert(cur[k] == prev[k]);
                }
            }
        } else {
            assert(cur == prev);
        }
        assert forall|j: int| 0 <= j < n implies {
            let i = (#[trigger] s[j]).1@;
            (!i.hidden && !i.references.contains_key(0x7468_6d62u32) && !i.references.contains_key(0x6175_786cu32)
                && image_kind(i.kind)) <==> cur.contains(s[j].1)
        } || exists|j2: int| 0 <= j2 < n && j2 != j && s[j2].1 == s[j].1 by {
            if !(exists|j2: int| 0 <= j2 < n && j2 != j && s[j2].1 == s[j].1) {
                if j < n - 1 {
                    assert(!(exists|j2: int| 0 <= j2 < n - 1 && j2 != j && s[j2].1 == s[j].1));
                    if is_top_level(s[n - 1].1@) {
                        assert(s[n - 1].1 != s[j].1);
                        assert(cur.contains(s[j].1) ==> prev.contains(s[j].1)) by {
                            if cur.contains(s[j].1) {
                                let k = choose|k: int| 0 <= k < cur.len() && cur[k] == s[j].1;
                                assert(k != prev.len());
                                assert(prev[k] == cur[k]);
                            }
                        }
                        assert(prev.contains(s[j].1) ==> cur.contains(s[j].1)) by {
                            if prev.contains(s[j].1) {
                                let k = choose|k: int| 0 <= k < prev.len() && prev[k] == s[j].1;
                                assert(cur[k] == prev[k]);
                            }
                        }
                    }
                } else {
                    if is_top_level(s[n - 1].1@) {
                        assert(cur[prev.len() as int] == s[j].1);
                    } else {
                        assert(!prev.contains(s[j].1)) by {
                            if prev.contains(s[j].1) {
                                let k = choose|k: int| 0 <= k < prev.len() && prev[k] == s[j].1;
                                assert((prev[k])@ == s[j].1@);
                            }
                        }
                    }
                }
            }
        }
    }
}

/// Whether an item is a top-level image.
fn top_level(item: &Item) -> (r: bool)
    ensures
        r == is_top_level(item@),
{
    proof {
        lemma_u32_ordered();
    }
    let k = item.kind;
    !item.hidden && !item.references.contains_key(&THMB) && !item.references.contains_key(&AUXL)
        && (k == HVC1 || k == 0x6176_3031 || k == 0x6772_6964 || k == 0x696f_766c || k == 0x6964_656e
        || k == 0x756e_6369 || k == 0x6a70_6567 || k == 0x6a32_6b31 || k == 0x7676_6331 || k == 0x6176_6331)
}

impl<'a> Container<'a> {
    /// The top-level images, in item-id order.
    pub fn top_level_images(&self) -> (r: Vec<&Item>)
        ensures
            r@ == top_level_of(self.items.iter().remaining(), self.items@.dom().len() as int),
            forall|k: int| 0 <= k < r@.len() ==> is_top_level((#[trigger] r@[k])@)
                && self.items@.values().contains(*r@[k]),
            forall|k: int| 0 <= k < r@.len() ==> !(#[trigger] r@[k])@.hidden && !r@[k]@.references.contains_key(
                0x6175_786cu32,
            ) && !r@[k]@.references.contains_key(0x7468_6d62u32) && image_kind(r@[k]@.kind),
    {
        proof {
            lemma_u32_ordered();
        }
        let mut out: Vec<&Item> = Vec::new();
        let ghost all = self.items.iter().remaining();
        for kv in it: self.items.iter()
            invariant
                all == self.items.iter().remaining(),
                all == it.seq(),
                out@ == top_level_of(all, it.index()),
                forall|k: int| 0 <= k < out@.len() ==> is_top_level((#[trigger] out@[k])@)
                    && self.items@.values().contains(*out@[k]),
        {
            let (key, item) = kv;
            proof {
                let j = it.index();
                assert(all[j] == kv);
                assert(self.items@.contains_key(*all[j].0) && self.items@[*all[j].0] == *all[j].1);
                assert(self.items@.values().contains(*item));
            }
            if top_level(item) {
                out.push(item);
            }
        }
        proof {
            lemma_top_level_images(all, all.len() as int);
        }
        out
    }
}

} // verus!





