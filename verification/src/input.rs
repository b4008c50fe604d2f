//! Retained random-access input: a snapshot of a file's headers and metadata
//! boxes, with the offsets they came from. The reading itself is driven from
//! outside: a reader says which range it needs next and is handed its bytes.
use vstd::prelude::*;
use crate::context::{ContextError, Header, spec_header, header, join_text};
use crate::handle_properties::be4;

verus! {

/// The fourcc `ftyp`.
pub const FTYP: u32 = 0x6674_7970;
/// The fourcc `meta`.
pub const META: u32 = 0x6d65_7461;
/// The fourcc `moov`.
pub const MOOV: u32 = 0x6d6f_6f76;
/// The fourcc `mini`.
pub const MINI: u32 = 0x6d69_6e69;

/// A snapshot of a file: the bytes kept, in regions that each remember the
/// offset in the file they were read from.
pub struct Snapshot {
    pub bytes: Vec<u8>,
    /// Start in `bytes`, offset in the file and length of each region.
    pub regions: Vec<(usize, u64, usize)>,
    pub length: u64,
}

/// Where position `at` of a snapshot lies in the file: the offset of the last
/// region that holds it, plus the distance into that region; `at` itself
/// where no region holds it.
pub open spec fn locate(regions: Seq<(usize, u64, usize)>, at: int) -> int
    decreases regions.len(),
{
    if regions.len() == 0 {
        at
    } else {
        let r = regions.last();
        if r.0 <= at < r.0 + r.2 {
            r.1 + (at - r.0)
        } else {
            locate(regions.drop_last(), at)
        }
    }
}

/// The end of the regions: where the next one starts.
pub open spec fn regions_end(regions: Seq<(usize, u64, usize)>) -> int {
    if regions.len() == 0 { 0 } else { regions.last().0 + regions.last().2 }
}

/// The regions follow each other without gaps from position 0, and each
/// one's file range fits in 64 bits.
pub open spec fn regions_laid_out(regions: Seq<(usize, u64, usize)>) -> bool
    decreases regions.len(),
{
    if regions.len() == 0 {
        true
    } else {
        let r = regions.last();
        &&& regions_laid_out(regions.drop_last())
        &&& r.0 == regions_end(regions.drop_last())
        &&& r.1 + r.2 <= u64::MAX
    }
}

/// The regions with a region for `data`, read at `offset`, added after them.
pub open spec fn with_region(regions: Seq<(usize, u64, usize)>, offset: u64, n: int) -> Seq<(usize, u64, usize)> {
    regions.push((regions_end(regions) as usize, offset, n as usize))
}

impl Snapshot {
    /// The regions of the snapshot: start in `bytes`, offset in the file, length.
    pub open spec fn regions(&self) -> Seq<(usize, u64, usize)> {
        self.regions@
    }

    /// The regions tile the kept bytes, in order.
    pub open spec fn wf(&self) -> bool {
        &&& regions_laid_out(self.regions())
        &&& regions_end(self.regions()) == self.bytes@.len()
    }

    /// An empty snapshot of a file of the given length.
    pub fn empty(length: u64) -> (r: Snapshot)
        ensures
            r.wf(),
            r.bytes@ == Seq::<u8>::empty(),
            r.regions() == Seq::<(usize, u64, usize)>::empty(),
            r.length == length,
    {
        Snapshot { bytes: Vec::new(), regions: Vec::new(), length }
    }

    /// Keeps `data`, read at `offset`, as a new region.
    fn append(&mut self, offset: u64, data: &[u8])
        requires
            old(self).wf(),
            offset + data@.len() <= u64::MAX,
            old(self).bytes@.len() + data@.len() <= usize::MAX,
        ensures
            final(self).wf(),
            final(self).bytes@ == old(self).bytes@ + data@,
            final(self).regions() == with_region(old(self).regions(), offset, data@.len() as int),
            final(self).length == old(self).length,
    {
        let start = self.bytes.len();
        self.regions.push((start, offset, data.len()));
        let ghost b0 = self.bytes@;
        let mut i: usize = 0;
        while i < data.len()
            invariant
                i <= data@.len(),
                self.bytes@ == b0 + data@.subrange(0, i as int),
                self.regions@ == old(self).regions@.push((start, offset, data@.len() as usize)),
                self.length == old(self).length,
                b0 == old(self).bytes@,
                start == b0.len(),
            decreases data@.len() - i,
        {
            self.bytes.push(data[i]);
            assert(data@.subrange(0, i + 1) =~= data@.subrange(0, i as int).push(data@[i as int]));
            i = i + 1;
        }
        assert(data@.subrange(0, data@.len() as int) =~= data@);
        assert(self.regions@.drop_last() =~= old(self).regions@);
    }

    /// Where position `at` of the kept bytes was read from in the file: the
    /// offset of the region that holds it plus the distance into it, or `at`
    /// itself where no region holds it.
    pub fn original_offset(&self, at: usize) -> (r: u64)
        requires
            self.wf(),
        ensures
            r == locate(self.regions(), at as int),
    {
        let mut i: usize = self.regions.len();
        assert(self.regions@.take(i as int) =~= self.regions@);
        while i > 0
            invariant
                i <= self.regions@.len(),
                regions_laid_out(self.regions@.take(i as int)),
                locate(self.regions@.take(i as int), at as int) == locate(self.regions@, at as int),
            decreases i,
        {
            let ghost rs = self.regions@.take(i as int);
            let (start, offset, len) = self.regions[i - 1];
            assert(rs.last() == (start, offset, len));
            assert(rs.drop_last() =~= self.regions@.take(i - 1));
            if start <= at && at - start < len {
                return offset + (at - start) as u64;
            }
            i = i - 1;
        }
        at as u64
    }
}

/// What a snapshot reader is waiting for.
#[derive(Clone, Copy, Debug, PartialEq, Eq, Structural)]
pub enum Stage {
    /// The first 32 bytes (fewer for a shorter file).
    Start,
    /// The whole `ftyp` box, up to `offset`.
    First,
    /// The 32 bytes at `offset` (fewer near the end).
    Prefix,
    /// A whole metadata box at `offset`: the bytes to take, and its declared
    /// size (0: to the end).
    Whole(u64, u64),
    /// Nothing more.
    Finished,
}

/// A reader that builds a snapshot box by box: it asks for a range, is handed
/// its bytes, and decides what to keep and what to ask for next.
pub struct SnapshotReader {
    pub snapshot: Snapshot,
    pub offset: u64,
    pub stage: Stage,
}

/// The range a reader in `stage` at `offset` asks for: offset and size, or
/// none once it has finished.
pub open spec fn spec_request(stage: Stage, offset: u64, length: u64) -> Option<(u64, u64)> {
    match stage {
        Stage::Start => Some((0u64, if length < 32 { length } else { 32u64 })),
        Stage::First => Some((0u64, offset)),
        Stage::Prefix => Some((offset, if length - offset < 32 { (length - offset) as u64 } else { 32u64 })),
        Stage::Whole(take, _) => Some((offset, take)),
        Stage::Finished => None,
    }
}

/// A 32-byte box header whose size field says 32: how a box that is not kept
/// is recorded.
pub open spec fn skipped(prefix: Seq<u8>, declared: u64) -> Seq<u8> {
    if declared != 0 { be4(32) + prefix.subrange(4, prefix.len() as int) } else { prefix }
}

/// Whether an `ftyp` header allows reading on past the first box.
pub open spec fn first_box_ok(h: Header, length: u64) -> bool {
    &&& length >= 32
    &&& h.kind == FTYP
    &&& h.size != 0
    &&& h.size <= 1024
    &&& h.size <= length
    &&& h.size >= h.header
}

/// What follows a box of the given declared size at `offset`: the next
/// offset, or none where the file ends there, the box runs to the end, or the
/// next offset does not fit in 64 bits.
pub open spec fn next_offset(offset: u64, declared: u64, length: u64) -> Option<u64> {
    if declared == 0 || offset + declared > u64::MAX || offset + declared >= length {
        None
    } else {
        Some((offset + declared) as u64)
    }
}

/// The stage, offset and kept region after the bytes of a request arrive:
/// (next stage, next offset, bytes kept as a region at `keep_at`, or none).
pub open spec fn spec_step(stage: Stage, offset: u64, length: u64, data: Seq<u8>) -> (Stage, u64, Option<(u64, Seq<u8>)>) {
    match stage {
        Stage::Start => match spec_header(data) {
            Ok(h) => if first_box_ok(h, length) {
                (Stage::First, h.size, None)
            } else {
                (Stage::Finished, offset, Some((0u64, data)))
            },
            Err(_) => (Stage::Finished, offset, Some((0u64, data))),
        },
        Stage::First => match next_offset(0, offset, length) {
            Some(n) => (Stage::Prefix, n, Some((0u64, data))),
            None => (Stage::Finished, 0u64, Some((0u64, data))),
        },
        Stage::Prefix => {
            let remaining = length - offset;
            if remaining < 32 {
                (Stage::Finished, offset, Some((offset, data)))
            } else {
                match spec_header(data) {
                    Err(_) => (Stage::Finished, offset, Some((offset, data))),
                    Ok(h) => if h.size != 0 && h.size < h.header {
                        (Stage::Finished, offset, Some((offset, data)))
                    } else {
                        let size = if h.size == 0 { remaining as u64 } else { h.size };
                        if h.kind == META || h.kind == MOOV || h.kind == MINI {
                            if size > remaining {
                                (Stage::Finished, offset, Some((offset, data)))
                            } else {
                                (Stage::Whole(size, h.size), offset, None)
                            }
                        } else {
                            match next_offset(offset, h.size, length) {
                                Some(n) => (Stage::Prefix, n, Some((offset, skipped(data, h.size)))),
                                None => (Stage::Finished, offset, Some((offset, skipped(data, h.size)))),
                            }
                        }
                    },
                }
            }
        },
        Stage::Whole(_, declared) => match next_offset(offset, declared, length) {
            Some(n) => (Stage::Prefix, n, Some((offset, data))),
            None => (Stage::Finished, offset, Some((offset, data))),
        },
        Stage::Finished => (Stage::Finished, offset, None),
    }
}

impl SnapshotReader {
    /// What holds between requests: the snapshot is laid out, the offset lies
    /// in the file, and a pending whole box fits in it.
    pub open spec fn wf(&self) -> bool {
        &&& self.snapshot.wf()
        &&& match self.stage {
            Stage::Start => self.offset == 0 && self.snapshot.bytes@.len() == 0,
            Stage::First => self.offset <= self.snapshot.length && self.snapshot.bytes@.len() == 0,
            Stage::Prefix => self.offset < self.snapshot.length,
            Stage::Whole(take, _) => self.offset + take <= self.snapshot.length,
            Stage::Finished => true,
        }
    }

    /// How much work is left at most: each fed request lowers it, and it is
    /// zero once the reader has finished.
    pub open spec fn work_left(&self) -> int {
        let length = self.snapshot.length as int;
        match self.stage {
            Stage::Start => length * 4 + 4,
            Stage::First => length * 4 + 3,
            Stage::Prefix => (length - self.offset) * 4 + 2,
            Stage::Whole(_, _) => (length - self.offset) * 4 + 1,
            Stage::Finished => 0,
        }
    }

    /// A reader for a file of the given length.
    pub fn new(length: u64) -> (r: SnapshotReader)
        ensures
            r.wf(),
            r.stage == Stage::Start,
            r.offset == 0,
            r.snapshot.length == length,
            r.snapshot.bytes@ == Seq::<u8>::empty(),
    {
        SnapshotReader { snapshot: Snapshot::empty(length), offset: 0, stage: Stage::Start }
    }

    /// The range the reader needs next, as offset and size; none once it has
    /// finished.
    pub fn request(&self) -> (r: Option<(u64, u64)>)
        requires
            self.wf(),
        ensures
            r == spec_request(self.stage, self.offset, self.snapshot.length),
            r matches Some((o, s)) ==> o + s <= self.snapshot.length,
    {
        let length = self.snapshot.length;
        match self.stage {
            Stage::Start => Some((0, if length < 32 { length } else { 32 })),
            Stage::First => Some((0, self.offset)),
            Stage::Prefix => {
                let remaining = length - self.offset;
                Some((self.offset, if remaining < 32 { remaining } else { 32 }))
            },
            Stage::Whole(take, _) => Some((self.offset, take)),
            Stage::Finished => None,
        }
    }

    /// Takes the bytes of the range last requested: keeps what is to be kept
    /// and moves to the next request.
    pub fn feed(&mut self, data: &[u8])
        requires
            old(self).wf(),
            spec_request(old(self).stage, old(self).offset, old(self).snapshot.length) matches Some((_, s))
                && data@.len() == s,
            old(self).snapshot.bytes@.len() + data@.len() <= usize::MAX,
        ensures
            final(self).wf(),
            final(self).snapshot.length == old(self).snapshot.length,
            old(self).stage != Stage::Finished ==> 0 <= final(self).work_left() < old(self).work_left(),
            ({
                let (stage, offset, kept) = spec_step(old(self).stage, old(self).offset, old(self).snapshot.length, data@);
                &&& final(self).stage == stage
                &&& final(self).offset == offset
                &&& match kept {
                    Some((at, b)) => final(self).snapshot.bytes@ == old(self).snapshot.bytes@ + b
                        && final(self).snapshot.regions() == with_region(old(self).snapshot.regions(), at, b.len() as int),
                    None => final(self).snapshot.bytes@ == old(self).snapshot.bytes@
                        && final(self).snapshot.regions() == old(self).snapshot.regions(),
                }
            }),
    {
        let length = self.snapshot.length;
        let offset = self.offset;
        match self.stage {
            Stage::Start => {
                match header(data) {
                    Ok(h) => {
                        if length >= 32 && h.kind == FTYP && h.size != 0 && h.size <= 1024 && h.size <= length
                            && h.size >= h.header as u64 {
                            self.stage = Stage::First;
                            self.offset = h.size;
                            return;
                        }
                    },
                    Err(_) => {},
                }
                self.snapshot.append(0, data);
                self.stage = Stage::Finished;
            },
            Stage::First => {
                self.snapshot.append(0, data);
                self.offset = 0;
                self.advance(offset);
            },
            Stage::Prefix => {
                let remaining = length - offset;
                if remaining < 32 {
                    self.snapshot.append(offset, data);
                    self.stage = Stage::Finished;
                    return;
                }
                let h = match header(data) {
                    Ok(h) => h,
                    Err(_) => {
                        self.snapshot.append(offset, data);
                        self.stage = Stage::Finished;
                        return;
                    },
                };
                if h.size != 0 && h.size < h.header as u64 {
                    self.snapshot.append(offset, data);
                    self.stage = Stage::Finished;
                    return;
                }
                let size = if h.size == 0 { remaining } else { h.size };
                if h.kind == META || h.kind == MOOV || h.kind == MINI {
                    if size > remaining {
                        self.snapshot.append(offset, data);
                        self.stage = Stage::Finished;
                    } else {
                        self.stage = Stage::Whole(size, h.size);
                    }
                    return;
                }
                if h.size != 0 {
                    let mut patched: Vec<u8> = Vec::new();
                    patched.push(0);
                    patched.push(0);
                    patched.push(0);
                    patched.push(32);
                    let mut i: usize = 4;
                    while i < data.len()
                        invariant
                            4 <= i <= data@.len(),
                            patched@ == be4(32) + data@.subrange(4, i as int),
                        decreases data@.len() - i,
                    {
                        patched.push(data[i]);
                        assert(data@.subrange(4, i + 1) =~= data@.subrange(4, i as int).push(data@[i as int]));
                        i = i + 1;
                    }
                    self.snapshot.append(offset, &patched);
                } else {
                    self.snapshot.append(offset, data);
                }
                self.advance(h.size);
            },
            Stage::Whole(_, declared) => {
                self.snapshot.append(offset, data);
                self.advance(declared);
            },
            Stage::Finished => {},
        }
    }

    /// Moves past a box of the given declared size at the current offset.
    fn advance(&mut self, declared: u64)
        requires
            old(self).snapshot.wf(),
            old(self).offset <= old(self).snapshot.length,
        ensures
            final(self).snapshot == old(self).snapshot,
            match next_offset(old(self).offset, declared, old(self).snapshot.length) {
                Some(n) => final(self).stage == Stage::Prefix && final(self).offset == n,
                None => final(self).stage == Stage::Finished && final(self).offset == old(self).offset,
            },
    {
        if declared == 0 || u64::MAX - self.offset < declared || self.offset + declared >= self.snapshot.length {
            self.stage = Stage::Finished;
        } else {
            self.offset = self.offset + declared;
            self.stage = Stage::Prefix;
        }
    }

    /// The snapshot read so far.
    pub fn finish(self) -> (r: Snapshot)
        requires
            self.wf(),
        ensures
            r.wf(),
            r == self.snapshot,
    {
        self.snapshot
    }
}

/// Why reading a growing source failed.
#[derive(Clone, Copy, Debug, PartialEq, Eq, Structural)]
pub enum RangeFailure {
    /// The offset of the next box header does not fit in 64 bits.
    EndOfFile,
    /// The source ended before any metadata box.
    Insufficient,
    /// A metadata box of the given type runs to the end, and the source has
    /// nothing past its start.
    UnspecifiedSize(u32),
    /// The end of a metadata box of the given type does not fit in 64 bits.
    InvalidSize(u32),
    /// The source ends inside a metadata box of the given type.
    Incomplete(u32),
    /// The offset after a box does not fit in 64 bits.
    TooLarge,
}

/// The code, subcode and text reported for a failed read.
pub open spec fn range_failure_parts(f: RangeFailure) -> (i32, i32, Seq<char>) {
    match f {
        RangeFailure::EndOfFile => (2i32, 100i32, "Invalid input: "@ + "Unexpected end of file"@),
        RangeFailure::Insufficient => (2i32, 0i32, "Invalid input: "@ + "Unspecified: Insufficient input data"@),
        RangeFailure::UnspecifiedSize(k) => (2i32, box_code(k), "Invalid input: "@ + box_category(k)
            + ": Cannot read "@ + box_name(k) + " box with unspecified size"@),
        RangeFailure::InvalidSize(k) => (2i32, box_code(k), "Invalid input: "@ + box_category(k)
            + ": Cannot read "@ + box_name(k) + " box with invalid size"@),
        RangeFailure::Incomplete(k) => (2i32, box_code(k), "Invalid input: "@ + box_category(k)
            + ": Cannot read full "@ + box_name(k) + " box"@),
        RangeFailure::TooLarge => (2i32, 0i32, "Invalid input: "@ + "Unspecified: Box size too large, integer overflow"@),
    }
}

/// The subcode for a metadata box that cannot be read.
pub open spec fn box_code(k: u32) -> i32 {
    if k == META { 104 } else if k == MOOV { 151 } else { 149 }
}

/// The name of a metadata box.
pub open spec fn box_name(k: u32) -> Seq<char> {
    if k == META { "meta"@ } else if k == MOOV { "moov"@ } else { "mini"@ }
}

/// The category of a metadata box that cannot be read.
pub open spec fn box_category(k: u32) -> Seq<char> {
    if k == META { "No 'meta' box"@ } else if k == MOOV { "No 'moov' box"@ } else { "Unsupported or invalid 'mini' box"@ }
}

/// The subcode, name and category of a metadata box.
fn box_texts(k: u32) -> (r: (i32, &'static str, &'static str))
    ensures
        r.0 == box_code(k),
        r.1@ == box_name(k),
        r.2@ == box_category(k),
{
    if k == META {
        (104, "meta", "No 'meta' box")
    } else if k == MOOV {
        (151, "moov", "No 'moov' box")
    } else {
        (149, "mini", "Unsupported or invalid 'mini' box")
    }
}

/// The failure that a metadata box of type `k` cannot be read: the category,
/// then `middle`, the name and `last`.
fn box_error(k: u32, middle: &str, last: &str) -> (r: ContextError)
    ensures
        r.parts() == (2i32, box_code(k), "Invalid input: "@ + box_category(k) + middle@ + box_name(k) + last@),
{
    let (code, name, category) = box_texts(k);
    let tail = join_text(name, last);
    let text = join_text(middle, tail.as_str());
    let message = join_text(category, text.as_str());
    assert(message@ =~= box_category(k) + middle@ + box_name(k) + last@);
    ContextError::invalid(code, message.as_str())
}

/// The failure reported for a failed read.
pub fn range_error(f: RangeFailure) -> (r: ContextError)
    ensures
        r.parts() == range_failure_parts(f),
{
    match f {
        RangeFailure::EndOfFile => ContextError::truncated(),
        RangeFailure::Insufficient => ContextError::invalid(0, "Unspecified: Insufficient input data"),
        RangeFailure::UnspecifiedSize(k) => box_error(k, ": Cannot read ", " box with unspecified size"),
        RangeFailure::InvalidSize(k) => box_error(k, ": Cannot read ", " box with invalid size"),
        RangeFailure::Incomplete(k) => box_error(k, ": Cannot read full ", " box"),
        RangeFailure::TooLarge => ContextError::invalid(0, "Unspecified: Box size too large, integer overflow"),
    }
}

/// What a reader of a growing source is waiting for.
#[derive(Clone, Copy, Debug, PartialEq, Eq, Structural)]
pub enum RangeStage {
    /// How much of the first 1024 bytes is available.
    Open,
    /// The first 32 bytes.
    FirstPrefix,
    /// The whole `ftyp` box of the given size.
    FirstBox(u64),
    /// How far the source reaches once 32 bytes past `offset` are asked for.
    AwaitPrefix,
    /// The 32 bytes at `offset`.
    Prefix,
    /// How far the source reaches once everything from `offset` is asked for,
    /// for a metadata box of the given type that runs to the end.
    AwaitUnsized(u32),
    /// How far the source reaches once a metadata box of the given type,
    /// ending at the given offset and of the given declared size, is asked for.
    AwaitWhole(u32, u64, u64),
    /// A whole metadata box at `offset`: its end and declared size.
    Whole(u64, u64),
    /// Done: the snapshot is complete.
    Finished,
    /// Done: the source cannot be read.
    Failed(RangeFailure),
}

/// What a reader of a growing source asks the driver for.
#[derive(Clone, Copy, Debug, PartialEq, Eq, Structural)]
pub enum RangeAction {
    /// Ask the source for the range from the first to the second offset,
    /// and hand back the end of what is available.
    Request(u64, u64),
    /// Read the given size at the given offset and hand back the bytes.
    Take(u64, u64),
    /// Nothing more.
    Done,
}

/// The state of a reader of a growing source besides its snapshot.
#[derive(Clone, Copy, Debug, PartialEq, Eq, Structural)]
pub struct RangeState {
    pub stage: RangeStage,
    pub offset: u64,
    pub available: u64,
    /// Whether a metadata box has been read.
    pub found: bool,
}

/// What a reader asks for in a state.
pub open spec fn spec_action(t: RangeState) -> RangeAction {
    match t.stage {
        RangeStage::Open => RangeAction::Request(0, 1024),
        RangeStage::FirstPrefix => RangeAction::Take(0, 32),
        RangeStage::FirstBox(size) => RangeAction::Take(0, size),
        RangeStage::AwaitPrefix => RangeAction::Request(t.offset, (t.offset + 32) as u64),
        RangeStage::Prefix => RangeAction::Take(t.offset, 32),
        RangeStage::AwaitUnsized(_) => RangeAction::Request(t.offset, u64::MAX),
        RangeStage::AwaitWhole(_, end, _) => RangeAction::Request(t.offset, end),
        RangeStage::Whole(end, _) => RangeAction::Take(t.offset, (end - t.offset) as u64),
        RangeStage::Finished => RangeAction::Done,
        RangeStage::Failed(_) => RangeAction::Done,
    }
}

/// The stage for the next box header at `offset`.
pub open spec fn spec_at_next(t: RangeState) -> RangeStage {
    if t.offset + 32 > u64::MAX {
        RangeStage::Failed(RangeFailure::EndOfFile)
    } else if t.offset + 32 > t.available {
        RangeStage::AwaitPrefix
    } else {
        RangeStage::Prefix
    }
}

/// The state after a box of the given declared size at `offset`.
pub open spec fn spec_after(t: RangeState, declared: u64) -> RangeState {
    if declared == 0 {
        RangeState { stage: RangeStage::Finished, ..t }
    } else if t.offset + declared > u64::MAX {
        RangeState { stage: RangeStage::Failed(RangeFailure::TooLarge), ..t }
    } else {
        let u = RangeState { offset: (t.offset + declared) as u64, ..t };
        RangeState { stage: spec_at_next(u), ..u }
    }
}

/// The stage for a whole metadata box ending at `end`.
pub open spec fn spec_check_whole(t: RangeState, kind: u32, end: u64, declared: u64) -> RangeStage {
    if end > t.available { RangeStage::AwaitWhole(kind, end, declared) } else { RangeStage::Whole(end, declared) }
}

/// The state after the source answers a request with how far it reaches.
pub open spec fn spec_on_range(t: RangeState, a: u64) -> RangeState {
    let u = RangeState { available: a, ..t };
    match t.stage {
        RangeStage::Open => RangeState { stage: if a < 32 { RangeStage::Finished } else { RangeStage::FirstPrefix }, ..u },
        RangeStage::AwaitPrefix => RangeState {
            stage: if t.offset + 32 > a {
                if t.found { RangeStage::Finished } else { RangeStage::Failed(RangeFailure::Insufficient) }
            } else {
                RangeStage::Prefix
            },
            ..u
        },
        RangeStage::AwaitUnsized(kind) => RangeState {
            stage: if a <= t.offset { RangeStage::Failed(RangeFailure::UnspecifiedSize(kind)) } else { RangeStage::Whole(a, 0) },
            ..u
        },
        RangeStage::AwaitWhole(kind, end, declared) => RangeState {
            stage: if end > a { RangeStage::Failed(RangeFailure::Incomplete(kind)) } else { RangeStage::Whole(end, declared) },
            ..u
        },
        _ => t,
    }
}

/// Whether a fourcc names a metadata box that is kept whole.
pub open spec fn is_metadata(kind: u32) -> bool {
    kind == META || kind == MOOV || kind == MINI
}

/// The state after the bytes of a `Take` arrive, with the bytes kept and
/// the offset they were read at, if any.
pub open spec fn spec_on_bytes(t: RangeState, data: Seq<u8>) -> (RangeState, Option<(u64, Seq<u8>)>) {
    match t.stage {
        RangeStage::FirstPrefix => match spec_header(data) {
            Err(_) => (RangeState { stage: RangeStage::Finished, ..t }, Some((0u64, data))),
            Ok(h) => if h.kind != FTYP || h.size == 0 || h.size > t.available || h.size < h.header {
                (RangeState { stage: RangeStage::Finished, ..t }, Some((0u64, data)))
            } else {
                (RangeState { stage: RangeStage::FirstBox(h.size), ..t }, None)
            },
        },
        RangeStage::FirstBox(size) => {
            let u = RangeState { offset: size, found: false, ..t };
            (RangeState { stage: spec_at_next(u), ..u }, Some((0u64, data)))
        },
        RangeStage::Prefix => match spec_header(data) {
            Err(_) => (RangeState { stage: RangeStage::Finished, ..t }, Some((t.offset, data))),
            Ok(h) => if h.size != 0 && h.size < h.header {
                (RangeState { stage: RangeStage::Finished, ..t }, Some((t.offset, data)))
            } else if is_metadata(h.kind) {
                if h.size == 0 {
                    (RangeState { stage: RangeStage::AwaitUnsized(h.kind), ..t }, None)
                } else if t.offset + h.size > u64::MAX {
                    (RangeState { stage: RangeStage::Failed(RangeFailure::InvalidSize(h.kind)), ..t }, None)
                } else {
                    (RangeState { stage: spec_check_whole(t, h.kind, (t.offset + h.size) as u64, h.size), ..t }, None)
                }
            } else {
                (spec_after(t, h.size), Some((t.offset, skipped(data, h.size))))
            },
        },
        RangeStage::Whole(_, declared) => (spec_after(RangeState { found: true, ..t }, declared), Some((t.offset, data))),
        _ => (t, None),
    }
}

/// A reader of a source that may still be growing: it asks how far the
/// source reaches before it reads, and keeps the headers and metadata boxes.
pub struct RangeReader {
    pub snapshot: Snapshot,
    pub state: RangeState,
}

impl RangeReader {
    /// What holds between events.
    pub open spec fn wf(&self) -> bool {
        let t = self.state;
        &&& self.snapshot.wf()
        &&& self.snapshot.length == u64::MAX
        &&& match t.stage {
            RangeStage::Open => self.snapshot.bytes@.len() == 0,
            RangeStage::FirstPrefix => self.snapshot.bytes@.len() == 0,
            RangeStage::FirstBox(size) => self.snapshot.bytes@.len() == 0,
            RangeStage::AwaitPrefix => t.offset + 32 <= u64::MAX,
            RangeStage::Prefix => t.offset + 32 <= u64::MAX,
            RangeStage::AwaitUnsized(_) => true,
            RangeStage::AwaitWhole(_, end, _) => t.offset <= end,
            RangeStage::Whole(end, _) => t.offset <= end,
            _ => true,
        }
    }

    /// How much work is left at most: each event lowers it, and it is zero
    /// once the reader is done.
    pub open spec fn work_left(&self) -> int {
        let t = self.state;
        let ahead = (u64::MAX - t.offset) * 8;
        match t.stage {
            RangeStage::Open => u64::MAX * 8 + 7,
            RangeStage::FirstPrefix => u64::MAX * 8 + 6,
            RangeStage::FirstBox(_) => u64::MAX * 8 + 5,
            RangeStage::AwaitPrefix => ahead + 4,
            RangeStage::Prefix => ahead + 3,
            RangeStage::AwaitUnsized(_) => ahead + 2,
            RangeStage::AwaitWhole(_, _, _) => ahead + 2,
            RangeStage::Whole(_, _) => ahead + 1,
            RangeStage::Finished => 0,
            RangeStage::Failed(_) => 0,
        }
    }

    /// A reader at the start of a source.
    pub fn new() -> (r: RangeReader)
        ensures
            r.wf(),
            r.state == (RangeState { stage: RangeStage::Open, offset: 0, available: 0, found: false }),
            r.snapshot.bytes@ == Seq::<u8>::empty(),
    {
        RangeReader {
            snapshot: Snapshot::empty(u64::MAX),
            state: RangeState { stage: RangeStage::Open, offset: 0, available: 0, found: false },
        }
    }

    /// What the reader asks for next.
    pub fn action(&self) -> (r: RangeAction)
        requires
            self.wf(),
        ensures
            r == spec_action(self.state),
    {
        let t = self.state;
        match t.stage {
            RangeStage::Open => RangeAction::Request(0, 1024),
            RangeStage::FirstPrefix => RangeAction::Take(0, 32),
            RangeStage::FirstBox(size) => RangeAction::Take(0, size),
            RangeStage::AwaitPrefix => RangeAction::Request(t.offset, t.offset + 32),
            RangeStage::Prefix => RangeAction::Take(t.offset, 32),
            RangeStage::AwaitUnsized(_) => RangeAction::Request(t.offset, u64::MAX),
            RangeStage::AwaitWhole(_, end, _) => RangeAction::Request(t.offset, end),
            RangeStage::Whole(end, _) => RangeAction::Take(t.offset, end - t.offset),
            RangeStage::Finished => RangeAction::Done,
            RangeStage::Failed(_) => RangeAction::Done,
        }
    }

    /// The stage for the next box header.
    fn at_next(t: RangeState) -> (r: RangeStage)
        ensures
            r == spec_at_next(t),
    {
        if u64::MAX - t.offset < 32 {
            RangeStage::Failed(RangeFailure::EndOfFile)
        } else if t.offset + 32 > t.available {
            RangeStage::AwaitPrefix
        } else {
            RangeStage::Prefix
        }
    }

    /// The state after a box of the given declared size.
    fn after(t: RangeState, declared: u64) -> (r: RangeState)
        ensures
            r == spec_after(t, declared),
    {
        if declared == 0 {
            RangeState { stage: RangeStage::Finished, ..t }
        } else if u64::MAX - t.offset < declared {
            RangeState { stage: RangeStage::Failed(RangeFailure::TooLarge), ..t }
        } else {
            let u = RangeState { offset: t.offset + declared, ..t };
            RangeState { stage: RangeReader::at_next(u), ..u }
        }
    }

    /// Takes the source's answer to a `Request`: how far it reaches.
    pub fn on_range(&mut self, available: u64)
        requires
            old(self).wf(),
            spec_action(old(self).state) is Request,
        ensures
            final(self).wf(),
            final(self).snapshot == old(self).snapshot,
            final(self).state == spec_on_range(old(self).state, available),
            0 <= final(self).work_left() < old(self).work_left(),
    {
        let t = self.state;
        let u = RangeState { available, ..t };
        let next = match t.stage {
            RangeStage::Open => RangeState {
                stage: if available < 32 { RangeStage::Finished } else { RangeStage::FirstPrefix },
                ..u
            },
            RangeStage::AwaitPrefix => RangeState {
                stage: if t.offset + 32 > available {
                    if t.found { RangeStage::Finished } else { RangeStage::Failed(RangeFailure::Insufficient) }
                } else {
                    RangeStage::Prefix
                },
                ..u
            },
            RangeStage::AwaitUnsized(kind) => RangeState {
                stage: if available <= t.offset {
                    RangeStage::Failed(RangeFailure::UnspecifiedSize(kind))
                } else {
                    RangeStage::Whole(available, 0)
                },
                ..u
            },
            RangeStage::AwaitWhole(kind, end, declared) => RangeState {
                stage: if end > available {
                    RangeStage::Failed(RangeFailure::Incomplete(kind))
                } else {
                    RangeStage::Whole(end, declared)
                },
                ..u
            },
            _ => t,
        };
        self.state = next;
    }

    /// Takes the bytes of a `Take`: keeps what is to be kept and decides
    /// what comes next.
    pub fn on_bytes(&mut self, data: &[u8])
        requires
            old(self).wf(),
            spec_action(old(self).state) matches RangeAction::Take(_, size) && data@.len() == size,
            old(self).snapshot.bytes@.len() + data@.len() <= usize::MAX,
        ensures
            final(self).wf(),
            0 <= final(self).work_left() < old(self).work_left(),
            ({
                let (t, kept) = spec_on_bytes(old(self).state, data@);
                &&& final(self).state == t
                &&& final(self).snapshot.length == old(self).snapshot.length
                &&& match kept {
                    Some((at, b)) => final(self).snapshot.bytes@ == old(self).snapshot.bytes@ + b
                        && final(self).snapshot.regions() == with_region(old(self).snapshot.regions(), at, b.len() as int),
                    None => final(self).snapshot.bytes@ == old(self).snapshot.bytes@
                        && final(self).snapshot.regions() == old(self).snapshot.regions(),
                }
            }),
    {
        let t = self.state;
        match t.stage {
            RangeStage::FirstPrefix => {
                match header(data) {
                    Ok(h) => {
                        if !(h.kind != FTYP || h.size == 0 || h.size > t.available || h.size < h.header as u64) {
                            self.state = RangeState { stage: RangeStage::FirstBox(h.size), ..t };
                            return;
                        }
                    },
                    Err(_) => {},
                }
                self.snapshot.append(0, data);
                self.state = RangeState { stage: RangeStage::Finished, ..t };
            },
            RangeStage::FirstBox(size) => {
                self.snapshot.append(0, data);
                let u = RangeState { offset: size, found: false, ..t };
                self.state = RangeState { stage: RangeReader::at_next(u), ..u };
            },
            RangeStage::Prefix => {
                let h = match header(data) {
                    Ok(h) => h,
                    Err(_) => {
                        self.snapshot.append(t.offset, data);
                        self.state = RangeState { stage: RangeStage::Finished, ..t };
                        return;
                    },
                };
                if h.size != 0 && h.size < h.header as u64 {
                    self.snapshot.append(t.offset, data);
                    self.state = RangeState { stage: RangeStage::Finished, ..t };
                    return;
                }
                if h.kind == META || h.kind == MOOV || h.kind == MINI {
                    let stage = if h.size == 0 {
                        RangeStage::AwaitUnsized(h.kind)
                    } else if u64::MAX - t.offset < h.size {
                        RangeStage::Failed(RangeFailure::InvalidSize(h.kind))
                    } else if t.offset + h.size > t.available {
                        RangeStage::AwaitWhole(h.kind, t.offset + h.size, h.size)
                    } else {
                        RangeStage::Whole(t.offset + h.size, h.size)
                    };
                    self.state = RangeState { stage, ..t };
                    return;
                }
                if h.size != 0 {
                    let mut patched: Vec<u8> = Vec::new();
                    patched.push(0);
                    patched.push(0);
                    patched.push(0);
                    patched.push(32);
                    let mut i: usize = 4;
                    while i < data.len()
                        invariant
                            4 <= i <= data@.len(),
                            patched@ == be4(32) + data@.subrange(4, i as int),
                        decreases data@.len() - i,
                    {
                        patched.push(data[i]);
                        assert(data@.subrange(4, i + 1) =~= data@.subrange(4, i as int).push(data@[i as int]));
                        i = i + 1;
                    }
                    self.snapshot.append(t.offset, &patched);
                } else {
                    self.snapshot.append(t.offset, data);
                }
                self.state = RangeReader::after(t, h.size);
            },
            RangeStage::Whole(_, declared) => {
                self.snapshot.append(t.offset, data);
                self.state = RangeReader::after(RangeState { found: true, ..t }, declared);
            },
            _ => {},
        }
    }

    /// The snapshot, or the failure that stopped the reader.
    pub fn result(self) -> (r: Result<Snapshot, ContextError>)
        requires
            self.wf(),
        ensures
            match self.state.stage {
                RangeStage::Failed(f) => r is Err && r->Err_0.parts() == range_failure_parts(f),
                _ => r is Ok && r->Ok_0 == self.snapshot,
            },
    {
        match self.state.stage {
            RangeStage::Failed(f) => Err(range_error(f)),
            _ => Ok(self.snapshot),
        }
    }
}

} // verus!
