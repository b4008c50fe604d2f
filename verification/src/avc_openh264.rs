//! The syntax layer of the AVC decoder (OpenH264 2.6.0) ahead of
//! reconstruction: its Annex B splitting and unescaping, its 32-bit cached bit
//! reader that tolerates a bounded over-read into zero padding, and its
//! acceptance checks of parameter sets and slice headers.
use vstd::prelude::*;
use crate::bitwriter::bit_len;

verus! {

/// Any condition that makes the decoder report an error.
#[derive(Debug, Clone, Copy, PartialEq, Eq, Structural)]
pub struct Rejected;

/// A failed bit read with its error code (11: read overflow, 12: too many leading zeros).
#[derive(Debug, Clone, Copy)]
pub struct ReadError(pub u32);

pub const MAX_SPS_COUNT: usize = 32;
pub const MAX_PPS_COUNT: usize = 256;
pub const MAX_MB_SIZE: u32 = 36864;
pub const MAX_REF_PIC_COUNT: u32 = 16;

/// The largest payload the reader accepts: OpenH264 counts a payload's bits
/// in 32 bits, and the reader's cursor arithmetic stays within them.
pub open spec fn max_payload() -> int {
    0x0ff0_0000
}

/// The reader over a NAL payload followed by zero bytes.
pub struct Bits<'a> {
    pub data: &'a [u8],
    pub cur: usize,
    pub cur_bits: u32,
    pub left_bits: i32,
    pub allowed: usize,
    pub bits: i64,
}

/// The byte at `at`, zero past the end.
pub open spec fn byte_at(data: Seq<u8>, at: int) -> u8 {
    if 0 <= at < data.len() { data[at] } else { 0 }
}

/// `x << n` in 32 bits, 0 once the shift reaches the width.
pub open spec fn shl32(x: u32, n: u32) -> u32 {
    if n >= 32 { 0 } else { x << n }
}

/// Whether dropping `n` bits needs a refill from beyond the readable bytes:
/// the reader may pass the allowed bytes by one byte only.
pub open spec fn dump_fails(s: Bits, n: u32) -> bool {
    s.left_bits + n > 0 && s.cur > s.allowed + 1
}

/// The reader's state after dropping `n` bits from its cache and refilling 16
/// bits when the cache runs low (on a failing refill, the cache is shifted and
/// its count raised, the cursor stays).
pub open spec fn dumped(s: Bits, n: u32) -> Bits {
    let cur_bits = shl32(s.cur_bits, n);
    let left = s.left_bits + n;
    if left > 0 {
        if s.cur > s.allowed + 1 {
            Bits { cur_bits, left_bits: left as i32, ..s }
        } else {
            let word = ((byte_at(s.data@, s.cur as int) as u32) << 8u32) | (byte_at(s.data@, s.cur + 1) as u32);
            Bits {
                cur_bits: cur_bits | shl32(word, left as u32),
                left_bits: (left - 16) as i32,
                cur: (s.cur + 2) as usize,
                ..s
            }
        }
    } else {
        Bits { cur_bits, left_bits: left as i32, ..s }
    }
}

/// The top `n` bits of the cache.
pub open spec fn spec_ubits(cur_bits: u32, n: u32) -> u32 {
    if n == 0 { 0 } else { cur_bits >> ((32 - n) as u32) }
}

/// The number of leading zero bits of a 32-bit value.
pub open spec fn clz32(x: u32) -> u32 {
    (32 - bit_len(x as u64)) as u32
}

/// A fixed-length read of `n` bits: the value or the error code, and the state after.
pub open spec fn spec_u(s: Bits, n: u32) -> (Result<u32, u32>, Bits) {
    (if dump_fails(s, n) { Err(11) } else { Ok(spec_ubits(s.cur_bits, n)) }, dumped(s, n))
}

/// The unsigned Exp-Golomb read: the value or the error code (12: no one bit
/// in the cache, 11: read overflow), and the state after.
pub open spec fn spec_ue(s: Bits) -> (Result<u32, u32>, Bits) {
    if s.cur_bits == 0 {
        (Err(12), s)
    } else {
        let zeros = clz32(s.cur_bits);
        let (failed, t) = if zeros > 16 {
            if dump_fails(s, 16) {
                (true, dumped(s, 16))
            } else {
                let a = dumped(s, 16);
                (dump_fails(a, (zeros + 1 - 16) as u32), dumped(a, (zeros + 1 - 16) as u32))
            }
        } else {
            (dump_fails(s, (zeros + 1) as u32), dumped(s, (zeros + 1) as u32))
        };
        if failed {
            (Err(11), t)
        } else if zeros == 0 {
            (Ok(0), t)
        } else if dump_fails(t, zeros) {
            (Err(11), dumped(t, zeros))
        } else {
            let prefix = (1u32 << zeros) - 1;
            let value = (prefix + spec_ubits(t.cur_bits, zeros)) as u32;
            (Ok(value), dumped(t, zeros))
        }
    }
}

/// The signed Exp-Golomb mapping: odd codes positive, even codes negative
/// (the largest code maps onto the 32-bit minimum, as the decoder's cast does).
pub open spec fn se_of(code: u32) -> i32 {
    if code % 2 == 1 { (code / 2 + 1) as i32 } else { (-((code / 2) as int)) as i32 }
}

/// `a`, or -32 where it is lower.
pub open spec fn relax(a: int) -> int {
    if a < -32 { -32 } else { a }
}

impl<'a> Bits<'a> {
    /// How far the bit count runs ahead of the cursor.
    pub open spec fn slack(&self) -> int {
        self.left_bits - 8 * self.cur
    }

    /// Cursor and cache bookkeeping within the bounds of its arithmetic.
    pub open spec fn base(&self) -> bool {
        &&& self.data@.len() <= max_payload()
        &&& 1 <= self.allowed <= self.data@.len() + 1
        &&& 4 <= self.cur <= self.allowed + 4
        &&& -16 <= self.left_bits
        &&& 0 <= self.bits <= 8 * max_payload()
    }

    /// The reader's invariant: reads are safe from any such state.
    pub open spec fn wf(&self) -> bool {
        self.base() && self.slack() <= 16 + 0x10_0000
    }

    /// The state that successful reads keep: the count never runs ahead of
    /// the cursor by more than a refill.
    pub open spec fn tight(&self) -> bool {
        self.base() && self.slack() <= 16
    }

    /// Starts reading `data` whose payload is `bit_size` bits: the first four
    /// bytes are loaded; a payload of no bytes fails.
    pub fn new(data: &'a [u8], bit_size: i64) -> (r: Result<Bits<'a>, Rejected>)
        requires
            data@.len() <= max_payload(),
            0 <= bit_size <= 8 * data@.len(),
        ensures
            ((bit_size + 7) / 8 == 0) <==> r is Err,
            r matches Ok(b) ==> {
                &&& b.tight()
                &&& b.data == data
                &&& b.cur == 4
                &&& b.left_bits == -16
                &&& b.allowed == (bit_size + 7) / 8
                &&& b.bits == bit_size
                &&& b.cur_bits == ((byte_at(data@, 0) as u32) << 24u32) | ((byte_at(data@, 1) as u32) << 16u32)
                    | ((byte_at(data@, 2) as u32) << 8u32) | (byte_at(data@, 3) as u32)
            },
    {
        let allowed = ((bit_size + 7) / 8) as usize;
        if allowed == 0 {
            return Err(Rejected);
        }
        let mut b = Bits { data, cur: 0, cur_bits: 0, left_bits: -16, allowed, bits: bit_size };
        b.cur_bits = ((b.byte(0) as u32) << 24u32) | ((b.byte(1) as u32) << 16u32) | ((b.byte(2) as u32) << 8u32)
            | (b.byte(3) as u32);
        b.cur = 4;
        Ok(b)
    }

    /// The payload byte at `at`, zero past the end.
    pub fn byte(&self, at: usize) -> (r: u8)
        ensures
            r == byte_at(self.data@, at as int),
    {
        if at < self.data.len() { self.data[at] } else { 0 }
    }

    /// Drops `n` bits from the cache and refills it when it runs low; fails
    /// with code 11 when the refill would read too far.
    pub fn dump(&mut self, n: u32) -> (r: Result<(), ReadError>)
        requires
            old(self).wf(),
            n <= 32,
        ensures
            *final(self) == dumped(*old(self), n),
            r is Err <==> dump_fails(*old(self), n),
            r matches Err(e) ==> e.0 == 11,
            final(self).base(),
            r is Ok ==> final(self).slack() <= relax(old(self).slack()),
            r is Err ==> final(self).slack() <= relax(old(self).slack()) + 32,
    {
        self.cur_bits = if n >= 32 { 0 } else { self.cur_bits << n };
        self.left_bits = self.left_bits + n as i32;
        if self.left_bits > 0 {
            if self.cur > self.allowed + 1 {
                return Err(ReadError(11));
            }
            let word = ((self.byte(self.cur) as u32) << 8u32) | (self.byte(self.cur + 1) as u32);
            let l = self.left_bits as u32;
            self.cur_bits = self.cur_bits | (if l >= 32 { 0 } else { word << l });
            self.left_bits = self.left_bits - 16;
            self.cur = self.cur + 2;
        }
        Ok(())
    }

    /// The top `n` bits of the cache.
    pub fn ubits(&self, n: u32) -> (r: u32)
        requires
            n <= 32,
        ensures
            r == spec_ubits(self.cur_bits, n),
    {
        if n == 0 { 0 } else { self.cur_bits >> (32 - n) }
    }

    /// Reads `n` bits.
    pub fn u(&mut self, n: u32) -> (r: Result<u32, ReadError>)
        requires
            old(self).wf(),
            n <= 32,
        ensures
            (match r { Ok(v) => Ok::<u32, u32>(v), Err(e) => Err(e.0) }, *final(self)) == spec_u(*old(self), n),
            final(self).base(),
            r is Ok ==> final(self).slack() <= relax(old(self).slack()),
            r is Err ==> final(self).slack() <= relax(old(self).slack()) + 32,
    {
        let value = self.ubits(n);
        match self.dump(n) {
            Ok(()) => Ok(value),
            Err(e) => Err(e),
        }
    }

    /// Reads one bit as a flag.
    pub fn flag(&mut self) -> (r: Result<bool, ReadError>)
        requires
            old(self).wf(),
        ensures
            (match r { Ok(v) => Ok::<u32, u32>(if v { 1u32 } else { 0u32 }), Err(e) => Err(e.0) }, *final(self))
                == spec_u(*old(self), 1),
            final(self).base(),
            r is Ok ==> final(self).slack() <= relax(old(self).slack()),
            r is Err ==> final(self).slack() <= relax(old(self).slack()) + 32,
    {
        let r = self.u(1);
        proof {
            let c = old(self).cur_bits;
            assert(c >> 31u32 <= 1) by (bit_vector);
        }
        match r {
            Ok(v) => Ok(v != 0),
            Err(e) => Err(e),
        }
    }
}

/// The number of leading zero bits.
fn clz(x: u32) -> (r: u32)
    ensures
        r == clz32(x),
        bit_len(x as u64) <= 32,
        r == 32 - bit_len(x as u64),
{
    let mut n: u32 = 0;
    let v = x as u64;
    proof {
        assert(v >> 0u64 == v) by (bit_vector);
    }
    while (v >> (n as u64)) != 0
        invariant
            n <= 32,
            v == x as u64,
            bit_len(v) == n + bit_len(v >> (n as u64)),
        decreases 32 - n,
    {
        proof {
            let l = n as u64;
            assert(v == x as u64 && l >= 32 && l <= 63 ==> v >> l == 0) by (bit_vector);
            let w = v >> (n as u64);
            assert(w >> 1u64 == v >> ((n + 1) as u64)) by (bit_vector)
                requires
                    w == v >> (n as u64),
                    n < 32,
            ;
        }
        n = n + 1;
    }
    assert(bit_len(0) == 0);
    32 - n
}

impl<'a> Bits<'a> {
    /// Reads an unsigned Exp-Golomb code the way the decoder's `BsGetUe` does.
    pub fn ue(&mut self) -> (r: Result<u32, ReadError>)
        requires
            old(self).wf(),
        ensures
            (match r { Ok(v) => Ok::<u32, u32>(v), Err(e) => Err(e.0) }, *final(self)) == spec_ue(*old(self)),
            final(self).base(),
            r is Ok ==> final(self).slack() <= relax(old(self).slack()),
            r is Err ==> final(self).slack() <= relax(old(self).slack()) + 32,
    {
        if self.cur_bits == 0 {
            return Err(ReadError(12));
        }
        let zeros = clz(self.cur_bits);
        proof {
            assert(zeros < 32) by {
                let x = self.cur_bits;
                assert(x != 0 ==> (x as u64) >> 0u64 != 0) by (bit_vector);
                if zeros == 32 {
                    assert(bit_len(x as u64) == 0);
                    assert((x as u64) >> 1u64 < x as u64) by (bit_vector) requires x != 0;
                }
            }
        }
        if zeros > 16 {
            match self.dump(16) {
                Ok(()) => {},
                Err(e) => return Err(e),
            }
            match self.dump(zeros + 1 - 16) {
                Ok(()) => {},
                Err(e) => return Err(e),
            }
        } else {
            match self.dump(zeros + 1) {
                Ok(()) => {},
                Err(e) => return Err(e),
            }
        }
        let base: u32 = 1u32 << zeros;
        proof {
            assert(base >= 1 && base - 1 + (base - 1) <= 0xffff_ffff && (zeros == 0 ==> base == 1)) by (bit_vector)
                requires base == 1u32 << zeros, zeros < 32;
        }
        let mut value: u32 = 0;
        if zeros != 0 {
            value = self.ubits(zeros);
            proof {
                let c = self.cur_bits;
                assert(value <= base - 1) by (bit_vector)
                    requires value == c >> ((32 - zeros) as u32), base == 1u32 << zeros, 0 < zeros < 32;
            }
            match self.dump(zeros) {
                Ok(()) => {},
                Err(e) => return Err(e),
            }
        }
        Ok(base - 1 + value)
    }

    /// Reads a signed Exp-Golomb code.
    pub fn se(&mut self) -> (r: Result<i32, ReadError>)
        requires
            old(self).wf(),
        ensures
            (match r { Ok(v) => Ok::<i32, u32>(v), Err(e) => Err(e.0) }, *final(self))
                == (match spec_ue(*old(self)).0 { Ok(c) => Ok::<i32, u32>(se_of(c)), Err(e) => Err(e) }, spec_ue(*old(self)).1),
            final(self).base(),
            r is Ok ==> final(self).slack() <= relax(old(self).slack()),
            r is Err ==> final(self).slack() <= relax(old(self).slack()) + 32,
    {
        let code = match self.ue() {
            Ok(c) => c,
            Err(e) => return Err(e),
        };
        let half = code / 2;
        if code % 2 == 1 {
            Ok((half + 1) as i32)
        } else {
            Ok(-(half as i32))
        }
    }

    /// Whether more than the stop bit is left of the payload.
    pub fn more_rbsp_data(&self) -> (r: bool)
        requires
            self.base(),
        ensures
            r == (self.bits - 8 * (self.cur - 2) - self.left_bits > 1),
    {
        self.bits - ((self.cur as i64 - 2) * 8) - (self.left_bits as i64) > 1
    }
}

/// A read of `n` bits that rejects the stream on failure: the value and the
/// state after it, or none.
#[verifier::opaque]
pub open spec fn rd_u(s: Bits, n: u32) -> Option<(u32, Bits)> {
    match spec_u(s, n) {
        (Ok(v), t) => Some((v, t)),
        (Err(_), _) => None,
    }
}

/// A flag read that rejects the stream on failure.
#[verifier::opaque]
pub open spec fn rd_flag(s: Bits) -> Option<(bool, Bits)> {
    match rd_u(s, 1) {
        Some((v, t)) => Some((v == 1, t)),
        None => None,
    }
}

/// An unsigned Exp-Golomb read that rejects the stream on failure.
#[verifier::opaque]
pub open spec fn rd_ue(s: Bits) -> Option<(u32, Bits)> {
    match spec_ue(s) {
        (Ok(v), t) => Some((v, t)),
        (Err(_), _) => None,
    }
}

/// A signed Exp-Golomb read that rejects the stream on failure.
#[verifier::opaque]
pub open spec fn rd_se(s: Bits) -> Option<(i32, Bits)> {
    match spec_ue(s) {
        (Ok(c), t) => Some((se_of(c), t)),
        (Err(_), _) => None,
    }
}

/// A read result as the library reports it: the value, or the rejection.
pub open spec fn read_matches<T>(r: Result<T, Rejected>, after: Bits, spec: Option<(T, Bits)>) -> bool {
    match spec {
        Some((v, t)) => r == Ok::<T, Rejected>(v) && after == t,
        None => r is Err,
    }
}

impl<'a> Bits<'a> {
    /// `n` bits, any read failure rejecting the stream.
    fn read_u(&mut self, n: u32) -> (r: Result<u32, Rejected>)
        requires
            old(self).tight(),
            n <= 32,
        ensures
            read_matches(r, *final(self), rd_u(*old(self), n)),
            r is Ok ==> final(self).tight(),
            final(self).base(),
    {
        proof {
            reveal(rd_u);
        }
        match self.u(n) {
            Ok(v) => Ok(v),
            Err(_) => Err(Rejected),
        }
    }

    /// One flag, any read failure rejecting the stream.
    fn read_flag(&mut self) -> (r: Result<bool, Rejected>)
        requires
            old(self).tight(),
        ensures
            read_matches(r, *final(self), rd_flag(*old(self))),
            r is Ok ==> final(self).tight(),
            final(self).base(),
    {
        proof {
            reveal(rd_u);
            reveal(rd_flag);
        }
        match self.flag() {
            Ok(v) => Ok(v),
            Err(_) => Err(Rejected),
        }
    }

    /// An unsigned Exp-Golomb code, any read failure rejecting the stream.
    fn read_ue(&mut self) -> (r: Result<u32, Rejected>)
        requires
            old(self).tight(),
        ensures
            read_matches(r, *final(self), rd_ue(*old(self))),
            r is Ok ==> final(self).tight(),
            final(self).base(),
    {
        proof {
            reveal(rd_ue);
        }
        match self.ue() {
            Ok(v) => Ok(v),
            Err(_) => Err(Rejected),
        }
    }

    /// A signed Exp-Golomb code, any read failure rejecting the stream.
    fn read_se(&mut self) -> (r: Result<i32, Rejected>)
        requires
            old(self).tight(),
        ensures
            read_matches(r, *final(self), rd_se(*old(self))),
            r is Ok ==> final(self).tight(),
            final(self).base(),
    {
        proof {
            reveal(rd_se);
        }
        match self.se() {
            Ok(v) => Ok(v),
            Err(_) => Err(Rejected),
        }
    }
}

/// The number of trailing zero bits of a payload's last byte: the zero bits
/// after its stop bit (none counted for a zero byte).
pub open spec fn trailing_zero_bits(last: u8) -> nat
    decreases last,
{
    if last == 0 || last % 2 == 1 { 0 } else { 1 + trailing_zero_bits(last / 2) }
}

/// The decoder's `BsGetTrailingBits`.
fn trailing_bits(last: u8) -> (r: i64)
    ensures
        r == trailing_zero_bits(last),
        0 <= r <= 7,
{
    proof {
        lemma_trailing_zero_bits_bound(last);
    }
    let mut n: i64 = 0;
    let mut v: u8 = last;
    while v != 0 && v % 2 == 0
        invariant
            n + trailing_zero_bits(v) == trailing_zero_bits(last),
            0 <= n <= trailing_zero_bits(last) <= 7,
        decreases v,
    {
        n = n + 1;
        v = v / 2;
    }
    n
}

/// A byte has at most seven trailing zero bits before its lowest one.
proof fn lemma_trailing_zero_bits_bound(x: u8)
    ensures
        0 <= trailing_zero_bits(x) <= 7,
{
    reveal_with_fuel(trailing_zero_bits, 9);
}

/// The payload's size in bits: its bytes less the trailing zero bits of the last.
pub open spec fn spec_bit_size(payload: Seq<u8>) -> int {
    if payload.len() == 0 { 0 } else { 8 * payload.len() - trailing_zero_bits(payload[payload.len() - 1]) }
}

/// The size in bits that the decoder gives a payload.
fn bit_size(payload: &[u8]) -> (r: i64)
    requires
        payload@.len() <= max_payload(),
    ensures
        r == spec_bit_size(payload@),
        0 <= r <= 8 * payload@.len(),
{
    if payload.len() == 0 {
        0
    } else {
        let last = payload[payload.len() - 1];
        (payload.len() as i64) * 8 - trailing_bits(last)
    }
}

/// The decoder's `GetLevelLimits`: the largest frame in macroblocks, and the
/// largest picture buffer, for the levels it knows.
pub open spec fn spec_level_limits(level: u32, constraint3: bool) -> Option<(u32, u32)> {
    if level == 9 || level == 10 || (level == 11 && constraint3) {
        Some((99u32, 396u32))
    } else if level == 11 {
        Some((396u32, 900u32))
    } else if level == 12 || level == 13 || level == 20 {
        Some((396u32, 2376u32))
    } else if level == 21 {
        Some((792u32, 4752u32))
    } else if level == 22 || level == 30 {
        Some((1620u32, 8100u32))
    } else if level == 31 {
        Some((3600u32, 18000u32))
    } else if level == 32 {
        Some((5120u32, 20480u32))
    } else if level == 40 || level == 41 {
        Some((8192u32, 32768u32))
    } else if level == 42 {
        Some((8704u32, 34816u32))
    } else if level == 50 {
        Some((22080u32, 110400u32))
    } else if level == 51 || level == 52 {
        Some((36864u32, 184320u32))
    } else {
        None
    }
}

fn level_limits(level: u32, constraint3: bool) -> (r: Option<(u32, u32)>)
    ensures
        r == spec_level_limits(level, constraint3),
{
    match level {
        9 | 10 => Some((99, 396)),
        11 => if constraint3 { Some((99, 396)) } else { Some((396, 900)) },
        12 | 13 | 20 => Some((396, 2376)),
        21 => Some((792, 4752)),
        22 | 30 => Some((1620, 8100)),
        31 => Some((3600, 18000)),
        32 => Some((5120, 20480)),
        40 | 41 => Some((8192, 32768)),
        42 => Some((8704, 34816)),
        50 => Some((22080, 110400)),
        51 | 52 => Some((36864, 184320)),
        _ => None,
    }
}

/// Whether a picture dimension of `mbs` macroblocks is refused for a level
/// whose largest frame is `max_fs` (the largest level's frame is tolerated).
pub open spec fn spec_dimension_refused(mbs: u32, max_fs: u32) -> bool {
    mbs == 0 || mbs > MAX_MB_SIZE || (mbs * mbs > 8 * max_fs && mbs * mbs > 8 * 36864)
}

fn dimension_refused(mbs: u32, max_fs: u32) -> (r: bool)
    ensures
        r == spec_dimension_refused(mbs, max_fs),
{
    let m = mbs as u64;
    proof {
        assert(m * m <= 0xffff_ffffu64 * 0xffff_ffffu64) by (nonlinear_arith) requires m <= 0xffff_ffffu64;
    }
    let square = m * m;
    mbs == 0 || mbs > MAX_MB_SIZE || (square > 8 * (max_fs as u64) && square > 8 * 36864u64)
}

/// The reader after `n` CPB entries of HRD parameters, read errors ignored.
pub open spec fn hrd_entries(s: Bits, n: nat) -> Bits
    decreases n,
{
    if n == 0 {
        s
    } else {
        hrd_entries(spec_u(spec_ue(spec_ue(s).1).1, 1).1, (n - 1) as nat)
    }
}

/// The reader after `n` five-bit HRD fields, read errors ignored.
pub open spec fn hrd_fields(s: Bits, n: nat) -> Bits
    decreases n,
{
    if n == 0 { s } else { hrd_fields(spec_u(s, 5).1, (n - 1) as nat) }
}

/// The reader after HRD parameters: the CPB count's read yields 0 or its
/// error code, and one more entry than that is read.
pub open spec fn spec_hrd(s: Bits) -> Bits {
    let (c, s1) = spec_ue(s);
    let count: u32 = match c { Ok(_) => 0, Err(e) => e };
    let s3 = spec_u(spec_u(s1, 4).1, 4).1;
    hrd_fields(hrd_entries(s3, (count + 1) as nat), 4)
}

/// HRD parameters as the decoder reads them: every read error is ignored, and
/// the CPB count receives the return code of its read (0, or the error code)
/// in place of the value.
fn hrd(r: &mut Bits)
    requires
        old(r).base(),
        old(r).slack() <= 16 + 0x4000,
    ensures
        final(r).base(),
        final(r).slack() <= relax(old(r).slack()) + 2048,
        *final(r) == spec_hrd(*old(r)),
{
    let count: u32 = match r.ue() {
        Ok(_) => 0,
        Err(e) => e.0,
    };
    assert(count <= 12);
    let _ = r.u(4);
    let _ = r.u(4);
    let ghost s3 = *r;
    assert(count == (match spec_ue(*old(r)).0 { Ok(_) => 0u32, Err(e) => e }));
    let mut i: u32 = 0;
    while i <= count
        invariant
            count <= 12,
            i <= count + 1,
            r.base(),
            old(r).slack() <= 16 + 0x4000,
            r.slack() <= relax(old(r).slack()) + 96 + 96 * i,
            hrd_entries(s3, (count + 1) as nat) == hrd_entries(*r, (count + 1 - i) as nat),
        decreases count + 1 - i,
    {
        let _ = r.ue();
        let _ = r.ue();
        let _ = r.flag();
        i = i + 1;
    }
    let ghost s4 = *r;
    assert(s4 == hrd_entries(s3, (count + 1) as nat));
    let mut k: u32 = 0;
    while k < 4
        invariant
            k <= 4,
            r.base(),
            old(r).slack() <= 16 + 0x4000,
            r.slack() <= relax(old(r).slack()) + 96 + 96 * 13 + 32 * k,
            hrd_fields(s4, 4) == hrd_fields(*r, (4 - k) as nat),
        decreases 4 - k,
    {
        let _ = r.u(5);
        k = k + 1;
    }
}

/// The reader after skipping `n` bits, or none where the read fails.
pub open spec fn sk_u(o: Option<Bits>, n: u32) -> Option<Bits> {
    match o {
        None => None,
        Some(s) => match rd_u(s, n) {
            Some((_, t)) => Some(t),
            None => None,
        },
    }
}

/// The reader after skipping an Exp-Golomb code, or none where it fails.
pub open spec fn sk_ue(o: Option<Bits>) -> Option<Bits> {
    match o {
        None => None,
        Some(s) => match rd_ue(s) {
            Some((_, t)) => Some(t),
            None => None,
        },
    }
}

/// The reader after a flag and, where it is set, what `then` reads.
pub open spec fn vui_aspect(o: Option<Bits>) -> Option<Bits> {
    match o {
        None => None,
        Some(s) => match rd_flag(s) {
            None => None,
            Some((f, s1)) => if !f {
                Some(s1)
            } else {
                match rd_u(s1, 8) {
                    None => None,
                    Some((idc, s2)) => if idc == 255 { sk_u(sk_u(Some(s2), 16), 16) } else { Some(s2) },
                }
            },
        },
    }
}

/// The overscan fields of a VUI.
pub open spec fn vui_overscan(o: Option<Bits>) -> Option<Bits> {
    match o {
        None => None,
        Some(s) => match rd_flag(s) {
            None => None,
            Some((f, s1)) => if f { sk_u(Some(s1), 1) } else { Some(s1) },
        },
    }
}

/// The video signal fields of a VUI.
pub open spec fn vui_signal(o: Option<Bits>) -> Option<Bits> {
    match o {
        None => None,
        Some(s) => match rd_flag(s) {
            None => None,
            Some((f, s1)) => if !f {
                Some(s1)
            } else {
                match sk_u(sk_u(Some(s1), 3), 1) {
                    None => None,
                    Some(s2) => match rd_flag(s2) {
                        None => None,
                        Some((g, s3)) => if g { sk_u(sk_u(sk_u(Some(s3), 8), 8), 8) } else { Some(s3) },
                    },
                }
            },
        },
    }
}

/// The chroma location fields of a VUI.
pub open spec fn vui_chroma(o: Option<Bits>) -> Option<Bits> {
    match o {
        None => None,
        Some(s) => match rd_flag(s) {
            None => None,
            Some((f, s1)) => if f { sk_ue(sk_ue(Some(s1))) } else { Some(s1) },
        },
    }
}

/// The timing fields of a VUI.
pub open spec fn vui_timing(o: Option<Bits>) -> Option<Bits> {
    match o {
        None => None,
        Some(s) => match rd_flag(s) {
            None => None,
            Some((f, s1)) => if f { sk_u(sk_u(sk_u(sk_u(sk_u(Some(s1), 16), 16), 16), 16), 1) } else { Some(s1) },
        },
    }
}

/// The reader after the VUI fields before the HRD parameters.
pub open spec fn vui_head(s: Bits) -> Option<Bits> {
    vui_timing(vui_chroma(vui_signal(vui_overscan(vui_aspect(Some(s))))))
}

/// The reader after `n` Exp-Golomb codes, or none where one fails.
pub open spec fn vui_codes(s: Bits, n: nat) -> Option<Bits>
    decreases n,
{
    if n == 0 {
        Some(s)
    } else {
        match spec_ue(s) {
            (Ok(_), t) => vui_codes(t, (n - 1) as nat),
            (Err(_), _) => None,
        }
    }
}

/// The reader after the bitstream restriction fields.
pub open spec fn vui_restriction(s: Bits) -> Option<Bits> {
    match spec_u(s, 1) {
        (Err(_), _) => None,
        (Ok(rest), s1) => if rest == 1 {
            match spec_u(s1, 1) {
                (Err(_), _) => None,
                (Ok(_), s2) => vui_codes(s2, 6),
            }
        } else {
            Some(s1)
        },
    }
}

/// The reader after the HRD parameters and what follows them.
pub open spec fn vui_tail(s: Bits) -> Option<Bits> {
    match rd_flag(s) {
        None => None,
        Some((nal, s1)) => {
            let s2 = if nal { spec_hrd(s1) } else { s1 };
            match spec_u(s2, 1) {
                (Err(_), _) => None,
                (Ok(v), s3) => {
                    let vcl = v == 1;
                    let s4 = if vcl { spec_hrd(s3) } else { s3 };
                    let s5 = if nal || vcl { spec_u(s4, 1).1 } else { s4 };
                    match spec_u(s5, 1) {
                        (Err(_), _) => None,
                        (Ok(_), s6) => vui_restriction(s6),
                    }
                },
            }
        },
    }
}

/// The reader after a VUI, or none where the decoder rejects it.
pub open spec fn spec_vui(s: Bits) -> Option<Bits> {
    match vui_head(s) {
        None => None,
        Some(t) => vui_tail(t),
    }
}

/// Reads a flag and, where it is set, `n` more bits.
fn flagged_u(r: &mut Bits, n: u32) -> (res: Result<(), Rejected>)
    requires
        old(r).tight(),
        n <= 32,
    ensures
        res is Ok ==> final(r).tight(),
        final(r).base(),
        match (match rd_flag(*old(r)) {
            None => None,
            Some((f, s1)) => if f { sk_u(Some(s1), n) } else { Some(s1) },
        }) {
            None => res is Err,
            Some(t) => res is Ok && *final(r) == t,
        },
{
    if r.read_flag()? {
        r.read_u(n)?;
    }
    Ok(())
}

/// A flag read is a one-bit read.
proof fn lemma_flag_bit(s: Bits)
    ensures
        (match rd_flag(s) { Some((_, t)) => Some(t), None => None }) == sk_u(Some(s), 1),
{
    reveal(rd_flag);
}

/// The aspect ratio fields of a VUI.
fn read_aspect(r: &mut Bits) -> (res: Result<(), Rejected>)
    requires
        old(r).tight(),
    ensures
        res is Ok ==> final(r).tight(),
        final(r).base(),
        match vui_aspect(Some(*old(r))) {
            None => res is Err,
            Some(t) => res is Ok && *final(r) == t,
        },
{
    if r.read_flag()? {
        let idc = r.read_u(8)?;
        if idc == 255 {
            r.read_u(16)?;
            r.read_u(16)?;
        }
    }
    Ok(())
}

/// The video signal fields of a VUI.
fn read_signal(r: &mut Bits) -> (res: Result<(), Rejected>)
    requires
        old(r).tight(),
    ensures
        res is Ok ==> final(r).tight(),
        final(r).base(),
        match vui_signal(Some(*old(r))) {
            None => res is Err,
            Some(t) => res is Ok && *final(r) == t,
        },
{
    if r.read_flag()? {
        r.read_u(3)?;
        let ghost s = *r;
        proof {
            lemma_flag_bit(s);
        }
        r.read_flag()?;
        if r.read_flag()? {
            r.read_u(8)?;
            r.read_u(8)?;
            r.read_u(8)?;
        }
    }
    Ok(())
}

/// The chroma location fields of a VUI.
fn read_chroma(r: &mut Bits) -> (res: Result<(), Rejected>)
    requires
        old(r).tight(),
    ensures
        res is Ok ==> final(r).tight(),
        final(r).base(),
        match vui_chroma(Some(*old(r))) {
            None => res is Err,
            Some(t) => res is Ok && *final(r) == t,
        },
{
    if r.read_flag()? {
        r.read_ue()?;
        r.read_ue()?;
    }
    Ok(())
}

/// The timing fields of a VUI.
fn read_timing(r: &mut Bits) -> (res: Result<(), Rejected>)
    requires
        old(r).tight(),
    ensures
        res is Ok ==> final(r).tight(),
        final(r).base(),
        match vui_timing(Some(*old(r))) {
            None => res is Err,
            Some(t) => res is Ok && *final(r) == t,
        },
{
    if r.read_flag()? {
        r.read_u(16)?;
        r.read_u(16)?;
        r.read_u(16)?;
        r.read_u(16)?;
        let ghost s = *r;
        proof {
            lemma_flag_bit(s);
        }
        r.read_flag()?;
    }
    Ok(())
}

/// The VUI fields before the HRD parameters.
fn read_vui_head(r: &mut Bits) -> (res: Result<(), Rejected>)
    requires
        old(r).tight(),
    ensures
        res is Ok ==> final(r).tight(),
        final(r).base(),
        match vui_head(*old(r)) {
            None => res is Err,
            Some(t) => res is Ok && *final(r) == t,
        },
{
    read_aspect(r)?;
    flagged_u(r, 1)?;
    read_signal(r)?;
    read_chroma(r)?;
    read_timing(r)?;
    Ok(())
}

/// The bitstream restriction fields of a VUI.
fn read_restriction(r: &mut Bits) -> (res: Result<(), Rejected>)
    requires
        old(r).wf(),
    ensures
        final(r).base(),
        match vui_restriction(*old(r)) {
            None => res is Err,
            Some(t) => res is Ok && *final(r) == t,
        },
{
    let restriction = match r.flag() {
        Ok(v) => v,
        Err(_) => return Err(Rejected),
    };
    if restriction {
        match r.flag() {
            Ok(_) => {},
            Err(_) => return Err(Rejected),
        }
        let ghost s8 = *r;
        let mut k: u32 = 0;
        while k < 6
            invariant
                k <= 6,
                r.wf(),
                vui_codes(s8, 6) == vui_codes(*r, (6 - k) as nat),
                vui_restriction(*old(r)) == vui_codes(s8, 6),
            decreases 6 - k,
        {
            let ghost before = *r;
            match r.ue() {
                Ok(_) => {},
                Err(_) => {
                    assert(vui_codes(before, (6 - k) as nat) is None);
                    return Err(Rejected);
                },
            }
            k = k + 1;
        }
    }
    Ok(())
}

/// The decoder's `ParseVui`: its values are unused, only its reads and
/// failures matter.
fn vui(r: &mut Bits) -> (res: Result<(), Rejected>)
    requires
        old(r).tight(),
    ensures
        final(r).base(),
        match spec_vui(*old(r)) {
            None => res is Err,
            Some(t) => res is Ok && *final(r) == t,
        },
{
    read_vui_head(r)?;
    read_vui_tail(r)
}

/// The HRD parameters of a VUI and what follows them.
#[verifier::rlimit(40)]
fn read_vui_tail(r: &mut Bits) -> (res: Result<(), Rejected>)
    requires
        old(r).tight(),
    ensures
        final(r).base(),
        match vui_tail(*old(r)) {
            None => res is Err,
            Some(t) => res is Ok && *final(r) == t,
        },
{
    let nal_hrd = r.read_flag()?;
    if nal_hrd {
        hrd(r);
    }
    let vcl_hrd = match r.flag() {
        Ok(v) => v,
        Err(_) => return Err(Rejected),
    };
    if vcl_hrd {
        hrd(r);
    }
    if nal_hrd || vcl_hrd {
        let _ = r.flag();
    }
    match r.flag() {
        Ok(_) => {},
        Err(_) => return Err(Rejected),
    }
    read_restriction(r)
}

/// What the decoder keeps of a sequence parameter set. The scaling lists are
/// stored flat: six 4x4 lists of 16 entries, two 8x8 lists of 64.
pub struct Sps {
    pub chroma_format: u32,
    pub scaling_4x4: Vec<u8>,
    pub scaling_8x8: Vec<u8>,
    pub seq_scaling: bool,
    pub log2_max_frame_num: u32,
    pub poc_type: u32,
    pub log2_max_poc_lsb: u32,
    pub delta_pic_order_always_zero: bool,
    pub num_ref_frames: u32,
    pub mb_width: u32,
    pub mb_height: u32,
    pub frame_mbs_only: bool,
}

impl Sps {
    /// What every stored SPS satisfies after the decoder's checks.
    pub open spec fn valid(&self) -> bool {
        &&& self.chroma_format <= 1
        &&& self.scaling_4x4@.len() == 96
        &&& self.scaling_8x8@.len() == 128
        &&& 4 <= self.log2_max_frame_num <= 16
        &&& self.poc_type <= 2
        &&& self.log2_max_poc_lsb <= 16
        &&& self.num_ref_frames <= 16
        &&& 1 <= self.mb_width
        &&& 1 <= self.mb_height
        &&& self.mb_width * self.mb_height <= MAX_MB_SIZE
        &&& self.frame_mbs_only
    }

    /// The defaults before parsing: 4:2:0, flat scaling lists.
    pub fn new() -> (r: Sps)
        ensures
            r.chroma_format == 1,
            r.scaling_4x4@ == Seq::new(96, |i: int| 16u8),
            r.scaling_8x8@ == Seq::new(128, |i: int| 16u8),
            !r.seq_scaling,
            r.log2_max_frame_num == 0,
            r.poc_type == 0,
            r.log2_max_poc_lsb == 0,
            !r.delta_pic_order_always_zero,
            r.num_ref_frames == 0,
            r.mb_width == 0,
            r.mb_height == 0,
            !r.frame_mbs_only,
    {
        Sps {
            chroma_format: 1,
            scaling_4x4: flat_list(96),
            scaling_8x8: flat_list(128),
            seq_scaling: false,
            log2_max_frame_num: 0,
            poc_type: 0,
            log2_max_poc_lsb: 0,
            delta_pic_order_always_zero: false,
            num_ref_frames: 0,
            mb_width: 0,
            mb_height: 0,
            frame_mbs_only: false,
        }
    }
}

/// `n` entries of the flat scaling value 16.
fn flat_list(n: usize) -> (r: Vec<u8>)
    ensures
        r@ == Seq::new(n as nat, |i: int| 16u8),
{
    let mut v: Vec<u8> = Vec::new();
    while v.len() < n
        invariant
            v.len() <= n,
            v@ == Seq::new(v.len() as nat, |i: int| 16u8),
        decreases n - v.len(),
    {
        v.push(16);
    }
    v
}

/// What the decoder keeps of a picture parameter set.
#[derive(Clone, Copy)]
pub struct Pps {
    pub sps_id: usize,
    pub cabac: bool,
    pub pic_order_present: bool,
    pub slice_groups: u32,
    pub ref_idx: (u32, u32),
    pub weighted_pred: bool,
    pub weighted_bipred: u32,
    pub init_qp: i32,
    pub deblocking_control: bool,
    pub redundant_pic_cnt: bool,
}

impl Pps {
    /// What every stored PPS satisfies after the decoder's checks.
    pub open spec fn valid(&self) -> bool {
        &&& self.sps_id < MAX_SPS_COUNT
        &&& self.slice_groups <= 8
        &&& self.ref_idx.0 <= MAX_REF_PIC_COUNT
        &&& self.ref_idx.1 <= MAX_REF_PIC_COUNT
        &&& 0 <= self.init_qp <= 51
    }
}

/// The standard's default 4x4 scaling lists, intra then inter.
pub open spec fn default_4x4_lists() -> Seq<u8> {
    seq![
        6u8, 13, 20, 28, 13, 20, 28, 32, 20, 28, 32, 37, 28, 32, 37, 42,
        10, 14, 20, 24, 14, 20, 24, 27, 20, 24, 27, 30, 24, 27, 30, 34,
    ]
}

/// The standard's default 8x8 scaling lists, intra then inter.
pub open spec fn default_8x8_lists() -> Seq<u8> {
    seq![
        6u8, 10, 13, 16, 18, 23, 25, 27, 10, 11, 16, 18, 23, 25, 27, 29, 13, 16, 18, 23, 25, 27, 29,
        31, 16, 18, 23, 25, 27, 29, 31, 33, 18, 23, 25, 27, 29, 31, 33, 36, 23, 25, 27, 29, 31, 33,
        36, 38, 25, 27, 29, 31, 33, 36, 38, 40, 27, 29, 31, 33, 36, 38, 40, 42,
        9, 13, 15, 17, 19, 21, 22, 24, 13, 13, 17, 19, 21, 22, 24, 25, 15, 17, 19, 21, 22, 24, 25,
        27, 17, 19, 21, 22, 24, 25, 27, 28, 19, 21, 22, 24, 25, 27, 28, 30, 21, 22, 24, 25, 27, 28,
        30, 32, 22, 24, 25, 27, 28, 30, 32, 33, 24, 25, 27, 28, 30, 32, 33, 35,
    ]
}

/// Entry `k` of the standard's default 4x4 scaling list `table` (0 intra, 1 inter).
fn default_4x4(table: usize, k: usize) -> (r: u8)
    requires
        table < 2,
        k < 16,
    ensures
        r == default_4x4_lists()[table * 16 + k],
        r != 0,
{
    let lists: [u8; 32] = [
        6, 13, 20, 28, 13, 20, 28, 32, 20, 28, 32, 37, 28, 32, 37, 42,
        10, 14, 20, 24, 14, 20, 24, 27, 20, 24, 27, 30, 24, 27, 30, 34,
    ];
    assert(lists@ =~= default_4x4_lists());
    let r = lists[table * 16 + k];
    assert(r != 0);
    r
}

/// Entry `k` of the standard's default 8x8 scaling list `table` (0 intra, 1 inter).
fn default_8x8(table: usize, k: usize) -> (r: u8)
    requires
        table < 2,
        k < 64,
    ensures
        r == default_8x8_lists()[table * 64 + k],
        r != 0,
{
    let lists: [u8; 128] = [
        6, 10, 13, 16, 18, 23, 25, 27, 10, 11, 16, 18, 23, 25, 27, 29, 13, 16, 18, 23, 25, 27, 29,
        31, 16, 18, 23, 25, 27, 29, 31, 33, 18, 23, 25, 27, 29, 31, 33, 36, 23, 25, 27, 29, 31, 33,
        36, 38, 25, 27, 29, 31, 33, 36, 38, 40, 27, 29, 31, 33, 36, 38, 40, 42,
        9, 13, 15, 17, 19, 21, 22, 24, 13, 13, 17, 19, 21, 22, 24, 25, 15, 17, 19, 21, 22, 24, 25,
        27, 17, 19, 21, 22, 24, 25, 27, 28, 19, 21, 22, 24, 25, 27, 28, 30, 21, 22, 24, 25, 27, 28,
        30, 32, 22, 24, 25, 27, 28, 30, 32, 33, 24, 25, 27, 28, 30, 32, 33, 35,
    ];
    assert(lists@ =~= default_8x8_lists());
    let r = lists[table * 64 + k];
    assert(r != 0);
    r
}

/// The scaling list read into `out` from entry `j` of `size` at `start`,
/// with the last value and the next one so far: whether the default list is
/// asked for, the entries and the reader after; none where a read fails or a
/// delta is out of range.
pub open spec fn spec_scaling_list(s: Bits, out: Seq<u8>, start: int, size: int, j: int, last: int, next: int)
    -> Option<(bool, Seq<u8>, Bits)>
    decreases size - j,
{
    if j >= size {
        Some((false, out, s))
    } else if next != 0 {
        match rd_se(s) {
            None => None,
            Some((d, s1)) => if d < -128 || d > 127 {
                None
            } else {
                let nx = (last + d + 256) % 256;
                if j == 0 && nx == 0 {
                    Some((true, out, s1))
                } else {
                    let slot = if nx == 0 { last } else { nx };
                    spec_scaling_list(s1, out.update(start + j, slot as u8), start, size, j + 1, slot, nx)
                }
            },
        }
    } else {
        spec_scaling_list(s, out.update(start + j, last as u8), start, size, j + 1, last, next)
    }
}

/// The decoder's `SetScalingListValue` on the `size` entries of `out` at
/// `start`: a delta outside -128..=127 rejects; a first next value of 0 asks
/// for the default list (`true`). Otherwise every entry written is nonzero.
fn scaling_list(r: &mut Bits, out: &mut Vec<u8>, start: usize, size: usize) -> (res: Result<bool, Rejected>)
    requires
        old(r).tight(),
        start + size <= old(out)@.len(),
        size >= 1,
    ensures
        final(r).base(),
        res is Ok ==> final(r).tight(),
        final(out)@.len() == old(out)@.len(),
        forall|k: int| 0 <= k < final(out)@.len() && !(start <= k < start + size) ==> final(out)@[k] == old(out)@[k],
        res == Ok::<bool, Rejected>(false) ==> forall|k: int| start <= k < start + size ==> final(out)@[k] != 0,
        match spec_scaling_list(*old(r), old(out)@, start as int, size as int, 0, 8, 8) {
            None => res is Err,
            Some((d, o, t)) => res == Ok::<bool, Rejected>(d) && final(out)@ == o && *final(r) == t,
        },
{
    let len = out.len();
    let mut last: i32 = 8;
    let mut next: i32 = 8;
    let mut j: usize = 0;
    while j < size
        invariant
            len == out@.len(),
            r.tight(),
            start + size <= out@.len(),
            out@.len() == old(out)@.len(),
            j <= size,
            1 <= last <= 255,
            0 <= next <= 255,
            forall|k: int| 0 <= k < out@.len() && !(start <= k < start + size) ==> out@[k] == old(out)@[k],
            forall|k: int| start <= k < start + j ==> out@[k] != 0,
            spec_scaling_list(*old(r), old(out)@, start as int, size as int, 0, 8, 8)
                == spec_scaling_list(*r, out@, start as int, size as int, j as int, last as int, next as int),
        decreases size - j,
    {
        if next != 0 {
            let delta = r.read_se()?;
            if delta < -128 || delta > 127 {
                return Err(Rejected);
            }
            next = (last + delta + 256) % 256;
            if j == 0 && next == 0 {
                return Ok(true);
            }
        }
        let slot: u8 = if next == 0 { last as u8 } else { next as u8 };
        out.set(start + j, slot);
        last = slot as i32;
        j = j + 1;
    }
    Ok(false)
}

/// The number of lists a scaling matrix has: for an SPS 8, or 12 in 4:4:4;
/// for a PPS 6, and with the 8x8 transform 2 more, or 6 more in 4:4:4.
pub open spec fn list_count(chroma: u32, t8: Option<bool>) -> int {
    match t8 {
        None => if chroma != 3 { 8 } else { 12 },
        Some(t) => 6 + (if t { 1int } else { 0int }) * (if chroma != 3 { 2int } else { 6int }),
    }
}

/// 4x4 list `i` with its first `n` entries set to its default.
pub open spec fn fill4_default(l: Seq<u8>, i: int, n: int) -> Seq<u8> {
    Seq::new(l.len(), |x: int| if i * 16 <= x < i * 16 + n { default_4x4_lists()[(i / 3) * 16 + (x - i * 16)] } else { l[x] })
}

/// 8x8 list `i` (6 or 7) with its first `n` entries set to its default.
pub open spec fn fill8_default(l: Seq<u8>, i: int, n: int) -> Seq<u8> {
    Seq::new(l.len(), |x: int| if (i - 6) * 64 <= x < (i - 6) * 64 + n {
        default_8x8_lists()[((i - 6) % 2) * 64 + (x - (i - 6) * 64)]
    } else {
        l[x]
    })
}

/// The fallback for an absent 4x4 list `i`: the list before it, else the
/// SPS's list where a PPS inherits it, else the default.
pub open spec fn absent4_value(l: Seq<u8>, i: int, init: bool, s4: Seq<u8>, k: int) -> u8 {
    if i != 0 && i != 3 {
        l[(i - 1) * 16 + k]
    } else if init {
        s4[(i / 3) * 48 + k]
    } else {
        default_4x4_lists()[(i / 3) * 16 + k]
    }
}

/// 4x4 list `i` with its first `n` entries set to its fallback.
pub open spec fn fill4_absent(l: Seq<u8>, i: int, init: bool, s4: Seq<u8>, n: int) -> Seq<u8> {
    Seq::new(l.len(), |x: int| if i * 16 <= x < i * 16 + n { absent4_value(l, i, init, s4, x - i * 16) } else { l[x] })
}

/// 8x8 list `i` (6 or 7) with its first `n` entries set to its fallback:
/// the SPS's list where a PPS inherits it, else the default.
pub open spec fn fill8_absent(l: Seq<u8>, i: int, init: bool, s8: Seq<u8>, n: int) -> Seq<u8> {
    Seq::new(l.len(), |x: int| if (i - 6) * 64 <= x < (i - 6) * 64 + n {
        if init { s8[(i % 2) * 64 + (x - (i - 6) * 64)] } else { default_8x8_lists()[(i % 2) * 64 + (x - (i - 6) * 64)] }
    } else {
        l[x]
    })
}

/// The reader and lists after list `i` of a scaling matrix.
pub open spec fn list_step(s: Bits, l4: Seq<u8>, l8: Seq<u8>, i: int, init: bool, s4: Seq<u8>, s8: Seq<u8>)
    -> Option<(Bits, Seq<u8>, Seq<u8>)>
{
    match rd_flag(s) {
        None => None,
        Some((present, s1)) => if present {
            if i < 6 {
                match spec_scaling_list(s1, l4, i * 16, 16, 0, 8, 8) {
                    None => None,
                    Some((d, o, t)) => Some((t, if d { fill4_default(o, i, 16) } else { o }, l8)),
                }
            } else if i < 8 {
                match spec_scaling_list(s1, l8, (i - 6) * 64, 64, 0, 8, 8) {
                    None => None,
                    Some((d, o, t)) => Some((t, l4, if d { fill8_default(o, i, 64) } else { o })),
                }
            } else {
                match spec_scaling_list(s1, Seq::new(64, |x: int| 16u8), 0, 64, 0, 8, 8) {
                    None => None,
                    Some((_, _, t)) => Some((t, l4, l8)),
                }
            }
        } else if i < 6 {
            Some((s1, fill4_absent(l4, i, init, s4, 16), l8))
        } else if i < 8 {
            Some((s1, l4, fill8_absent(l8, i, init, s8, 64)))
        } else {
            Some((s1, l4, l8))
        },
    }
}

/// The reader and lists after lists `i` to `count` of a scaling matrix,
/// or none where the decoder rejects one.
pub open spec fn list_steps(s: Bits, l4: Seq<u8>, l8: Seq<u8>, i: int, count: int, init: bool, s4: Seq<u8>, s8: Seq<u8>)
    -> Option<(Bits, Seq<u8>, Seq<u8>)>
    decreases count - i,
{
    if i >= count {
        Some((s, l4, l8))
    } else {
        match list_step(s, l4, l8, i, init, s4, s8) {
            None => None,
            Some((t, a, b)) => list_steps(t, a, b, i + 1, count, init, s4, s8),
        }
    }
}

/// List `i` of a scaling matrix.
fn scaling_list_step(
    r: &mut Bits,
    sps: &Sps,
    i: usize,
    init: bool,
    lists4: &mut Vec<u8>,
    lists8: &mut Vec<u8>,
) -> (res: Result<(), Rejected>)
    requires
        old(r).tight(),
        i < 12,
        sps.scaling_4x4@.len() == 96,
        sps.scaling_8x8@.len() == 128,
        old(lists4)@.len() == 96,
        old(lists8)@.len() == 128,
    ensures
        final(r).base(),
        res is Ok ==> final(r).tight(),
        final(lists4)@.len() == 96,
        final(lists8)@.len() == 128,
        match list_step(*old(r), old(lists4)@, old(lists8)@, i as int, init, sps.scaling_4x4@, sps.scaling_8x8@) {
            None => res is Err,
            Some((t, a, b)) => res is Ok && *final(r) == t && final(lists4)@ == a && final(lists8)@ == b,
        },
{
    let present = r.read_flag()?;
    if present {
        if i < 6 {
            if scaling_list(r, lists4, i * 16, 16)? {
                let ghost base = lists4@;
                let mut k: usize = 0;
                while k < 16
                    invariant
                        i < 6,
                        k <= 16,
                        lists4@.len() == 96,
                        base.len() == 96,
                        lists4@ == fill4_default(base, i as int, k as int),
                    decreases 16 - k,
                {
                    lists4.set(i * 16 + k, default_4x4(i / 3, k));
                    assert(lists4@ =~= fill4_default(base, i as int, k + 1));
                    k = k + 1;
                }
            }
        } else if i - 6 < 2 {
            if scaling_list(r, lists8, (i - 6) * 64, 64)? {
                let ghost base = lists8@;
                let mut k: usize = 0;
                while k < 64
                    invariant
                        6 <= i < 8,
                        k <= 64,
                        lists8@.len() == 128,
                        base.len() == 128,
                        lists8@ == fill8_default(base, i as int, k as int),
                    decreases 64 - k,
                {
                    lists8.set((i - 6) * 64 + k, default_8x8((i - 6) % 2, k));
                    assert(lists8@ =~= fill8_default(base, i as int, k + 1));
                    k = k + 1;
                }
            }
        } else {
            // The 4:4:4 chroma 8x8 lists are read, not kept.
            let mut scratch: Vec<u8> = flat_list(64);
            scaling_list(r, &mut scratch, 0, 64)?;
        }
    } else if i < 6 {
        let ghost base = lists4@;
        let mut k: usize = 0;
        while k < 16
            invariant
                i < 6,
                k <= 16,
                lists4@.len() == 96,
                base.len() == 96,
                sps.scaling_4x4@.len() == 96,
                lists4@ == fill4_absent(base, i as int, init, sps.scaling_4x4@, k as int),
            decreases 16 - k,
        {
            let v = if i != 0 && i != 3 {
                lists4[(i - 1) * 16 + k]
            } else if init {
                sps.scaling_4x4[(i / 3) * 48 + k]
            } else {
                default_4x4(i / 3, k)
            };
            assert(v == absent4_value(base, i as int, init, sps.scaling_4x4@, k as int));
            lists4.set(i * 16 + k, v);
            assert(lists4@ =~= fill4_absent(base, i as int, init, sps.scaling_4x4@, k + 1));
            k = k + 1;
        }
    } else if i - 6 < 2 {
        let ghost base = lists8@;
        let mut k: usize = 0;
        while k < 64
            invariant
                6 <= i < 8,
                k <= 64,
                lists8@.len() == 128,
                base.len() == 128,
                sps.scaling_8x8@.len() == 128,
                lists8@ == fill8_absent(base, i as int, init, sps.scaling_8x8@, k as int),
            decreases 64 - k,
        {
            let v = if init { sps.scaling_8x8[(i % 2) * 64 + k] } else { default_8x8(i % 2, k) };
            lists8.set((i - 6) * 64 + k, v);
            assert(lists8@ =~= fill8_absent(base, i as int, init, sps.scaling_8x8@, k + 1));
            k = k + 1;
        }
    }
    Ok(())
}

/// The decoder's `ParseScalingList` for an SPS (`pps_transform_8x8` is
/// `None`) or for a PPS: each list present in the stream is read, each absent
/// one falls back to its predecessor or its default.
fn scaling_lists(
    r: &mut Bits,
    sps: &Sps,
    pps_transform_8x8: Option<bool>,
    lists4: &mut Vec<u8>,
    lists8: &mut Vec<u8>,
) -> (res: Result<(), Rejected>)
    requires
        old(r).tight(),
        sps.scaling_4x4@.len() == 96,
        sps.scaling_8x8@.len() == 128,
        old(lists4)@.len() == 96,
        old(lists8)@.len() == 128,
    ensures
        final(r).base(),
        res is Ok ==> final(r).tight(),
        final(lists4)@.len() == 96,
        final(lists8)@.len() == 128,
        match list_steps(*old(r), old(lists4)@, old(lists8)@, 0, list_count(sps.chroma_format, pps_transform_8x8),
            pps_transform_8x8 is Some && sps.seq_scaling, sps.scaling_4x4@, sps.scaling_8x8@) {
            None => res is Err,
            Some((t, a, b)) => res is Ok && *final(r) == t && final(lists4)@ == a && final(lists8)@ == b,
        },
{
    let count: usize = match pps_transform_8x8 {
        None => if sps.chroma_format != 3 { 8 } else { 12 },
        Some(t8) => 6 + (if t8 { 1usize } else { 0usize }) * (if sps.chroma_format != 3 { 2usize } else { 6usize }),
    };
    let init = pps_transform_8x8.is_some() && sps.seq_scaling;
    let mut i: usize = 0;
    while i < count
        invariant
            r.tight(),
            count <= 12,
            count == list_count(sps.chroma_format, pps_transform_8x8),
            init == (pps_transform_8x8 is Some && sps.seq_scaling),
            sps.scaling_4x4@.len() == 96,
            sps.scaling_8x8@.len() == 128,
            lists4@.len() == 96,
            lists8@.len() == 128,
            list_steps(*old(r), old(lists4)@, old(lists8)@, 0, count as int, init, sps.scaling_4x4@, sps.scaling_8x8@)
                == list_steps(*r, lists4@, lists8@, i as int, count as int, init, sps.scaling_4x4@, sps.scaling_8x8@),
        decreases count - i,
    {
        scaling_list_step(r, sps, i, init, lists4, lists8)?;
        i = i + 1;
    }
    Ok(())
}

/// How the decoder takes an SPS.
pub enum SpsResult {
    /// Stored under its id.
    Stored(usize, Sps),
    /// An unsupported profile: success without storing anything.
    Ignored,
}

/// The fields of a stored SPS as values.
pub struct SpsFields {
    pub chroma_format: u32,
    pub scaling_4x4: Seq<u8>,
    pub scaling_8x8: Seq<u8>,
    pub seq_scaling: bool,
    pub log2_max_frame_num: u32,
    pub poc_type: u32,
    pub log2_max_poc_lsb: u32,
    pub delta_pic_order_always_zero: bool,
    pub num_ref_frames: u32,
    pub mb_width: u32,
    pub mb_height: u32,
    pub frame_mbs_only: bool,
}

impl Sps {
    /// The SPS's fields as values.
    pub open spec fn fields(&self) -> SpsFields {
        SpsFields {
            chroma_format: self.chroma_format,
            scaling_4x4: self.scaling_4x4@,
            scaling_8x8: self.scaling_8x8@,
            seq_scaling: self.seq_scaling,
            log2_max_frame_num: self.log2_max_frame_num,
            poc_type: self.poc_type,
            log2_max_poc_lsb: self.log2_max_poc_lsb,
            delta_pic_order_always_zero: self.delta_pic_order_always_zero,
            num_ref_frames: self.num_ref_frames,
            mb_width: self.mb_width,
            mb_height: self.mb_height,
            frame_mbs_only: self.frame_mbs_only,
        }
    }
}

/// The profiles whose SPS the decoder takes.
pub open spec fn supported_profile(p: u32) -> bool {
    p == 66 || p == 77 || p == 83 || p == 86 || p == 88 || p == 100
}

/// The constraint flags from flag `c` of 6 on: whether constraint flag 3
/// is set (given `c3` so far), and the reader after them.
pub open spec fn sps_constraints(s: Bits, c: nat, c3: bool) -> Option<(bool, Bits)>
    decreases 6 - c,
{
    if c >= 6 {
        Some((c3, s))
    } else {
        match rd_flag(s) {
            None => None,
            Some((f, t)) => sps_constraints(t, c + 1, if c == 3 { f } else { c3 }),
        }
    }
}

/// The constraint flags, level and id of an SPS of a supported profile:
/// the id and the largest frame of its level, or none where the id is out
/// of range or the level unknown.
pub open spec fn sps_level(s: Bits) -> Option<(u32, u32, Bits)> {
    match sps_constraints(s, 0, false) {
        None => None,
        Some((c3, s1)) => match rd_u(s1, 2) {
            None => None,
            Some((_, s2)) => match rd_u(s2, 8) {
                None => None,
                Some((level, s3)) => match rd_ue(s3) {
                    None => None,
                    Some((id, s4)) => if id >= 32 { None } else {
                        match spec_level_limits(level, c3) {
                            None => None,
                            Some((max_fs, _)) => Some((id, max_fs, s4)),
                        }
                    },
                },
            },
        },
    }
}

/// The flat scaling lists.
pub open spec fn flat(n: nat) -> Seq<u8> {
    Seq::new(n, |i: int| 16u8)
}

/// The chroma format and scaling matrix of an SPS of the given profile:
/// (chroma format, sequence scaling flag, 4x4 lists, 8x8 lists, reader).
pub open spec fn sps_chroma(s: Bits, profile: u32) -> Option<(u32, bool, Seq<u8>, Seq<u8>, Bits)> {
    if profile == 83 || profile == 86 || profile == 100 {
        match rd_ue(s) {
            None => None,
            Some((chroma, s1)) => if chroma > 1 { None } else {
                match rd_ue(s1) {
                    None => None,
                    Some((a, s2)) => if a != 0 { None } else {
                        match rd_ue(s2) {
                            None => None,
                            Some((b, s3)) => if b != 0 { None } else {
                                match sk_u(Some(s3), 1) {
                                    None => None,
                                    Some(s4) => match rd_flag(s4) {
                                        None => None,
                                        Some((seq, s5)) => if !seq {
                                            Some((chroma, false, flat(96), flat(128), s5))
                                        } else {
                                            match list_steps(s5, flat(96), flat(128), 0, list_count(chroma, None), false, flat(96), flat(128)) {
                                                None => None,
                                                Some((t, l4, l8)) => Some((chroma, true, l4, l8, t)),
                                            }
                                        },
                                    },
                                }
                            },
                        }
                    },
                }
            },
        }
    } else {
        Some((1u32, false, flat(96), flat(128), s))
    }
}

/// The reader after `n` signed codes.
pub open spec fn skip_ses(s: Bits, n: nat) -> Option<Bits>
    decreases n,
{
    if n == 0 {
        Some(s)
    } else {
        match rd_se(s) {
            None => None,
            Some((_, t)) => skip_ses(t, (n - 1) as nat),
        }
    }
}

/// The picture order fields after the frame number size.
pub open spec fn sps_poc_type(s: Bits) -> Option<(u32, u32, bool, Bits)> {
    match rd_ue(s) {
        None => None,
        Some((poc, s1)) => if poc == 0 {
            match rd_ue(s1) {
                None => None,
                Some((lsb, s2)) => if lsb > 12 { None } else { Some((0u32, (4 + lsb) as u32, false, s2)) },
            }
        } else if poc == 1 {
            match rd_flag(s1) {
                None => None,
                Some((zero, s2)) => match skip_ses(s2, 2) {
                    None => None,
                    Some(s3) => match rd_ue(s3) {
                        None => None,
                        Some((cycle, s4)) => if cycle > 255 { None } else {
                            match skip_ses(s4, cycle as nat) {
                                None => None,
                                Some(s5) => Some((1u32, 0u32, zero, s5)),
                            }
                        },
                    },
                },
            }
        } else if poc > 2 {
            None
        } else {
            Some((poc, 0u32, false, s1))
        },
    }
}

/// The frame number size and picture order fields: (log2 of the largest
/// frame number, picture order type, log2 of the largest picture order
/// count, delta always zero, reader).
pub open spec fn sps_poc(s: Bits) -> Option<(u32, u32, u32, bool, Bits)> {
    match rd_ue(s) {
        None => None,
        Some((f, s1)) => if f > 12 { None } else {
            match sps_poc_type(s1) {
                None => None,
                Some((poc, lsb, zero, s2)) => Some(((4 + f) as u32, poc, lsb, zero, s2)),
            }
        },
    }
}

/// The reference frame count and picture size in macroblocks, checked
/// against the level, and the frame-only flag that must be set.
pub open spec fn sps_dims(s: Bits, max_fs: u32) -> Option<(u32, u32, u32, Bits)> {
    match rd_ue(s) {
        None => None,
        Some((refs, s1)) => match sk_u(Some(s1), 1) {
            None => None,
            Some(s2) => match rd_ue(s2) {
                None => None,
                Some((w, s3)) => if spec_dimension_refused(plus_one(w), max_fs) { None } else {
                    match rd_ue(s3) {
                        None => None,
                        Some((h, s4)) => if spec_dimension_refused(plus_one(h), max_fs) { None }
                            else if plus_one(w) * plus_one(h) > max_fs && plus_one(w) * plus_one(h) > 36864 { None }
                            else if refs > 16 { None }
                            else {
                                match rd_flag(s4) {
                                    None => None,
                                    Some((frames, s5)) => if !frames { None } else { Some((refs, plus_one(w), plus_one(h), s5)) },
                                }
                            },
                    }
                },
            },
        },
    }
}

/// The reader after the direct-8x8 flag, the cropping window and the VUI.
pub open spec fn sps_crop_vui(s: Bits, w: u32, h: u32) -> Option<Bits> {
    match sk_u(Some(s), 1) {
        None => None,
        Some(s1) => match rd_flag(s1) {
            None => None,
            Some((crop, s2)) => match (if crop { sps_crop(s2, w, h) } else { Some(s2) }) {
                None => None,
                Some(s3) => match rd_flag(s3) {
                    None => None,
                    Some((v, s4)) => if v { spec_vui(s4) } else { Some(s4) },
                },
            },
        },
    }
}

/// The cropping window, whose offsets must stay within half the picture.
pub open spec fn sps_crop(s: Bits, w: u32, h: u32) -> Option<Bits> {
    match rd_ue(s) {
        None => None,
        Some((l, s1)) => match rd_ue(s1) {
            None => None,
            Some((r, s2)) => if l + r > (w * 16) / 2 { None } else {
                match rd_ue(s2) {
                    None => None,
                    Some((t, s3)) => match rd_ue(s3) {
                        None => None,
                        Some((b, s4)) => if t + b > (h * 16) / 2 { None } else { Some(s4) },
                    },
                }
            },
        },
    }
}

/// What the decoder takes from an SPS: none where it rejects it; an
/// ignored profile; or the id and fields it stores; with the reader after.
pub open spec fn spec_parse_sps(s: Bits) -> Option<(Option<(usize, SpsFields)>, Bits)> {
    match rd_u(s, 8) {
        None => None,
        Some((profile, s1)) => if !supported_profile(profile) { Some((None, s1)) } else {
            match sps_level(s1) {
                None => None,
                Some((id, max_fs, s2)) => match sps_chroma(s2, profile) {
                    None => None,
                    Some((chroma, seq, l4, l8, s3)) => match sps_poc(s3) {
                        None => None,
                        Some((frame, poc, lsb, zero, s4)) => match sps_dims(s4, max_fs) {
                            None => None,
                            Some((refs, w, h, s5)) => match sps_crop_vui(s5, w, h) {
                                None => None,
                                Some(s6) => Some((Some((id as usize, SpsFields {
                                    chroma_format: chroma,
                                    scaling_4x4: l4,
                                    scaling_8x8: l8,
                                    seq_scaling: seq,
                                    log2_max_frame_num: frame,
                                    poc_type: poc,
                                    log2_max_poc_lsb: lsb,
                                    delta_pic_order_always_zero: zero,
                                    num_ref_frames: refs,
                                    mb_width: w,
                                    mb_height: h,
                                    frame_mbs_only: true,
                                })), s6)),
                            },
                        },
                    },
                },
            }
        },
    }
}

fn read_sps_level(r: &mut Bits) -> (res: Result<(u32, u32), Rejected>)
    requires
        old(r).tight(),
    ensures
        final(r).base(),
        res is Ok ==> final(r).tight(),
        match sps_level(*old(r)) {
            None => res is Err,
            Some((id, max_fs, t)) => res == Ok::<(u32, u32), Rejected>((id, max_fs)) && *final(r) == t,
        },
        res matches Ok((id, max_fs)) ==> id < 32 && max_fs <= 36864,
{
    let mut constraint3 = false;
    let mut c: u32 = 0;
    while c < 6
        invariant
            r.tight(),
            c <= 6,
            sps_constraints(*old(r), 0, false) == sps_constraints(*r, c as nat, constraint3),
        decreases 6 - c,
    {
        let f = r.read_flag()?;
        if c == 3 {
            constraint3 = f;
        }
        c = c + 1;
    }
    r.read_u(2)?;
    let level = r.read_u(8)?;
    let id = r.read_ue()?;
    if id >= 32 {
        return Err(Rejected);
    }
    let (max_fs, _max_dpb) = match level_limits(level, constraint3) {
        Some(limits) => limits,
        None => return Err(Rejected),
    };
    Ok((id, max_fs))
}

fn read_sps_chroma(r: &mut Bits, profile: u32, sps: &mut Sps) -> (res: Result<(), Rejected>)
    requires
        old(r).tight(),
        old(sps).chroma_format == 1,
        old(sps).scaling_4x4@ == flat(96),
        old(sps).scaling_8x8@ == flat(128),
        !old(sps).seq_scaling,
    ensures
        final(r).base(),
        res is Ok ==> final(r).tight(),
        final(sps).log2_max_frame_num == old(sps).log2_max_frame_num,
        final(sps).poc_type == old(sps).poc_type,
        final(sps).log2_max_poc_lsb == old(sps).log2_max_poc_lsb,
        final(sps).delta_pic_order_always_zero == old(sps).delta_pic_order_always_zero,
        final(sps).num_ref_frames == old(sps).num_ref_frames,
        final(sps).mb_width == old(sps).mb_width,
        final(sps).mb_height == old(sps).mb_height,
        final(sps).frame_mbs_only == old(sps).frame_mbs_only,
        match sps_chroma(*old(r), profile) {
            None => res is Err,
            Some((chroma, seq, l4, l8, t)) => res is Ok && *final(r) == t && final(sps).chroma_format == chroma
                && final(sps).seq_scaling == seq && final(sps).scaling_4x4@ == l4 && final(sps).scaling_8x8@ == l8,
        },
        res is Ok ==> final(sps).chroma_format <= 1 && final(sps).scaling_4x4@.len() == 96
            && final(sps).scaling_8x8@.len() == 128,
{
    if profile == 83 || profile == 86 || profile == 100 {
        sps.chroma_format = r.read_ue()?;
        if sps.chroma_format > 1 {
            return Err(Rejected);
        }
        if r.read_ue()? != 0 || r.read_ue()? != 0 {
            return Err(Rejected);
        }
        let ghost s3 = *r;
        proof {
            lemma_flag_bit(s3);
        }
        // qpprime_y_zero_transform_bypass_flag, which the decoder ignores.
        r.read_flag()?;
        sps.seq_scaling = r.read_flag()?;
        if sps.seq_scaling {
            let mut lists4 = flat_list(96);
            let mut lists8 = flat_list(128);
            scaling_lists(r, &*sps, None, &mut lists4, &mut lists8)?;
            sps.scaling_4x4 = lists4;
            sps.scaling_8x8 = lists8;
        }
    }
    Ok(())
}

/// Reads `n` signed codes.
fn read_ses(r: &mut Bits, n: u32) -> (res: Result<(), Rejected>)
    requires
        old(r).tight(),
    ensures
        final(r).base(),
        res is Ok ==> final(r).tight(),
        match skip_ses(*old(r), n as nat) {
            None => res is Err,
            Some(t) => res is Ok && *final(r) == t,
        },
{
    let mut k: u32 = 0;
    while k < n
        invariant
            r.tight(),
            k <= n,
            skip_ses(*old(r), n as nat) == skip_ses(*r, (n - k) as nat),
        decreases n - k,
    {
        r.read_se()?;
        k = k + 1;
    }
    Ok(())
}

fn read_sps_poc(r: &mut Bits) -> (res: Result<(u32, u32, u32, bool), Rejected>)
    requires
        old(r).tight(),
    ensures
        final(r).base(),
        res is Ok ==> final(r).tight(),
        match sps_poc(*old(r)) {
            None => res is Err,
            Some((a, b, c, d, t)) => res == Ok::<(u32, u32, u32, bool), Rejected>((a, b, c, d)) && *final(r) == t,
        },
        res matches Ok((frame, poc, lsb, _)) ==> 4 <= frame <= 16 && poc <= 2 && lsb <= 16,
{
    let log2_frame = r.read_ue()?;
    if log2_frame > 12 {
        return Err(Rejected);
    }
    let ghost s1 = *r;
    let poc_type = r.read_ue()?;
    let mut lsb: u32 = 0;
    let mut zero = false;
    if poc_type == 0 {
        let log2_poc = r.read_ue()?;
        if log2_poc > 12 {
            return Err(Rejected);
        }
        lsb = 4 + log2_poc;
    } else if poc_type == 1 {
        zero = r.read_flag()?;
        read_ses(r, 2)?;
        let cycle = r.read_ue()?;
        if cycle > 255 {
            return Err(Rejected);
        }
        read_ses(r, cycle)?;
    }
    if poc_type > 2 {
        return Err(Rejected);
    }
    Ok((4 + log2_frame, poc_type, lsb, zero))
}

fn read_sps_dims(r: &mut Bits, max_fs: u32) -> (res: Result<(u32, u32, u32), Rejected>)
    requires
        old(r).tight(),
    ensures
        final(r).base(),
        res is Ok ==> final(r).tight(),
        match sps_dims(*old(r), max_fs) {
            None => res is Err,
            Some((a, b, c, t)) => res == Ok::<(u32, u32, u32), Rejected>((a, b, c)) && *final(r) == t,
        },
        res matches Ok((refs, w, h)) ==> refs <= 16 && 1 <= w <= MAX_MB_SIZE && 1 <= h <= MAX_MB_SIZE
            && (max_fs <= 36864 ==> w * h <= MAX_MB_SIZE),
{
    let num_ref_frames = r.read_ue()?;
    let ghost s1 = *r;
    proof {
        lemma_flag_bit(s1);
    }
    r.read_flag()?;
    let mb_width = r.read_ue()?.wrapping_add(1);
    if dimension_refused(mb_width, max_fs) {
        return Err(Rejected);
    }
    let mb_height = r.read_ue()?.wrapping_add(1);
    if dimension_refused(mb_height, max_fs) {
        return Err(Rejected);
    }
    let w = mb_width as u64;
    let h = mb_height as u64;
    proof {
        assert(w * h <= 36864 * 36864) by (nonlinear_arith) requires w <= 36864, h <= 36864;
    }
    let total = w * h;
    if total > max_fs as u64 && total > 36864u64 {
        return Err(Rejected);
    }
    if num_ref_frames > 16 {
        return Err(Rejected);
    }
    let frame_mbs_only = r.read_flag()?;
    if !frame_mbs_only {
        return Err(Rejected);
    }
    Ok((num_ref_frames, mb_width, mb_height))
}

fn read_sps_crop_vui(r: &mut Bits, mb_width: u32, mb_height: u32) -> (res: Result<(), Rejected>)
    requires
        old(r).tight(),
        mb_width <= MAX_MB_SIZE,
        mb_height <= MAX_MB_SIZE,
    ensures
        final(r).base(),
        match sps_crop_vui(*old(r), mb_width, mb_height) {
            None => res is Err,
            Some(t) => res is Ok && *final(r) == t,
        },
{
    let ghost s0 = *r;
    proof {
        lemma_flag_bit(s0);
    }
    r.read_flag()?;
    if r.read_flag()? {
        let left = r.read_ue()?;
        let right = r.read_ue()?;
        if (left as i64) + (right as i64) > (mb_width as i64) * 16 / 2 {
            return Err(Rejected);
        }
        let top = r.read_ue()?;
        let bottom = r.read_ue()?;
        if (top as i64) + (bottom as i64) > (mb_height as i64) * 16 / 2 {
            return Err(Rejected);
        }
    }
    if r.read_flag()? {
        vui(r)?;
    }
    Ok(())
}

/// The decoder's `ParseSps` for an AVC SPS.
fn parse_sps(r: &mut Bits) -> (res: Result<SpsResult, Rejected>)
    requires
        old(r).tight(),
    ensures
        res matches Ok(SpsResult::Stored(id, sps)) ==> id < MAX_SPS_COUNT && sps.valid(),
        match spec_parse_sps(*old(r)) {
            None => res is Err,
            Some((None, t)) => res matches Ok(SpsResult::Ignored) && *final(r) == t,
            Some((Some((id, f)), t)) => res matches Ok(SpsResult::Stored(i, sps)) && i == id && sps.fields() == f
                && *final(r) == t,
        },
{
    let profile = r.read_u(8)?;
    if !(profile == 66 || profile == 77 || profile == 83 || profile == 86 || profile == 88 || profile == 100) {
        return Ok(SpsResult::Ignored);
    }
    let (id, max_fs) = read_sps_level(r)?;
    let id = id as usize;
    let mut sps = Sps::new();
    proof {
        assert(sps.scaling_4x4@ =~= flat(96));
        assert(sps.scaling_8x8@ =~= flat(128));
    }
    read_sps_chroma(r, profile, &mut sps)?;
    let (frame, poc, lsb, zero) = read_sps_poc(r)?;
    sps.log2_max_frame_num = frame;
    sps.poc_type = poc;
    sps.log2_max_poc_lsb = lsb;
    sps.delta_pic_order_always_zero = zero;
    let (refs, w, h) = read_sps_dims(r, max_fs)?;
    sps.num_ref_frames = refs;
    sps.mb_width = w;
    sps.mb_height = h;
    sps.frame_mbs_only = true;
    read_sps_crop_vui(r, w, h)?;
    Ok(SpsResult::Stored(id, sps))
}

/// The stored SPS table: 32 slots, every stored SPS valid.
pub open spec fn sps_table_ok(t: Seq<Option<Sps>>) -> bool {
    &&& t.len() == MAX_SPS_COUNT
    &&& forall|i: int| 0 <= i < t.len() && (#[trigger] t[i]) is Some ==> t[i]->Some_0.valid()
}

/// The stored PPS table: 256 slots, every stored PPS valid.
pub open spec fn pps_table_ok(t: Seq<Option<Pps>>) -> bool {
    &&& t.len() == MAX_PPS_COUNT
    &&& forall|i: int| 0 <= i < t.len() && (#[trigger] t[i]) is Some ==> t[i]->Some_0.valid()
}

/// Whether two SPS tables store the same parameter sets in the same slots.
pub open spec fn sps_alike(a: Seq<Option<Sps>>, b: Seq<Option<Sps>>) -> bool {
    &&& a.len() == b.len()
    &&& forall|i: int| 0 <= i < a.len() ==> ((#[trigger] a[i]) is Some <==> b[i] is Some)
        && (a[i] is Some ==> a[i]->Some_0.fields() == b[i]->Some_0.fields())
}

/// A PPS reads the same from two alike SPS tables.
pub proof fn lemma_pps_alike(s: Bits, a: Seq<Option<Sps>>, b: Seq<Option<Sps>>)
    requires
        sps_alike(a, b),
        a.len() == MAX_SPS_COUNT,
    ensures
        spec_parse_pps(s, a) == spec_parse_pps(s, b),
{
    match pps_ids(s) {
        None => {},
        Some((id, sps_id, cabac, pop, groups, s1)) => {
            assert(sps_id < 32);
            let x = a[sps_id as int];
            let y = b[sps_id as int];
            assert(forall|t: Bits, t8: bool| pps_matrix(t, t8, x) == pps_matrix(t, t8, y));
            assert(forall|t: Bits| pps_tail(t, x) == pps_tail(t, y));
        },
    }
}

/// A slice header reads the same with two alike SPS tables.
pub proof fn lemma_slice_alike(
    s: Bits,
    idr: bool,
    nal_ref_idc: u8,
    a: Seq<Option<Sps>>,
    b: Seq<Option<Sps>>,
    pps_list: Seq<Option<Pps>>,
)
    requires
        sps_alike(a, b),
        a.len() == MAX_SPS_COUNT,
        pps_table_ok(pps_list),
    ensures
        spec_slice_header(s, idr, nal_ref_idc, a, pps_list) == spec_slice_header(s, idr, nal_ref_idc, b, pps_list),
{
    assert(sh_ids(s, idr, a, pps_list) == sh_ids(s, idr, b, pps_list));
    match sh_ids(s, idr, a, pps_list) {
        None => {},
        Some((_, st, pid, s1)) => {
            let pps = pps_list[pid as int]->Some_0;
            assert(pps.valid());
            let x = a[pps.sps_id as int]->Some_0;
            let y = b[pps.sps_id as int]->Some_0;
            assert(x.fields() == y.fields());
            assert(forall|t: Bits| sh_frame(t, idr, st, x, pps) == sh_frame(t, idr, st, y, pps));
            assert(forall|t: Bits, refs: (u32, u32)| sh_tail(t, st, refs, x, pps, idr, nal_ref_idc) == sh_tail(
                t, st, refs, y, pps, idr, nal_ref_idc));
        },
    }
}

/// A unit without its trailing zero bytes.
pub open spec fn stripped(u: Seq<u8>) -> Seq<u8>
    decreases u.len(),
{
    if u.len() > 0 && u.last() == 0 { stripped(u.drop_last()) } else { u }
}

/// Whether a reader is freshly started on `d`, as `Bits::new` leaves it.
pub open spec fn started(b: Bits, d: Seq<u8>) -> bool {
    let n = spec_bit_size(d);
    &&& b.data@ == d
    &&& b.cur == 4
    &&& b.left_bits == -16
    &&& b.allowed == (n + 7) / 8
    &&& b.bits == n
    &&& b.cur_bits == ((byte_at(d, 0) as u32) << 24u32) | ((byte_at(d, 1) as u32) << 16u32) | ((byte_at(d, 2) as u32)
        << 8u32) | (byte_at(d, 3) as u32)
}

/// The reader started on payload `d`, or none for a payload of no bits.
pub open spec fn bits_start<'a>(d: Seq<u8>) -> Option<Bits<'a>> {
    if (spec_bit_size(d) + 7) / 8 == 0 {
        None
    } else {
        Some(choose|b: Bits<'a>| started(b, d))
    }
}

/// Starts a reader on a payload of its own bit size.
fn start_bits<'a>(payload: &'a [u8]) -> (r: Result<Bits<'a>, Rejected>)
    requires
        payload@.len() <= max_payload(),
    ensures
        match bits_start(payload@) {
            None => r is Err,
            Some(b) => r == Ok::<Bits<'a>, Rejected>(b),
        },
        r matches Ok(x) ==> x.tight(),
{
    let n = bit_size(payload);
    let r = Bits::new(payload, n);
    proof {
        if r is Ok {
            let x = r->Ok_0;
            assert(started(x, payload@));
            let b = choose|b: Bits<'a>| started(b, payload@);
            assert(b.data =~= x.data);
            assert(b == x);
        }
    }
    r
}

/// Whether `v` lies in `lo..=hi`.
pub open spec fn within(v: int, lo: int, hi: int) -> bool {
    lo <= v <= hi
}

/// `g + 1` in 32 bits, wrapping to 0.
pub open spec fn plus_one(g: u32) -> u32 {
    if g == u32::MAX { 0 } else { (g + 1) as u32 }
}

/// The reader after `n` Exp-Golomb codes that reject the stream on failure.
pub open spec fn skip_ues(s: Bits, n: nat) -> Option<Bits>
    decreases n,
{
    if n == 0 {
        Some(s)
    } else {
        match rd_ue(s) {
            None => None,
            Some((_, t)) => skip_ues(t, (n - 1) as nat),
        }
    }
}

/// The reader after the slice group map of a PPS with `groups` slice groups.
pub open spec fn pps_groups(s: Bits, groups: u32) -> Option<Bits> {
    if groups > 1 {
        match rd_ue(s) {
            None => None,
            Some((map_type, s1)) => if map_type > 1 {
                None
            } else if map_type == 0 {
                skip_ues(s1, groups as nat)
            } else {
                Some(s1)
            },
        }
    } else {
        Some(s)
    }
}

/// The ids, CABAC and picture order flags and slice groups of a PPS.
pub open spec fn pps_ids(s: Bits) -> Option<(u32, u32, bool, bool, u32, Bits)> {
    match rd_ue(s) {
        None => None,
        Some((id, s1)) => if id >= 256 { None } else {
            match rd_ue(s1) {
                None => None,
                Some((sps_id, s2)) => if sps_id >= 32 { None } else {
                    match rd_flag(s2) {
                        None => None,
                        Some((cabac, s3)) => match rd_flag(s3) {
                            None => None,
                            Some((pop, s4)) => match rd_ue(s4) {
                                None => None,
                                Some((g, s5)) => if plus_one(g) > 8 { None } else {
                                    match pps_groups(s5, plus_one(g)) {
                                        None => None,
                                        Some(s6) => Some((id, sps_id, cabac, pop, plus_one(g), s6)),
                                    }
                                },
                            },
                        },
                    }
                },
            }
        },
    }
}

/// The quantizer offsets of a PPS: the initial QP, or none where one is out
/// of range.
pub open spec fn pps_qp(s: Bits) -> Option<(i64, Bits)> {
    match rd_se(s) {
        None => None,
        Some((qp, s1)) => if 26 + qp < 0 || 26 + qp > 51 { None } else {
            match rd_se(s1) {
                None => None,
                Some((qs, s2)) => if 26 + qs < 0 || 26 + qs > 51 { None } else {
                    match rd_se(s2) {
                        None => None,
                        Some((co, s3)) => if co < -12 || co > 12 { None } else { Some(((26 + qp) as i64, s3)) },
                    }
                },
            }
        },
    }
}

/// The reference counts and weighted prediction fields of a PPS.
pub open spec fn pps_refs(s: Bits) -> Option<(u32, u32, bool, u32, Bits)> {
    match rd_ue(s) {
        None => None,
        Some((a, s1)) => match rd_ue(s1) {
            None => None,
            Some((b, s2)) => if plus_one(a) > 16 || plus_one(b) > 16 { None } else {
                match rd_flag(s2) {
                    None => None,
                    Some((wp, s3)) => match rd_u(s3, 2) {
                        None => None,
                        Some((wb, s4)) => Some((plus_one(a), plus_one(b), wp, wb, s4)),
                    },
                }
            },
        },
    }
}

/// The deblocking, constrained intra and redundant picture count flags.
pub open spec fn pps_flags(s: Bits) -> Option<(bool, bool, Bits)> {
    match rd_flag(s) {
        None => None,
        Some((dc, s1)) => match rd_flag(s1) {
            None => None,
            Some((_, s2)) => match rd_flag(s2) {
                None => None,
                Some((rpc, s3)) => Some((dc, rpc, s3)),
            },
        },
    }
}

/// Whether more than the stop bit is left of the payload.
pub open spec fn more_data(s: Bits) -> bool {
    s.bits - 8 * (s.cur - 2) - s.left_bits > 1
}

/// The reader after the scaling matrix of a PPS (read for its lists' sake,
/// which are not kept) where it is present.
pub open spec fn pps_matrix(s: Bits, t8: bool, sps: Option<Sps>) -> Option<Bits> {
    match rd_flag(s) {
        None => None,
        Some((present, s1)) => if !present { Some(s1) } else {
            match sps {
                None => None,
                Some(sp) => match list_steps(s1, Seq::new(96, |x: int| 16u8), Seq::new(128, |x: int| 16u8), 0,
                    list_count(sp.chroma_format, Some(t8)), sp.seq_scaling, sp.scaling_4x4@, sp.scaling_8x8@) {
                    None => None,
                    Some((t, _, _)) => Some(t),
                },
            }
        },
    }
}

/// The reader after the optional tail of a PPS: the 8x8 transform flag, the
/// scaling matrix and the second chroma offset.
pub open spec fn pps_tail(s: Bits, sps: Option<Sps>) -> Option<Bits> {
    if more_data(s) {
        match rd_flag(s) {
            None => None,
            Some((t8, s1)) => match pps_matrix(s1, t8, sps) {
                None => None,
                Some(s2) => match rd_se(s2) {
                    None => None,
                    Some((so, s3)) => if so < -12 || so > 12 { None } else { Some(s3) },
                },
            },
        }
    } else {
        Some(s)
    }
}

/// The id and fields of a PPS and the reader after it, or none where the
/// decoder rejects it.
pub open spec fn spec_parse_pps(s: Bits, sps_list: Seq<Option<Sps>>) -> Option<(usize, Pps, Bits)> {
    match pps_ids(s) {
        None => None,
        Some((id, sps_id, cabac, pop, groups, s1)) => match pps_refs(s1) {
            None => None,
            Some((ref0, ref1, wp, wb, s2)) => match pps_qp(s2) {
                None => None,
                Some((qp, s3)) => match pps_flags(s3) {
                    None => None,
                    Some((dc, rpc, s4)) => match pps_tail(s4, sps_list[sps_id as int]) {
                        None => None,
                        Some(s5) => Some((id as usize, Pps {
                            sps_id: sps_id as usize,
                            cabac,
                            pic_order_present: pop,
                            slice_groups: groups,
                            ref_idx: (ref0, ref1),
                            weighted_pred: wp,
                            weighted_bipred: wb,
                            init_qp: qp as i32,
                            deblocking_control: dc,
                            redundant_pic_cnt: rpc,
                        }, s5)),
                    },
                },
            },
        },
    }
}

fn read_pps_ids(r: &mut Bits) -> (res: Result<(u32, u32, bool, bool, u32), Rejected>)
    requires
        old(r).tight(),
    ensures
        final(r).base(),
        res is Ok ==> final(r).tight(),
        match pps_ids(*old(r)) {
            None => res is Err,
            Some((a, b, c, d, e, t)) => res == Ok::<(u32, u32, bool, bool, u32), Rejected>((a, b, c, d, e)) && *final(r) == t,
        },
{
    let id = r.read_ue()?;
    if id >= 256 {
        return Err(Rejected);
    }
    let sps_id = r.read_ue()?;
    if sps_id >= 32 {
        return Err(Rejected);
    }
    let cabac = r.read_flag()?;
    let pic_order_present = r.read_flag()?;
    let slice_groups = r.read_ue()?.wrapping_add(1);
    if slice_groups > 8 {
        return Err(Rejected);
    }
    if slice_groups > 1 {
        let map_type = r.read_ue()?;
        if map_type > 1 {
            return Err(Rejected);
        }
        if map_type == 0 {
            let ghost s1 = *r;
            let mut k: u32 = 0;
            while k < slice_groups
                invariant
                    r.tight(),
                    k <= slice_groups,
                    skip_ues(s1, slice_groups as nat) == skip_ues(*r, (slice_groups - k) as nat),
                    pps_ids(*old(r)) == (match skip_ues(s1, slice_groups as nat) {
                        None => None,
                        Some(s6) => Some((id, sps_id, cabac, pic_order_present, slice_groups, s6)),
                    }),
                decreases slice_groups - k,
            {
                r.read_ue()?;
                k = k + 1;
            }
        }
    }
    Ok((id, sps_id, cabac, pic_order_present, slice_groups))
}

fn read_pps_refs(r: &mut Bits) -> (res: Result<(u32, u32, bool, u32), Rejected>)
    requires
        old(r).tight(),
    ensures
        final(r).base(),
        res is Ok ==> final(r).tight(),
        match pps_refs(*old(r)) {
            None => res is Err,
            Some((a, b, c, d, t)) => res == Ok::<(u32, u32, bool, u32), Rejected>((a, b, c, d)) && *final(r) == t,
        },
{
    let ref0 = r.read_ue()?.wrapping_add(1);
    let ref1 = r.read_ue()?.wrapping_add(1);
    if ref0 > MAX_REF_PIC_COUNT || ref1 > MAX_REF_PIC_COUNT {
        return Err(Rejected);
    }
    let weighted_pred = r.read_flag()?;
    let weighted_bipred = r.read_u(2)?;
    Ok((ref0, ref1, weighted_pred, weighted_bipred))
}

fn read_pps_qp(r: &mut Bits) -> (res: Result<i64, Rejected>)
    requires
        old(r).tight(),
    ensures
        final(r).base(),
        res is Ok ==> final(r).tight(),
        match pps_qp(*old(r)) {
            None => res is Err,
            Some((q, t)) => res == Ok::<i64, Rejected>(q) && *final(r) == t,
        },
{
    let init_qp = 26 + r.read_se()? as i64;
    if init_qp < 0 || init_qp > 51 {
        return Err(Rejected);
    }
    let init_qs = 26 + r.read_se()? as i64;
    if init_qs < 0 || init_qs > 51 {
        return Err(Rejected);
    }
    let chroma_offset = r.read_se()?;
    if chroma_offset < -12 || chroma_offset > 12 {
        return Err(Rejected);
    }
    Ok(init_qp)
}

fn read_pps_tail(r: &mut Bits, sps_list: &Vec<Option<Sps>>, sps_id: usize) -> (res: Result<(), Rejected>)
    requires
        old(r).tight(),
        sps_table_ok(sps_list@),
        sps_id < MAX_SPS_COUNT,
    ensures
        final(r).base(),
        match pps_tail(*old(r), sps_list@[sps_id as int]) {
            None => res is Err,
            Some(t) => res is Ok && *final(r) == t,
        },
{
    if r.more_rbsp_data() {
        let transform_8x8 = r.read_flag()?;
        let ghost s1 = *r;
        if r.read_flag()? {
            let sps = match &sps_list[sps_id] {
                Some(sps) => sps,
                None => return Err(Rejected),
            };
            assert(sps.valid());
            let mut lists4 = flat_list(96);
            let mut lists8 = flat_list(128);
            scaling_lists(r, sps, Some(transform_8x8), &mut lists4, &mut lists8)?;
        }
        assert(pps_matrix(s1, transform_8x8, sps_list@[sps_id as int]) == Some(*r));
        let second_offset = r.read_se()?;
        if second_offset < -12 || second_offset > 12 {
            return Err(Rejected);
        }
    }
    Ok(())
}

/// The decoder's `ParsePps`.
fn parse_pps(r: &mut Bits, sps_list: &Vec<Option<Sps>>) -> (res: Result<(usize, Pps), Rejected>)
    requires
        old(r).tight(),
        sps_table_ok(sps_list@),
    ensures
        res matches Ok((id, pps)) ==> id < MAX_PPS_COUNT && pps.valid(),
        match spec_parse_pps(*old(r), sps_list@) {
            None => res is Err,
            Some((id, pps, t)) => res == Ok::<(usize, Pps), Rejected>((id, pps)) && *final(r) == t,
        },
{
    let (id, sps_id, cabac, pic_order_present, slice_groups) = read_pps_ids(r)?;
    let (ref0, ref1, weighted_pred, weighted_bipred) = read_pps_refs(r)?;
    let init_qp = read_pps_qp(r)?;
    let deblocking_control = r.read_flag()?;
    r.read_flag()?;
    let redundant_pic_cnt = r.read_flag()?;
    read_pps_tail(r, sps_list, sps_id as usize)?;
    let pps = Pps {
        sps_id: sps_id as usize,
        cabac,
        pic_order_present,
        slice_groups,
        ref_idx: (ref0, ref1),
        weighted_pred,
        weighted_bipred,
        init_qp: init_qp as i32,
        deblocking_control,
        redundant_pic_cnt,
    };
    Ok((id as usize, pps))
}

/// The reader after `n` weights or offsets, none where a read fails or a
/// value lies outside -128..=127.
pub open spec fn pwt_values(s: Bits, n: nat) -> Option<Bits>
    decreases n,
{
    if n == 0 {
        Some(s)
    } else {
        match rd_se(s) {
            None => None,
            Some((v, t)) => if v < -128 || v > 127 { None } else { pwt_values(t, (n - 1) as nat) },
        }
    }
}

/// The reader after one reference's luma and, with chroma, chroma weights.
pub open spec fn pwt_entry(s: Bits, chroma: bool) -> Option<Bits> {
    match rd_flag(s) {
        None => None,
        Some((f, s1)) => match (if f { pwt_values(s1, 2) } else { Some(s1) }) {
            None => None,
            Some(s2) => if chroma {
                match rd_flag(s2) {
                    None => None,
                    Some((g, s3)) => if g { pwt_values(s3, 4) } else { Some(s3) },
                }
            } else {
                Some(s2)
            },
        },
    }
}

/// The reader after the weights of `n` references.
pub open spec fn pwt_entries(s: Bits, chroma: bool, n: nat) -> Option<Bits>
    decreases n,
{
    if n == 0 {
        Some(s)
    } else {
        match pwt_entry(s, chroma) {
            None => None,
            Some(t) => pwt_entries(t, chroma, (n - 1) as nat),
        }
    }
}

/// The reader after a prediction weight table, or none where the decoder
/// rejects it: denominators above 7 and weights outside -128..=127 reject.
pub open spec fn spec_pred_weight_table(s: Bits, chroma_format: u32, slice_type: u32, refs: (u32, u32)) -> Option<Bits> {
    match rd_ue(s) {
        None => None,
        Some((l, s1)) => if l > 7 {
            None
        } else {
            let s2o = if chroma_format != 0 {
                match rd_ue(s1) {
                    None => None,
                    Some((c, s2)) => if c > 7 { None } else { Some(s2) },
                }
            } else {
                Some(s1)
            };
            match s2o {
                None => None,
                Some(s2) => match pwt_entries(s2, chroma_format != 0, refs.0 as nat) {
                    None => None,
                    Some(s3) => if slice_type == 1 { pwt_entries(s3, chroma_format != 0, refs.1 as nat) } else { Some(s3) },
                },
            }
        },
    }
}

/// Reads `n` weights or offsets.
fn read_pwt_values(r: &mut Bits, n: u32) -> (res: Result<(), Rejected>)
    requires
        old(r).tight(),
    ensures
        final(r).base(),
        res is Ok ==> final(r).tight(),
        match pwt_values(*old(r), n as nat) {
            None => res is Err,
            Some(t) => res is Ok && *final(r) == t,
        },
{
    let mut w: u32 = 0;
    while w < n
        invariant
            r.tight(),
            w <= n,
            pwt_values(*old(r), n as nat) == pwt_values(*r, (n - w) as nat),
        decreases n - w,
    {
        let v = r.read_se()?;
        if v < -128 || v > 127 {
            return Err(Rejected);
        }
        w = w + 1;
    }
    Ok(())
}

/// Reads the weights of `count` references.
fn read_pwt_entries(r: &mut Bits, chroma: bool, count: u32) -> (res: Result<(), Rejected>)
    requires
        old(r).tight(),
    ensures
        final(r).base(),
        res is Ok ==> final(r).tight(),
        match pwt_entries(*old(r), chroma, count as nat) {
            None => res is Err,
            Some(t) => res is Ok && *final(r) == t,
        },
{
    let mut k: u32 = 0;
    while k < count
        invariant
            r.tight(),
            k <= count,
            pwt_entries(*old(r), chroma, count as nat) == pwt_entries(*r, chroma, (count - k) as nat),
        decreases count - k,
    {
        if r.read_flag()? {
            read_pwt_values(r, 2)?;
        }
        if chroma && r.read_flag()? {
            read_pwt_values(r, 4)?;
        }
        k = k + 1;
    }
    Ok(())
}

/// The decoder's `ParsePredWeightedTable`: weights outside -128..=127 reject.
fn pred_weight_table(r: &mut Bits, sps: &Sps, slice_type: u32, refs: (u32, u32)) -> (res: Result<(), Rejected>)
    requires
        old(r).tight(),
        refs.0 <= MAX_REF_PIC_COUNT,
        refs.1 <= MAX_REF_PIC_COUNT,
    ensures
        final(r).base(),
        res is Ok ==> final(r).tight(),
        match spec_pred_weight_table(*old(r), sps.chroma_format, slice_type, refs) {
            None => res is Err,
            Some(t) => res is Ok && *final(r) == t,
        },
{
    if r.read_ue()? > 7 {
        return Err(Rejected);
    }
    if sps.chroma_format != 0 && r.read_ue()? > 7 {
        return Err(Rejected);
    }
    read_pwt_entries(r, sps.chroma_format != 0, refs.0)?;
    if slice_type == 1 {
        read_pwt_entries(r, sps.chroma_format != 0, refs.1)?;
    }
    Ok(())
}

/// The reader after the memory management operations from the one at
/// `step` (of at most 66), with the operations seen so far; none where a
/// read fails or an operation is refused.
pub open spec fn mmco_ops(s: Bits, step: nat, allow5: bool, has4: bool, has5: bool, has6: bool, refs: u32) -> Option<Bits>
    decreases 66 - step,
{
    if step >= 66 {
        Some(s)
    } else {
        match rd_ue(s) {
            None => None,
            Some((op, s1)) => if op == 0 {
                Some(s1)
            } else {
                let a5 = if op == 1 || op == 3 || op == 2 { false } else { allow5 };
                let s2o = if op == 1 || op == 3 || op == 2 { sk_ue(Some(s1)) } else { Some(s1) };
                match s2o {
                    None => None,
                    Some(s2) => if op == 3 || op == 6 {
                        if op == 6 && has6 {
                            None
                        } else {
                            match sk_ue(Some(s2)) {
                                None => None,
                                Some(s3) => mmco_ops(s3, step + 1, a5, has4, has5, has6 || op == 6, refs),
                            }
                        }
                    } else if op == 4 {
                        if has4 {
                            None
                        } else {
                            match rd_ue(s2) {
                                None => None,
                                Some((m, s3)) => if m - 1 > refs { None } else { mmco_ops(s3, step + 1, a5, true, has5, has6, refs) },
                            }
                        }
                    } else if op == 5 {
                        if !a5 || has5 { None } else { mmco_ops(s2, step + 1, a5, has4, true, has6, refs) }
                    } else {
                        mmco_ops(s2, step + 1, a5, has4, has5, has6, refs)
                    },
                }
            },
        }
    }
}

/// The reader after the reference picture marking, or none where the
/// decoder rejects it.
pub open spec fn spec_dec_ref_pic_marking(s: Bits, refs: u32, idr: bool) -> Option<Bits> {
    match rd_flag(s) {
        None => None,
        Some((f, s1)) => if idr {
            match rd_flag(s1) {
                None => None,
                Some((_, s2)) => Some(s2),
            }
        } else if !f {
            Some(s1)
        } else {
            mmco_ops(s1, 0, true, false, false, false, refs)
        },
    }
}

/// The decoder's `ParseDecRefPicMarking`: at most one operation 4, one
/// operation 6, and an operation 5 only alone and once.
fn dec_ref_pic_marking(r: &mut Bits, sps: &Sps, idr: bool) -> (res: Result<(), Rejected>)
    requires
        old(r).tight(),
    ensures
        final(r).base(),
        res is Ok ==> final(r).tight(),
        match spec_dec_ref_pic_marking(*old(r), sps.num_ref_frames, idr) {
            None => res is Err,
            Some(t) => res is Ok && *final(r) == t,
        },
{
    if idr {
        r.read_flag()?;
        r.read_flag()?;
        return Ok(());
    }
    if !r.read_flag()? {
        return Ok(());
    }
    let ghost start = *r;
    let mut allow5 = true;
    let mut has4 = false;
    let mut has5 = false;
    let mut has6 = false;
    let mut step: u32 = 0;
    while step < 66
        invariant_except_break
            mmco_ops(start, 0, true, false, false, false, sps.num_ref_frames)
                == mmco_ops(*r, step as nat, allow5, has4, has5, has6, sps.num_ref_frames),
        invariant
            r.tight(),
            step <= 66,
            spec_dec_ref_pic_marking(*old(r), sps.num_ref_frames, idr)
                == mmco_ops(start, 0, true, false, false, false, sps.num_ref_frames),
        ensures
            mmco_ops(start, 0, true, false, false, false, sps.num_ref_frames) == Some(*r),
        decreases 66 - step,
    {
        let ghost s0 = *r;
        let op = r.read_ue()?;
        if op == 0 {
            break;
        }
        if op == 1 || op == 3 || op == 2 {
            allow5 = false;
            r.read_ue()?;
        }
        if op == 3 || op == 6 {
            if op == 6 {
                if has6 {
                    return Err(Rejected);
                }
                has6 = true;
            }
            r.read_ue()?;
        } else if op == 4 {
            if has4 {
                return Err(Rejected);
            }
            has4 = true;
            let max = (r.read_ue()? as i64) - 1;
            if max > sps.num_ref_frames as i64 {
                return Err(Rejected);
            }
        } else if op == 5 {
            if !allow5 || has5 {
                return Err(Rejected);
            }
            has5 = true;
        }
        step = step + 1;
    }
    Ok(())
}

/// The first macroblock, slice type (0 P, 1 B, 2 I, 3 SP, 4 SI) and PPS
/// id of a slice header, where they name stored parameter sets within
/// their limits.
pub open spec fn sh_ids(s: Bits, idr: bool, sps_list: Seq<Option<Sps>>, pps_list: Seq<Option<Pps>>)
    -> Option<(u32, u32, usize, Bits)>
{
    match rd_ue(s) {
        None => None,
        Some((first_mb, s1)) => if first_mb > 36863 { None } else {
            match rd_ue(s1) {
                None => None,
                Some((st0, s2)) => {
                    let st = if st0 > 4 { (st0 - 5) as u32 } else { st0 };
                    if st0 > 9 || (idr && st != 2) { None } else {
                        match rd_ue(s2) {
                            None => None,
                            Some((pid, s3)) => if pid > 255 { None } else {
                                match pps_list[pid as int] {
                                    None => None,
                                    Some(pps) => if pps.slice_groups == 0 { None } else {
                                        match sps_list[pps.sps_id as int] {
                                            None => None,
                                            Some(sps) => if sps.num_ref_frames == 0 && st != 2 && st != 4 { None }
                                                else if sps.log2_max_frame_num == 0 { None }
                                                else if first_mb > sps.mb_width * sps.mb_height - 1 { None }
                                                else { Some((first_mb, st, pid as usize, s3)) },
                                        }
                                    },
                                }
                            },
                        }
                    }
                },
            }
        },
    }
}

/// The reader after `rd_se` where `present`, else unchanged.
pub open spec fn opt_se(o: Option<Bits>, present: bool) -> Option<Bits> {
    match o {
        None => None,
        Some(s) => if !present { Some(s) } else {
            match rd_se(s) {
                None => None,
                Some((_, t)) => Some(t),
            }
        },
    }
}

/// The frame number, IDR picture id, picture order count, redundant
/// picture count and direct prediction flag of a slice header.
pub open spec fn sh_frame(s: Bits, idr: bool, st: u32, sps: Sps, pps: Pps) -> Option<Bits> {
    match rd_u(s, sps.log2_max_frame_num) {
        None => None,
        Some((frame_num, s1)) => if !sps.frame_mbs_only || (idr && frame_num != 0) { None } else {
            match (if idr {
                match rd_ue(s1) {
                    None => None,
                    Some((v, t)) => if v > 65535 { None } else { Some(t) },
                }
            } else {
                Some(s1)
            }) {
                None => None,
                Some(s2) => {
                    let s3 = if sps.poc_type == 0 {
                        opt_se(sk_u(Some(s2), sps.log2_max_poc_lsb), pps.pic_order_present)
                    } else if sps.poc_type == 1 && !sps.delta_pic_order_always_zero {
                        opt_se(opt_se(Some(s2), true), pps.pic_order_present)
                    } else {
                        Some(s2)
                    };
                    match s3 {
                        None => None,
                        Some(s4) => match (if pps.redundant_pic_cnt {
                            match rd_ue(s4) {
                                None => None,
                                Some((count, t)) => if count > 127 || count > 0 { None } else { Some(t) },
                            }
                        } else {
                            Some(s4)
                        }) {
                            None => None,
                            Some(s5) => if st == 1 { sk_u(Some(s5), 1) } else { Some(s5) },
                        },
                    }
                },
            }
        },
    }
}

/// The active reference counts of a slice header.
pub open spec fn sh_refs(s: Bits, st: u32, pps: Pps) -> Option<((u32, u32), Bits)> {
    if st == 0 || st == 1 {
        match rd_flag(s) {
            None => None,
            Some((over, s1)) => if !over { Some((pps.ref_idx, s1)) } else {
                match rd_ue(s1) {
                    None => None,
                    Some((l0, s2)) => if l0 > 15 { None } else if st == 1 {
                        match rd_ue(s2) {
                            None => None,
                            Some((l1, s3)) => if l1 > 15 { None } else { Some((((l0 + 1) as u32, (l1 + 1) as u32), s3)) },
                        }
                    } else {
                        Some((((l0 + 1) as u32, pps.ref_idx.1), s2))
                    },
                }
            },
        }
    } else {
        Some((pps.ref_idx, s))
    }
}

/// The reordering operations of one list from operation `index` on.
pub open spec fn reorder_ops(s: Bits, index: nat, count: u32, log2: u32) -> Option<Bits>
    decreases 16 - index,
{
    match rd_ue(s) {
        None => None,
        Some((idc, s1)) => if (index >= 16 && idc != 3) || idc > 3 { None }
            else if idc == 3 { Some(s1) }
            else if index >= count || index >= 16 { None }
            else if idc == 0 || idc == 1 {
                match rd_ue(s1) {
                    None => None,
                    Some((v, s2)) => if v > (1u32 << log2) { None } else { reorder_ops(s2, index + 1, count, log2) },
                }
            } else {
                match rd_ue(s1) {
                    None => None,
                    Some((_, s2)) => reorder_ops(s2, index + 1, count, log2),
                }
            },
    }
}

/// The reordering of one reference list.
pub open spec fn reorder_list(s: Bits, count: u32, log2: u32) -> Option<Bits> {
    match rd_flag(s) {
        None => None,
        Some((f, s1)) => if f { reorder_ops(s1, 0, count, log2) } else { Some(s1) },
    }
}

/// The reordering of the reference lists of a P or B slice.
pub open spec fn sh_reorder(s: Bits, st: u32, refs: (u32, u32), log2: u32) -> Option<Bits> {
    if st != 2 && st != 4 {
        match reorder_list(s, refs.0, log2) {
            None => None,
            Some(s1) => if st == 1 { reorder_list(s1, refs.1, log2) } else { Some(s1) },
        }
    } else {
        Some(s)
    }
}

/// The reader after `n` deblocking offsets, whose doubles must lie in -12..=12.
pub open spec fn sh_offsets(s: Bits, n: nat) -> Option<Bits>
    decreases n,
{
    if n == 0 {
        Some(s)
    } else {
        match rd_se(s) {
            None => None,
            Some((v, t)) => {
                let d = vstd::wrapping::i32_specs::wrapping_mul(v, 2);
                if d < -12 || d > 12 { None } else { sh_offsets(t, (n - 1) as nat) }
            },
        }
    }
}

/// The rest of a slice header from the prediction weights on.
pub open spec fn sh_tail(s: Bits, st: u32, refs: (u32, u32), sps: Sps, pps: Pps, idr: bool, nal_ref_idc: u8) -> Option<Bits> {
    match (if (pps.weighted_pred && st == 0) || (pps.weighted_bipred == 1 && st == 1) {
        spec_pred_weight_table(s, sps.chroma_format, st, refs)
    } else {
        Some(s)
    }) {
        None => None,
        Some(s1) => match (if nal_ref_idc != 0 { spec_dec_ref_pic_marking(s1, sps.num_ref_frames, idr) } else { Some(s1) }) {
            None => None,
            Some(s2) => match (if pps.cabac && st != 2 && st != 4 {
                match rd_ue(s2) {
                    None => None,
                    Some((v, t)) => if v > 2 { None } else { Some(t) },
                }
            } else {
                Some(s2)
            }) {
                None => None,
                Some(s3) => match rd_se(s3) {
                    None => None,
                    Some((d, s4)) => if pps.init_qp + d < 0 || pps.init_qp + d > 51 || st == 3 || st == 4 { None }
                        else if pps.deblocking_control {
                            match rd_ue(s4) {
                                None => None,
                                Some((idc, s5)) => if idc > 6 { None } else if idc != 1 { sh_offsets(s5, 2) } else { Some(s5) },
                            }
                        } else {
                            Some(s4)
                        },
                },
            },
        },
    }
}

/// The reader after a slice header, or none where the decoder rejects it.
pub open spec fn spec_slice_header(s: Bits, idr: bool, nal_ref_idc: u8, sps_list: Seq<Option<Sps>>, pps_list: Seq<Option<Pps>>)
    -> Option<Bits>
{
    match sh_ids(s, idr, sps_list, pps_list) {
        None => None,
        Some((_, st, pid, s1)) => {
            let pps = pps_list[pid as int]->Some_0;
            let sps = sps_list[pps.sps_id as int]->Some_0;
            match sh_frame(s1, idr, st, sps, pps) {
                None => None,
                Some(s2) => match sh_refs(s2, st, pps) {
                    None => None,
                    Some((refs, s3)) => if refs.0 > 16 || refs.1 > 16 { None } else {
                        match sh_reorder(s3, st, refs, sps.log2_max_frame_num) {
                            None => None,
                            Some(s4) => sh_tail(s4, st, refs, sps, pps, idr, nal_ref_idc),
                        }
                    },
                },
            }
        },
    }
}

fn read_sh_ids(r: &mut Bits, idr: bool, sps_list: &Vec<Option<Sps>>, pps_list: &Vec<Option<Pps>>)
    -> (res: Result<(u32, u32, usize), Rejected>)
    requires
        old(r).tight(),
        sps_table_ok(sps_list@),
        pps_table_ok(pps_list@),
    ensures
        final(r).base(),
        res is Ok ==> final(r).tight(),
        match sh_ids(*old(r), idr, sps_list@, pps_list@) {
            None => res is Err,
            Some((a, b, c, t)) => res == Ok::<(u32, u32, usize), Rejected>((a, b, c)) && *final(r) == t,
        },
        res matches Ok((_, st, pid)) ==> pid < MAX_PPS_COUNT && st <= 4 && pps_list@[pid as int] is Some
            && pps_list@[pid as int]->Some_0.sps_id < MAX_SPS_COUNT
            && sps_list@[pps_list@[pid as int]->Some_0.sps_id as int] is Some,
{
    let first_mb = r.read_ue()?;
    if first_mb > 36863 {
        return Err(Rejected);
    }
    let mut slice_type = r.read_ue()?;
    if slice_type > 9 {
        return Err(Rejected);
    }
    if slice_type > 4 {
        slice_type = slice_type - 5;
    }
    if idr && slice_type != 2 {
        return Err(Rejected);
    }
    let pps_id = r.read_ue()? as usize;
    if pps_id > MAX_PPS_COUNT - 1 {
        return Err(Rejected);
    }
    let pps: Pps = match pps_list[pps_id] {
        Some(p) => p,
        None => return Err(Rejected),
    };
    assert(pps.valid());
    if pps.slice_groups == 0 {
        return Err(Rejected);
    }
    let sps = match &sps_list[pps.sps_id] {
        Some(s) => s,
        None => return Err(Rejected),
    };
    assert(sps.valid());
    if sps.num_ref_frames == 0 && slice_type != 2 && slice_type != 4 {
        return Err(Rejected);
    }
    if sps.log2_max_frame_num == 0 {
        return Err(Rejected);
    }
    proof {
        let (w, h) = (sps.mb_width as int, sps.mb_height as int);
        assert(w * h >= 1) by (nonlinear_arith) requires w >= 1, h >= 1;
    }
    if first_mb > sps.mb_width * sps.mb_height - 1 {
        return Err(Rejected);
    }
    Ok((first_mb, slice_type, pps_id))
}

fn read_sh_frame(r: &mut Bits, idr: bool, slice_type: u32, sps: &Sps, pps: &Pps) -> (res: Result<(), Rejected>)
    requires
        old(r).tight(),
        sps.valid(),
    ensures
        final(r).base(),
        res is Ok ==> final(r).tight(),
        match sh_frame(*old(r), idr, slice_type, *sps, *pps) {
            None => res is Err,
            Some(t) => res is Ok && *final(r) == t,
        },
{
    let frame_num = r.read_u(sps.log2_max_frame_num)?;
    if !sps.frame_mbs_only {
        return Err(Rejected);
    }
    if idr {
        if frame_num != 0 {
            return Err(Rejected);
        }
        if r.read_ue()? > 65535 {
            return Err(Rejected);
        }
    }
    if sps.poc_type == 0 {
        r.read_u(sps.log2_max_poc_lsb)?;
        if pps.pic_order_present {
            r.read_se()?;
        }
    } else if sps.poc_type == 1 && !sps.delta_pic_order_always_zero {
        r.read_se()?;
        if pps.pic_order_present {
            r.read_se()?;
        }
    }
    if pps.redundant_pic_cnt {
        let count = r.read_ue()?;
        if count > 127 || count > 0 {
            return Err(Rejected);
        }
    }
    if slice_type == 1 {
        let ghost s5 = *r;
        proof {
            lemma_flag_bit(s5);
        }
        r.read_flag()?;
    }
    Ok(())
}

fn read_sh_refs(r: &mut Bits, slice_type: u32, pps: &Pps) -> (res: Result<(u32, u32), Rejected>)
    requires
        old(r).tight(),
    ensures
        final(r).base(),
        res is Ok ==> final(r).tight(),
        match sh_refs(*old(r), slice_type, *pps) {
            None => res is Err,
            Some((refs, t)) => res == Ok::<(u32, u32), Rejected>(refs) && *final(r) == t,
        },
{
    let mut refs = pps.ref_idx;
    if (slice_type == 0 || slice_type == 1) && r.read_flag()? {
        let l0 = r.read_ue()?;
        if l0 > 15 {
            return Err(Rejected);
        }
        refs.0 = l0 + 1;
        if slice_type == 1 {
            let l1 = r.read_ue()?;
            if l1 > 15 {
                return Err(Rejected);
            }
            refs.1 = l1 + 1;
        }
    }
    Ok(refs)
}

fn read_reorder_list(r: &mut Bits, count: u32, log2: u32) -> (res: Result<(), Rejected>)
    requires
        old(r).tight(),
        4 <= log2 <= 16,
    ensures
        final(r).base(),
        res is Ok ==> final(r).tight(),
        match reorder_list(*old(r), count, log2) {
            None => res is Err,
            Some(t) => res is Ok && *final(r) == t,
        },
{
    if r.read_flag()? {
        let ghost s1 = *r;
        let mut index: u32 = 0;
        loop
            invariant_except_break
                reorder_ops(s1, 0, count, log2) == reorder_ops(*r, index as nat, count, log2),
            invariant
                r.tight(),
                index <= MAX_REF_PIC_COUNT,
                4 <= log2 <= 16,
                reorder_list(*old(r), count, log2) == reorder_ops(s1, 0, count, log2),
            ensures
                reorder_ops(s1, 0, count, log2) == Some(*r),
            decreases MAX_REF_PIC_COUNT - index,
        {
            let idc = r.read_ue()?;
            if (index >= MAX_REF_PIC_COUNT && idc != 3) || idc > 3 {
                return Err(Rejected);
            }
            if idc == 3 {
                break;
            }
            if index >= count || index >= MAX_REF_PIC_COUNT {
                return Err(Rejected);
            }
            if idc == 0 || idc == 1 {
                if r.read_ue()? > (1u32 << log2) {
                    return Err(Rejected);
                }
            } else if idc == 2 {
                r.read_ue()?;
            }
            index = index + 1;
        }
    }
    Ok(())
}

fn read_sh_offsets(r: &mut Bits) -> (res: Result<(), Rejected>)
    requires
        old(r).tight(),
    ensures
        final(r).base(),
        res is Ok ==> final(r).tight(),
        match sh_offsets(*old(r), 2) {
            None => res is Err,
            Some(t) => res is Ok && *final(r) == t,
        },
{
    let mut k: u32 = 0;
    while k < 2
        invariant
            r.tight(),
            k <= 2,
            sh_offsets(*old(r), 2) == sh_offsets(*r, (2 - k) as nat),
        decreases 2 - k,
    {
        let offset = r.read_se()?.wrapping_mul(2);
        if offset < -12 || offset > 12 {
            return Err(Rejected);
        }
        k = k + 1;
    }
    Ok(())
}

fn read_sh_tail(r: &mut Bits, slice_type: u32, refs: (u32, u32), sps: &Sps, pps: &Pps, idr: bool, nal_ref_idc: u8)
    -> (res: Result<(), Rejected>)
    requires
        old(r).tight(),
        refs.0 <= MAX_REF_PIC_COUNT,
        refs.1 <= MAX_REF_PIC_COUNT,
        pps.valid(),
    ensures
        final(r).base(),
        match sh_tail(*old(r), slice_type, refs, *sps, *pps, idr, nal_ref_idc) {
            None => res is Err,
            Some(t) => res is Ok && *final(r) == t,
        },
{
    if (pps.weighted_pred && slice_type == 0) || (pps.weighted_bipred == 1 && slice_type == 1) {
        pred_weight_table(r, sps, slice_type, refs)?;
    }
    if nal_ref_idc != 0 {
        dec_ref_pic_marking(r, sps, idr)?;
    }
    if pps.cabac && slice_type != 2 && slice_type != 4 && r.read_ue()? > 2 {
        return Err(Rejected);
    }
    let qp = pps.init_qp as i64 + r.read_se()? as i64;
    if qp < 0 || qp > 51 {
        return Err(Rejected);
    }
    if slice_type == 3 || slice_type == 4 {
        return Err(Rejected);
    }
    if pps.deblocking_control {
        let idc = r.read_ue()?;
        if idc > 6 {
            return Err(Rejected);
        }
        if idc != 1 {
            read_sh_offsets(r)?;
        }
    }
    Ok(())
}

/// The decoder's `ParseSliceHeaderSyntaxs` for a slice outside the scalable
/// extension: the slice must name stored parameter sets and keep within
/// their limits.
fn parse_slice_header(
    r: &mut Bits,
    idr: bool,
    nal_ref_idc: u8,
    sps_list: &Vec<Option<Sps>>,
    pps_list: &Vec<Option<Pps>>,
) -> (res: Result<(), Rejected>)
    requires
        old(r).tight(),
        sps_table_ok(sps_list@),
        pps_table_ok(pps_list@),
    ensures
        match spec_slice_header(*old(r), idr, nal_ref_idc, sps_list@, pps_list@) {
            None => res is Err,
            Some(t) => res is Ok && *final(r) == t,
        },
{
    let (_first_mb, slice_type, pps_id) = read_sh_ids(r, idr, sps_list, pps_list)?;
    let pps: Pps = match pps_list[pps_id] {
        Some(p) => p,
        None => return Err(Rejected),
    };
    assert(pps.valid());
    let sps = match &sps_list[pps.sps_id] {
        Some(s) => s,
        None => return Err(Rejected),
    };
    assert(sps.valid());
    read_sh_frame(r, idr, slice_type, sps, &pps)?;
    let refs = read_sh_refs(r, slice_type, &pps)?;
    if refs.0 > MAX_REF_PIC_COUNT || refs.1 > MAX_REF_PIC_COUNT {
        return Err(Rejected);
    }
    if slice_type != 2 && slice_type != 4 {
        read_reorder_list(r, refs.0, sps.log2_max_frame_num)?;
        if slice_type == 1 {
            read_reorder_list(r, refs.1, sps.log2_max_frame_num)?;
        }
    }
    read_sh_tail(r, slice_type, refs, sps, &pps, idr, nal_ref_idc)
}

/// Whether a start code 00 00 01 begins at `i`.
pub open spec fn start_code_at(s: Seq<u8>, i: int) -> bool {
    0 <= i && i + 2 < s.len() && s[i] == 0 && s[i + 1] == 0 && s[i + 2] == 1
}

/// The first start code at or after `i`.
pub open spec fn first_start_code(s: Seq<u8>, i: int) -> Option<int>
    decreases s.len() - i,
{
    if i < 0 || i + 3 > s.len() {
        None
    } else if start_code_at(s, i) {
        Some(i)
    } else {
        first_start_code(s, i + 1)
    }
}

/// The decoder's byte-level pass over `src` from `at`, with the unit `cur`
/// being built, the finished `units`, and whether a 00 00 00 was just seen:
/// 00 00 00 and 00 00 01 split units (anything else after 00 00 00 rejects),
/// 00 00 02 rejects, 00 00 03 drops the 03 (and the zeros too when the next
/// byte exceeds 3); other bytes are copied. `None` is a rejection.
pub open spec fn split_from(src: Seq<u8>, at: int, cur: Seq<u8>, units: Seq<Seq<u8>>, zeros: bool) -> Option<
    Seq<Seq<u8>>,
>
    decreases src.len() - at,
{
    if at < 0 || at >= src.len() {
        Some(units.push(cur))
    } else if at + 2 < src.len() && src[at] == 0 && src[at + 1] == 0 && src[at + 2] <= 3 {
        let third = src[at + 2];
        if zeros && third != 0 && third != 1 {
            None
        } else if third == 2 {
            None
        } else if third == 0 {
            split_from(src, at + 1, cur.push(0), units, true)
        } else if third == 3 {
            let kept = if at + 3 < src.len() && src[at + 3] > 3 { cur } else { cur + seq![0u8, 0u8] };
            split_from(src, at + 3, kept, units, zeros)
        } else {
            split_from(src, at + 3, Seq::empty(), units.push(cur), false)
        }
    } else {
        split_from(src, at + 1, cur.push(src[at]), units, zeros)
    }
}

/// The NAL units the decoder finds in an Annex B stream: everything after the
/// first start code, split and unescaped; no start code rejects.
pub open spec fn spec_split(stream: Seq<u8>) -> Option<Seq<Seq<u8>>> {
    match first_start_code(stream, 0) {
        None => None,
        Some(i) => split_from(stream.subrange(i + 3, stream.len() as int), 0, Seq::empty(), Seq::empty(), false),
    }
}

/// Splits an Annex B stream into NAL units the way the decoder does (header
/// byte plus RBSP, trailing zero bytes still present).
pub fn split(stream: &[u8]) -> (r: Result<Vec<Vec<u8>>, Rejected>)
    ensures
        spec_split(stream@) is None <==> r is Err,
        r matches Ok(units) ==> {
            &&& units@.len() == spec_split(stream@)->Some_0.len()
            &&& forall|k: int| 0 <= k < units@.len() ==> (#[trigger] units@[k])@ == spec_split(stream@)->Some_0[k]
            &&& forall|k: int| 0 <= k < units@.len() ==> (#[trigger] units@[k])@.len() <= stream@.len()
        },
{
    let n = stream.len();
    let mut i: usize = 0;
    let mut found = false;
    while !found && n >= 3 && i <= n - 3
        invariant
            n == stream@.len(),
            i <= n,
            first_start_code(stream@, 0) == first_start_code(stream@, i as int),
            found ==> start_code_at(stream@, i as int),
        decreases n - i + (if found { 0int } else { 1int }),
    {
        if stream[i] == 0 && stream[i + 1] == 0 && stream[i + 2] == 1 {
            found = true;
        } else {
            i = i + 1;
        }
    }
    if !found {
        return Err(Rejected);
    }
    let src = &stream[i + 3..n];
    assert(src@ == stream@.subrange(i + 3, n as int));
    assert(spec_split(stream@) == split_from(src@, 0, Seq::empty(), Seq::empty(), false));
    let len = src.len();
    let mut units: Vec<Vec<u8>> = Vec::new();
    let ghost mut done: Seq<Seq<u8>> = Seq::empty();
    let mut current: Vec<u8> = Vec::new();
    let mut at: usize = 0;
    let mut zeros = false;
    while at < len
        invariant
            len == src@.len(),
            src@.len() <= stream@.len(),
            spec_split(stream@) == split_from(src@, 0, Seq::empty(), Seq::empty(), false),
            at <= len,
            current@.len() <= at,
            units@.len() == done.len(),
            forall|k: int| 0 <= k < units@.len() ==> (#[trigger] units@[k])@ == done[k],
            forall|k: int| 0 <= k < done.len() ==> (#[trigger] done[k]).len() <= len,
            split_from(src@, 0, Seq::empty(), Seq::empty(), false) == split_from(src@, at as int, current@, done, zeros),
        decreases len - at,
    {
        if len - at > 2 && src[at] == 0 && src[at + 1] == 0 && src[at + 2] <= 3 {
            let third = src[at + 2];
            if zeros && third != 0 && third != 1 {
                return Err(Rejected);
            }
            if third == 2 {
                return Err(Rejected);
            } else if third == 0 {
                current.push(0);
                at = at + 1;
                zeros = true;
            } else if third == 3 {
                let ghost before = current@;
                if !(len - at > 3 && src[at + 3] > 3) {
                    current.push(0);
                    current.push(0);
                    assert(current@ == before + seq![0u8, 0u8]);
                }
                at = at + 3;
            } else {
                zeros = false;
                let unit = current;
                current = Vec::new();
                proof {
                    done = done.push(unit@);
                }
                units.push(unit);
                at = at + 3;
            }
        } else {
            current.push(src[at]);
            at = at + 1;
        }
    }
    proof {
        done = done.push(current@);
    }
    units.push(current);
    Ok(units)
}

/// NAL units the decoder decodes, and when it decodes their access unit.
pub struct Accepted {
    /// Header byte plus RBSP with its trailing zero bytes removed, in stream order.
    pub units: Vec<Vec<u8>>,
    /// Whether an SEI or access unit delimiter after the slices completes the
    /// access unit during the data call. An incomplete picture is then an
    /// error; otherwise it is decoded by the flush call, where an incomplete
    /// picture yields no image and no error.
    pub constructed_early: bool,
}

/// What every accepted unit is: a header byte with the forbidden bit clear,
/// of a slice, SPS or PPS, and no trailing zero byte.
pub open spec fn accepted_unit(u: Seq<u8>) -> bool {
    &&& u.len() >= 1
    &&& u[u.len() - 1] != 0
    &&& u[0] & 0x80 == 0
    &&& (u[0] & 31 == 1 || u[0] & 31 == 5 || u[0] & 31 == 7 || u[0] & 31 == 8)
}

/// The SPS whose fields are `f`.
pub open spec fn sps_with(f: SpsFields) -> Sps {
    choose|x: Sps| x.fields() == f
}

/// The decoder's state while it scans a stream's units: the stored parameter
/// sets, which kinds were seen, the units kept for reconstruction, whether
/// slices wait for completion, and whether a completion came early.
pub struct Scan {
    pub sps: Seq<Option<Sps>>,
    pub pps: Seq<Option<Pps>>,
    pub sps_exist: bool,
    pub subsps_exist: bool,
    pub pps_exist: bool,
    pub accepted: Seq<Seq<u8>>,
    pub pending: bool,
    pub early: bool,
}

/// The state before the first unit: no parameter set stored, nothing seen.
pub open spec fn scan_start() -> Scan {
    Scan {
        sps: Seq::new(MAX_SPS_COUNT as nat, |i: int| None::<Sps>),
        pps: Seq::new(MAX_PPS_COUNT as nat, |i: int| None::<Pps>),
        sps_exist: false,
        subsps_exist: false,
        pps_exist: false,
        accepted: Seq::empty(),
        pending: false,
        early: false,
    }
}

/// The header byte of a unit (0 for an empty one).
pub open spec fn unit_header(unit: Seq<u8>) -> u8 {
    if unit.len() > 0 { unit[0] } else { 0 }
}

/// The payload of a unit after its header byte.
pub open spec fn unit_payload(unit: Seq<u8>) -> Seq<u8> {
    if unit.len() > 0 { unit.subrange(1, unit.len() as int) } else { unit }
}

/// `st` with a unit kept and its stored tables and flags replaced.
pub open spec fn scan_with(
    st: Scan,
    sps: Seq<Option<Sps>>,
    pps: Seq<Option<Pps>>,
    sps_exist: bool,
    subsps_exist: bool,
    pps_exist: bool,
    accepted: Seq<Seq<u8>>,
    pending: bool,
    early: bool,
) -> Scan {
    Scan { sps, pps, sps_exist, subsps_exist, pps_exist, accepted, pending, early }
}

/// The state after the unit `u` (trailing zeros included), or none where the
/// decoder rejects the stream.
pub open spec fn scan_unit(st: Scan, u: Seq<u8>) -> Option<Scan> {
    let unit = stripped(u);
    let header = unit_header(unit);
    let nri = (header >> 5u8) & 3u8;
    let kind = header & 31u8;
    let payload = unit_payload(unit);
    if header & 0x80u8 != 0 {
        None
    } else if !(kind == 6 || kind == 7 || kind == 9) && !st.sps_exist {
        None
    } else if !(kind == 6 || kind == 7 || kind == 8 || kind == 9 || kind == 15) && !st.pps_exist {
        None
    } else if ((kind == 1 || kind == 5) && !(st.sps_exist || st.pps_exist)) || ((kind == 14 || kind == 20) && !(
    st.sps_exist || st.subsps_exist || st.pps_exist)) {
        None
    } else if kind == 1 || kind == 5 {
        match bits_start(payload) {
            None => None,
            Some(b) => match spec_slice_header(b, kind == 5, nri, st.sps, st.pps) {
                None => None,
                Some(_) => Some(scan_with(st, st.sps, st.pps, st.sps_exist, st.subsps_exist, st.pps_exist,
                    st.accepted.push(unit), true, st.early)),
            },
        }
    } else if kind == 14 || kind == 20 {
        if payload.len() < 3 || payload[1] & 0x0fu8 != 0 || payload[2] & 0x10u8 != 0 {
            None
        } else if kind == 14 && nri != 0 && bits_start(payload.subrange(3, payload.len() as int)) is None {
            None
        } else if kind == 20 {
            None
        } else {
            Some(st)
        }
    } else if (kind == 7 || kind == 15) && payload.len() > 0 {
        match bits_start(payload) {
            None => None,
            Some(b) => match spec_parse_sps(b) {
                None => None,
                Some((None, _)) => Some(st),
                Some((Some((id, f)), _)) => {
                    let t = st.sps.update(id as int, Some(sps_with(f)));
                    if kind == 7 {
                        Some(scan_with(st, t, st.pps, true, st.subsps_exist, st.pps_exist, st.accepted.push(unit),
                            st.pending, st.early))
                    } else {
                        Some(scan_with(st, t, st.pps, st.sps_exist, true, st.pps_exist, st.accepted, st.pending,
                            st.early))
                    }
                },
            },
        }
    } else if kind == 8 && payload.len() > 0 {
        match bits_start(payload) {
            None => None,
            Some(b) => match spec_parse_pps(b, st.sps) {
                None => None,
                Some((id, pps, _)) => Some(scan_with(st, st.sps, st.pps.update(id as int, Some(pps)), st.sps_exist,
                    st.subsps_exist, true, st.accepted.push(unit), st.pending, st.early)),
            },
        }
    } else if (kind == 6 || kind == 9) && st.pending {
        Some(scan_with(st, st.sps, st.pps, st.sps_exist, st.subsps_exist, st.pps_exist, st.accepted, false, true))
    } else {
        Some(st)
    }
}

/// The state after the units from `i` on, or none where one is rejected.
pub open spec fn scan_units(st: Scan, units: Seq<Seq<u8>>, i: int) -> Option<Scan>
    decreases units.len() - i,
{
    if i < 0 || i >= units.len() {
        Some(st)
    } else {
        match scan_unit(st, units[i]) {
            None => None,
            Some(t) => scan_units(t, units, i + 1),
        }
    }
}

/// What the decoder makes of an Annex B stream: the units it keeps for
/// reconstruction, in stream order, and whether a completion came early; or
/// none where it rejects the stream.
pub open spec fn spec_accept(stream: Seq<u8>) -> Option<(Seq<Seq<u8>>, bool)> {
    match spec_split(stream) {
        None => None,
        Some(units) => match scan_units(scan_start(), units, 0) {
            None => None,
            Some(st) => Some((st.accepted, st.early)),
        },
    }
}

/// The units of a list as byte sequences.
pub open spec fn units_of(units: Seq<Vec<u8>>) -> Seq<Seq<u8>> {
    units.map_values(|u: Vec<u8>| u@)
}

/// `unit` without its trailing zero bytes.
fn strip_trailing_zeros(unit: &Vec<u8>) -> (r: Vec<u8>)
    ensures
        r@ == stripped(unit@),
        r@.len() <= unit@.len(),
        r@ == unit@.subrange(0, r@.len() as int),
        r@.len() > 0 ==> r@[r@.len() - 1] != 0,
{
    let mut end = unit.len();
    assert(unit@.subrange(0, end as int) =~= unit@);
    while end > 0 && unit[end - 1] == 0
        invariant
            end <= unit@.len(),
            stripped(unit@) == stripped(unit@.subrange(0, end as int)),
        decreases end,
    {
        assert(unit@.subrange(0, end as int).drop_last() =~= unit@.subrange(0, end - 1));
        end = end - 1;
    }
    let mut r: Vec<u8> = Vec::new();
    let mut k: usize = 0;
    while k < end
        invariant
            end <= unit@.len(),
            k <= end,
            r@ == unit@.subrange(0, k as int),
        decreases end - k,
    {
        r.push(unit[k]);
        k = k + 1;
    }
    r
}

/// Decides what the decoder does with an Annex B stream: reject it, or accept
/// NAL units for reconstruction. Units that name no stored parameter set,
/// parameter sets and slice headers outside the decoder's limits, and
/// scalable extension slices reject the stream.
#[verifier::rlimit(60)]
#[verifier::spinoff_prover]
pub fn accept(stream: &[u8]) -> (r: Result<Accepted, Rejected>)
    requires
        stream@.len() <= max_payload(),
    ensures
        match spec_accept(stream@) {
            None => r is Err,
            Some((units, early)) => r matches Ok(a) && units_of(a.units@) == units && a.constructed_early == early,
        },
        r matches Ok(a) ==> forall|k: int| 0 <= k < a.units@.len() ==> accepted_unit(#[trigger] a.units@[k]@),
{
    let mut sps: Vec<Option<Sps>> = Vec::new();
    while sps.len() < MAX_SPS_COUNT
        invariant
            sps@.len() <= MAX_SPS_COUNT,
            forall|i: int| 0 <= i < sps@.len() ==> (#[trigger] sps@[i]) is None,
        decreases MAX_SPS_COUNT - sps@.len(),
    {
        sps.push(None);
    }
    let mut pps: Vec<Option<Pps>> = Vec::new();
    while pps.len() < MAX_PPS_COUNT
        invariant
            pps@.len() <= MAX_PPS_COUNT,
            forall|i: int| 0 <= i < pps@.len() ==> (#[trigger] pps@[i]) is None,
        decreases MAX_PPS_COUNT - pps@.len(),
    {
        pps.push(None);
    }
    let mut sps_exist = false;
    let mut subsps_exist = false;
    let mut pps_exist = false;
    let mut accepted: Vec<Vec<u8>> = Vec::new();
    let mut pending_slices = false;
    let mut constructed_early = false;
    let units = split(stream)?;
    let ghost all = spec_split(stream@)->Some_0;
    let ghost mut st = scan_start();
    proof {
        assert(units_of(units@) =~= all);
        assert(pps@ =~= st.pps);
        assert(units_of(accepted@) =~= st.accepted);
    }
    let mut i: usize = 0;
    while i < units.len()
        invariant
            forall|k: int| 0 <= k < units@.len() ==> (#[trigger] units@[k])@.len() <= stream@.len(),
            stream@.len() <= max_payload(),
            sps_table_ok(sps@),
            pps_table_ok(pps@),
            forall|k: int| 0 <= k < accepted@.len() ==> accepted_unit(#[trigger] accepted@[k]@),
            i <= units@.len(),
            units_of(units@) == all,
            all == spec_split(stream@)->Some_0,
            spec_split(stream@) is Some,
            scan_units(scan_start(), all, 0) == scan_units(st, all, i as int),
            sps_alike(sps@, st.sps),
            pps@ == st.pps,
            sps_exist == st.sps_exist,
            subsps_exist == st.subsps_exist,
            pps_exist == st.pps_exist,
            units_of(accepted@) == st.accepted,
            pending_slices == st.pending,
            constructed_early == st.early,
        decreases units@.len() - i,
    {
        // Trailing zero bytes are not part of the unit.
        let unit = strip_trailing_zeros(&units[i]);
        let ghost u = all[i as int];
        assert(units@[i as int]@ == u);
        let ghost next = scan_unit(st, u);
        assert(scan_units(st, all, i as int) == match next {
            None => None::<Scan>,
            Some(t) => scan_units(t, all, i + 1),
        });
        i = i + 1;
        // An empty unit reads its header from the decoder's zeroed reserve.
        let header: u8 = if unit.len() > 0 { unit[0] } else { 0 };
        if header & 0x80 != 0 {
            return Err(Rejected);
        }
        let nal_ref_idc = (header >> 5u8) & 3;
        let kind = header & 31;
        if !(kind == 6 || kind == 7 || kind == 9) && !sps_exist {
            return Err(Rejected);
        }
        if !(kind == 6 || kind == 7 || kind == 8 || kind == 9 || kind == 15) && !pps_exist {
            return Err(Rejected);
        }
        let whole = unit.as_slice();
        let payload: &[u8] = if whole.len() > 0 { &whole[1..whole.len()] } else { whole };
        assert(payload@ == unit_payload(unit@));
        if ((kind == 1 || kind == 5) && !(sps_exist || pps_exist))
            || ((kind == 14 || kind == 20) && !(sps_exist || subsps_exist || pps_exist)) {
            return Err(Rejected);
        }
        if kind == 1 || kind == 5 {
            let mut r = start_bits(payload)?;
            proof {
                lemma_slice_alike(r, kind == 5, nal_ref_idc, sps@, st.sps, pps@);
            }
            parse_slice_header(&mut r, kind == 5, nal_ref_idc, &sps, &pps)?;
            pending_slices = true;
            let ghost before = accepted@;
            accepted.push(unit);
            proof {
                assert(units_of(accepted@) =~= units_of(before).push(unit@));
            }
        } else if kind == 14 || kind == 20 {
            // A prefix unit or a scalable extension slice.
            if payload.len() < 3 {
                return Err(Rejected);
            }
            let quality_id = payload[1] & 0x0F;
            let use_ref_base = payload[2] & 0x10 != 0;
            if quality_id != 0 || use_ref_base {
                return Err(Rejected);
            }
            if kind == 14 && nal_ref_idc != 0 {
                // The prefix unit's syntax is parsed with its result ignored,
                // but its bitstream must initialize.
                let rest = &payload[3..payload.len()];
                start_bits(rest)?;
            }
            if kind == 20 {
                // Extension slices need a stored subset SPS, which a
                // single-layer stream never has: the slice header fails.
                return Err(Rejected);
            }
        } else if (kind == 7 || kind == 15) && payload.len() > 0 {
            let mut r = start_bits(payload)?;
            match parse_sps(&mut r)? {
                SpsResult::Stored(id, parsed) => {
                    proof {
                        assert(sps_with(parsed.fields()).fields() == parsed.fields());
                    }
                    sps.set(id, Some(parsed));
                    if kind == 7 {
                        sps_exist = true;
                        let ghost before = accepted@;
                        accepted.push(unit);
                        proof {
                            assert(units_of(accepted@) =~= units_of(before).push(unit@));
                        }
                    } else {
                        subsps_exist = true;
                    }
                },
                SpsResult::Ignored => {},
            }
        } else if kind == 8 && payload.len() > 0 {
            let mut r = start_bits(payload)?;
            proof {
                lemma_pps_alike(r, sps@, st.sps);
            }
            let (id, parsed) = parse_pps(&mut r, &sps)?;
            pps.set(id, Some(parsed));
            pps_exist = true;
            let ghost before = accepted@;
            accepted.push(unit);
            proof {
                assert(units_of(accepted@) =~= units_of(before).push(unit@));
            }
        } else if (kind == 6 || kind == 9) && pending_slices {
            constructed_early = true;
            pending_slices = false;
        }
        proof {
            st = next->Some_0;
        }
    }
    proof {
        assert(scan_units(st, all, i as int) == Some(st));
    }
    Ok(Accepted { units: accepted, constructed_early })
}

} // verus!
