//! HTJ2K (ITU-T T.814) block-coder pieces: the MEL, VLC and MagSgn bit
//! writers of the cleanup pass, their joint termination, the U-VLC code
//! table, the packet-header bit writer and the code-block helpers.
use vstd::prelude::*;

verus! {

/// Configurations for which the coder stops: a MEL or VLC buffer would overflow.
#[derive(Debug, PartialEq, Eq, Structural)]
pub enum EncodeError {
    Unsupported,
}

/// The MEL buffer size in bytes.
pub const MEL_SIZE: usize = 192;
/// The VLC buffer size in bytes.
pub const VLC_SIZE: usize = 2880;

/// The MEL exponent table: run lengths of `2^mel_exp(k)` at state `k`.
pub open spec fn mel_exp(k: int) -> int {
    if k <= 2 { 0 } else if k <= 5 { 1 } else if k <= 8 { 2 } else if k <= 10 { 3 } else if k == 11 { 4 } else { 5 }
}

/// `2^n` for `n` in 0..=8.
pub open spec fn pow2_byte(n: int) -> int {
    if n <= 0 { 1 } else if n == 1 { 2 } else if n == 2 { 4 } else if n == 3 { 8 } else if n == 4 { 16 }
    else if n == 5 { 32 } else if n == 6 { 64 } else if n == 7 { 128 } else { 256 }
}

/// `2^n` for `n` in 0..=5.
pub open spec fn pow2_small(n: int) -> int {
    if n <= 0 { 1 } else if n == 1 { 2 } else if n == 2 { 4 } else if n == 3 { 8 } else if n == 4 { 16 } else { 32 }
}

/// The MEL coder as values: bytes written, bits left in the byte being
/// filled, that byte so far, the current run, and the state.
pub struct MelModel {
    pub buf: Seq<u8>,
    pub remaining: int,
    pub tmp: int,
    pub run: int,
    pub k: int,
}

/// Bit `i` of a run length.
pub open spec fn run_bit(run: int, i: int) -> int {
    ((run as u32) >> (i as u32)) as int % 2
}

/// One bit into the MEL byte; a full byte is written (after 0xff only seven
/// bits go into the next), refused past `MEL_SIZE` bytes.
pub open spec fn mel_emit(s: MelModel, v: int) -> Result<MelModel, EncodeError> {
    let tmp = s.tmp * 2 + v;
    if s.remaining - 1 == 0 {
        if s.buf.len() >= MEL_SIZE {
            Err(EncodeError::Unsupported)
        } else {
            Ok(MelModel { buf: s.buf.push(tmp as u8), remaining: if tmp == 0xff { 7 } else { 8 }, tmp: 0, ..s })
        }
    } else {
        Ok(MelModel { tmp, remaining: s.remaining - 1, ..s })
    }
}

/// The low `t` bits of `run`, most significant first.
pub open spec fn mel_run_bits(s: MelModel, run: int, t: int) -> Result<MelModel, EncodeError>
    decreases t,
{
    if t <= 0 {
        Ok(s)
    } else {
        match mel_emit(s, run_bit(run, t - 1)) {
            Err(e) => Err(e),
            Ok(s1) => mel_run_bits(s1, run, t - 1),
        }
    }
}

/// One MEL symbol: a zero lengthens the run, ending it with a 1 bit at the
/// state's run length; a one ends it with a 0 bit and the run length.
pub open spec fn mel_encode(s: MelModel, bit: bool) -> Result<MelModel, EncodeError> {
    if !bit {
        let run = s.run + 1;
        if run >= pow2_small(mel_exp(s.k)) {
            match mel_emit(s, 1) {
                Err(e) => Err(e),
                Ok(s1) => Ok(MelModel { run: 0, k: if s.k + 1 < 12 { s.k + 1 } else { 12 }, ..s1 }),
            }
        } else {
            Ok(MelModel { run, ..s })
        }
    } else {
        match mel_emit(s, 0) {
            Err(e) => Err(e),
            Ok(s1) => match mel_run_bits(s1, s.run, mel_exp(s.k)) {
                Err(e) => Err(e),
                Ok(s2) => Ok(MelModel { run: 0, k: if s.k - 1 > 0 { s.k - 1 } else { 0 }, ..s2 }),
            },
        }
    }
}

/// The MEL coder.
pub struct Mel {
    pub buf: Vec<u8>,
    pub remaining_bits: i32,
    pub tmp: i32,
    pub run: i32,
    pub k: i32,
    pub threshold: i32,
}

impl Mel {
    /// The coder as values.
    pub open spec fn model(&self) -> MelModel {
        MelModel {
            buf: self.buf@,
            remaining: self.remaining_bits as int,
            tmp: self.tmp as int,
            run: self.run as int,
            k: self.k as int,
        }
    }

    /// The coder's invariant: a partial byte below `2^(8 - remaining)`, the
    /// state in 0..=12, the run below the state's run length.
    pub open spec fn wf(&self) -> bool {
        &&& 1 <= self.remaining_bits <= 8
        &&& 0 <= self.tmp < pow2_byte(8 - self.remaining_bits)
        &&& 0 <= self.k <= 12
        &&& self.threshold == pow2_small(mel_exp(self.k as int))
        &&& 0 <= self.run < self.threshold
        &&& self.buf@.len() <= MEL_SIZE
    }

    /// An empty coder.
    pub fn new() -> (r: Mel)
        ensures
            r.wf(),
            r.model() == (MelModel { buf: Seq::empty(), remaining: 8, tmp: 0, run: 0, k: 0 }),
    {
        Mel { buf: Vec::new(), remaining_bits: 8, tmp: 0, run: 0, k: 0, threshold: 1 }
    }

    /// Writes one bit.
    pub fn emit_bit(&mut self, v: i32) -> (r: Result<(), EncodeError>)
        requires
            old(self).wf(),
            0 <= v <= 1,
        ensures
            match mel_emit(old(self).model(), v as int) {
                Ok(m) => r is Ok && final(self).model() == m && final(self).wf()
                    && final(self).threshold == old(self).threshold,
                Err(e) => r == Err::<(), EncodeError>(e),
            },
    {
        let tmp = self.tmp * 2 + v;
        self.tmp = tmp;
        self.remaining_bits = self.remaining_bits - 1;
        if self.remaining_bits == 0 {
            if self.buf.len() >= MEL_SIZE {
                return Err(EncodeError::Unsupported);
            }
            self.buf.push(tmp as u8);
            self.remaining_bits = if tmp == 0xff { 7 } else { 8 };
            self.tmp = 0;
        }
        Ok(())
    }
}

/// The run length of MEL state `k`: `2^mel_exp(k)`.
fn mel_threshold(k: i32) -> (r: i32)
    requires
        0 <= k <= 12,
    ensures
        r == pow2_small(mel_exp(k as int)),
{
    if k <= 2 { 1 } else if k <= 5 { 2 } else if k <= 8 { 4 } else if k <= 10 { 8 } else if k == 11 { 16 } else { 32 }
}

/// `mel_exp(k)`.
fn mel_exponent(k: i32) -> (r: i32)
    requires
        0 <= k <= 12,
    ensures
        r == mel_exp(k as int),
{
    if k <= 2 { 0 } else if k <= 5 { 1 } else if k <= 8 { 2 } else if k <= 10 { 3 } else if k == 11 { 4 } else { 5 }
}

impl Mel {
    /// Codes one MEL symbol.
    pub fn encode(&mut self, bit: bool) -> (r: Result<(), EncodeError>)
        requires
            old(self).wf(),
        ensures
            match mel_encode(old(self).model(), bit) {
                Ok(m) => r is Ok && final(self).model() == m && final(self).wf(),
                Err(e) => r == Err::<(), EncodeError>(e),
            },
    {
        if !bit {
            let run = self.run + 1;
            if run >= self.threshold {
                match self.emit_bit(1) {
                    Ok(()) => {},
                    Err(e) => return Err(e),
                }
                self.run = 0;
                self.k = if self.k + 1 < 12 { self.k + 1 } else { 12 };
                self.threshold = mel_threshold(self.k);
            } else {
                self.run = run;
            }
            Ok(())
        } else {
            match self.emit_bit(0) {
                Ok(()) => {},
                Err(e) => return Err(e),
            }
            let ghost s1 = self.model();
            let run = self.run;
            let mut t = mel_exponent(self.k);
            while t > 0
                invariant
                    0 <= t <= 5,
                    self.wf(),
                    run == self.run,
                    run == old(self).run,
                    bit,
                    mel_emit(old(self).model(), 0) == Ok::<MelModel, EncodeError>(s1),
                    mel_run_bits(s1, run as int, mel_exp(old(self).k as int)) == mel_run_bits(self.model(), run as int, t as int),
                    self.k == old(self).k,
                decreases t,
            {
                let ghost cur = self.model();
                t = t - 1;
                let b = ((run as u32) >> (t as u32)) % 2;
                assert(b as int == run_bit(run as int, t as int));
                match self.emit_bit(b as i32) {
                    Ok(()) => {},
                    Err(e) => {
                        assert(mel_run_bits(cur, run as int, t + 1) == Err::<MelModel, EncodeError>(e));
                        return Err(e);
                    },
                }
            }
            self.run = 0;
            self.k = if self.k - 1 > 0 { self.k - 1 } else { 0 };
            self.threshold = mel_threshold(self.k);
            Ok(())
        }
    }
}

/// `2^n` for `n` in 0..=8.
fn pow2_of(n: i32) -> (r: i32)
    requires
        0 <= n <= 8,
    ensures
        r == pow2_byte(n as int),
{
    if n == 0 { 1 } else if n == 1 { 2 } else if n == 2 { 4 } else if n == 3 { 8 } else if n == 4 { 16 }
    else if n == 5 { 32 } else if n == 6 { 64 } else if n == 7 { 128 } else { 256 }
}

/// The VLC writer as values: bytes in writing order (the codestream holds
/// them reversed), bits used of the byte being filled, that byte, and whether
/// the last byte written exceeded 0x8f.
pub struct VlcModel {
    pub buf: Seq<u8>,
    pub used: int,
    pub tmp: int,
    pub last: bool,
}

/// The low `len` bits of `cwd` into the VLC bytes, least significant first;
/// after a byte above 0x8f the next byte holds seven bits unless it is 0x7f.
/// Refused once `VLC_SIZE` bytes are written.
pub open spec fn vlc_encode(s: VlcModel, cwd: int, len: int) -> Result<VlcModel, EncodeError>
    decreases len,
{
    if len <= 0 {
        Ok(s)
    } else if s.buf.len() >= VLC_SIZE {
        Err(EncodeError::Unsupported)
    } else {
        let avail = 8 - (if s.last { 1int } else { 0int }) - s.used;
        let t = if avail < len { avail } else { len };
        let tmp = s.tmp + (cwd % pow2_byte(t)) * pow2_byte(s.used);
        let used = s.used + t;
        let next = if avail - t == 0 {
            if s.last && tmp != 0x7f {
                VlcModel { tmp, used, last: false, ..s }
            } else {
                VlcModel { buf: s.buf.push(tmp as u8), used: 0, tmp: 0, last: tmp > 0x8f }
            }
        } else {
            VlcModel { tmp, used, ..s }
        };
        if t <= 0 { Ok(s) } else { vlc_encode(next, cwd / pow2_byte(t), len - t) }
    }
}

/// The VLC writer.
pub struct Vlc {
    pub buf: Vec<u8>,
    pub used_bits: i32,
    pub tmp: i32,
    pub last_greater_than_8f: bool,
}

impl Vlc {
    /// The writer as values.
    pub open spec fn model(&self) -> VlcModel {
        VlcModel { buf: self.buf@, used: self.used_bits as int, tmp: self.tmp as int, last: self.last_greater_than_8f }
    }

    /// Fewer bits used than the byte holds, the byte below `2^used`.
    pub open spec fn wf(&self) -> bool {
        &&& 0 <= self.used_bits
        &&& self.used_bits + (if self.last_greater_than_8f { 1int } else { 0int }) <= 7
        &&& 0 <= self.tmp < pow2_byte(self.used_bits as int)
        &&& self.buf@.len() <= VLC_SIZE
        &&& self.buf@.len() >= 1
    }

    /// A writer holding the initial 0xff byte and four one bits.
    pub fn new() -> (r: Vlc)
        ensures
            r.wf(),
            r.model() == (VlcModel { buf: seq![0xffu8], used: 4, tmp: 0xf, last: true }),
    {
        let mut buf: Vec<u8> = Vec::new();
        buf.push(0xff);
        Vlc { buf, used_bits: 4, tmp: 0xf, last_greater_than_8f: true }
    }

    /// The number of bytes written.
    pub fn pos(&self) -> (r: usize)
        ensures
            r == self.buf@.len(),
    {
        self.buf.len()
    }

    /// Writes the low `cwd_len` bits of a codeword.
    pub fn encode(&mut self, codeword: i32, length: i32) -> (r: Result<(), EncodeError>)
        requires
            old(self).wf(),
            codeword >= 0,
        ensures
            match vlc_encode(old(self).model(), codeword as int, length as int) {
                Ok(m) => r is Ok && final(self).model() == m && final(self).wf(),
                Err(e) => r == Err::<(), EncodeError>(e),
            },
    {
        let mut cwd = codeword;
        let mut cwd_len = length;
        while cwd_len > 0
            invariant
                self.wf(),
                cwd >= 0,
                vlc_encode(old(self).model(), codeword as int, length as int)
                    == vlc_encode(self.model(), cwd as int, cwd_len as int),
            decreases cwd_len,
        {
            if self.pos() >= VLC_SIZE {
                return Err(EncodeError::Unsupported);
            }
            let avail = 8 - (if self.last_greater_than_8f { 1 } else { 0 }) - self.used_bits;
            let t = if avail < cwd_len { avail } else { cwd_len };
            let p = pow2_of(t);
            let q = pow2_of(self.used_bits);
            proof {
                assert(0 <= cwd % p < p);
                assert((cwd % p) * q + self.tmp < p * q) by (nonlinear_arith)
                    requires 0 <= cwd % p < p, 0 <= self.tmp < q, p >= 1, q >= 1;
                lemma_pow2_byte_mul(t as int, self.used_bits as int);
            }
            let tmp = self.tmp + (cwd % p) * q;
            let used = self.used_bits + t;
            cwd = cwd / p;
            cwd_len = cwd_len - t;
            if avail - t == 0 {
                if self.last_greater_than_8f && tmp != 0x7f {
                    self.tmp = tmp;
                    self.used_bits = used;
                    self.last_greater_than_8f = false;
                } else {
                    self.buf.push(tmp as u8);
                    self.last_greater_than_8f = tmp > 0x8f;
                    self.tmp = 0;
                    self.used_bits = 0;
                }
            } else {
                self.tmp = tmp;
                self.used_bits = used;
            }
        }
        Ok(())
    }
}

/// `2^a * 2^b = 2^(a+b)` within a byte.
proof fn lemma_pow2_byte_mul(a: int, b: int)
    requires
        0 <= a,
        0 <= b,
        a + b <= 8,
    ensures
        pow2_byte(a) * pow2_byte(b) == pow2_byte(a + b),
{
}

/// The MagSgn writer as values: bytes, bits per byte (7 after 0xff), bits
/// used of the byte being filled, and that byte.
pub struct MsModel {
    pub buf: Seq<u8>,
    pub max: int,
    pub used: int,
    pub tmp: int,
}

/// The low `len` bits of `cwd` into the MagSgn bytes, least significant first.
pub open spec fn ms_encode(s: MsModel, cwd: nat, len: int) -> MsModel
    decreases len,
{
    if len <= 0 {
        s
    } else {
        let t = if s.max - s.used < len { s.max - s.used } else { len };
        let tmp = s.tmp + (cwd % pow2_byte(t) as nat) * pow2_byte(s.used);
        let used = s.used + t;
        let next = if used >= s.max {
            MsModel { buf: s.buf.push(tmp as u8), max: if tmp == 0xff { 7 } else { 8 }, used: 0, tmp: 0 }
        } else {
            MsModel { used, tmp, ..s }
        };
        if t <= 0 { s } else { ms_encode(next, cwd / pow2_byte(t) as nat, len - t) }
    }
}

/// The MagSgn bytes once ended: a partial byte filled with ones and written
/// unless it is 0xff; a trailing 0xff dropped when nothing followed it.
pub open spec fn ms_terminate(s: MsModel) -> Seq<u8> {
    if s.used != 0 {
        let tmp = s.tmp + (pow2_byte(s.max - s.used) - 1) * pow2_byte(s.used);
        if tmp != 0xff { s.buf.push(tmp as u8) } else { s.buf }
    } else if s.max == 7 {
        s.buf.drop_last()
    } else {
        s.buf
    }
}

/// The MagSgn writer.
pub struct Ms {
    pub buf: Vec<u8>,
    pub max_bits: i32,
    pub used_bits: i32,
    pub tmp: u32,
}

impl Ms {
    /// The writer as values.
    pub open spec fn model(&self) -> MsModel {
        MsModel { buf: self.buf@, max: self.max_bits as int, used: self.used_bits as int, tmp: self.tmp as int }
    }

    /// Seven or eight bits per byte (seven only after a written 0xff), fewer
    /// used, the byte below `2^used`.
    pub open spec fn wf(&self) -> bool {
        &&& (self.max_bits == 7 || self.max_bits == 8)
        &&& 0 <= self.used_bits < self.max_bits
        &&& self.tmp < pow2_byte(self.used_bits as int)
        &&& (self.max_bits == 7 ==> self.buf@.len() >= 1 && self.buf@.last() == 0xff)
    }

    /// An empty writer.
    pub fn new() -> (r: Ms)
        ensures
            r.wf(),
            r.model() == (MsModel { buf: Seq::empty(), max: 8, used: 0, tmp: 0 }),
    {
        Ms { buf: Vec::new(), max_bits: 8, used_bits: 0, tmp: 0 }
    }

    /// Writes the low `length` bits of a codeword.
    pub fn encode(&mut self, codeword: u64, length: i32)
        requires
            old(self).wf(),
        ensures
            final(self).model() == ms_encode(old(self).model(), codeword as nat, length as int),
            final(self).wf(),
    {
        let mut cwd = codeword;
        let mut cwd_len = length;
        while cwd_len > 0
            invariant
                self.wf(),
                ms_encode(old(self).model(), codeword as nat, length as int)
                    == ms_encode(self.model(), cwd as nat, cwd_len as int),
            decreases cwd_len,
        {
            let t = if self.max_bits - self.used_bits < cwd_len { self.max_bits - self.used_bits } else { cwd_len };
            let p = pow2_of(t) as u64;
            let q = pow2_of(self.used_bits) as u32;
            proof {
                assert(0 <= cwd % p < p);
                assert((cwd % p) * q + self.tmp < p * q) by (nonlinear_arith)
                    requires 0 <= cwd % p < p, 0 <= self.tmp < q, p >= 1, q >= 1;
                lemma_pow2_byte_mul(t as int, self.used_bits as int);
            }
            let tmp = self.tmp + (cwd % p) as u32 * q;
            let used = self.used_bits + t;
            cwd = cwd / p;
            cwd_len = cwd_len - t;
            if used >= self.max_bits {
                self.buf.push(tmp as u8);
                self.max_bits = if tmp == 0xff { 7 } else { 8 };
                self.tmp = 0;
                self.used_bits = 0;
            } else {
                self.tmp = tmp;
                self.used_bits = used;
            }
        }
    }

    /// Ends the MagSgn bytes.
    pub fn terminate(&mut self)
        requires
            old(self).wf(),
        ensures
            final(self).buf@ == ms_terminate(old(self).model()),
    {
        if self.used_bits != 0 {
            let t = self.max_bits - self.used_bits;
            let p = pow2_of(t) as u32;
            let q = pow2_of(self.used_bits) as u32;
            proof {
                assert((p - 1) * q + self.tmp < p * q) by (nonlinear_arith)
                    requires 0 <= self.tmp < q, p >= 1, q >= 1;
                lemma_pow2_byte_mul(t as int, self.used_bits as int);
            }
            self.tmp = self.tmp + (p - 1) * q;
            self.used_bits = self.used_bits + t;
            if self.tmp != 0xff {
                self.buf.push(self.tmp as u8);
            }
        } else if self.max_bits == 7 {
            self.buf.pop();
        }
    }
}

/// The MEL and VLC bytes once ended: a pending MEL run closed with a 1 bit,
/// then the two partial bytes fused into one MEL byte where their bits do not
/// collide, the fused byte is not 0xff and the VLC holds more than its first
/// byte; otherwise each partial byte written to its own buffer. Refused where
/// a buffer is full.
pub open spec fn terminate_spec(mel: MelModel, vlc: VlcModel) -> Result<(Seq<u8>, Seq<u8>), EncodeError> {
    let m = if mel.run > 0 { mel_emit(mel, 1) } else { Ok(mel) };
    match m {
        Err(e) => Err(e),
        Ok(m1) => {
            let mel_tmp = m1.tmp * pow2_byte(m1.remaining);
            let mel_mask = 256 - pow2_byte(m1.remaining);
            let vlc_mask = pow2_byte(vlc.used) - 1;
            if mel_mask == 0 && vlc_mask == 0 {
                Ok((m1.buf, vlc.buf))
            } else if m1.buf.len() >= MEL_SIZE {
                Err(EncodeError::Unsupported)
            } else {
                let fuse = (mel_tmp as u8) | (vlc.tmp as u8);
                let clean = ((fuse ^ (mel_tmp as u8)) & (mel_mask as u8)) | ((fuse ^ (vlc.tmp as u8)) & (vlc_mask as u8));
                if clean == 0 && fuse != 0xff && vlc.buf.len() > 1 {
                    Ok((m1.buf.push(fuse), vlc.buf))
                } else if vlc.buf.len() >= VLC_SIZE {
                    Err(EncodeError::Unsupported)
                } else {
                    Ok((m1.buf.push(mel_tmp as u8), vlc.buf.push(vlc.tmp as u8)))
                }
            }
        },
    }
}

/// Ends the MEL and VLC bytes.
pub fn terminate_mel_vlc(mel: &mut Mel, vlc: &mut Vlc) -> (r: Result<(), EncodeError>)
    requires
        old(mel).wf(),
        old(vlc).wf(),
    ensures
        match terminate_spec(old(mel).model(), old(vlc).model()) {
            Ok((m, v)) => r is Ok && final(mel).buf@ == m && final(vlc).buf@ == v,
            Err(e) => r == Err::<(), EncodeError>(e),
        },
{
    if mel.run > 0 {
        match mel.emit_bit(1) {
            Ok(()) => {},
            Err(e) => return Err(e),
        }
    }
    let p = pow2_of(mel.remaining_bits);
    proof {
        assert(mel.tmp * p < 256) by (nonlinear_arith)
            requires 0 <= mel.tmp < pow2_byte(8 - mel.remaining_bits), p == pow2_byte(mel.remaining_bits as int),
                pow2_byte(8 - mel.remaining_bits) * pow2_byte(mel.remaining_bits as int) == 256;
    }
    mel.tmp = mel.tmp * p;
    let mel_mask = 256 - p;
    let vlc_mask = pow2_of(vlc.used_bits) - 1;
    if mel_mask == 0 && vlc_mask == 0 {
        return Ok(());
    }
    if mel.buf.len() >= MEL_SIZE {
        return Err(EncodeError::Unsupported);
    }
    let fuse = (mel.tmp as u8) | (vlc.tmp as u8);
    let clean = ((fuse ^ (mel.tmp as u8)) & (mel_mask as u8)) | ((fuse ^ (vlc.tmp as u8)) & (vlc_mask as u8));
    if clean == 0 && fuse != 0xff && vlc.pos() > 1 {
        mel.buf.push(fuse);
    } else {
        if vlc.pos() >= VLC_SIZE {
            return Err(EncodeError::Unsupported);
        }
        mel.buf.push(mel.tmp as u8);
        vlc.buf.push(vlc.tmp as u8);
    }
    Ok(())
}

/// A U-VLC codeword: prefix and its length, suffix and its length.
#[derive(Clone, Copy, Debug, PartialEq, Eq, Structural)]
pub struct Uvlc {
    pub pre: u32,
    pub pre_len: u32,
    pub suf: u32,
    pub suf_len: u32,
}

/// The U-VLC code of `i`: prefixes 0, 1, 01, 001 (twice); then 000 with a
/// 5-bit suffix `i - 5` up to 32, and beyond that `28 + (i - 33) % 4`.
pub open spec fn spec_uvlc(i: int) -> Uvlc {
    if i == 0 {
        Uvlc { pre: 0, pre_len: 0, suf: 0, suf_len: 0 }
    } else if i == 1 {
        Uvlc { pre: 1, pre_len: 1, suf: 0, suf_len: 0 }
    } else if i == 2 {
        Uvlc { pre: 2, pre_len: 2, suf: 0, suf_len: 0 }
    } else if i == 3 {
        Uvlc { pre: 4, pre_len: 3, suf: 0, suf_len: 1 }
    } else if i == 4 {
        Uvlc { pre: 4, pre_len: 3, suf: 1, suf_len: 1 }
    } else if i <= 32 {
        Uvlc { pre: 0, pre_len: 3, suf: (i - 5) as u32, suf_len: 5 }
    } else {
        Uvlc { pre: 0, pre_len: 3, suf: (28 + (i - 33) % 4) as u32, suf_len: 5 }
    }
}

/// The U-VLC code of `i`.
pub fn uvlc(i: usize) -> (r: Uvlc)
    ensures
        r == spec_uvlc(i as int),
{
    if i == 0 {
        Uvlc { pre: 0, pre_len: 0, suf: 0, suf_len: 0 }
    } else if i == 1 {
        Uvlc { pre: 1, pre_len: 1, suf: 0, suf_len: 0 }
    } else if i == 2 {
        Uvlc { pre: 2, pre_len: 2, suf: 0, suf_len: 0 }
    } else if i == 3 {
        Uvlc { pre: 4, pre_len: 3, suf: 0, suf_len: 1 }
    } else if i == 4 {
        Uvlc { pre: 4, pre_len: 3, suf: 1, suf_len: 1 }
    } else if i <= 32 {
        Uvlc { pre: 0, pre_len: 3, suf: (i - 5) as u32, suf_len: 5 }
    } else {
        Uvlc { pre: 0, pre_len: 3, suf: (28 + (i - 33) % 4) as u32, suf_len: 5 }
    }
}

/// The packet-header writer as values: bytes, free bits of the byte being
/// filled (7 after 0xff), and that byte.
pub struct HeaderModel {
    pub out: Seq<u8>,
    pub avail: int,
    pub tmp: int,
}

/// One bit (the low bit of `bit`) into the packet header, most significant first.
pub open spec fn header_put(s: HeaderModel, bit: nat) -> HeaderModel {
    let avail = s.avail - 1;
    let tmp = s.tmp + (bit % 2) * pow2_byte(avail);
    if avail <= 0 {
        HeaderModel { out: s.out.push(tmp as u8), avail: if tmp == 0xff { 7 } else { 8 }, tmp: 0 }
    } else {
        HeaderModel { avail, tmp, ..s }
    }
}

/// The low `n` bits of `data` into the packet header, most significant first.
pub open spec fn header_put_bits(s: HeaderModel, data: u32, n: int) -> HeaderModel
    decreases n,
{
    if n <= 0 { s } else { header_put_bits(header_put(s, (data as nat / pow2_word(n - 1)) as nat), data, n - 1) }
}

/// `2^n` for `n` in 0..=31.
pub open spec fn pow2_word(n: int) -> nat
    decreases n,
{
    if n <= 0 { 1 } else { 2 * pow2_word(n - 1) }
}

/// The packet-header bit writer.
pub struct BitWriter {
    pub out: Vec<u8>,
    pub avail_bits: i32,
    pub tmp: u32,
}

impl BitWriter {
    /// The writer as values.
    pub open spec fn model(&self) -> HeaderModel {
        HeaderModel { out: self.out@, avail: self.avail_bits as int, tmp: self.tmp as int }
    }

    /// Between one and eight free bits; the byte a multiple of `2^avail` below 256.
    pub open spec fn wf(&self) -> bool {
        &&& 1 <= self.avail_bits <= 8
        &&& self.tmp < 256
        &&& (self.tmp as int) % pow2_byte(self.avail_bits as int) == 0
    }

    /// An empty writer.
    pub fn new() -> (r: BitWriter)
        ensures
            r.wf(),
            r.model() == (HeaderModel { out: Seq::empty(), avail: 8, tmp: 0 }),
    {
        BitWriter { out: Vec::new(), avail_bits: 8, tmp: 0 }
    }

    /// Writes the low bit of `bit`.
    pub fn put_bit(&mut self, bit: u32)
        requires
            old(self).wf(),
        ensures
            final(self).wf(),
            final(self).model() == header_put(old(self).model(), bit as nat),
    {
        self.avail_bits = self.avail_bits - 1;
        let p = pow2_of(self.avail_bits) as u32;
        proof {
            lemma_slot_free(self.tmp as int, self.avail_bits as int);
            assert(p <= 128);
        }
        self.tmp = if bit % 2 == 1 { self.tmp + p } else { self.tmp };
        if self.avail_bits <= 0 {
            self.avail_bits = 8 - if self.tmp == 0xff { 1 } else { 0 };
            self.out.push(self.tmp as u8);
            self.tmp = 0;
        }
    }

    /// Writes the low `num_bits` bits of `data`, most significant first.
    pub fn put_bits(&mut self, data: u32, num_bits: i32)
        requires
            old(self).wf(),
            num_bits <= 32,
        ensures
            final(self).wf(),
            final(self).model() == header_put_bits(old(self).model(), data, num_bits as int),
    {
        let mut i = num_bits;
        while i > 0
            invariant
                self.wf(),
                i <= num_bits <= 32,
                header_put_bits(old(self).model(), data, num_bits as int) == header_put_bits(self.model(), data, i as int),
            decreases i,
        {
            i = i - 1;
            proof {
                lemma_shift_is_div(data, i as u32);
            }
            self.put_bit(data >> (i as u32));
        }
    }

    /// Writes a partly filled byte.
    pub fn terminate(&mut self)
        requires
            old(self).wf(),
        ensures
            final(self).out@ == if old(self).avail_bits < 8 { old(self).out@.push(old(self).tmp as u8) } else { old(self).out@ },
    {
        if self.avail_bits < 8 {
            self.out.push(self.tmp as u8);
        }
    }
}

/// A byte that is a multiple of `2^(a+1)` below 256 has room for bit `a`.
proof fn lemma_slot_free(tmp: int, a: int)
    requires
        0 <= a <= 7,
        0 <= tmp < 256,
        tmp % pow2_byte(a + 1) == 0,
    ensures
        tmp + pow2_byte(a) < 256,
        (tmp + pow2_byte(a)) % pow2_byte(a) == 0,
        tmp % pow2_byte(a) == 0,
{
    if a == 0 {
    } else if a == 1 {
    } else if a == 2 {
    } else if a == 3 {
    } else if a == 4 {
    } else if a == 5 {
    } else if a == 6 {
    } else {
    }
}

/// A right shift of a word is a division by a power of two.
proof fn lemma_shift_is_div(x: u32, n: u32)
    requires
        n < 32,
    ensures
        x >> n == x as nat / pow2_word(n as int),
{
    vstd::bits::lemma_u32_shr_is_div(x, n);
    lemma_pow2_word_is_pow2(n as nat);
}

/// `pow2_word` agrees with vstd's `pow2`.
proof fn lemma_pow2_word_is_pow2(n: nat)
    ensures
        pow2_word(n as int) == vstd::arithmetic::power2::pow2(n),
    decreases n,
{
    if n > 0 {
        vstd::arithmetic::power2::lemma_pow2_unfold(n);
        lemma_pow2_word_is_pow2((n - 1) as nat);
    } else {
        vstd::arithmetic::power2::lemma_pow2(0);
        assert(vstd::arithmetic::power::pow(2, 0) == 1) by {
            reveal(vstd::arithmetic::power::pow);
        }
    }
}

/// Writes a start-of-tile-part marker: tile index, tile-part length (the
/// payload plus the 14 bytes of the marker segments) and tile-part numbers,
/// then the start-of-data marker.
pub fn sot(out: &mut Vec<u8>, tile: u16, payload: u32, tp: u8, tn: u8)
    requires
        payload <= u32::MAX - 14,
    ensures
        final(out)@ == old(out)@ + seq![0xffu8, 0x90, 0x00, 0x0a, (tile / 256) as u8, (tile % 256) as u8,
            ((payload + 14) / 0x100_0000) as u8, ((payload + 14) / 0x1_0000 % 256) as u8,
            ((payload + 14) / 256 % 256) as u8, ((payload + 14) % 256) as u8, tp, tn, 0xff, 0x93],
{
    let len = payload + 14;
    out.push(0xff);
    out.push(0x90);
    out.push(0x00);
    out.push(0x0a);
    out.push((tile / 256) as u8);
    out.push((tile % 256) as u8);
    out.push((len / 0x100_0000) as u8);
    out.push((len / 0x1_0000 % 256) as u8);
    out.push((len / 256 % 256) as u8);
    out.push((len % 256) as u8);
    out.push(tp);
    out.push(tn);
    out.push(0xff);
    out.push(0x93);
}

/// `v[i]` with `i` clamped into the sequence.
pub open spec fn clamp_get(v: Seq<i64>, i: int) -> int {
    if i < 0 { v[0] as int } else if i >= v.len() { v[v.len() - 1] as int } else { v[i] as int }
}

/// The sum of the two neighbours of position `i` in `v`: `i - 1` and `i`
/// shifted by one where `even`.
pub open spec fn lift_sum(v: Seq<i64>, i: int, even: bool) -> int {
    let off: int = if even { 1 } else { 0 };
    clamp_get(v, i + off - 1) + clamp_get(v, i + off)
}

/// The predict step: each high-pass sample less half (rounded down) the sum of its neighbours.
pub open spec fn rev_predict(lo: Seq<i64>, hi: Seq<i64>, even: bool) -> Seq<i64> {
    Seq::new(hi.len(), |i: int| (hi[i] - lift_sum(lo, i, even) / 2) as i64)
}

/// The update step: each low-pass sample plus a quarter (rounded down, after
/// adding 2) of the sum of its predicted neighbours.
pub open spec fn rev_update(lo: Seq<i64>, hi: Seq<i64>, even: bool) -> Seq<i64> {
    Seq::new(lo.len(), |i: int| (lo[i] + (2 + lift_sum(hi, i, !even)) / 4) as i64)
}

/// Samples within `2^60` in magnitude.
pub open spec fn small_samples(v: Seq<i64>) -> bool {
    forall|i: int| 0 <= i < v.len() ==> -0x1000_0000_0000_0000 <= #[trigger] v[i] <= 0x1000_0000_0000_0000
}

/// `v[i]` with `i` clamped into the vector.
fn clamped(v: &Vec<i64>, i: i64) -> (r: i64)
    requires
        v@.len() > 0,
        v@.len() <= 0x1000_0000,
    ensures
        r == clamp_get(v@, i as int),
{
    if i < 0 {
        v[0]
    } else if i >= v.len() as i64 {
        v[v.len() - 1]
    } else {
        v[i as usize]
    }
}

/// A clamped read of samples within a bound stays within it.
proof fn lemma_clamp_bound(v: Seq<i64>, i: int, m: int)
    requires
        v.len() > 0,
        forall|k: int| 0 <= k < v.len() ==> -m <= #[trigger] v[k] <= m,
    ensures
        -m <= clamp_get(v, i) <= m,
{
    if i < 0 {
        assert(-m <= v[0] <= m);
    } else if i >= v.len() {
        assert(-m <= v[v.len() - 1] <= m);
    } else {
        assert(-m <= v[i] <= m);
    }
}

/// `s` divided by `2^k` (`k` 1 or 2), rounded down, as an arithmetic shift does.
fn floor_div(s: i64, d: i64) -> (r: i64)
    requires
        d == 2 || d == 4,
        s > i64::MIN + 4,
    ensures
        r == s as int / d as int,
        -(if s < 0 { -(s as int) } else { s as int }) <= r <= (if s < 0 { -(s as int) } else { s as int }),
{
    if s >= 0 { s / d } else { -((-s + d - 1) / d) }
}

/// Reversible 5/3 lifting on split low/high arrays: predict the high-pass
/// samples from the low-pass ones, then update the low-pass samples from the
/// predicted ones.
pub fn rev_lift(lo: &mut Vec<i64>, hi: &mut Vec<i64>, even: bool)
    requires
        (old(lo)@.len() == 0) == (old(hi)@.len() == 0),
        old(lo)@.len() <= 0x1000_0000,
        old(hi)@.len() <= 0x1000_0000,
        small_samples(old(lo)@),
        small_samples(old(hi)@),
    ensures
        final(hi)@ == rev_predict(old(lo)@, old(hi)@, even),
        final(lo)@ == rev_update(old(lo)@, final(hi)@, even),
{
    let off: i64 = if even { 1 } else { 0 };
    let mut i: usize = 0;
    let ghost h0 = hi@;
    while i < hi.len()
        invariant
            off == (if even { 1i64 } else { 0i64 }),
            lo@ == old(lo)@,
            h0 == old(hi)@,
            hi@.len() == h0.len(),
            i <= hi@.len(),
            (lo@.len() == 0) == (h0.len() == 0),
            lo@.len() <= 0x1000_0000,
            h0.len() <= 0x1000_0000,
            small_samples(lo@),
            small_samples(h0),
            forall|k: int| 0 <= k < i ==> hi@[k] == rev_predict(lo@, h0, even)[k],
            forall|k: int| i <= k < hi@.len() ==> hi@[k] == h0[k],
        decreases hi@.len() - i,
    {
        assert(i < 0x1000_0000);
        let ii = i as i64;
        let a = clamped(lo, ii + off - 1);
        let b = clamped(lo, ii + off);
        proof {
            lemma_clamp_bound(lo@, ii + off - 1, 0x1000_0000_0000_0000);
            lemma_clamp_bound(lo@, ii + off, 0x1000_0000_0000_0000);
            assert(-0x1000_0000_0000_0000 <= h0[i as int] <= 0x1000_0000_0000_0000);
        }
        let d = floor_div(a + b, 2);
        let v = hi[i] - d;
        hi.set(i, v);
        i = i + 1;
    }
    proof {
        assert(hi@ =~= rev_predict(old(lo)@, old(hi)@, even));
    }
    let off2: i64 = if !even { 1 } else { 0 };
    let mut j: usize = 0;
    let ghost l0 = lo@;
    while j < lo.len()
        invariant
            off2 == (if !even { 1i64 } else { 0i64 }),
            l0 == old(lo)@,
            lo@.len() == l0.len(),
            hi@ == rev_predict(l0, old(hi)@, even),
            j <= lo@.len(),
            (l0.len() == 0) == (hi@.len() == 0),
            l0.len() <= 0x1000_0000,
            hi@.len() <= 0x1000_0000,
            small_samples(l0),
            forall|k: int| 0 <= k < hi@.len() ==> -0x2000_0000_0000_0000 <= #[trigger] hi@[k] <= 0x2000_0000_0000_0000,
            forall|k: int| 0 <= k < j ==> lo@[k] == rev_update(l0, hi@, even)[k],
            forall|k: int| j <= k < lo@.len() ==> lo@[k] == l0[k],
        decreases lo@.len() - j,
    {
        assert(j < 0x1000_0000);
        let jj = j as i64;
        let a = clamped(hi, jj + off2 - 1);
        let b = clamped(hi, jj + off2);
        proof {
            lemma_clamp_bound(hi@, jj + off2 - 1, 0x2000_0000_0000_0000);
            lemma_clamp_bound(hi@, jj + off2, 0x2000_0000_0000_0000);
            assert(-0x1000_0000_0000_0000 <= l0[j as int] <= 0x1000_0000_0000_0000);
        }
        let d = floor_div(2 + a + b, 4);
        let v = lo[j] + d;
        lo.set(j, v);
        j = j + 1;
    }
    proof {
        assert(lo@ =~= rev_update(l0, hi@, even));
    }
}

/// Progression orders, numbered as in the COD marker.
pub const LRCP: u8 = 0;
pub const RLCP: u8 = 1;
pub const RPCL: u8 = 2;
pub const PCRL: u8 = 3;
pub const CPRL: u8 = 4;

/// How a codestream is laid out.
pub struct Settings<'a> {
    pub reversible: bool,
    pub num_decompositions: u32,
    pub progression: u8,
    /// log2 of the nominal code-block width and height.
    pub log_block: (u32, u32),
    /// Tile size; (0, 0) means a single tile covering the image.
    pub tile_size: (u32, u32),
    pub tilepart_resolutions: bool,
    pub tilepart_components: bool,
    pub tlm: bool,
    /// Extra COM marker text; empty writes none.
    pub comment: &'a [u8],
}

/// A message printed when the tile-part division is adjusted.
pub const TILEPART_INFO_LRCP: &'static str = "ojph info 0x00030021 at ojph_codestream_local.cpp:587: For LRCP and RLCP progression orders, tilepart divisions at the component level, means that we have a tilepart for every resolution and component.\n\n";

/// A message printed when the tile-part division is adjusted.
pub const TILEPART_WARNING_RPCL: &'static str = "ojph warning 0x00030021 at ojph_codestream_local.cpp:595: For RPCL progression, having tilepart divisions at the component level means a tilepart for every precinct, which does not make sense, since we can have no more than 255 tile parts. This has been corrected by removing tilepart divisions at the component level.\n";

/// A message printed when the tile-part division is adjusted.
pub const TILEPART_WARNING_PCRL: &'static str = "ojph warning 0x00030022 at ojph_codestream_local.cpp:605: For PCRL progression, having tilepart divisions at the component level or the resolution level means a tile part for every precinct, which does not make sense, since we can have no more than 255 tile parts.  This has been corrected by removing tilepart divisions; use another progression if you want tileparts.\n";

/// A message printed when the tile-part division is adjusted.
pub const TILEPART_WARNING_CPRL: &'static str = "ojph warning 0x00030023 at ojph_codestream_local.cpp:615: For CPRL progression, having tilepart divisions at the resolution level means a tile part for every precinct, which does not make sense, since we can have no more than 255 tile parts. This has been corrected by removing tilepart divisions at the resolution level.\n";

/// The messages printed, in order, when the tile-part division does not
/// suit the progression order.
pub open spec fn spec_diagnostics(progression: u8, res: bool, comp: bool) -> Seq<&'static str> {
    (if (progression == LRCP || progression == RLCP) && comp && !res { seq![TILEPART_INFO_LRCP] } else { Seq::empty() })
        + (if progression == RPCL && comp { seq![TILEPART_WARNING_RPCL] } else { Seq::empty() })
        + (if progression == PCRL && (res || comp) { seq![TILEPART_WARNING_PCRL] } else { Seq::empty() })
        + (if progression == CPRL && res { seq![TILEPART_WARNING_CPRL] } else { Seq::empty() })
}

/// The informational and warning messages written to standard output when
/// the requested tile-part division is adjusted for the progression order.
pub fn diagnostics(settings: &Settings) -> (r: Vec<&'static str>)
    ensures
        r@ == spec_diagnostics(settings.progression, settings.tilepart_resolutions, settings.tilepart_components),
{
    let po = settings.progression;
    let res = settings.tilepart_resolutions;
    let comp = settings.tilepart_components;
    let mut out: Vec<&'static str> = Vec::new();
    if (po == LRCP || po == RLCP) && comp && !res {
        out.push(TILEPART_INFO_LRCP);
    }
    if po == RPCL && comp {
        out.push(TILEPART_WARNING_RPCL);
    }
    if po == PCRL && (res || comp) {
        out.push(TILEPART_WARNING_PCRL);
    }
    if po == CPRL && res {
        out.push(TILEPART_WARNING_CPRL);
    }
    assert(out@ =~= spec_diagnostics(po, res, comp));
    out
}

} // verus!
