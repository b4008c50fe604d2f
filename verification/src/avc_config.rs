//! The AVC configuration record (`avcC`) that registered encoders build, and
//! the display dimensions of its SPS.
use vstd::prelude::*;
use crate::properties::Property;
use crate::context::{ContextError, join_text};
use crate::hevc_config::{be16, copy_unit, push_all, push_be16, window_offsets};
use crate::rbsp::{SpsBits, advance, bits_value, reduce_from, signed_of, spec_ue};

verus! {

/// Registered AVC encoder configuration.
pub struct EncoderConfiguration {
    pub profile: u8,
    pub compatibility: u8,
    pub level: u8,
    pub chroma: u8,
    pub luma: u8,
    pub color: u8,
    pub sps: Vec<Vec<u8>>,
    pub pps: Vec<Vec<u8>>,
    pub extensions: Vec<Vec<u8>>,
    pub size: (u32, u32),
}

/// The units of a list as byte sequences.
pub open spec fn list_view(units: Seq<Vec<u8>>) -> Seq<Seq<u8>> {
    units.map_values(|u: Vec<u8>| u@)
}

impl EncoderConfiguration {
    /// An empty configuration.
    pub fn new() -> (r: EncoderConfiguration)
        ensures
            r.profile == 0 && r.compatibility == 0 && r.level == 0,
            r.chroma == 0 && r.luma == 0 && r.color == 0,
            r.sps@.len() == 0 && r.pps@.len() == 0 && r.extensions@.len() == 0,
            r.size == (0u32, 0u32),
    {
        EncoderConfiguration {
            profile: 0,
            compatibility: 0,
            level: 0,
            chroma: 0,
            luma: 0,
            color: 0,
            sps: Vec::new(),
            pps: Vec::new(),
            extensions: Vec::new(),
            size: (0, 0),
        }
    }

    /// Records an SPS (type 7), PPS (8) or SPS extension (13) in its list, in
    /// arrival order; an SPS also sets the profile, level, chroma format, bit
    /// depths and display size. Other units are not recorded (`false`).
    pub fn update(&mut self, nal: &[u8]) -> (r: Result<bool, ContextError>)
        ensures
            r is Ok,
            ({
                let kind = if nal@.len() == 0 { 0u8 } else { nal@[0] & 31 };
                &&& kind == 7 ==> r == Ok::<bool, ContextError>(true)
                    && list_view(final(self).sps@) == list_view(old(self).sps@).push(nal@)
                    && final(self).pps@ == old(self).pps@ && final(self).extensions@ == old(self).extensions@
                &&& kind == 7 ==> match avc_sps(reduce_from(nal@, 0)) {
                    Ok((profile, compatibility, level, chroma, luma, color, w, h)) => final(self).profile == profile
                        && final(self).compatibility == compatibility && final(self).level == level
                        && final(self).chroma == chroma && final(self).luma == luma && final(self).color == color
                        && final(self).size == (w, h),
                    Err(_) => true,
                }
                &&& kind != 7 ==> final(self).profile == old(self).profile
                    && final(self).compatibility == old(self).compatibility && final(self).level == old(self).level
                    && final(self).chroma == old(self).chroma && final(self).luma == old(self).luma
                    && final(self).color == old(self).color && final(self).size == old(self).size
                &&& kind == 8 ==> r == Ok::<bool, ContextError>(true)
                    && list_view(final(self).pps@) == list_view(old(self).pps@).push(nal@)
                    && final(self).sps@ == old(self).sps@ && final(self).extensions@ == old(self).extensions@
                    && final(self).size == old(self).size && final(self).profile == old(self).profile
                &&& kind == 13 ==> r == Ok::<bool, ContextError>(true)
                    && list_view(final(self).extensions@) == list_view(old(self).extensions@).push(nal@)
                    && final(self).sps@ == old(self).sps@ && final(self).pps@ == old(self).pps@
                    && final(self).size == old(self).size && final(self).profile == old(self).profile
                &&& (kind != 7 && kind != 8 && kind != 13) ==> r == Ok::<bool, ContextError>(false)
                    && final(self).sps@ == old(self).sps@ && final(self).pps@ == old(self).pps@
                    && final(self).extensions@ == old(self).extensions@ && final(self).size == old(self).size
                    && final(self).profile == old(self).profile
            }),
    {
        if nal.len() == 0 {
            return Ok(false);
        }
        let kind = nal[0] & 31;
        if kind == 7 {
            let _ = self.parse(nal);
            let ghost before = self.sps@;
            self.sps.push(copy_unit(nal));
            assert(list_view(self.sps@) =~= list_view(before).push(nal@));
        } else if kind == 8 {
            let ghost before = self.pps@;
            self.pps.push(copy_unit(nal));
            assert(list_view(self.pps@) =~= list_view(before).push(nal@));
        } else if kind == 13 {
            let ghost before = self.extensions@;
            self.extensions.push(copy_unit(nal));
            assert(list_view(self.extensions@) =~= list_view(before).push(nal@));
        } else {
            return Ok(false);
        }
        Ok(true)
    }
}

/// The failure of the SPS reader.
fn vlc_error() -> (r: ContextError)
    ensures
        r.parts() == (2i32, 0i32, "Invalid input: "@ + "Invalid variable length code in AVC SPS header"@),
{
    ContextError::invalid(0, "Invalid variable length code in AVC SPS header")
}

/// The profiles whose SPS carries the chroma format, bit depths and scaling lists.
pub open spec fn high_profile(p: u8) -> bool {
    p == 100 || p == 110 || p == 122 || p == 244 || p == 44 || p == 83 || p == 86 || p == 118 || p == 128
        || p == 138 || p == 139 || p == 134 || p == 135
}

/// Why an AVC SPS is refused.
#[derive(Debug, Clone, Copy, PartialEq, Eq, Structural)]
pub enum AvcSpsFailure {
    /// An Exp-Golomb code with more than 20 leading zeros.
    Code,
    /// A chroma format above 3.
    Chroma,
    /// A coded size beyond 32 bits.
    Large,
    /// A cropping window at least as large as the picture.
    Crop,
}

/// The reported failure of an SPS refusal.
pub open spec fn avc_failure_parts(f: AvcSpsFailure) -> (i32, i32, Seq<char>) {
    match f {
        AvcSpsFailure::Code => (2i32, 0i32, "Invalid input: "@ + "Invalid variable length code in AVC SPS header"@),
        AvcSpsFailure::Chroma => (2i32, 0i32, "Invalid input: "@ + "Invalid chroma format in AVC SPS header"@),
        AvcSpsFailure::Large => (2i32, 129i32, "Invalid input: "@ + "AVC SPS image size too large"@),
        AvcSpsFailure::Crop => (2i32, 129i32, "Invalid input: "@ + "AVC SPS cropping exceeds image size"@),
    }
}

/// The remainder of `a` by `m` with the sign of `a`, as Rust's `%` gives it.
pub open spec fn rem_toward_zero(a: int, m: int) -> int {
    if a >= 0 { a % m } else { -((-a) % m) }
}

/// The position after a delta-coded scaling list read from `p`, from entry
/// `k` of `size` with the previous value `last`; a next value of 0 ends it.
pub open spec fn skip_delta_list(d: Seq<u8>, p: u64, last: int, k: int, size: int) -> Option<u64>
    decreases size - k,
{
    if k >= size {
        Some(p)
    } else {
        match spec_ue(d, p) {
            None => None,
            Some((v, q)) => {
                let next = rem_toward_zero(last + signed_of(v) + 256, 256);
                if next == 0 { Some(q) } else { skip_delta_list(d, q, next, k + 1, size) }
            },
        }
    }
}

/// The position after the scaling lists from `i` of `lists`, each behind a
/// presence flag: the first six of 16 entries, the rest of 64.
pub open spec fn skip_lists(d: Seq<u8>, p: u64, i: int, lists: int) -> Option<u64>
    decreases lists - i,
{
    if i >= lists {
        Some(p)
    } else {
        let q = advance(p, 1);
        if bits_value(d, p, 1) != 0 {
            match skip_delta_list(d, q, 8, 0, if i < 6 { 16 } else { 64 }) {
                None => None,
                Some(e) => skip_lists(d, e, i + 1, lists),
            }
        } else {
            skip_lists(d, q, i + 1, lists)
        }
    }
}

/// The position after `n` Exp-Golomb codes from `p`.
pub open spec fn skip_codes(d: Seq<u8>, p: u64, n: nat) -> Option<u64>
    decreases n,
{
    if n == 0 {
        Some(p)
    } else {
        match spec_ue(d, p) {
            None => None,
            Some((_, q)) => skip_codes(d, q, (n - 1) as nat),
        }
    }
}

/// The chroma format and the luma and chroma bit depths an SPS declares from
/// `p` (4:2:0 at 8 bits outside the high profiles), and the position after
/// them and the scaling matrix.
pub open spec fn avc_format(d: Seq<u8>, p: u64, profile: u8) -> Result<(u8, u8, u8, u64), AvcSpsFailure> {
    if !high_profile(profile) {
        Ok((1u8, 8u8, 8u8, p))
    } else {
        match spec_ue(d, p) {
            None => Err(AvcSpsFailure::Code),
            Some((chroma, q)) => if chroma > 3 {
                Err(AvcSpsFailure::Chroma)
            } else {
                let q2 = if chroma == 3 { advance(q, 1) } else { q };
                match spec_ue(d, q2) {
                    None => Err(AvcSpsFailure::Code),
                    Some((luma, q3)) => match spec_ue(d, q3) {
                        None => Err(AvcSpsFailure::Code),
                        Some((color, q4)) => {
                            let r = advance(q4, 1);
                            let s = advance(r, 1);
                            let e = if bits_value(d, r, 1) != 0 {
                                skip_lists(d, s, 0, if chroma == 3 { 12 } else { 8 })
                            } else {
                                Some(s)
                            };
                            match e {
                                None => Err(AvcSpsFailure::Code),
                                Some(e) => Ok((chroma as u8, (8 + luma) as u8, (8 + color) as u8, e)),
                            }
                        },
                    },
                }
            },
        }
    }
}

/// The position after the frame number size and the picture order count
/// fields of an SPS from `p`.
pub open spec fn avc_order(d: Seq<u8>, p: u64) -> Option<u64> {
    match spec_ue(d, p) {
        None => None,
        Some((_, q)) => match spec_ue(d, q) {
            None => None,
            Some((poc, r)) => if poc == 0 {
                skip_codes(d, r, 1)
            } else if poc == 1 {
                match skip_codes(d, advance(r, 1), 2) {
                    None => None,
                    Some(s) => match spec_ue(d, s) {
                        None => None,
                        Some((count, t)) => skip_codes(d, t, count as nat),
                    },
                }
            } else {
                Some(r)
            },
        },
    }
}

/// The display size of an SPS from its reference frame count at `p`: the
/// macroblock size, doubled in height for field coding, less the cropping
/// window in chroma units.
pub open spec fn avc_size(d: Seq<u8>, p: u64, chroma: u8) -> Result<(u32, u32), AvcSpsFailure> {
    match skip_codes(d, p, 1) {
        None => Err(AvcSpsFailure::Code),
        Some(q) => match spec_ue(d, advance(q, 1)) {
            None => Err(AvcSpsFailure::Code),
            Some((wu, q2)) => match spec_ue(d, q2) {
                None => Err(AvcSpsFailure::Code),
                Some((hu, q3)) => {
                    let frame = bits_value(d, q3, 1);
                    let q4 = advance(q3, 1);
                    let q5 = if frame == 0 { advance(q4, 1) } else { q4 };
                    let q6 = advance(q5, 1);
                    let w = (wu + 1) * 16;
                    let h = (hu + 1) * 16 * (2 - frame);
                    if w > u32::MAX || h > u32::MAX {
                        Err(AvcSpsFailure::Large)
                    } else if bits_value(d, q6, 1) == 0 {
                        Ok((w as u32, h as u32))
                    } else {
                        match window_offsets(d, advance(q6, 1)) {
                            None => Err(AvcSpsFailure::Code),
                            Some((l, r, t, b, _)) => {
                                let sx = if chroma == 1 || chroma == 2 { 2int } else { 1int };
                                let sy = (if chroma == 1 { 2int } else { 1int }) * (2 - frame);
                                let dx = (l + r) * sx;
                                let dy = (t + b) * sy;
                                if dx >= w || dy >= h {
                                    Err(AvcSpsFailure::Crop)
                                } else {
                                    Ok(((w - dx) as u32, (h - dy) as u32))
                                }
                            },
                        }
                    }
                },
            },
        },
    }
}

/// What an SPS (reduced bytes) declares: profile, compatibility flags,
/// level, chroma format, luma and chroma bit depths, and display size.
pub open spec fn avc_sps(d: Seq<u8>) -> Result<(u8, u8, u8, u8, u8, u8, u32, u32), AvcSpsFailure> {
    let profile = bits_value(d, 8, 8) as u8;
    let compatibility = bits_value(d, 16, 8) as u8;
    let level = bits_value(d, 24, 8) as u8;
    match spec_ue(d, 32) {
        None => Err(AvcSpsFailure::Code),
        Some((_, p)) => match avc_format(d, p, profile) {
            Err(f) => Err(f),
            Ok((chroma, luma, color, q)) => match avc_order(d, q) {
                None => Err(AvcSpsFailure::Code),
                Some(r) => match avc_size(d, r, chroma) {
                    Err(f) => Err(f),
                    Ok((w, h)) => Ok((profile, compatibility, level, chroma, luma, color, w, h)),
                },
            },
        },
    }
}

/// Skips one delta-coded scaling list of `size` entries.
fn skip_scaling_list(b: &mut SpsBits, size: u32) -> (ok: bool)
    requires
        size <= 64,
    ensures
        final(b).bytes@ == old(b).bytes@,
        match skip_delta_list(old(b).bytes@, old(b).position, 8, 0, size as int) {
            None => !ok,
            Some(e) => ok && final(b).position == e,
        },
{
    let mut last: i32 = 8;
    let mut k: u32 = 0;
    while k < size
        invariant
            k <= size,
            size <= 64,
            -256 < last < 256,
            b.bytes@ == old(b).bytes@,
            skip_delta_list(old(b).bytes@, old(b).position, 8, 0, size as int)
                == skip_delta_list(b.bytes@, b.position, last as int, k as int, size as int),
        decreases size - k,
    {
        let delta = match b.se() {
            Some(v) => v,
            None => return false,
        };
        let next = (last + delta + 256) % 256;
        if next == 0 {
            return true;
        }
        last = next;
        k = k + 1;
    }
    true
}

/// Skips the scaling matrix of `lists` lists.
fn skip_scaling_matrix(b: &mut SpsBits, lists: u32) -> (ok: bool)
    requires
        lists <= 12,
    ensures
        final(b).bytes@ == old(b).bytes@,
        match skip_lists(old(b).bytes@, old(b).position, 0, lists as int) {
            None => !ok,
            Some(e) => ok && final(b).position == e,
        },
{
    let mut i: u32 = 0;
    while i < lists
        invariant
            i <= lists,
            lists <= 12,
            b.bytes@ == old(b).bytes@,
            skip_lists(old(b).bytes@, old(b).position, 0, lists as int)
                == skip_lists(b.bytes@, b.position, i as int, lists as int),
        decreases lists - i,
    {
        let present = b.get(1);
        if present != 0 {
            if !skip_scaling_list(b, if i < 6 { 16 } else { 64 }) {
                return false;
            }
        }
        i = i + 1;
    }
    true
}

/// Skips the frame number size and the picture order count fields.
fn skip_order(b: &mut SpsBits) -> (ok: bool)
    ensures
        final(b).bytes@ == old(b).bytes@,
        match avc_order(old(b).bytes@, old(b).position) {
            None => !ok,
            Some(e) => ok && final(b).position == e,
        },
{
    if b.ue().is_none() {
        return false;
    }
    let poc = match b.ue() {
        Some(v) => v,
        None => return false,
    };
    proof {
        reveal_with_fuel(skip_codes, 3);
    }
    if poc == 0 {
        if b.ue().is_none() {
            return false;
        }
    } else if poc == 1 {
        b.get(1);
        if b.se().is_none() {
            return false;
        }
        if b.se().is_none() {
            return false;
        }
        let count = match b.ue() {
            Some(v) => v,
            None => return false,
        };
        let mut k: u32 = 0;
        while k < count
            invariant
                k <= count,
                b.bytes@ == old(b).bytes@,
                avc_order(old(b).bytes@, old(b).position) == skip_codes(b.bytes@, b.position, (count - k) as nat),
            decreases count - k,
        {
            if b.ue().is_none() {
                return false;
            }
            k = k + 1;
        }
    }
    true
}

impl EncoderConfiguration {
    /// Reads the profile, level, chroma format, bit depths and display size
    /// of an SPS. A refused SPS leaves the fields it had reached.
    #[verifier::rlimit(40)]
    #[verifier::spinoff_prover]
    fn parse(&mut self, nal: &[u8]) -> (r: Result<(), ContextError>)
        ensures
            final(self).sps@ == old(self).sps@,
            final(self).pps@ == old(self).pps@,
            final(self).extensions@ == old(self).extensions@,
            match avc_sps(reduce_from(nal@, 0)) {
                Err(f) => r is Err && r->Err_0.parts() == avc_failure_parts(f),
                Ok((profile, compatibility, level, chroma, luma, color, w, h)) => r is Ok
                    && final(self).profile == profile && final(self).compatibility == compatibility
                    && final(self).level == level && final(self).chroma == chroma && final(self).luma == luma
                    && final(self).color == color && final(self).size == (w, h),
            },
    {
        let mut b = SpsBits::new(nal);
        let ghost d = b.bytes@;
        b.get(8);
        proof {
            crate::rbsp::lemma_bits_value_bound(d, 8, 8);
            crate::rbsp::lemma_bits_value_bound(d, 16, 8);
            crate::rbsp::lemma_bits_value_bound(d, 24, 8);
            crate::bitwriter::lemma_pow2_values();
        }
        self.profile = b.get(8) as u8;
        self.compatibility = b.get(8) as u8;
        self.level = b.get(8) as u8;
        assert(b.position == 32);
        if b.ue().is_none() {
            return Err(vlc_error());
        }
        let ghost p = b.position;
        let prof = self.profile;
        if prof == 100 || prof == 110 || prof == 122 || prof == 244 || prof == 44 || prof == 83 || prof == 86
            || prof == 118 || prof == 128 || prof == 138 || prof == 139 || prof == 134 || prof == 135 {
            let chroma = match b.ue() {
                Some(v) => v,
                None => return Err(vlc_error()),
            };
            if chroma > 3 {
                return Err(ContextError::invalid(0, "Invalid chroma format in AVC SPS header"));
            }
            self.chroma = chroma as u8;
            if chroma == 3 {
                b.get(1);
            }
            let luma = match b.ue() {
                Some(v) => v,
                None => return Err(vlc_error()),
            };
            self.luma = (8 + luma) as u8;
            let color = match b.ue() {
                Some(v) => v,
                None => return Err(vlc_error()),
            };
            self.color = (8 + color) as u8;
            b.get(1);
            if b.get(1) != 0 {
                if !skip_scaling_matrix(&mut b, if chroma == 3 { 12 } else { 8 }) {
                    return Err(vlc_error());
                }
            }
        } else {
            self.chroma = 1;
            self.luma = 8;
            self.color = 8;
        }
        assert(avc_format(d, p, self.profile) matches Ok((c, l, co, q))
            && c == self.chroma && l == self.luma && co == self.color && q == b.position);
        if !skip_order(&mut b) {
            return Err(vlc_error());
        }
        let ghost at_refs = b.position;
        if b.ue().is_none() {
            proof {
                reveal_with_fuel(skip_codes, 2);
            }
            return Err(vlc_error());
        }
        proof {
            reveal_with_fuel(skip_codes, 2);
        }
        b.get(1);
        let w_units = match b.ue() {
            Some(v) => v,
            None => return Err(vlc_error()),
        };
        let h_units = match b.ue() {
            Some(v) => v,
            None => return Err(vlc_error()),
        };
        let w = (w_units as u64 + 1) * 16;
        let ghost at_frame = b.position;
        let frame = b.get(1);
        proof {
            crate::rbsp::lemma_bits_value_bound(b.bytes@, at_frame, 1);
            crate::bitwriter::lemma_pow2_values();
        }
        let mut h = (h_units as u64 + 1) * 16;
        if frame == 0 {
            b.get(1);
        }
        b.get(1);
        proof {
            assert(h * (2 - frame as u64) <= 0x1000_0000) by (nonlinear_arith)
                requires h <= 0x400_0000, frame <= 1;
        }
        h = h * (2 - frame as u64);
        if w > u32::MAX as u64 || h > u32::MAX as u64 {
            return Err(ContextError::invalid(129, "AVC SPS image size too large"));
        }
        let mut wd = w as u32;
        let mut ht = h as u32;
        self.size = (wd, ht);
        if b.get(1) != 0 {
            let left = match b.ue() {
                Some(v) => v as u64,
                None => return Err(vlc_error()),
            };
            let right = match b.ue() {
                Some(v) => v as u64,
                None => return Err(vlc_error()),
            };
            let top = match b.ue() {
                Some(v) => v as u64,
                None => return Err(vlc_error()),
            };
            let bottom = match b.ue() {
                Some(v) => v as u64,
                None => return Err(vlc_error()),
            };
            let sx: u64 = if self.chroma == 1 || self.chroma == 2 { 2 } else { 1 };
            let sy: u64 = (if self.chroma == 1 { 2 } else { 1 }) * (2 - frame as u64);
            let dx = (left + right) * sx;
            let dy = (top + bottom) * sy;
            if dx >= wd as u64 || dy >= ht as u64 {
                return Err(ContextError::invalid(129, "AVC SPS cropping exceeds image size"));
            }
            wd = wd - dx as u32;
            ht = ht - dy as u32;
        }
        self.size = (wd, ht);
        Ok(())
    }
}

/// Why an `avcC` record cannot be written.
#[derive(Debug, Clone, Copy, PartialEq, Eq, Structural)]
pub enum AvcWriteFailure {
    /// More than 31 SPS.
    TooManySps,
    /// More than 255 PPS.
    TooManyPps,
    /// More than 255 SPS extensions.
    TooManyExtensions,
    /// An SPS of more than 65535 bytes.
    LargeSps,
    /// A PPS of more than 65535 bytes.
    LargePps,
    /// An SPS extension of more than 65535 bytes.
    LargeExtension,
}

/// The text of a write failure.
pub open spec fn avc_write_text(f: AvcWriteFailure) -> Seq<char> {
    match f {
        AvcWriteFailure::TooManySps => "Cannot write more than 31 PPS into avcC box."@,
        AvcWriteFailure::TooManyPps => "Cannot write more than 255 PPS into avcC box."@,
        AvcWriteFailure::TooManyExtensions => "Cannot write more than 255 SPS-Ext into avcC box."@,
        AvcWriteFailure::LargeSps => "Cannot write SPS larger than 65535 bytes into avcC box."@,
        AvcWriteFailure::LargePps => "Cannot write PPS larger than 65535 bytes into avcC box."@,
        AvcWriteFailure::LargeExtension => "Cannot write SPS-Ext larger than 65535 bytes into avcC box."@,
    }
}

/// The reported failure of a write: an unspecified encoding error (code 9).
pub open spec fn avc_write_parts(f: AvcWriteFailure) -> (i32, i32, Seq<char>) {
    (9i32, 0i32, "Encoding error: Unspecified: "@ + avc_write_text(f))
}

/// The error of a write failure.
fn write_error(f: AvcWriteFailure) -> (r: ContextError)
    ensures
        r.parts() == avc_write_parts(f),
{
    let text = match f {
        AvcWriteFailure::TooManySps => "Cannot write more than 31 PPS into avcC box.",
        AvcWriteFailure::TooManyPps => "Cannot write more than 255 PPS into avcC box.",
        AvcWriteFailure::TooManyExtensions => "Cannot write more than 255 SPS-Ext into avcC box.",
        AvcWriteFailure::LargeSps => "Cannot write SPS larger than 65535 bytes into avcC box.",
        AvcWriteFailure::LargePps => "Cannot write PPS larger than 65535 bytes into avcC box.",
        AvcWriteFailure::LargeExtension => "Cannot write SPS-Ext larger than 65535 bytes into avcC box.",
    };
    ContextError::owned(9, 0, join_text("Encoding error: Unspecified: ", text))
}

/// The length-prefixed units of a list from `j`, or `None` where one exceeds 65535 bytes.
pub open spec fn list_bytes(units: Seq<Seq<u8>>, j: int) -> Option<Seq<u8>>
    decreases units.len() - j,
{
    if j < 0 || j >= units.len() {
        Some(Seq::empty())
    } else if units[j].len() > 0xffff {
        None
    } else {
        match list_bytes(units, j + 1) {
            None => None,
            Some(rest) => Some(be16(units[j].len() as int) + units[j] + rest),
        }
    }
}

/// Writes the length-prefixed units of a list after `out`.
fn write_nals(out: &mut Vec<u8>, nals: &Vec<Vec<u8>>) -> (r: bool)
    ensures
        r <==> list_bytes(list_view(nals@), 0) is Some,
        r ==> final(out)@ == old(out)@ + list_bytes(list_view(nals@), 0)->Some_0,
{
    let ghost view = list_view(nals@);
    let ghost mut w: Seq<u8> = Seq::empty();
    let mut j: usize = 0;
    while j < nals.len()
        invariant
            view == list_view(nals@),
            j <= nals@.len(),
            out@ == old(out)@ + w,
            list_bytes(view, 0) == (match list_bytes(view, j as int) {
                None => None,
                Some(rest) => Some(w + rest),
            }),
        decreases nals@.len() - j,
    {
        let nal = &nals[j];
        if nal.len() > 0xffff {
            return false;
        }
        push_be16(out, nal.len());
        push_all(out, nal.as_slice());
        proof {
            let piece = be16(nal@.len() as int) + nal@;
            assert(view[j as int] == nal@);
            match list_bytes(view, j + 1) {
                None => {},
                Some(rest) => {
                    assert(w + (piece + rest) =~= (w + piece) + rest);
                    assert(be16(nal@.len() as int) + nal@ + rest =~= piece + rest);
                },
            }
            assert(out@ =~= old(out)@ + (w + piece));
            w = w + piece;
        }
        j = j + 1;
    }
    assert(w + Seq::<u8>::empty() =~= w);
    true
}

/// A bit depth less 8, wrapping below 8.
pub open spec fn depth_code(depth: u8) -> u8 {
    if depth >= 8 { (depth - 8) as u8 } else { (depth + 248) as u8 }
}

/// The `avcC` record from the SPS lists on, given its first bytes.
pub open spec fn avc_lists(c: EncoderConfiguration) -> Result<Seq<u8>, AvcWriteFailure> {
    if c.sps@.len() > 31 {
        Err(AvcWriteFailure::TooManySps)
    } else {
        match list_bytes(list_view(c.sps@), 0) {
            None => Err(AvcWriteFailure::LargeSps),
            Some(sps) => if c.pps@.len() > 255 {
                Err(AvcWriteFailure::TooManyPps)
            } else {
                match list_bytes(list_view(c.pps@), 0) {
                    None => Err(AvcWriteFailure::LargePps),
                    Some(pps) => {
                        let lists = seq![224u8 | (c.sps@.len() as u8)] + sps + seq![c.pps@.len() as u8] + pps;
                        if c.profile == 66 || c.profile == 77 || c.profile == 88 {
                            Ok(lists)
                        } else if c.extensions@.len() > 255 {
                            Err(AvcWriteFailure::TooManyExtensions)
                        } else {
                            match list_bytes(list_view(c.extensions@), 0) {
                                None => Err(AvcWriteFailure::LargeExtension),
                                Some(ext) => Ok(lists + seq![c.chroma, depth_code(c.luma), depth_code(c.color)]
                                    + seq![c.extensions@.len() as u8] + ext),
                            }
                        }
                    },
                }
            },
        }
    }
}

impl EncoderConfiguration {
    /// The `avcC` record: version, profile, compatibility, level, length
    /// size, the SPS and PPS lists, and for profiles other than baseline,
    /// main and extended the chroma format, bit depths and SPS extensions.
    pub open spec fn record(&self) -> Result<Seq<u8>, AvcWriteFailure> {
        match avc_lists(*self) {
            Err(f) => Err(f),
            Ok(rest) => Ok(seq![1u8, self.profile, self.compatibility, self.level, 255u8] + rest),
        }
    }

    /// Writes the record from its SPS list on after `b`.
    fn write_lists(&self, b: &mut Vec<u8>) -> (r: Result<(), ContextError>)
        ensures
            match avc_lists(*self) {
                Ok(bytes) => r is Ok && final(b)@ == old(b)@ + bytes,
                Err(f) => r is Err && r->Err_0.parts() == avc_write_parts(f),
            },
    {
        if self.sps.len() > 31 {
            return Err(write_error(AvcWriteFailure::TooManySps));
        }
        b.push(224 | self.sps.len() as u8);
        if !write_nals(b, &self.sps) {
            return Err(write_error(AvcWriteFailure::LargeSps));
        }
        if self.pps.len() > 255 {
            return Err(write_error(AvcWriteFailure::TooManyPps));
        }
        b.push(self.pps.len() as u8);
        if !write_nals(b, &self.pps) {
            return Err(write_error(AvcWriteFailure::LargePps));
        }
        let ghost lists = b@;
        proof {
            let sps = list_bytes(list_view(self.sps@), 0)->Some_0;
            let pps = list_bytes(list_view(self.pps@), 0)->Some_0;
            assert(lists =~= old(b)@ + (seq![224u8 | (self.sps@.len() as u8)] + sps + seq![self.pps@.len() as u8] + pps));
        }
        if !(self.profile == 66 || self.profile == 77 || self.profile == 88) {
            b.push(self.chroma);
            b.push(self.luma.wrapping_sub(8));
            b.push(self.color.wrapping_sub(8));
            if self.extensions.len() > 255 {
                return Err(write_error(AvcWriteFailure::TooManyExtensions));
            }
            b.push(self.extensions.len() as u8);
            let ghost tail = b@;
            if !write_nals(b, &self.extensions) {
                return Err(write_error(AvcWriteFailure::LargeExtension));
            }
            proof {
                let ext = list_bytes(list_view(self.extensions@), 0)->Some_0;
                assert(tail =~= lists + seq![self.chroma, depth_code(self.luma), depth_code(self.color)]
                    + seq![self.extensions@.len() as u8]);
                assert(b@ =~= lists + seq![self.chroma, depth_code(self.luma), depth_code(self.color)]
                    + seq![self.extensions@.len() as u8] + ext);
            }
        }
        Ok(())
    }

    /// The `avcC` property: its fourcc, the record's bytes, and the failure
    /// where the record cannot be written (its bytes then end where writing
    /// stopped).
    pub fn property(&self) -> (r: Property)
        ensures
            r.kind == 0x6176_6343 && r.uuid is None && !r.raw,
            match self.record() {
                Ok(b) => r.data@ == b && r.write_error is None,
                Err(f) => r.write_error matches Some(e) && e.parts() == avc_write_parts(f),
            },
    {
        let mut bytes: Vec<u8> = Vec::new();
        let error = match self.write_into(&mut bytes) {
            Ok(()) => None,
            Err(e) => Some(e),
        };
        proof {
            if self.record() is Ok {
                assert(Seq::<u8>::empty() + self.record()->Ok_0 =~= self.record()->Ok_0);
            }
        }
        Property { kind: 0x6176_6343, uuid: None, data: bytes, raw: false, write_error: error }
    }

    /// Writes the `avcC` record after `b`.
    pub fn write_into(&self, b: &mut Vec<u8>) -> (r: Result<(), ContextError>)
        ensures
            match self.record() {
                Ok(bytes) => r is Ok && final(b)@ == old(b)@ + bytes,
                Err(f) => r is Err && r->Err_0.parts() == avc_write_parts(f),
            },
    {
        b.push(1);
        b.push(self.profile);
        b.push(self.compatibility);
        b.push(self.level);
        b.push(255);
        let ghost head = b@;
        assert(head =~= old(b)@ + seq![1u8, self.profile, self.compatibility, self.level, 255u8]);
        let r = self.write_lists(b);
        proof {
            if let Ok(rest) = avc_lists(*self) {
                assert(b@ =~= old(b)@ + (seq![1u8, self.profile, self.compatibility, self.level, 255u8] + rest));
            }
        }
        r
    }
}

} // verus!
