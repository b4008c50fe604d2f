//! The parts of AVC encoding that shape the bitstream around the encoder: the
//! quality-to-QP mapping, x264's level choice, Annex B splitting, emulation
//! prevention, and the SPS rewrite that adds x264's VUI.
use vstd::prelude::*;
use crate::bitwriter::{bits_of, pack, ue_bits, BitWriter};

verus! {

/// The profile of an intra-only stream without scaling lists: High 4:4:4
/// Predictive (244) for lossless coding or 4:4:4, High 4:2:2 (122) for
/// 4:2:2, High 10 (110) above 8 bits, else High (100).
pub fn profile(chroma: u8, bit_depth: u8, lossless: bool) -> (r: u8)
    ensures
        r == (if lossless || chroma == 3 {
            244u8
        } else if chroma == 2 {
            122u8
        } else if bit_depth > 8 {
            110u8
        } else {
            100u8
        }),
{
    if lossless || chroma == 3 {
        244
    } else if chroma == 2 {
        122
    } else if bit_depth > 8 {
        110
    } else {
        100
    }
}

/// Emulation prevention over a whole payload: the escaped bytes so far and
/// the number of zero bytes that end them.
pub open spec fn escape_run(data: Seq<u8>) -> (Seq<u8>, nat)
    decreases data.len(),
{
    if data.len() == 0 {
        (Seq::empty(), 0)
    } else {
        let (out, zeros) = escape_run(data.drop_last());
        let b = data.last();
        let (out2, z2) = if zeros >= 2 && b <= 3 { (out.push(3u8), 0nat) } else { (out, zeros) };
        (out2.push(b), if b == 0 { z2 + 1 } else { 0 })
    }
}

/// The payload with an emulation prevention byte 3 before every byte 0..=3
/// that follows two zero bytes.
pub open spec fn spec_escape(data: Seq<u8>) -> Seq<u8> {
    escape_run(data).0
}

/// Removal of emulation prevention: the bytes kept so far and the number of
/// zero bytes that end them.
pub open spec fn unescape_run(data: Seq<u8>) -> (Seq<u8>, nat)
    decreases data.len(),
{
    if data.len() == 0 {
        (Seq::empty(), 0)
    } else {
        let (out, zeros) = unescape_run(data.drop_last());
        let b = data.last();
        if zeros >= 2 && b == 3 {
            (out, 0)
        } else {
            (out.push(b), if b == 0 { zeros + 1 } else { 0 })
        }
    }
}

/// The payload with each byte 3 that follows two kept zero bytes removed.
pub open spec fn spec_unescape(data: Seq<u8>) -> Seq<u8> {
    unescape_run(data).0
}

/// Removes emulation prevention bytes.
pub fn unescape(data: &[u8]) -> (r: Vec<u8>)
    ensures
        r@ == spec_unescape(data@),
{
    let mut out: Vec<u8> = Vec::new();
    let mut zeros: usize = 0;
    let mut i: usize = 0;
    while i < data.len()
        invariant
            i <= data@.len(),
            zeros <= i,
            (out@, zeros as nat) == unescape_run(data@.subrange(0, i as int)),
        decreases data@.len() - i,
    {
        let b = data[i];
        proof {
            assert(data@.subrange(0, i + 1).drop_last() =~= data@.subrange(0, i as int));
        }
        if zeros >= 2 && b == 3 {
            zeros = 0;
        } else {
            zeros = if b == 0 { zeros + 1 } else { 0 };
            out.push(b);
        }
        i = i + 1;
    }
    assert(data@.subrange(0, i as int) =~= data@);
    out
}

/// Inserts emulation prevention bytes.
pub fn escape(data: &[u8]) -> (r: Vec<u8>)
    ensures
        r@ == spec_escape(data@),
{
    let mut out: Vec<u8> = Vec::new();
    let mut zeros: usize = 0;
    let mut i: usize = 0;
    while i < data.len()
        invariant
            i <= data@.len(),
            zeros <= i,
            (out@, zeros as nat) == escape_run(data@.subrange(0, i as int)),
        decreases data@.len() - i,
    {
        let b = data[i];
        proof {
            assert(data@.subrange(0, i + 1).drop_last() =~= data@.subrange(0, i as int));
        }
        if zeros >= 2 && b <= 3 {
            out.push(3);
            zeros = 0;
        }
        zeros = if b == 0 { zeros + 1 } else { 0 };
        out.push(b);
        i = i + 1;
    }
    assert(data@.subrange(0, i as int) =~= data@);
    out
}

/// Removing emulation prevention undoes inserting it, and both end in the
/// same count of trailing zero bytes.
proof fn lemma_unescape_escape_run(data: Seq<u8>)
    ensures
        unescape_run(escape_run(data).0) == (data, escape_run(data).1),
    decreases data.len(),
{
    if data.len() > 0 {
        let d = data.drop_last();
        let b = data.last();
        lemma_unescape_escape_run(d);
        let (out, zeros) = escape_run(d);
        assert(d.push(b) =~= data);
        assert(unescape_run(out) == (d, zeros));
        if zeros >= 2 && b <= 3 {
            let e2 = out.push(3u8);
            assert(e2.drop_last() =~= out);
            assert(e2.last() == 3u8);
            assert(unescape_run(e2) == (d, 0nat));
            let e3 = e2.push(b);
            assert(e3.drop_last() =~= e2);
            assert(e3.last() == b);
            assert(escape_run(data) == (e3, if b == 0 { 1nat } else { 0nat }));
            assert(unescape_run(e3) == (d.push(b), if b == 0 { 1nat } else { 0nat }));
        } else {
            let e3 = out.push(b);
            assert(e3.drop_last() =~= out);
            assert(e3.last() == b);
            assert(escape_run(data) == (e3, if b == 0 { zeros + 1 } else { 0nat }));
            assert(unescape_run(e3) == (d.push(b), if b == 0 { zeros + 1 } else { 0nat }));
        }
    }
}

/// Escaping round-trips: `unescape(escape(data)) == data` for every payload.
pub proof fn lemma_escape_round_trip(data: Seq<u8>)
    ensures
        spec_unescape(spec_escape(data)) == data,
{
    lemma_unescape_escape_run(data);
}

} // verus!

verus! {

/// `a / b` rounded to the nearest integer, halves away from zero (b > 0).
pub open spec fn round_div(a: int, b: int) -> int {
    if a >= 0 {
        (a + b / 2) / b
    } else {
        -((-a + b / 2) / b)
    }
}

/// The constant intra QP for a libheif quality: with crf = (100 - quality) / 2
/// (quality clamped to 0..=100), the nearest integer to
/// crf - 3 + 0.07 * max(crf - 15, 0), clamped to 0..=51. In units of 1/200:
/// 200 * (crf - 3 + 0.07 * max(crf - 15, 0)) = 100 c - 600 + 7 max(c - 30, 0)
/// with c = 100 - quality.
pub open spec fn spec_quality_to_qp(quality: i32) -> u8 {
    let q: int = if quality < 0 { 0 } else if quality > 100 { 100 } else { quality as int };
    let c = 100 - q;
    let x = 100 * c - 600 + 7 * (if c > 30 { c - 30 } else { 0 });
    let v = round_div(x, 200);
    (if v < 0 { 0 } else if v > 51 { 51 } else { v }) as u8
}

/// The constant intra QP that tracks x264's picture quality at a libheif quality.
pub fn quality_to_qp(quality: i32) -> (r: u8)
    ensures
        r == spec_quality_to_qp(quality),
{
    let q: i32 = if quality < 0 { 0 } else if quality > 100 { 100 } else { quality };
    let c = 100 - q;
    let x: i32 = 100 * c - 600 + 7 * (if c > 30 { c - 30 } else { 0 });
    if x < 0 {
        // round_div of a negative value is at most 0
        return 0;
    }
    let v = (x + 100) / 200;
    if v > 51 { 51 } else { v as u8 }
}

/// Row `i` of x264's level table: (level_idc, frame size in MBs, DPB size in
/// MBs, vertical MV range).
pub open spec fn level_row(i: int) -> (u8, u32, u32, u32) {
    if i == 0 { (10, 99, 396, 64) }
    else if i == 1 { (9, 99, 396, 64) }
    else if i == 2 { (11, 396, 900, 128) }
    else if i == 3 { (12, 396, 2376, 128) }
    else if i == 4 { (13, 396, 2376, 128) }
    else if i == 5 { (20, 396, 2376, 128) }
    else if i == 6 { (21, 792, 4752, 256) }
    else if i == 7 { (22, 1620, 8100, 256) }
    else if i == 8 { (30, 1620, 8100, 256) }
    else if i == 9 { (31, 3600, 18000, 512) }
    else if i == 10 { (32, 5120, 20480, 512) }
    else if i == 11 { (40, 8192, 32768, 512) }
    else if i == 12 { (41, 8192, 32768, 512) }
    else if i == 13 { (42, 8704, 34816, 512) }
    else if i == 14 { (50, 22080, 110400, 512) }
    else if i == 15 { (51, 36864, 184320, 512) }
    else if i == 16 { (52, 36864, 184320, 512) }
    else if i == 17 { (60, 139264, 696320, 8192) }
    else if i == 18 { (61, 139264, 696320, 8192) }
    else { (62, 139264, 696320, 8192) }
}

/// Reads row `i` of x264's level table.
fn level_entry(i: usize) -> (r: (u8, u32, u32, u32))
    requires
        i < 20,
    ensures
        r == level_row(i as int),
{
    if i == 0 { (10, 99, 396, 64) }
    else if i == 1 { (9, 99, 396, 64) }
    else if i == 2 { (11, 396, 900, 128) }
    else if i == 3 { (12, 396, 2376, 128) }
    else if i == 4 { (13, 396, 2376, 128) }
    else if i == 5 { (20, 396, 2376, 128) }
    else if i == 6 { (21, 792, 4752, 256) }
    else if i == 7 { (22, 1620, 8100, 256) }
    else if i == 8 { (30, 1620, 8100, 256) }
    else if i == 9 { (31, 3600, 18000, 512) }
    else if i == 10 { (32, 5120, 20480, 512) }
    else if i == 11 { (40, 8192, 32768, 512) }
    else if i == 12 { (41, 8192, 32768, 512) }
    else if i == 13 { (42, 8704, 34816, 512) }
    else if i == 14 { (50, 22080, 110400, 512) }
    else if i == 15 { (51, 36864, 184320, 512) }
    else if i == 16 { (52, 36864, 184320, 512) }
    else if i == 17 { (60, 139264, 696320, 8192) }
    else if i == 18 { (61, 139264, 696320, 8192) }
    else { (62, 139264, 696320, 8192) }
}

/// Whether a level row admits a picture of `mw` x `mh` macroblocks with
/// `dpb` frames in the decoded picture buffer.
pub open spec fn level_fits(i: int, mw: int, mh: int, dpb: int) -> bool {
    let (_, frame, size, _) = level_row(i);
    frame >= mw * mh && frame * 8 >= mw * mw && frame * 8 >= mh * mh && size >= mw * mh * dpb
}

/// The first level row from `i` on that admits the picture, else the last row.
pub open spec fn first_fit(i: int, mw: int, mh: int, dpb: int) -> int
    decreases 20 - i,
{
    if i >= 19 {
        19
    } else if level_fits(i, mw, mh, dpb) {
        i
    } else {
        first_fit(i + 1, mw, mh, dpb)
    }
}

/// Picture size in macroblocks, rounded up.
pub open spec fn mbs(n: u32) -> int {
    (n as int + 15) / 16
}

/// x264's automatic level for a `width` x `height` picture: level_idc,
/// whether it is level 1b (written as 1.1 with constraint_set3), and the
/// level's vertical MV range.
pub open spec fn spec_level(width: u32, height: u32, dpb: u32) -> (u8, bool, u32) {
    let chosen = first_fit(0, mbs(width), mbs(height), dpb as int);
    let (idc, _, _, mv) = level_row(chosen);
    if idc == 9 { (11, true, mv) } else { (idc, false, mv) }
}

/// Whether level row `i` admits a picture of `m` macroblocks whose squared
/// sides are `ww` and `hh` and that needs `need` macroblocks of DPB.
fn fits(i: usize, m: u32, ww: u32, hh: u32, need: u32) -> (r: bool)
    requires
        i < 20,
    ensures
        forall|gw: int, gh: int, dpb: int| m == gw * gh && ww == gw * gw && hh == gh * gh && need == gw * gh * dpb
            ==> r == level_fits(i as int, gw, gh, dpb),
{
    let (_, frame, dpb, _) = level_entry(i);
    frame >= m && frame as u64 * 8 >= ww as u64 && frame as u64 * 8 >= hh as u64 && dpb >= need
}

/// Chooses x264's level for a picture.
pub fn level(width: u32, height: u32, dpb_frames: u32) -> (r: (u8, bool, u32))
    requires
        mbs(width) * mbs(height) * dpb_frames <= u32::MAX,
        mbs(width) * mbs(width) <= u32::MAX,
        mbs(height) * mbs(height) <= u32::MAX,
    ensures
        r == spec_level(width, height, dpb_frames),
{
    let mw = width / 16 + if width % 16 != 0 { 1 } else { 0 };
    let mh = height / 16 + if height % 16 != 0 { 1 } else { 0 };
    assert(mw == mbs(width) && mh == mbs(height));
    let ghost (gw, gh) = (mw as int, mh as int);
    proof {
        let (a, b) = (mw as int, mh as int);
        if a <= b {
            assert(a * b <= b * b) by (nonlinear_arith) requires 0 <= a <= b;
        } else {
            assert(a * b <= a * a) by (nonlinear_arith) requires 0 <= b <= a;
        }
    }
    let m = mw * mh;
    let ww = mw * mw;
    let hh = mh * mh;
    let need = m * dpb_frames;
    let mut i: usize = 0;
    while i < 19 && !fits(i, m, ww, hh, need)
        invariant
            i <= 19,
            m == gw * gh,
            ww == gw * gw,
            hh == gh * gh,
            need == gw * gh * dpb_frames,
            first_fit(0, gw, gh, dpb_frames as int) == first_fit(i as int, gw, gh, dpb_frames as int),
        decreases 19 - i,
    {
        i = i + 1;
    }
    let (idc, _, _, mv) = level_entry(i);
    if idc == 9 { (11, true, mv) } else { (idc, false, mv) }
}

} // verus!

verus! {

/// The positions just after each start code `00 00 01` found scanning from
/// `i`; the bytes of a start code are not searched again.
pub open spec fn start_codes(s: Seq<u8>, i: int) -> Seq<int>
    decreases s.len() - i,
{
    if i < 0 || i + 3 > s.len() {
        Seq::empty()
    } else if s[i] == 0 && s[i + 1] == 0 && s[i + 2] == 1 {
        seq![i + 3] + start_codes(s, i + 3)
    } else {
        start_codes(s, i + 1)
    }
}

/// `end` moved back over the zero bytes that precede it, down to `start`.
pub open spec fn trim_zeros(s: Seq<u8>, start: int, end: int) -> int
    decreases end - start,
{
    if end > start && s[end - 1] == 0 { trim_zeros(s, start, end - 1) } else { end }
}

/// The end of the unit that starts at `starts[n]`: the next start code, or the
/// end of the stream, less the zero bytes before it.
pub open spec fn unit_end(s: Seq<u8>, starts: Seq<int>, n: int) -> int {
    let end = if n + 1 < starts.len() { starts[n + 1] - 3 } else { s.len() as int };
    trim_zeros(s, starts[n], end)
}

/// The (start, end) of the nonempty units among the first `n` start codes.
pub open spec fn unit_ranges(s: Seq<u8>, starts: Seq<int>, n: int) -> Seq<(int, int)>
    decreases n,
{
    if n <= 0 {
        Seq::empty()
    } else {
        let prev = unit_ranges(s, starts, n - 1);
        let e = unit_end(s, starts, n - 1);
        if starts[n - 1] < e { prev.push((starts[n - 1], e)) } else { prev }
    }
}

/// The NAL units of an Annex B byte stream: the nonempty runs between start
/// codes, without the zero bytes that belong to the next start code.
pub open spec fn spec_annex_b_units(s: Seq<u8>) -> Seq<Seq<u8>> {
    let st = start_codes(s, 0);
    unit_ranges(s, st, st.len() as int).map_values(|r: (int, int)| s.subrange(r.0, r.1))
}

/// Start codes found from `i` lie in `i + 3 ..= s.len()`, at least three apart.
proof fn lemma_start_codes(s: Seq<u8>, i: int)
    requires
        i >= 0,
    ensures
        forall|k: int| 0 <= k < start_codes(s, i).len() ==> i + 3 <= #[trigger] start_codes(s, i)[k] <= s.len(),
        forall|k: int, l: int| 0 <= k < l < start_codes(s, i).len()
            ==> #[trigger] start_codes(s, i)[k] + 3 <= #[trigger] start_codes(s, i)[l],
    decreases s.len() - i,
{
    if i + 3 > s.len() {
    } else if s[i] == 0 && s[i + 1] == 0 && s[i + 2] == 1 {
        lemma_start_codes(s, i + 3);
        let rest = start_codes(s, i + 3);
        assert(start_codes(s, i) == seq![i + 3] + rest);
        assert forall|k: int| 0 <= k < start_codes(s, i).len() implies i + 3 <= #[trigger] start_codes(s, i)[k] <= s.len() by {
            if k > 0 {
                assert(start_codes(s, i)[k] == rest[k - 1]);
            }
        }
        assert forall|k: int, l: int| 0 <= k < l < start_codes(s, i).len()
            implies #[trigger] start_codes(s, i)[k] + 3 <= #[trigger] start_codes(s, i)[l] by {
            assert(start_codes(s, i)[l] == rest[l - 1]);
            if k > 0 {
                assert(start_codes(s, i)[k] == rest[k - 1]);
            }
        }
    } else {
        lemma_start_codes(s, i + 1);
        let rest = start_codes(s, i + 1);
        assert(start_codes(s, i) == rest);
        assert forall|k: int| 0 <= k < start_codes(s, i).len() implies i + 3 <= #[trigger] start_codes(s, i)[k] <= s.len() by {
            assert(start_codes(s, i)[k] == rest[k]);
        }
        assert forall|k: int, l: int| 0 <= k < l < start_codes(s, i).len()
            implies #[trigger] start_codes(s, i)[k] + 3 <= #[trigger] start_codes(s, i)[l] by {
            assert(start_codes(s, i)[k] == rest[k] && start_codes(s, i)[l] == rest[l]);
        }
    }
}

/// `trim_zeros` stays within `start..=end`.
proof fn lemma_trim_zeros(s: Seq<u8>, start: int, end: int)
    requires
        start <= end,
    ensures
        start <= trim_zeros(s, start, end) <= end,
    decreases end - start,
{
    if end > start && s[end - 1] == 0 {
        lemma_trim_zeros(s, start, end - 1);
    }
}

/// The positions after the start codes of a stream.
fn find_start_codes(stream: &[u8]) -> (r: Vec<usize>)
    ensures
        r@.len() == start_codes(stream@, 0).len(),
        forall|k: int| 0 <= k < r@.len() ==> r@[k] as int == #[trigger] start_codes(stream@, 0)[k],
{
    let ghost s = stream@;
    let mut starts: Vec<usize> = Vec::new();
    let mut i: usize = 0;
    let len = stream.len();
    while i < len && len - i >= 3
        invariant
            len == s.len(),
            s == stream@,
            i <= len,
            start_codes(s, 0) == starts@.map_values(|x: usize| x as int) + start_codes(s, i as int),
        decreases len - i,
    {
        if stream[i] == 0 && stream[i + 1] == 0 && stream[i + 2] == 1 {
            proof {
                let m = starts@.map_values(|x: usize| x as int);
                assert(starts@.push((i + 3) as usize).map_values(|x: usize| x as int) =~= m.push(i + 3));
                assert(m + start_codes(s, i as int) =~= m.push(i + 3) + start_codes(s, i + 3));
            }
            starts.push(i + 3);
            i = i + 3;
        } else {
            i = i + 1;
        }
    }
    proof {
        assert(start_codes(s, i as int) =~= Seq::<int>::empty());
        assert(start_codes(s, 0) =~= starts@.map_values(|x: usize| x as int));
    }
    starts
}

/// Splits an Annex B byte stream into its NAL units.
pub fn annex_b_units(stream: &[u8]) -> (r: Vec<&[u8]>)
    ensures
        r@.len() == spec_annex_b_units(stream@).len(),
        forall|k: int| 0 <= k < r@.len() ==> (#[trigger] r@[k])@ == spec_annex_b_units(stream@)[k],
        forall|k: int| 0 <= k < r@.len() ==> 1 <= (#[trigger] r@[k])@.len() <= stream@.len(),
{
    let ghost s = stream@;
    let starts = find_start_codes(stream);
    let ghost st = start_codes(s, 0);
    proof {
        lemma_start_codes(s, 0);
    }
    let mut out: Vec<&[u8]> = Vec::new();
    let mut n: usize = 0;
    while n < starts.len()
        invariant
            starts@.len() == st.len(),
            forall|k: int| 0 <= k < starts@.len() ==> starts@[k] as int == #[trigger] st[k],
            forall|k: int| 0 <= k < st.len() ==> 3 <= #[trigger] st[k] <= s.len(),
            forall|k: int, l: int| 0 <= k < l < st.len() ==> #[trigger] st[k] + 3 <= #[trigger] st[l],
            s == stream@,
            st == start_codes(s, 0),
            n <= starts@.len(),
            out@.len() == unit_ranges(s, st, n as int).len(),
            forall|k: int| 0 <= k < out@.len() ==> (#[trigger] out@[k])@
                == s.subrange(unit_ranges(s, st, n as int)[k].0, unit_ranges(s, st, n as int)[k].1),
            forall|k: int| 0 <= k < out@.len() ==> 1 <= (#[trigger] out@[k])@.len() <= s.len(),
        decreases starts@.len() - n,
    {
        let start = starts[n];
        assert(starts@[n as int] == st[n as int]);
        if n + 1 < starts.len() {
            assert(starts@[n + 1] == st[n + 1] && st[n + 1] >= 3);
        }
        let mut end = if n + 1 < starts.len() { starts[n + 1] - 3 } else { stream.len() };
        assert(start <= end) by {
            if n + 1 < starts@.len() {
                assert(st[n as int] + 3 <= st[n + 1]);
            }
        }
        let ghost end0 = end as int;
        while end > start && stream[end - 1] == 0
            invariant
                start <= end <= s.len(),
                s == stream@,
                trim_zeros(s, start as int, end0) == trim_zeros(s, start as int, end as int),
            decreases end,
        {
            end = end - 1;
        }
        assert(end as int == unit_end(s, st, n as int));
        let ghost prev = unit_ranges(s, st, n as int);
        if start < end {
            out.push(vstd::slice::slice_subrange(stream, start, end));
            proof {
                assert(unit_ranges(s, st, n + 1) == prev.push((start as int, end as int)));
            }
        } else {
            assert(unit_ranges(s, st, n + 1) == prev);
        }
        n = n + 1;
    }
    out
}

} // verus!

verus! {

/// Colour signalling written to the SPS VUI.
#[derive(Clone, Copy, Debug, Default, PartialEq, Eq)]
pub struct VuiSignal {
    pub full_range: bool,
    /// (colour primaries, transfer characteristics, matrix coefficients)
    pub description: Option<(u8, u8, u8)>,
    /// Sample aspect ratio (not 1:1, both below 65536).
    pub sar: Option<(u16, u16)>,
}

/// Bit `i` of a byte string, most significant bit of each byte first.
pub open spec fn rbsp_bit(s: Seq<u8>, i: int) -> bool {
    (s[i / 8] >> ((7 - i % 8) as u8)) & 1u8 == 1u8
}

/// The bits of a byte string.
pub open spec fn rbsp_bits(s: Seq<u8>) -> Seq<bool> {
    Seq::new((s.len() * 8) as nat, |i: int| rbsp_bit(s, i))
}

/// The index of the last set bit among the first `n`, or -1.
pub open spec fn last_set(b: Seq<bool>, n: int) -> int
    decreases n,
{
    if n <= 0 { -1 } else if b[n - 1] { n - 1 } else { last_set(b, n - 1) }
}

/// The profile, constraint and level bytes as x264 writes them.
pub open spec fn header_bytes(baseline: bool, level_idc: u8, constraint_set3: bool) -> Seq<u8> {
    let profile: u8 = if baseline { 66 } else { 77 };
    let constraints: u8 = (if baseline { 0xc0u8 } else { 0x40u8 }) | (if constraint_set3 { 0x10u8 } else { 0u8 });
    seq![profile, constraints, level_idc]
}

/// The sample aspect ratios of the VUI's aspect_ratio_idc 1 to 16.
pub open spec fn sar_table() -> Seq<(u16, u16)> {
    seq![(1u16, 1u16), (12, 11), (10, 11), (16, 11), (40, 33), (24, 11), (20, 11), (32, 11),
        (80, 33), (18, 11), (15, 11), (64, 33), (160, 99), (4, 3), (3, 2), (2, 1)]
}

/// The first table row from `i` that holds `sar`, or -1.
pub open spec fn sar_position(sar: (u16, u16), i: int) -> int
    decreases 16 - i,
{
    if i < 0 || i >= 16 { -1 } else if sar_table()[i] == sar { i } else { sar_position(sar, i + 1) }
}

/// The aspect-ratio part of the VUI: a flag, then the table index, or 255
/// and the ratio itself.
pub open spec fn sar_bits(sar: Option<(u16, u16)>) -> Seq<bool> {
    match sar {
        None => seq![false],
        Some(r) => {
            let i = sar_position(r, 0);
            seq![true] + if i >= 0 {
                bits_of((i + 1) as u64, 8)
            } else {
                bits_of(255, 8) + bits_of(r.0 as u64, 16) + bits_of(r.1 as u64, 16)
            }
        },
    }
}

/// A colour code kept where x264 knows it (up to `max`), 2 otherwise.
pub open spec fn kept_code(v: u8, max: u8) -> u8 {
    if v <= max { v } else { 2 }
}

/// The colour description written: primaries, transfer and matrix.
pub open spec fn colour_codes(vui: VuiSignal) -> (u8, u8, u8) {
    let d = match vui.description { Some(d) => d, None => (2u8, 2u8, 2u8) };
    (kept_code(d.0, 12), kept_code(d.1, 18), kept_code(d.2, 14))
}

/// The video-signal part of the VUI.
pub open spec fn signal_bits(vui: VuiSignal) -> Seq<bool> {
    let (p, t, m) = colour_codes(vui);
    let description = !(p == 2 && t == 2 && m == 2);
    let signal = vui.full_range || description;
    let colours = if description {
        bits_of(p as u64, 8) + bits_of(t as u64, 8) + bits_of(m as u64, 8)
    } else {
        Seq::empty()
    };
    seq![signal] + if signal { bits_of(5, 3) + seq![vui.full_range, description] + colours } else { Seq::empty() }
}

/// The bitstream restrictions: MV lengths from the level's vertical MV range.
pub open spec fn restriction_bits(mv_range: u32) -> Seq<bool> {
    let l = (32 - ((mv_range * 4 - 1) as u32).leading_zeros()) as u32;
    seq![true, true] + ue_bits(0) + ue_bits(0) + ue_bits(l) + ue_bits(l) + ue_bits(0) + ue_bits(1)
}

/// The VUI x264 writes, from vui_parameters_present_flag to the stop bit.
pub open spec fn vui_bits(vui: VuiSignal, mv_range: u32) -> Seq<bool> {
    let timing = seq![true] + bits_of(25, 32) + bits_of(2, 32) + seq![true];
    seq![true] + sar_bits(vui.sar) + seq![false] + signal_bits(vui) + seq![false] + timing
        + seq![false, false, false] + restriction_bits(mv_range) + seq![true]
}

/// The written bits with the first 24 replaced by `h`; where fewer than 24
/// bits preceded the VUI, the VUI bits in the first 24 are or-ed into `h`.
pub open spec fn overlay(w: Seq<bool>, h: Seq<bool>, len: int) -> Seq<bool> {
    Seq::new(w.len(), |i: int| if i < 24 { h[i] || (i >= len && w[i]) } else { w[i] })
}

/// The SPS bits of a NAL unit (the header byte dropped, emulation prevention removed).
pub open spec fn sps_bits(unit: Seq<u8>) -> Seq<bool> {
    rbsp_bits(spec_unescape(unit.drop_first()))
}

/// Whether the rewrite would index past the bits written before the VUI
/// (fewer than 17 of them).
pub open spec fn sps_rewrite_panics(unit: Seq<u8>) -> bool {
    let b = sps_bits(unit);
    let stop = last_set(b, b.len() as int);
    stop >= 1 && !b[stop - 1] && stop < 18
}

/// The SPS with x264's profile, level and VUI: the bits before
/// `vui_parameters_present_flag = 0` kept, the VUI appended, then escaped.
pub open spec fn spec_rewrite_sps(
    unit: Seq<u8>,
    baseline: bool,
    level_idc: u8,
    constraint_set3: bool,
    mv_range: u32,
    vui: VuiSignal,
) -> Result<Seq<u8>, Seq<char>> {
    let b = sps_bits(unit);
    let stop = last_set(b, b.len() as int);
    if stop < 0 {
        Err("SPS without a stop bit"@)
    } else if stop == 0 || b[stop - 1] {
        Err("SPS already carries a VUI"@)
    } else {
        let len = stop - 1;
        let w = b.subrange(0, len) + vui_bits(vui, mv_range);
        let f = overlay(w, rbsp_bits(header_bytes(baseline, level_idc, constraint_set3)), len);
        Ok(seq![unit[0]] + spec_escape(pack(f)))
    }
}

/// Bit `i` of a byte string.
fn bit_at(s: &[u8], i: usize) -> (r: bool)
    requires
        i < s@.len() * 8,
    ensures
        r == rbsp_bit(s@, i as int),
{
    (s[i / 8] >> ((7 - i % 8) as u8)) & 1 == 1
}

/// Unescaping never lengthens a payload.
proof fn lemma_unescape_len(data: Seq<u8>)
    ensures
        spec_unescape(data).len() <= data.len(),
        unescape_run(data).0.len() <= data.len(),
    decreases data.len(),
{
    if data.len() > 0 {
        lemma_unescape_len(data.drop_last());
    }
}

/// Writes the aspect-ratio part of the VUI.
fn write_sar(t: &mut BitWriter, sar: Option<(u16, u16)>)
    requires
        old(t).wf(),
        old(t).bits <= 1000,
    ensures
        final(t).wf(),
        final(t).view_bits() == old(t).view_bits() + sar_bits(sar),
        final(t).bits <= old(t).bits + 41,
{
    let ghost t0 = t.view_bits();
    match sar {
        Some((sw, sh)) => {
            let table: [(u16, u16); 16] = [
                (1, 1), (12, 11), (10, 11), (16, 11), (40, 33), (24, 11), (20, 11), (32, 11),
                (80, 33), (18, 11), (15, 11), (64, 33), (160, 99), (4, 3), (3, 2), (2, 1),
            ];
            assert(table@ =~= sar_table());
            t.bit(true);
            let mut i: usize = 0;
            while i < 16 && !(table[i].0 == sw && table[i].1 == sh)
                invariant
                    i <= 16,
                    table@ == sar_table(),
                    sar_position((sw, sh), 0) == sar_position((sw, sh), i as int),
                decreases 16 - i,
            {
                i = i + 1;
            }
            if i < 16 {
                t.bits(i as u64 + 1, 8);
            } else {
                t.bits(255, 8);
                t.bits(sw as u64, 16);
                t.bits(sh as u64, 16);
            }
            assert(t.view_bits() =~= t0 + sar_bits(sar));
        },
        None => {
            t.bit(false);
            assert(t.view_bits() =~= t0 + sar_bits(sar));
        },
    }
}

/// The colour codes kept in the VUI.
fn colour_codes_of(vui: &VuiSignal) -> (r: (u8, u8, u8))
    ensures
        r == colour_codes(*vui),
{
    let (p, tc, m) = match vui.description { Some(d) => d, None => (2u8, 2u8, 2u8) };
    (if p <= 12 { p } else { 2 }, if tc <= 18 { tc } else { 2 }, if m <= 14 { m } else { 2 })
}

/// Writes the three colour codes, eight bits each.
fn write_colours(t: &mut BitWriter, p: u8, tc: u8, m: u8)
    requires
        old(t).wf(),
        old(t).bits <= 1100,
    ensures
        final(t).wf(),
        final(t).view_bits() == old(t).view_bits() + bits_of(p as u64, 8) + bits_of(tc as u64, 8) + bits_of(m as u64, 8),
        final(t).bits <= old(t).bits + 24,
{
    let ghost t0 = t.view_bits();
    t.bits(p as u64, 8);
    t.bits(tc as u64, 8);
    t.bits(m as u64, 8);
    assert(t.view_bits() =~= t0 + bits_of(p as u64, 8) + bits_of(tc as u64, 8) + bits_of(m as u64, 8));
}

/// Writes the video-signal part of the VUI.
fn write_signal(t: &mut BitWriter, vui: &VuiSignal)
    requires
        old(t).wf(),
        old(t).bits <= 1000,
    ensures
        final(t).wf(),
        final(t).view_bits() == old(t).view_bits() + signal_bits(*vui),
        final(t).bits <= old(t).bits + 30,
{
    let ghost t0 = t.view_bits();
    let (p, tc, m) = colour_codes_of(vui);
    let description = !(p == 2 && tc == 2 && m == 2);
    let signal = vui.full_range || description;
    t.bit(signal);
    if signal {
        t.bits(5, 3);
        t.bit(vui.full_range);
        t.bit(description);
        let ghost t1 = t.view_bits();
        assert(t1 =~= t0 + seq![signal] + bits_of(5, 3) + seq![vui.full_range, description]);
        if description {
            write_colours(t, p, tc, m);
        }
        assert(t.view_bits() =~= t0 + signal_bits(*vui));
    } else {
        assert(t.view_bits() =~= t0 + signal_bits(*vui));
    }
}

/// Writes the bitstream restrictions.
fn write_restrictions(t: &mut BitWriter, mv_range: u32)
    requires
        old(t).wf(),
        old(t).bits <= 1000,
        1 <= mv_range < 0x4000_0000,
    ensures
        final(t).wf(),
        final(t).view_bits() == old(t).view_bits() + restriction_bits(mv_range),
        final(t).bits <= old(t).bits + 400,
{
    let ghost t0 = t.view_bits();
    let mv_length = 32 - (mv_range * 4 - 1).leading_zeros();
    proof {
        vstd::std_specs::bits::axiom_u32_leading_zeros((mv_range * 4 - 1) as u32);
    }
    t.bit(true);
    t.bit(true);
    t.ue(0);
    t.ue(0);
    t.ue(mv_length);
    t.ue(mv_length);
    t.ue(0);
    t.ue(1);
    assert(t.view_bits() =~= t0 + restriction_bits(mv_range));
}

/// Writes the VUI x264 writes.
fn write_vui(t: &mut BitWriter, vui: &VuiSignal, mv_range: u32)
    requires
        old(t).wf(),
        old(t).bits == 0,
        1 <= mv_range < 0x4000_0000,
    ensures
        final(t).wf(),
        final(t).view_bits() == vui_bits(*vui, mv_range),
        final(t).bits <= 1000,
{
    let ghost t0 = t.view_bits();
    t.bit(true);
    write_sar(t, vui.sar);
    t.bit(false);
    write_signal(t, vui);
    t.bit(false);
    let ghost t1 = t.view_bits();
    t.bit(true);
    t.bits(25, 32);
    t.bits(2, 32);
    t.bit(true);
    t.bit(false);
    t.bit(false);
    t.bit(false);
    let ghost t2 = t.view_bits();
    assert(t2 =~= t1 + (seq![true] + bits_of(25, 32) + bits_of(2, 32) + seq![true]) + seq![false, false, false]);
    write_restrictions(t, mv_range);
    t.bit(true);
    assert(t.view_bits() =~= vui_bits(*vui, mv_range));
}

/// Replaces the SPS's `vui_parameters_present_flag = 0` (the last bit before
/// the stop bit) with the VUI x264 writes, and its profile, constraint and
/// level bytes with x264's.
pub fn rewrite_sps(
    unit: &[u8],
    baseline: bool,
    level_idc: u8,
    constraint_set3: bool,
    mv_range: u32,
    vui: &VuiSignal,
) -> (r: Result<Vec<u8>, String>)
    requires
        1 <= unit@.len() <= 0x0fff_ffff,
        1 <= mv_range < 0x4000_0000,
        !sps_rewrite_panics(unit@),
    ensures
        match spec_rewrite_sps(unit@, baseline, level_idc, constraint_set3, mv_range, *vui) {
            Ok(v) => r is Ok && r->Ok_0@ == v,
            Err(e) => r is Err && r->Err_0@ == e,
        },
{
    let rbsp = unescape(vstd::slice::slice_subrange(unit, 1, unit.len()));
    proof {
        assert(unit@.subrange(1, unit@.len() as int) =~= unit@.drop_first());
        lemma_unescape_len(unit@.drop_first());
    }
    let ghost b = sps_bits(unit@);
    let total = rbsp.len() * 8;
    let mut i = total;
    while i > 0 && !bit_at(rbsp.as_slice(), i - 1)
        invariant
            i <= total,
            total == b.len(),
            b == rbsp_bits(rbsp@),
            last_set(b, total as int) == last_set(b, i as int),
        decreases i,
    {
        i = i - 1;
    }
    if i == 0 {
        return Err("SPS without a stop bit".to_owned());
    }
    let stop = i - 1;
    assert(last_set(b, i as int) == stop);
    if stop == 0 || bit_at(rbsp.as_slice(), stop - 1) {
        return Err("SPS already carries a VUI".to_owned());
    }
    let len = stop - 1;
    let header: [u8; 3] = [
        if baseline { 66 } else { 77 },
        (if baseline { 0xc0u8 } else { 0x40u8 }) | (if constraint_set3 { 0x10u8 } else { 0u8 }),
        level_idc,
    ];
    let ghost h = rbsp_bits(header_bytes(baseline, level_idc, constraint_set3));
    assert(header@ =~= header_bytes(baseline, level_idc, constraint_set3));
    let mut t = BitWriter::new();
    write_vui(&mut t, vui, mv_range);
    let ghost w = b.subrange(0, len as int) + vui_bits(*vui, mv_range);
    let ghost f = overlay(w, h, len as int);
    let mut out = BitWriter::new();
    let mut k: usize = 0;
    while k < len
        invariant
            k <= len,
            len < total,
            b == rbsp_bits(rbsp@),
            total == b.len(),
            header@ == header_bytes(baseline, level_idc, constraint_set3),
            h == rbsp_bits(header@),
            w == b.subrange(0, len as int) + vui_bits(*vui, mv_range),
            f == overlay(w, h, len as int),
            out.wf(),
            out.view_bits() == f.subrange(0, k as int),
        decreases len - k,
    {
        let bit = if k < 24 { bit_at(header.as_slice(), k) } else { bit_at(rbsp.as_slice(), k) };
        out.bit(bit);
        k = k + 1;
        assert(out.view_bits() =~= f.subrange(0, k as int));
    }
    let tail_len = t.bits;
    let mut j: usize = 0;
    while j < tail_len
        invariant
            j <= tail_len,
            tail_len == t.view_bits().len(),
            t.wf(),
            tail_len <= 1000,
            len < total <= 0x7fff_fff8,
            total == b.len(),
            t.view_bits() == vui_bits(*vui, mv_range),
            header@ == header_bytes(baseline, level_idc, constraint_set3),
            h == rbsp_bits(header@),
            w == b.subrange(0, len as int) + vui_bits(*vui, mv_range),
            f == overlay(w, h, len as int),
            out.wf(),
            out.view_bits() == f.subrange(0, len + j),
        decreases tail_len - j,
    {
        let pos = len + j;
        let v = t.get(j);
        let bit = if pos < 24 { bit_at(header.as_slice(), pos) || v } else { v };
        out.bit(bit);
        j = j + 1;
        assert(out.view_bits() =~= f.subrange(0, (len + j) as int));
    }
    assert(out.view_bits() =~= f);
    let mut bytes: Vec<u8> = Vec::new();
    bytes.push(unit[0]);
    let mut escaped = escape(out.bytes.as_slice());
    bytes.append(&mut escaped);
    Ok(bytes)
}

/// Whether a NAL unit is a sequence parameter set.
pub open spec fn is_sps(unit: Seq<u8>) -> bool {
    unit.len() > 0 && unit[0] & 0x1f == 7
}

/// The units with each SPS rewritten; the first refused SPS decides.
pub open spec fn spec_rewrite_units(
    units: Seq<Seq<u8>>,
    baseline: bool,
    level_idc: u8,
    constraint_set3: bool,
    mv_range: u32,
    vui: VuiSignal,
) -> Result<Seq<Seq<u8>>, Seq<char>>
    decreases units.len(),
{
    if units.len() == 0 {
        Ok(Seq::empty())
    } else {
        match spec_rewrite_units(units.drop_last(), baseline, level_idc, constraint_set3, mv_range, vui) {
            Err(e) => Err(e),
            Ok(prev) => {
                let u = units.last();
                if is_sps(u) {
                    match spec_rewrite_sps(u, baseline, level_idc, constraint_set3, mv_range, vui) {
                        Ok(v) => Ok(prev.push(v)),
                        Err(e) => Err(e),
                    }
                } else {
                    Ok(prev.push(u))
                }
            },
        }
    }
}

/// Whether every SPS of an Annex B stream can be rewritten without indexing
/// past its bits.
pub open spec fn stream_rewritable(stream: Seq<u8>) -> bool {
    forall|k: int| 0 <= k < spec_annex_b_units(stream).len() && is_sps(#[trigger] spec_annex_b_units(stream)[k])
        ==> !sps_rewrite_panics(spec_annex_b_units(stream)[k])
}

/// The NAL units of the encoder's Annex B output, each SPS rewritten with
/// x264's profile, level and VUI.
pub fn rewrite_stream(
    stream: &[u8],
    baseline: bool,
    level_idc: u8,
    constraint_set3: bool,
    mv_range: u32,
    vui: &VuiSignal,
) -> (r: Result<Vec<Vec<u8>>, String>)
    requires
        stream@.len() <= 0x0fff_ffff,
        1 <= mv_range < 0x4000_0000,
        stream_rewritable(stream@),
    ensures
        match spec_rewrite_units(spec_annex_b_units(stream@), baseline, level_idc, constraint_set3, mv_range, *vui) {
            Ok(v) => r is Ok && r->Ok_0@.len() == v.len()
                && forall|k: int| 0 <= k < v.len() ==> (#[trigger] r->Ok_0@[k])@ == v[k],
            Err(e) => r is Err && r->Err_0@ == e,
        },
{
    let units = annex_b_units(stream);
    let ghost us = spec_annex_b_units(stream@);
    let mut out: Vec<Vec<u8>> = Vec::new();
    let mut n: usize = 0;
    while n < units.len()
        invariant
            units@.len() == us.len(),
            forall|k: int| 0 <= k < units@.len() ==> (#[trigger] units@[k])@ == us[k],
            forall|k: int| 0 <= k < units@.len() ==> 1 <= (#[trigger] units@[k])@.len() <= stream@.len(),
            stream@.len() <= 0x0fff_ffff,
            1 <= mv_range < 0x4000_0000,
            us == spec_annex_b_units(stream@),
            stream_rewritable(stream@),
            n <= units@.len(),
            spec_rewrite_units(us.take(n as int), baseline, level_idc, constraint_set3, mv_range, *vui) is Ok,
            out@.len() == n,
            forall|k: int| 0 <= k < n ==> (#[trigger] out@[k])@
                == spec_rewrite_units(us.take(n as int), baseline, level_idc, constraint_set3, mv_range, *vui)->Ok_0[k],
        decreases units@.len() - n,
    {
        let unit = units[n];
        let ghost prev = spec_rewrite_units(us.take(n as int), baseline, level_idc, constraint_set3, mv_range, *vui)->Ok_0;
        let ghost before = out@;
        proof {
            lemma_rewrite_units_len(us.take(n as int), baseline, level_idc, constraint_set3, mv_range, *vui);
            assert(us.take(n + 1).drop_last() =~= us.take(n as int));
            assert(us.take(n + 1).last() == us[n as int]);
            assert(unit@ == us[n as int]);
        }
        if unit[0] & 0x1f == 7 {
            assert(is_sps(us[n as int]));
            match rewrite_sps(unit, baseline, level_idc, constraint_set3, mv_range, vui) {
                Ok(v) => {
                    out.push(v);
                },
                Err(e) => {
                    proof {
                        lemma_rewrite_error_stays(us, n as int, baseline, level_idc, constraint_set3, mv_range, *vui);
                    }
                    return Err(e);
                },
            }
        } else {
            out.push(vstd::slice::slice_to_vec(unit));
        }
        n = n + 1;
        proof {
            let now = spec_rewrite_units(us.take(n as int), baseline, level_idc, constraint_set3, mv_range, *vui)->Ok_0;
            assert(now == prev.push(out@[n - 1]@));
            assert forall|k: int| 0 <= k < n implies (#[trigger] out@[k])@ == now[k] by {
                if k < n - 1 {
                    assert(now[k] == prev[k]);
                    assert(out@[k] == before[k]);
                }
            }
        }
    }
    proof {
        assert(us.take(n as int) =~= us);
        lemma_rewrite_units_len(us, baseline, level_idc, constraint_set3, mv_range, *vui);
    }
    Ok(out)
}

/// A successful rewrite keeps one unit per unit.
proof fn lemma_rewrite_units_len(
    us: Seq<Seq<u8>>,
    baseline: bool,
    level_idc: u8,
    constraint_set3: bool,
    mv_range: u32,
    vui: VuiSignal,
)
    ensures
        spec_rewrite_units(us, baseline, level_idc, constraint_set3, mv_range, vui) is Ok
            ==> spec_rewrite_units(us, baseline, level_idc, constraint_set3, mv_range, vui)->Ok_0.len() == us.len(),
    decreases us.len(),
{
    if us.len() > 0 {
        lemma_rewrite_units_len(us.drop_last(), baseline, level_idc, constraint_set3, mv_range, vui);
    }
}

/// Once a prefix of the units fails, every longer prefix fails the same way.
proof fn lemma_rewrite_error_stays(
    us: Seq<Seq<u8>>,
    n: int,
    baseline: bool,
    level_idc: u8,
    constraint_set3: bool,
    mv_range: u32,
    vui: VuiSignal,
)
    requires
        0 <= n < us.len(),
        spec_rewrite_units(us.take(n + 1), baseline, level_idc, constraint_set3, mv_range, vui) is Err,
    ensures
        spec_rewrite_units(us, baseline, level_idc, constraint_set3, mv_range, vui)
            == spec_rewrite_units(us.take(n + 1), baseline, level_idc, constraint_set3, mv_range, vui),
    decreases us.len() - n,
{
    if n + 1 < us.len() {
        assert(us.take(n + 2).drop_last() =~= us.take(n + 1));
        lemma_rewrite_error_stays(us, n + 1, baseline, level_idc, constraint_set3, mv_range, vui);
    } else {
        assert(us.take(n + 1) =~= us);
    }
}

/// The search tier an x264 preset maps to.
#[derive(Clone, Copy, Debug, PartialEq, Eq, Structural)]
pub enum Speed {
    Fast,
    Balanced,
    Quality,
}

/// Encoder settings derived from the plugin parameters.
#[derive(Clone, Copy, Debug)]
pub struct Settings {
    /// libheif quality, 0..=100.
    pub quality: i32,
    /// The search tier for the x264 preset.
    pub speed: Speed,
    /// CABAC entropy coding (x264 turns it off for preset ultrafast and tune
    /// fastdecode).
    pub cabac: bool,
    /// Baseline profile: x264 chooses it when CABAC and B-frames are off.
    pub baseline: bool,
    pub vui: VuiSignal,
}

/// What the encoder is configured with for one picture, and what its SPS is
/// rewritten with afterwards.
#[derive(Clone, Copy, Debug)]
pub struct EncoderPlan {
    /// Constrained baseline rather than main profile.
    pub baseline: bool,
    pub cabac: bool,
    pub qp: u8,
    pub speed: Speed,
    pub level_idc: u8,
    pub constraint_set3: bool,
    pub mv_range: u32,
}

/// The encoder configuration for one intra picture of the given size: the
/// profile follows `baseline`, CABAC only outside baseline, the constant QP
/// from the quality, and x264's level for a single reference frame.
pub fn plan(width: u32, height: u32, settings: &Settings) -> (r: EncoderPlan)
    requires
        mbs(width) * mbs(height) <= u32::MAX,
        mbs(width) * mbs(width) <= u32::MAX,
        mbs(height) * mbs(height) <= u32::MAX,
    ensures
        r.baseline == settings.baseline,
        r.cabac == (settings.cabac && !settings.baseline),
        r.qp == spec_quality_to_qp(settings.quality),
        r.speed == settings.speed,
        (r.level_idc, r.constraint_set3, r.mv_range) == spec_level(width, height, 1),
{
    let (level_idc, constraint_set3, mv_range) = level(width, height, 1);
    EncoderPlan {
        baseline: settings.baseline,
        cabac: settings.cabac && !settings.baseline,
        qp: quality_to_qp(settings.quality),
        speed: settings.speed,
        level_idc,
        constraint_set3,
        mv_range,
    }
}

} // verus!
