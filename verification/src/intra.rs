//! Intra prediction of the AVC encoder (ITU-T H.264 8.3.1.2, 8.3.2.2, 8.3.3,
//! 8.3.4) from the neighbouring samples of a block.
use vstd::prelude::*;
use crate::bitwriter::{pow2, lemma_pow2_values, lemma_pow2_monotone};
use crate::transform::{lemma_shr_floor, lemma_shl_mul, sum_to};

verus! {

/// Neighbouring samples of an n x n block: `top[0..2n]` are p[x, -1]
/// (x = n..2n-1 already substituted when the top-right is missing),
/// `left[0..n]` are p[-1, y], `corner` is p[-1, -1].
pub struct Edge {
    pub top: [i32; 32],
    pub left: [i32; 16],
    pub corner: i32,
    pub has_top: bool,
    pub has_left: bool,
    pub has_corner: bool,
}

/// The largest sample value the predictions take: 16-bit samples keep every
/// sum and product of the predictions within 32 bits.
pub open spec fn max_sample() -> int {
    0xffff
}

impl Edge {
    /// Whether every neighbouring sample lies in 0..=`max_sample()`.
    pub open spec fn samples_ok(&self) -> bool {
        &&& forall|i: int| 0 <= i < 32 ==> 0 <= #[trigger] self.top@[i] <= max_sample()
        &&& forall|i: int| 0 <= i < 16 ==> 0 <= #[trigger] self.left@[i] <= max_sample()
        &&& 0 <= self.corner <= max_sample()
    }

    /// The neighbouring sample p[x, y]: the corner, the row above or the
    /// column to the left.
    pub open spec fn sample(&self, x: int, y: int) -> int {
        if y < 0 {
            if x < 0 { self.corner as int } else { self.top@[x] as int }
        } else {
            self.left@[y] as int
        }
    }

    fn p(&self, x: i32, y: i32) -> (r: i32)
        requires
            -1 <= x < 32,
            -1 <= y < 16,
            y >= 0 ==> x == -1,
        ensures
            r == self.sample(x as int, y as int),
    {
        if y < 0 {
            if x < 0 { self.corner } else { self.top[x as usize] }
        } else {
            self.left[y as usize]
        }
    }
}

/// Whether an Intra4x4/Intra8x8 prediction mode can be used: vertical and the
/// diagonal-down-left and vertical-left modes need the row above, horizontal
/// and horizontal-up the column to the left, DC nothing, the others all three.
pub fn nxn_mode_available(mode: u8, e: &Edge) -> (r: bool)
    ensures
        r == (if mode == 0 || mode == 3 || mode == 7 {
            e.has_top
        } else if mode == 1 || mode == 8 {
            e.has_left
        } else if mode == 2 {
            true
        } else {
            e.has_top && e.has_left && e.has_corner
        }),
{
    match mode {
        0 | 3 | 7 => e.has_top,
        1 | 8 => e.has_left,
        2 => true,
        _ => e.has_top && e.has_left && e.has_corner,
    }
}

/// Whether an Intra16x16 mode (0 vertical, 1 horizontal, 2 DC, 3 plane) can be used.
pub fn i16_mode_available(mode: u8, e: &Edge) -> (r: bool)
    ensures
        r == (if mode == 0 {
            e.has_top
        } else if mode == 1 {
            e.has_left
        } else if mode == 2 {
            true
        } else {
            e.has_top && e.has_left && e.has_corner
        }),
{
    match mode {
        0 => e.has_top,
        1 => e.has_left,
        2 => true,
        _ => e.has_top && e.has_left && e.has_corner,
    }
}

/// Whether a chroma mode (0 DC, 1 horizontal, 2 vertical, 3 plane) can be used.
pub fn chroma_mode_available(mode: u8, e: &Edge) -> (r: bool)
    ensures
        r == (if mode == 0 {
            true
        } else if mode == 1 {
            e.has_left
        } else if mode == 2 {
            e.has_top
        } else {
            e.has_top && e.has_left && e.has_corner
        }),
{
    match mode {
        0 => true,
        1 => e.has_left,
        2 => e.has_top,
        _ => e.has_top && e.has_left && e.has_corner,
    }
}

/// The three-tap smoothing (a + 2b + c + 2) >> 2.
pub open spec fn smooth(a: int, b: int, c: int) -> int {
    (a + 2 * b + c + 2) / 4
}

fn smooth3(a: i32, b: i32, c: i32) -> (r: i32)
    requires
        0 <= a <= 3 * max_sample(),
        0 <= b <= max_sample(),
        0 <= c <= max_sample(),
    ensures
        r == smooth(a as int, b as int, c as int),
        0 <= r,
{
    let s = a + 2 * b + c + 2;
    proof {
        lemma_shr_floor(s, 2);
        lemma_pow2_values();
    }
    s >> 2u32
}

/// The filtered row above of 8.3.2.2.1 at `x` (the first 16 samples).
pub open spec fn filtered_top(e: Edge, x: int) -> int {
    if !e.has_top || x >= 16 {
        e.top@[x] as int
    } else if x == 0 {
        if e.has_corner {
            smooth(e.corner as int, e.top@[0] as int, e.top@[1] as int)
        } else {
            smooth(3 * e.top@[0], 0, e.top@[1] as int)
        }
    } else if x == 15 {
        smooth(e.top@[14] as int, e.top@[15] as int, e.top@[15] as int)
    } else {
        smooth(e.top@[x - 1] as int, e.top@[x] as int, e.top@[x + 1] as int)
    }
}

/// The filtered column to the left of 8.3.2.2.1 at `y` (the first 8 samples).
pub open spec fn filtered_left(e: Edge, y: int) -> int {
    if !e.has_left || y >= 8 {
        e.left@[y] as int
    } else if y == 0 {
        if e.has_corner {
            smooth(e.corner as int, e.left@[0] as int, e.left@[1] as int)
        } else {
            smooth(3 * e.left@[0], 0, e.left@[1] as int)
        }
    } else if y == 7 {
        smooth(e.left@[6] as int, e.left@[7] as int, e.left@[7] as int)
    } else {
        smooth(e.left@[y - 1] as int, e.left@[y] as int, e.left@[y + 1] as int)
    }
}

/// The filtered corner of 8.3.2.2.1.
pub open spec fn filtered_corner(e: Edge) -> int {
    if !e.has_corner {
        e.corner as int
    } else if e.has_top && e.has_left {
        smooth(e.top@[0] as int, e.corner as int, e.left@[0] as int)
    } else if e.has_top {
        smooth(3 * e.corner, 0, e.top@[0] as int)
    } else if e.has_left {
        smooth(3 * e.corner, 0, e.left@[0] as int)
    } else {
        e.corner as int
    }
}

/// 8.3.2.2.1 reference sample filtering for Intra8x8.
pub fn filter8(e: &Edge) -> (f: Edge)
    requires
        e.samples_ok(),
    ensures
        f.has_top == e.has_top && f.has_left == e.has_left && f.has_corner == e.has_corner,
        forall|x: int| 0 <= x < 32 ==> #[trigger] f.top@[x] == filtered_top(*e, x),
        forall|y: int| 0 <= y < 16 ==> #[trigger] f.left@[y] == filtered_left(*e, y),
        f.corner == filtered_corner(*e),
        f.samples_ok(),
{
    let mut f = Edge {
        top: e.top,
        left: e.left,
        corner: e.corner,
        has_top: e.has_top,
        has_left: e.has_left,
        has_corner: e.has_corner,
    };
    if e.has_top {
        f.top[0] = if e.has_corner {
            smooth3(e.corner, e.top[0], e.top[1])
        } else {
            smooth3(3 * e.top[0], 0, e.top[1])
        };
        let mut x: usize = 1;
        while x < 15
            invariant
                e.samples_ok(),
                e.has_top,
                f.left@ == e.left@,
                f.corner == e.corner,
                f.has_top == e.has_top && f.has_left == e.has_left && f.has_corner == e.has_corner,
                1 <= x <= 15,
                forall|k: int| 0 <= k < x ==> #[trigger] f.top@[k] == filtered_top(*e, k),
                forall|k: int| x <= k < 32 ==> #[trigger] f.top@[k] == e.top@[k],
            decreases 15 - x,
        {
            f.top[x] = smooth3(e.top[x - 1], e.top[x], e.top[x + 1]);
            x = x + 1;
        }
        f.top[15] = smooth3(e.top[14], e.top[15], e.top[15]);
    }
    assert(forall|k: int| 0 <= k < 32 ==> #[trigger] f.top@[k] == filtered_top(*e, k));
    if e.has_corner {
        f.corner = if e.has_top && e.has_left {
            smooth3(e.top[0], e.corner, e.left[0])
        } else if e.has_top {
            smooth3(3 * e.corner, 0, e.top[0])
        } else if e.has_left {
            smooth3(3 * e.corner, 0, e.left[0])
        } else {
            e.corner
        };
    }
    assert(f.left@ == e.left@);
    if e.has_left {
        f.left[0] = if e.has_corner {
            smooth3(e.corner, e.left[0], e.left[1])
        } else {
            smooth3(3 * e.left[0], 0, e.left[1])
        };
        let mut y: usize = 1;
        while y < 7
            invariant
                e.samples_ok(),
                e.has_left,
                forall|k: int| 0 <= k < 32 ==> #[trigger] f.top@[k] == filtered_top(*e, k),
                f.corner == filtered_corner(*e),
                f.has_top == e.has_top && f.has_left == e.has_left && f.has_corner == e.has_corner,
                1 <= y <= 7,
                forall|k: int| 0 <= k < y ==> #[trigger] f.left@[k] == filtered_left(*e, k),
                forall|k: int| y <= k < 16 ==> #[trigger] f.left@[k] == e.left@[k],
            decreases 7 - y,
        {
            f.left[y] = smooth3(e.left[y - 1], e.left[y], e.left[y + 1]);
            y = y + 1;
        }
        f.left[7] = smooth3(e.left[6], e.left[7], e.left[7]);
    }
    f
}

/// `v` limited to `lo..=hi`.
pub open spec fn clamp(v: int, lo: int, hi: int) -> int {
    if v < lo { lo } else if v > hi { hi } else { v }
}

/// `2^n` for the bit depths the predictions take.
proof fn lemma_pow2_depth(n: nat)
    requires
        n <= 16,
    ensures
        1 <= pow2(n) <= 0x1_0000,
{
    lemma_pow2_monotone(n, 16);
    reveal_with_fuel(pow2, 17);
}

/// `1 << n` for a bit depth `n`.
fn depth_pow(n: u8) -> (r: i32)
    requires
        n <= 16,
    ensures
        r == pow2(n as nat),
        1 <= r <= 0x1_0000,
{
    proof {
        lemma_pow2_depth(n as nat);
        lemma_shl_mul(1i32, n as u32);
    }
    1i32 << (n as u32)
}

/// The mid-grey value `1 << (bit_depth - 1)` that DC prediction takes with no neighbours.
pub open spec fn grey(bit_depth: int) -> int {
    pow2((bit_depth - 1) as nat) as int
}

/// The Intra16x16 DC value.
pub open spec fn dc16(e: Edge, bit_depth: int) -> int {
    let st = sum_to(16, |i: int| e.top@[i] as int);
    let sl = sum_to(16, |i: int| e.left@[i] as int);
    if e.has_top && e.has_left {
        (st + sl + 16) / 32
    } else if e.has_left {
        (sl + 8) / 16
    } else if e.has_top {
        (st + 8) / 16
    } else {
        grey(bit_depth)
    }
}

/// The horizontal gradient sum of Intra16x16 plane prediction.
pub open spec fn plane16_h(e: Edge) -> int {
    sum_to(8, |i: int| (i + 1) * (e.sample(8 + i, -1) - e.sample(6 - i, -1)))
}

/// The vertical gradient sum of Intra16x16 plane prediction.
pub open spec fn plane16_v(e: Edge) -> int {
    sum_to(8, |i: int| (i + 1) * (e.sample(-1, 8 + i) - e.sample(-1, 6 - i)))
}

/// Intra16x16 prediction of sample (x, y).
pub open spec fn pred16(mode: int, e: Edge, bit_depth: int, x: int, y: int) -> int {
    if mode == 0 {
        e.top@[x] as int
    } else if mode == 1 {
        e.left@[y] as int
    } else if mode == 2 {
        dc16(e, bit_depth)
    } else {
        let a = 16 * (e.left@[15] + e.top@[15]);
        let b = (5 * plane16_h(e) + 32) / 64;
        let c = (5 * plane16_v(e) + 32) / 64;
        clamp((a + b * (x - 7) + c * (y - 7) + 16) / 32, 0, pow2(bit_depth as nat) - 1)
    }
}

/// The sum of the first `n` samples of `s`, each within 0..=`max_sample()`.
fn sum_samples(s: &[i32], n: usize) -> (r: i32)
    requires
        n <= s@.len(),
        n <= 32,
        forall|i: int| 0 <= i < n ==> 0 <= #[trigger] s@[i] <= max_sample(),
    ensures
        r == sum_to(n as int, |i: int| s@[i] as int),
        0 <= r <= n * max_sample(),
{
    let mut acc: i32 = 0;
    let mut i: usize = 0;
    while i < n
        invariant
            n <= s@.len(),
            n <= 32,
            forall|i: int| 0 <= i < n ==> 0 <= #[trigger] s@[i] <= max_sample(),
            i <= n,
            acc == sum_to(i as int, |i: int| s@[i] as int),
            0 <= acc <= i * max_sample(),
        decreases n - i,
    {
        acc = acc + s[i];
        i = i + 1;
    }
    acc
}

/// Intra16x16 prediction (0 vertical, 1 horizontal, 2 DC, 3 plane), raster order.
pub fn predict16(mode: u8, e: &Edge, bit_depth: u8, out: &mut [i32; 256])
    requires
        1 <= bit_depth <= 16,
        e.samples_ok(),
    ensures
        forall|k: int| 0 <= k < 256 ==> #[trigger] final(out)@[k] == pred16(
            mode as int,
            *e,
            bit_depth as int,
            k % 16,
            k / 16,
        ),
{
    let max = depth_pow(bit_depth) - 1;
    let top = e.top.as_slice();
    let left = e.left.as_slice();
    assert(top@ == e.top@ && left@ == e.left@);
    let st = sum_samples(top, 16);
    let sl = sum_samples(left, 16);
    let dc: i32 = if e.has_top && e.has_left {
        let t = st + sl + 16;
        proof { lemma_shr_floor(t, 5); lemma_pow2_values(); }
        t >> 5u32
    } else if e.has_left {
        let t = sl + 8;
        proof { lemma_shr_floor(t, 4); lemma_pow2_values(); }
        t >> 4u32
    } else if e.has_top {
        let t = st + 8;
        proof { lemma_shr_floor(t, 4); lemma_pow2_values(); }
        t >> 4u32
    } else {
        depth_pow(bit_depth - 1)
    };
    let mut h: i32 = 0;
    let mut v: i32 = 0;
    let mut i: i32 = 0;
    while i < 8
        invariant
            e.samples_ok(),
            0 <= i <= 8,
            h == sum_to(i as int, |i: int| (i + 1) * (e.sample(8 + i, -1) - e.sample(6 - i, -1))),
            v == sum_to(i as int, |i: int| (i + 1) * (e.sample(-1, 8 + i) - e.sample(-1, 6 - i))),
            -0x8_0000 * i <= h <= 0x8_0000 * i,
            -0x8_0000 * i <= v <= 0x8_0000 * i,
        decreases 8 - i,
    {
        let dh = e.p(8 + i, -1) - e.p(6 - i, -1);
        let dv = e.p(-1, 8 + i) - e.p(-1, 6 - i);
        proof {
            assert(-0x8_0000 <= (i + 1) * dh <= 0x8_0000) by (nonlinear_arith)
                requires -0xffff <= dh <= 0xffff, 0 <= i < 8;
            assert(-0x8_0000 <= (i + 1) * dv <= 0x8_0000) by (nonlinear_arith)
                requires -0xffff <= dv <= 0xffff, 0 <= i < 8;
        }
        h = h + (i + 1) * dh;
        v = v + (i + 1) * dv;
        i = i + 1;
    }
    let a = 16 * (e.left[15] + e.top[15]);
    let hb = 5 * h + 32;
    let vc = 5 * v + 32;
    proof {
        lemma_shr_floor(hb, 6);
        lemma_shr_floor(vc, 6);
        lemma_pow2_values();
    }
    let b = hb >> 6u32;
    let c = vc >> 6u32;
    let mut k: usize = 0;
    while k < 256
        invariant
            1 <= bit_depth <= 16,
            e.samples_ok(),
            max == pow2(bit_depth as nat) - 1,
            mode == 2 ==> dc == dc16(*e, bit_depth as int),
            a == 16 * (e.left@[15] + e.top@[15]),
            b == (5 * plane16_h(*e) + 32) / 64,
            c == (5 * plane16_v(*e) + 32) / 64,
            -0x20_0000 <= b <= 0x20_0000,
            -0x20_0000 <= c <= 0x20_0000,
            0 <= a <= 32 * max_sample(),
            k <= 256,
            forall|q: int| 0 <= q < k ==> #[trigger] out@[q] == pred16(mode as int, *e, bit_depth as int, q % 16, q / 16),
        decreases 256 - k,
    {
        let x = (k % 16) as i32;
        let y = (k / 16) as i32;
        let value = if mode == 0 {
            e.top[k % 16]
        } else if mode == 1 {
            e.left[k / 16]
        } else if mode == 2 {
            dc
        } else {
            proof {
                assert(-0x100_0000 <= b * (x - 7) <= 0x100_0000) by (nonlinear_arith)
                    requires -0x20_0000 <= b <= 0x20_0000, 0 <= x < 16;
                assert(-0x100_0000 <= c * (y - 7) <= 0x100_0000) by (nonlinear_arith)
                    requires -0x20_0000 <= c <= 0x20_0000, 0 <= y < 16;
            }
            let t = a + b * (x - 7) + c * (y - 7) + 16;
            proof { lemma_shr_floor(t, 5); lemma_pow2_values(); }
            let p = t >> 5u32;
            if p < 0 { 0 } else if p > max { max } else { p }
        };
        out[k] = value;
        k = k + 1;
    }
}

/// The two-tap average (a + b + 1) >> 1.
pub open spec fn avg(a: int, b: int) -> int {
    (a + b + 1) / 2
}

fn avg2(a: i32, b: i32) -> (r: i32)
    requires
        0 <= a <= max_sample(),
        0 <= b <= max_sample(),
    ensures
        r == avg(a as int, b as int),
{
    let s = a + b + 1;
    proof {
        lemma_shr_floor(s, 1);
        lemma_pow2_values();
    }
    s >> 1u32
}

/// The DC value of the 4x4 chroma block at (xo, yo): blocks on the diagonal
/// of the 2x2 grid use both neighbours, the others the nearer one first.
pub open spec fn chroma_dc_block(e: Edge, bit_depth: int, xo: int, yo: int) -> int {
    let st = sum_to(4, |i: int| e.top@[xo + i] as int);
    let sl = sum_to(4, |i: int| e.left@[yo + i] as int);
    let both = (st + sl + 4) / 8;
    let top = (st + 2) / 4;
    let left = (sl + 2) / 4;
    let none = grey(bit_depth);
    let (t, l) = (e.has_top, e.has_left);
    if (xo == 0 && yo == 0) || (xo > 0 && yo > 0) {
        if t && l { both } else if l { left } else if t { top } else { none }
    } else if xo > 0 {
        if t { top } else if l { left } else { none }
    } else {
        if l { left } else if t { top } else { none }
    }
}

/// The plane gradient of chroma prediction along the row above (`w` wide).
pub open spec fn chroma_plane_h(e: Edge, w: int) -> int {
    let xcf = if w == 16 { 4int } else { 0int };
    sum_to(4 + xcf, |i: int| (i + 1) * (e.sample(4 + xcf + i, -1) - e.sample(2 + xcf - i, -1)))
}

/// The plane gradient of chroma prediction along the left column (`h` high).
pub open spec fn chroma_plane_v(e: Edge, h: int) -> int {
    let ycf = if h == 16 { 4int } else { 0int };
    sum_to(4 + ycf, |i: int| (i + 1) * (e.sample(-1, 4 + ycf + i) - e.sample(-1, 2 + ycf - i)))
}

/// Chroma prediction (0 DC, 1 horizontal, 2 vertical, 3 plane) of sample (x, y)
/// of a `w` x `h` block.
pub open spec fn pred_chroma(mode: int, w: int, h: int, e: Edge, bit_depth: int, x: int, y: int) -> int {
    if mode == 0 {
        chroma_dc_block(e, bit_depth, (x / 4) * 4, (y / 4) * 4)
    } else if mode == 1 {
        e.left@[y] as int
    } else if mode == 2 {
        e.top@[x] as int
    } else {
        let xcf = if w == 16 { 4int } else { 0int };
        let ycf = if h == 16 { 4int } else { 0int };
        let a = 16 * (e.left@[h - 1] + e.top@[w - 1]);
        let b = ((34 - 29 * (if w == 16 { 1int } else { 0int })) * chroma_plane_h(e, w) + 32) / 64;
        let c = ((34 - 29 * (if h == 16 { 1int } else { 0int })) * chroma_plane_v(e, h) + 32) / 64;
        clamp((a + b * (x - 3 - xcf) + c * (y - 3 - ycf) + 16) / 32, 0, pow2(bit_depth as nat) - 1)
    }
}

/// The sum of four samples of `s` from `start`.
fn sum4(s: &[i32], start: usize) -> (r: i32)
    requires
        start <= 32,
        start + 4 <= s@.len(),
        forall|i: int| 0 <= i < s@.len() ==> 0 <= #[trigger] s@[i] <= max_sample(),
    ensures
        r == sum_to(4, |i: int| s@[start + i] as int),
        0 <= r <= 4 * max_sample(),
{
    let mut acc: i32 = 0;
    let mut i: usize = 0;
    while i < 4
        invariant
            start <= 32,
            start + 4 <= s@.len(),
            forall|i: int| 0 <= i < s@.len() ==> 0 <= #[trigger] s@[i] <= max_sample(),
            i <= 4,
            acc == sum_to(i as int, |i: int| s@[start + i] as int),
            0 <= acc <= i * max_sample(),
        decreases 4 - i,
    {
        acc = acc + s[start + i];
        i = i + 1;
    }
    acc
}

/// Chroma prediction for a `w` x `h` block (8x8 for 4:2:0, 8x16 for 4:2:2);
/// raster order.
pub fn predict_chroma(mode: u8, w: usize, h: usize, e: &Edge, bit_depth: u8, out: &mut [i32])
    requires
        w == 8 || w == 16,
        h == 8 || h == 16,
        w * h <= old(out)@.len(),
        1 <= bit_depth <= 16,
        e.samples_ok(),
    ensures
        final(out)@.len() == old(out)@.len(),
        forall|k: int| 0 <= k < w * h ==> #[trigger] final(out)@[k] == pred_chroma(
            mode as int,
            w as int,
            h as int,
            *e,
            bit_depth as int,
            k % (w as int),
            k / (w as int),
        ),
        forall|k: int| w * h <= k < old(out)@.len() ==> #[trigger] final(out)@[k] == old(out)@[k],
{
    let max = depth_pow(bit_depth) - 1;
    let none = depth_pow(bit_depth - 1);
    let top = e.top.as_slice();
    let left = e.left.as_slice();
    assert(top@ == e.top@ && left@ == e.left@);
    let xcf: i32 = if w == 16 { 4 } else { 0 };
    let ycf: i32 = if h == 16 { 4 } else { 0 };
    let mut hs: i32 = 0;
    let mut i: i32 = 0;
    while i < 4 + xcf
        invariant
            e.samples_ok(),
            w == 8 || w == 16,
            xcf == (if w == 16 { 4int } else { 0int }),
            0 <= i <= 4 + xcf,
            hs == sum_to(i as int, |i: int| (i + 1) * (e.sample(4 + xcf + i, -1) - e.sample(2 + xcf - i, -1))),
            -0x8_0000 * i <= hs <= 0x8_0000 * i,
        decreases 4 + xcf - i,
    {
        let d = e.p(4 + xcf + i, -1) - e.p(2 + xcf - i, -1);
        proof {
            assert(-0x8_0000 <= (i + 1) * d <= 0x8_0000) by (nonlinear_arith)
                requires -0xffff <= d <= 0xffff, 0 <= i < 8;
        }
        hs = hs + (i + 1) * d;
        i = i + 1;
    }
    let mut vs: i32 = 0;
    let mut i: i32 = 0;
    while i < 4 + ycf
        invariant
            e.samples_ok(),
            h == 8 || h == 16,
            ycf == (if h == 16 { 4int } else { 0int }),
            0 <= i <= 4 + ycf,
            vs == sum_to(i as int, |i: int| (i + 1) * (e.sample(-1, 4 + ycf + i) - e.sample(-1, 2 + ycf - i))),
            -0x8_0000 * i <= vs <= 0x8_0000 * i,
        decreases 4 + ycf - i,
    {
        let d = e.p(-1, 4 + ycf + i) - e.p(-1, 2 + ycf - i);
        proof {
            assert(-0x8_0000 <= (i + 1) * d <= 0x8_0000) by (nonlinear_arith)
                requires -0xffff <= d <= 0xffff, 0 <= i < 8;
        }
        vs = vs + (i + 1) * d;
        i = i + 1;
    }
    let a = 16 * (e.left[h - 1] + e.top[w - 1]);
    let fw: i32 = 34 - 29 * (if w == 16 { 1i32 } else { 0i32 });
    let fh: i32 = 34 - 29 * (if h == 16 { 1i32 } else { 0i32 });
    proof {
        assert(-0x1000_0000 <= fw * hs <= 0x1000_0000) by (nonlinear_arith)
            requires 0 <= fw <= 34, -0x8_0000 * 8 <= hs <= 0x8_0000 * 8;
        assert(-0x1000_0000 <= fh * vs <= 0x1000_0000) by (nonlinear_arith)
            requires 0 <= fh <= 34, -0x8_0000 * 8 <= vs <= 0x8_0000 * 8;
    }
    let hb = fw * hs + 32;
    let vc = fh * vs + 32;
    proof {
        lemma_shr_floor(hb, 6);
        lemma_shr_floor(vc, 6);
        lemma_pow2_values();
    }
    let b = hb >> 6u32;
    let c = vc >> 6u32;
    let n = w * h;
    let mut k: usize = 0;
    while k < n
        invariant
            w == 8 || w == 16,
            h == 8 || h == 16,
            n == w * h,
            n <= out@.len(),
            out@.len() == old(out)@.len(),
            1 <= bit_depth <= 16,
            e.samples_ok(),
            top@ == e.top@,
            left@ == e.left@,
            max == pow2(bit_depth as nat) - 1,
            none == grey(bit_depth as int),
            xcf == (if w == 16 { 4int } else { 0int }),
            ycf == (if h == 16 { 4int } else { 0int }),
            a == 16 * (e.left@[h - 1] + e.top@[w - 1]),
            b == ((34 - 29 * (if w == 16 { 1int } else { 0int })) * chroma_plane_h(*e, w as int) + 32) / 64,
            c == ((34 - 29 * (if h == 16 { 1int } else { 0int })) * chroma_plane_v(*e, h as int) + 32) / 64,
            -0x80_0000 <= b <= 0x80_0000,
            -0x80_0000 <= c <= 0x80_0000,
            0 <= a <= 32 * max_sample(),
            k <= n,
            forall|q: int| 0 <= q < k ==> #[trigger] out@[q] == pred_chroma(
                mode as int,
                w as int,
                h as int,
                *e,
                bit_depth as int,
                q % (w as int),
                q / (w as int),
            ),
            forall|q: int| n <= q < out@.len() ==> #[trigger] out@[q] == old(out)@[q],
        decreases n - k,
    {
        let xu = k % w;
        let yu = k / w;
        proof {
            assert(yu < h) by (nonlinear_arith) requires yu == k / w, k < w * h, w > 0;
        }
        let value = if mode == 0 {
            let xo = (xu / 4) * 4;
            let yo = (yu / 4) * 4;
            let st = sum4(top, xo);
            let sl = sum4(left, yo);
            let both = {
                let t = st + sl + 4;
                proof { lemma_shr_floor(t, 3); lemma_pow2_values(); }
                t >> 3u32
            };
            let from_top = {
                let t = st + 2;
                proof { lemma_shr_floor(t, 2); lemma_pow2_values(); }
                t >> 2u32
            };
            let from_left = {
                let t = sl + 2;
                proof { lemma_shr_floor(t, 2); lemma_pow2_values(); }
                t >> 2u32
            };
            let (t, l) = (e.has_top, e.has_left);
            if (xo == 0 && yo == 0) || (xo > 0 && yo > 0) {
                if t && l { both } else if l { from_left } else if t { from_top } else { none }
            } else if xo > 0 {
                if t { from_top } else if l { from_left } else { none }
            } else {
                if l { from_left } else if t { from_top } else { none }
            }
        } else if mode == 1 {
            e.left[yu]
        } else if mode == 2 {
            e.top[xu]
        } else {
            let x = xu as i32;
            let y = yu as i32;
            proof {
                assert(-0x800_0000 <= b * (x - 3 - xcf) <= 0x800_0000) by (nonlinear_arith)
                    requires -0x80_0000 <= b <= 0x80_0000, 0 <= x < 16, 0 <= xcf <= 4;
                assert(-0x800_0000 <= c * (y - 3 - ycf) <= 0x800_0000) by (nonlinear_arith)
                    requires -0x80_0000 <= c <= 0x80_0000, 0 <= y < 16, 0 <= ycf <= 4;
            }
            let t = a + b * (x - 3 - xcf) + c * (y - 3 - ycf) + 16;
            proof { lemma_shr_floor(t, 5); lemma_pow2_values(); }
            let p = t >> 5u32;
            if p < 0 { 0 } else if p > max { max } else { p }
        };
        out[k] = value;
        k = k + 1;
    }
}

/// The DC value of an Intra4x4 (n = 4) or Intra8x8 (n = 8) block.
pub open spec fn nxn_dc(n: int, e: Edge, bit_depth: int) -> int {
    let st = sum_to(n, |i: int| e.top@[i] as int);
    let sl = sum_to(n, |i: int| e.left@[i] as int);
    let unit = if n == 4 { 4int } else { 8int };
    if e.has_top && e.has_left {
        (st + sl + n) / (2 * unit)
    } else if e.has_left {
        (sl + n / 2) / unit
    } else if e.has_top {
        (st + n / 2) / unit
    } else {
        grey(bit_depth)
    }
}

/// Intra4x4 (n = 4) or Intra8x8 (n = 8) prediction of sample (x, y) in
/// `mode`: 0 vertical, 1 horizontal, 2 DC, 3 diagonal down left, 4 diagonal
/// down right, 5 vertical right, 6 horizontal down, 7 vertical left,
/// 8 horizontal up (8.3.1.2, 8.3.2.2).
pub open spec fn pred_nxn(mode: int, n: int, e: Edge, bit_depth: int, x: int, y: int) -> int {
    let last = 2 * n - 1;
    if mode == 0 {
        e.sample(x, -1)
    } else if mode == 1 {
        e.sample(-1, y)
    } else if mode == 2 {
        nxn_dc(n, e, bit_depth)
    } else if mode == 3 {
        if x == n - 1 && y == n - 1 {
            smooth(e.sample(last - 1, -1), e.sample(last, -1), e.sample(last, -1))
        } else {
            smooth(e.sample(x + y, -1), e.sample(x + y + 1, -1), e.sample(x + y + 2, -1))
        }
    } else if mode == 4 {
        if x > y {
            smooth(e.sample(x - y - 2, -1), e.sample(x - y - 1, -1), e.sample(x - y, -1))
        } else if x < y {
            smooth(e.sample(-1, y - x - 2), e.sample(-1, y - x - 1), e.sample(-1, y - x))
        } else {
            smooth(e.sample(0, -1), e.sample(-1, -1), e.sample(-1, 0))
        }
    } else if mode == 5 {
        let z = 2 * x - y;
        if z >= 0 && z % 2 == 0 {
            avg(e.sample(x - y / 2 - 1, -1), e.sample(x - y / 2, -1))
        } else if z >= 0 {
            smooth(e.sample(x - y / 2 - 2, -1), e.sample(x - y / 2 - 1, -1), e.sample(x - y / 2, -1))
        } else if z == -1 {
            smooth(e.sample(-1, 0), e.sample(-1, -1), e.sample(0, -1))
        } else {
            smooth(e.sample(-1, y - 2 * x - 1), e.sample(-1, y - 2 * x - 2), e.sample(-1, y - 2 * x - 3))
        }
    } else if mode == 6 {
        let z = 2 * y - x;
        if z >= 0 && z % 2 == 0 {
            avg(e.sample(-1, y - x / 2 - 1), e.sample(-1, y - x / 2))
        } else if z >= 0 {
            smooth(e.sample(-1, y - x / 2 - 2), e.sample(-1, y - x / 2 - 1), e.sample(-1, y - x / 2))
        } else if z == -1 {
            smooth(e.sample(-1, 0), e.sample(-1, -1), e.sample(0, -1))
        } else {
            smooth(e.sample(x - 2 * y - 1, -1), e.sample(x - 2 * y - 2, -1), e.sample(x - 2 * y - 3, -1))
        }
    } else if mode == 7 {
        let b = x + y / 2;
        if y % 2 == 0 {
            avg(e.sample(b, -1), e.sample(b + 1, -1))
        } else {
            smooth(e.sample(b, -1), e.sample(b + 1, -1), e.sample(b + 2, -1))
        }
    } else {
        let z = x + 2 * y;
        let b = y + x / 2;
        let limit = 2 * n - 3;
        if z < limit && z % 2 == 0 {
            avg(e.sample(-1, b), e.sample(-1, b + 1))
        } else if z < limit {
            smooth(e.sample(-1, b), e.sample(-1, b + 1), e.sample(-1, b + 2))
        } else if z == limit {
            smooth(e.sample(-1, n - 2), e.sample(-1, n - 1), e.sample(-1, n - 1))
        } else {
            e.sample(-1, n - 1)
        }
    }
}

/// Vertical-left prediction (mode 7, 8.3.1.2.8): a sample in an even row y
/// is the rounded mean of the top samples x + y/2 and x + y/2 + 1, one in an
/// odd row the (1, 2, 1) filter of the top samples from x + (y-1)/2 on; each
/// row below the next but one repeats that row shifted left by one sample.
pub proof fn lemma_vertical_left(n: int, e: Edge, bit_depth: int, x: int, y: int)
    requires
        n == 4 || n == 8,
        0 <= x < n,
        0 <= y < n,
    ensures
        y % 2 == 0 ==> pred_nxn(7, n, e, bit_depth, x, y) == (e.top@[x + y / 2] as int
            + e.top@[x + y / 2 + 1] as int + 1) / 2,
        y % 2 == 1 ==> pred_nxn(7, n, e, bit_depth, x, y) == (e.top@[x + (y - 1) / 2] as int
            + 2 * (e.top@[x + (y - 1) / 2 + 1] as int) + e.top@[x + (y - 1) / 2 + 2] as int
            + 2) / 4,
        pred_nxn(7, n, e, bit_depth, x, 0) == (e.top@[x] as int + e.top@[x + 1] as int + 1)
            / 2,
        y + 2 < n && x + 1 < n ==> pred_nxn(7, n, e, bit_depth, x, y + 2) == pred_nxn(
            7,
            n,
            e,
            bit_depth,
            x + 1,
            y,
        ),
{
    assert((y + 2) / 2 == y / 2 + 1 && (y + 2) % 2 == y % 2);
    assert(y % 2 == 1 ==> y / 2 == (y - 1) / 2);
}

/// The directional Intra4x4/Intra8x8 predictions that read one side only,
/// written out on the neighbouring samples t = p[., -1] and l = p[-1, .]:
/// vertical copies t[x], horizontal copies l[y], diagonal-down-left filters
/// t from x + y on (the last sample weighs t[2n-1] three times), and
/// horizontal-up filters or averages l along x + 2y, then repeats l[n-1].
pub proof fn lemma_one_sided_modes(n: int, e: Edge, bit_depth: int, x: int, y: int)
    requires
        n == 4 || n == 8,
        0 <= x < n,
        0 <= y < n,
    ensures
        pred_nxn(0, n, e, bit_depth, x, y) == e.top@[x] as int,
        pred_nxn(1, n, e, bit_depth, x, y) == e.left@[y] as int,
        !(x == n - 1 && y == n - 1) ==> pred_nxn(3, n, e, bit_depth, x, y) == (e.top@[x
            + y] as int + 2 * (e.top@[x + y + 1] as int) + e.top@[x + y + 2] as int + 2) / 4,
        pred_nxn(3, n, e, bit_depth, n - 1, n - 1) == (e.top@[2 * n - 2] as int + 3 * (
        e.top@[2 * n - 1] as int) + 2) / 4,
        x + 2 * y < 2 * n - 3 && x % 2 == 0 ==> pred_nxn(8, n, e, bit_depth, x, y) == (
        e.left@[y + x / 2] as int + e.left@[y + x / 2 + 1] as int + 1) / 2,
        x + 2 * y < 2 * n - 3 && x % 2 == 1 ==> pred_nxn(8, n, e, bit_depth, x, y) == (
        e.left@[y + x / 2] as int + 2 * (e.left@[y + x / 2 + 1] as int) + e.left@[y + x / 2
            + 2] as int + 2) / 4,
        x + 2 * y == 2 * n - 3 ==> pred_nxn(8, n, e, bit_depth, x, y) == (e.left@[n - 2] as int
            + 3 * (e.left@[n - 1] as int) + 2) / 4,
        x + 2 * y > 2 * n - 3 ==> pred_nxn(8, n, e, bit_depth, x, y) == e.left@[n - 1] as int,
{
    assert((x + 2 * y) % 2 == x % 2);
}

fn nxn_diagonal_down_left(n: i32, e: &Edge, x: i32, y: i32) -> (r: i32)
    requires
        n == 4 || n == 8,
        0 <= x < n,
        0 <= y < n,
        e.samples_ok(),
    ensures
        r == pred_nxn(3, n as int, *e, 0, x as int, y as int),
{
    let last = 2 * n - 1;
    if x == n - 1 && y == n - 1 {
        smooth3(e.p(last - 1, -1), e.p(last, -1), e.p(last, -1))
    } else {
        smooth3(e.p(x + y, -1), e.p(x + y + 1, -1), e.p(x + y + 2, -1))
    }
}

fn nxn_diagonal_down_right(n: i32, e: &Edge, x: i32, y: i32) -> (r: i32)
    requires
        n == 4 || n == 8,
        0 <= x < n,
        0 <= y < n,
        e.samples_ok(),
    ensures
        r == pred_nxn(4, n as int, *e, 0, x as int, y as int),
{
    if x > y {
        smooth3(e.p(x - y - 2, -1), e.p(x - y - 1, -1), e.p(x - y, -1))
    } else if x < y {
        smooth3(e.p(-1, y - x - 2), e.p(-1, y - x - 1), e.p(-1, y - x))
    } else {
        smooth3(e.p(0, -1), e.p(-1, -1), e.p(-1, 0))
    }
}

fn nxn_vertical_right(n: i32, e: &Edge, x: i32, y: i32) -> (r: i32)
    requires
        n == 4 || n == 8,
        0 <= x < n,
        0 <= y < n,
        e.samples_ok(),
    ensures
        r == pred_nxn(5, n as int, *e, 0, x as int, y as int),
{
    let z = 2 * x - y;
    let hy = y / 2;
    if z >= 0 && z % 2 == 0 {
        avg2(e.p(x - hy - 1, -1), e.p(x - hy, -1))
    } else if z >= 0 {
        smooth3(e.p(x - hy - 2, -1), e.p(x - hy - 1, -1), e.p(x - hy, -1))
    } else if z == -1 {
        smooth3(e.p(-1, 0), e.p(-1, -1), e.p(0, -1))
    } else {
        smooth3(e.p(-1, y - 2 * x - 1), e.p(-1, y - 2 * x - 2), e.p(-1, y - 2 * x - 3))
    }
}

fn nxn_horizontal_down(n: i32, e: &Edge, x: i32, y: i32) -> (r: i32)
    requires
        n == 4 || n == 8,
        0 <= x < n,
        0 <= y < n,
        e.samples_ok(),
    ensures
        r == pred_nxn(6, n as int, *e, 0, x as int, y as int),
{
    let z = 2 * y - x;
    let hx = x / 2;
    if z >= 0 && z % 2 == 0 {
        avg2(e.p(-1, y - hx - 1), e.p(-1, y - hx))
    } else if z >= 0 {
        smooth3(e.p(-1, y - hx - 2), e.p(-1, y - hx - 1), e.p(-1, y - hx))
    } else if z == -1 {
        smooth3(e.p(-1, 0), e.p(-1, -1), e.p(0, -1))
    } else {
        smooth3(e.p(x - 2 * y - 1, -1), e.p(x - 2 * y - 2, -1), e.p(x - 2 * y - 3, -1))
    }
}

fn nxn_vertical_left(n: i32, e: &Edge, x: i32, y: i32) -> (r: i32)
    requires
        n == 4 || n == 8,
        0 <= x < n,
        0 <= y < n,
        e.samples_ok(),
    ensures
        r == pred_nxn(7, n as int, *e, 0, x as int, y as int),
{
    let b = x + y / 2;
    if y % 2 == 0 {
        avg2(e.p(b, -1), e.p(b + 1, -1))
    } else {
        smooth3(e.p(b, -1), e.p(b + 1, -1), e.p(b + 2, -1))
    }
}

fn nxn_horizontal_up(mode: u8, n: i32, e: &Edge, x: i32, y: i32) -> (r: i32)
    requires
        mode > 7,
        n == 4 || n == 8,
        0 <= x < n,
        0 <= y < n,
        e.samples_ok(),
    ensures
        r == pred_nxn(mode as int, n as int, *e, 0, x as int, y as int),
{
    let z = x + 2 * y;
    let b = y + x / 2;
    let limit = 2 * n - 3;
    if z < limit && z % 2 == 0 {
        avg2(e.p(-1, b), e.p(-1, b + 1))
    } else if z < limit {
        smooth3(e.p(-1, b), e.p(-1, b + 1), e.p(-1, b + 2))
    } else if z == limit {
        smooth3(e.p(-1, n - 2), e.p(-1, n - 1), e.p(-1, n - 1))
    } else {
        e.p(-1, n - 1)
    }
}

/// One sample of Intra4x4/Intra8x8 prediction.
fn nxn_sample(mode: u8, n: i32, e: &Edge, dc: i32, x: i32, y: i32) -> (r: i32)
    requires
        n == 4 || n == 8,
        0 <= x < n,
        0 <= y < n,
        e.samples_ok(),
    ensures
        mode == 2 ==> r == dc,
        mode != 2 ==> r == pred_nxn(mode as int, n as int, *e, 0, x as int, y as int),
{
    match mode {
        0 => e.p(x, -1),
        1 => e.p(-1, y),
        2 => dc,
        3 => nxn_diagonal_down_left(n, e, x, y),
        4 => nxn_diagonal_down_right(n, e, x, y),
        5 => nxn_vertical_right(n, e, x, y),
        6 => nxn_horizontal_down(n, e, x, y),
        7 => nxn_vertical_left(n, e, x, y),
        _ => nxn_horizontal_up(mode, n, e, x, y),
    }
}

/// Intra4x4 (n = 4) or Intra8x8 (n = 8, `e` already filtered) prediction,
/// raster order.
pub fn predict_nxn(mode: u8, n: usize, e: &Edge, bit_depth: u8, out: &mut [i32])
    requires
        n == 4 || n == 8,
        n * n <= old(out)@.len(),
        1 <= bit_depth <= 16,
        e.samples_ok(),
    ensures
        final(out)@.len() == old(out)@.len(),
        forall|k: int| 0 <= k < n * n ==> #[trigger] final(out)@[k] == pred_nxn(
            mode as int,
            n as int,
            *e,
            bit_depth as int,
            k % (n as int),
            k / (n as int),
        ),
        forall|k: int| n * n <= k < old(out)@.len() ==> #[trigger] final(out)@[k] == old(out)@[k],
{
    let top = e.top.as_slice();
    let left = e.left.as_slice();
    assert(top@ == e.top@ && left@ == e.left@);
    let st = sum_samples(top, n);
    let sl = sum_samples(left, n);
    let dc: i32 = if e.has_top && e.has_left {
        let t = st + sl + n as i32;
        if n == 4 {
            proof { lemma_shr_floor(t, 3); lemma_pow2_values(); }
            t >> 3u32
        } else {
            proof { lemma_shr_floor(t, 4); lemma_pow2_values(); }
            t >> 4u32
        }
    } else if e.has_left || e.has_top {
        let t = if e.has_left { sl } else { st } + (n / 2) as i32;
        if n == 4 {
            proof { lemma_shr_floor(t, 2); lemma_pow2_values(); }
            t >> 2u32
        } else {
            proof { lemma_shr_floor(t, 3); lemma_pow2_values(); }
            t >> 3u32
        }
    } else {
        depth_pow(bit_depth - 1)
    };
    let ni = n as i32;
    let total = n * n;
    let mut k: usize = 0;
    while k < total
        invariant
            n == 4 || n == 8,
            ni == n,
            total == n * n,
            total <= out@.len(),
            out@.len() == old(out)@.len(),
            1 <= bit_depth <= 16,
            e.samples_ok(),
            dc == nxn_dc(n as int, *e, bit_depth as int),
            k <= total,
            forall|q: int| 0 <= q < k ==> #[trigger] out@[q] == pred_nxn(
                mode as int,
                n as int,
                *e,
                bit_depth as int,
                q % (n as int),
                q / (n as int),
            ),
            forall|q: int| total <= q < out@.len() ==> #[trigger] out@[q] == old(out)@[q],
        decreases total - k,
    {
        let x = (k % n) as i32;
        let y = (k / n) as i32;
        proof {
            assert(k / n < n) by (nonlinear_arith) requires k < n * n, n > 0;
        }
        out[k] = nxn_sample(mode, ni, e, dc, x, y);
        k = k + 1;
    }
}

} // verus!
