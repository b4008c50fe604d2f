//! Transforms, scaling and quantization of the AVC encoder (ITU-T H.264
//! 8.5.6-8.5.13, flat scaling lists), in 32-bit integer arithmetic. The
//! inputs are bounded where the bound keeps every intermediate value of the
//! 32-bit arithmetic exact.
use vstd::prelude::*;
use crate::bitwriter::{pow2, lemma_pow2_values};

verus! {

/// Whether `x` fits a 32-bit signed integer.
pub open spec fn fits(x: int) -> bool {
    i32::MIN <= x <= i32::MAX
}

/// `x >> s` is `x` divided by `2^s`, rounded down.
pub proof fn lemma_shr_floor(x: i32, s: u32)
    requires
        s < 32,
    ensures
        (x >> s) as int == (x as int) / (pow2(s as nat) as int),
    decreases s,
{
    if s == 0 {
        assert(x >> 0u32 == x) by (bit_vector);
        assert(x >> s == x);
        assert(pow2(0) == 1);
    } else {
        let t = (s - 1) as u32;
        lemma_shr_floor(x, t);
        let y = x >> t;
        let c = pow2(t as nat) as int;
        assert(pow2(s as nat) as int == c * 2);
        assert(y as int == (x as int) / c);
        assert(x >> s == y >> 1u32 && (y >> 1u32) as int == (y as int) / 2) by (bit_vector)
            requires
                y == x >> t,
                t == s - 1,
                0 < s < 32,
        ;
        lemma_pow2_positive(t as nat);
        let q = (x as int) / c;
        let r = (x as int) % c;
        vstd::arithmetic::div_mod::lemma_fundamental_div_mod(x as int, c);
        vstd::arithmetic::div_mod::lemma_fundamental_div_mod(q, 2);
        let q2 = q / 2;
        let r2 = q % 2;
        assert(x as int == (c * 2) * q2 + (c * r2 + r)) by (nonlinear_arith)
            requires
                x as int == c * q + r,
                q == 2 * q2 + r2,
        ;
        assert(0 <= c * r2 + r < c * 2) by (nonlinear_arith)
            requires
                0 <= r < c,
                0 <= r2 < 2,
        ;
        vstd::arithmetic::div_mod::lemma_fundamental_div_mod_converse(x as int, c * 2, q2, c * r2 + r);
        assert((x >> s) as int == (y as int) / 2);
        assert(q2 == (x as int) / (c * 2));
        assert((x >> s) as int == q2);
    }
}

/// `2^n` is positive.
pub proof fn lemma_pow2_positive(n: nat)
    ensures
        pow2(n) >= 1,
    decreases n,
{
    if n > 0 {
        lemma_pow2_positive((n - 1) as nat);
    }
}

/// `x << s` is `x` times `2^s` where the product fits.
pub proof fn lemma_shl_mul(x: i32, s: u32)
    requires
        s < 32,
        fits(x * pow2(s as nat)),
    ensures
        (x << s) as int == x * pow2(s as nat),
    decreases s,
{
    if s == 0 {
        assert(x << 0u32 == x) by (bit_vector);
        assert(x << s == x);
        assert(pow2(0) == 1);
        assert(x * 1 == x);
    } else {
        let t = (s - 1) as u32;
        let c = pow2(t as nat) as int;
        lemma_pow2_positive(t as nat);
        assert(pow2(s as nat) as int == c * 2);
        assert((x * c) * 2 == x * (c * 2)) by (nonlinear_arith);
        assert(fits(x * c)) by (nonlinear_arith)
            requires
                fits(x * (c * 2)),
                c >= 1,
        ;
        lemma_shl_mul(x, t);
        let y = x << t;
        assert(y as int == x * c);
        assert(x << s == y << 1u32 && (y << 1u32) as int == (y as int) * 2) by (bit_vector)
            requires
                y == x << t,
                t == s - 1,
                0 < s < 32,
                -0x4000_0000 <= y < 0x4000_0000,
        ;
        assert((x << s) as int == (x * c) * 2);
        assert((x << s) as int == x * (c * 2));
    }
}

/// normAdjust4x4 `v[m]` (8.5.6) by position class: both even, both odd, other.
pub open spec fn norm4(m: int, class: int) -> int {
    seq![10int, 16, 13, 11, 18, 14, 13, 20, 16, 14, 23, 18, 16, 25, 20, 18, 29, 23][m * 3 + class]
}

/// normAdjust8x8 `v[m]` (8.5.9) by position class.
pub open spec fn norm8(m: int, class: int) -> int {
    seq![
        20int, 18, 32, 19, 25, 24, 22, 19, 35, 21, 28, 26, 26, 23, 42, 24, 33, 31,
        28, 25, 45, 26, 35, 33, 32, 28, 51, 30, 40, 38, 36, 32, 58, 34, 46, 43,
    ][m * 6 + class]
}

/// The position class of entry (i, j) of a 4x4 block.
pub open spec fn class4(i: int, j: int) -> int {
    if i % 2 == 0 && j % 2 == 0 {
        0
    } else if i % 2 == 1 && j % 2 == 1 {
        1
    } else {
        2
    }
}

/// The position class of entry (i, j) of an 8x8 block.
pub open spec fn class8(i: int, j: int) -> int {
    if i % 4 == 0 && j % 4 == 0 {
        0
    } else if i % 2 == 1 && j % 2 == 1 {
        1
    } else if i % 4 == 2 && j % 4 == 2 {
        2
    } else if (i % 4 == 0 && j % 2 == 1) || (i % 2 == 1 && j % 4 == 0) {
        3
    } else if (i % 4 == 0 && j % 4 == 2) || (i % 4 == 2 && j % 4 == 0) {
        4
    } else {
        5
    }
}

/// LevelScale4x4(m, i, j) with flat weights.
pub open spec fn spec_level_scale4(m: int, i: int, j: int) -> int {
    16 * norm4(m, class4(i, j))
}

/// LevelScale8x8(m, i, j) with flat weights.
pub open spec fn spec_level_scale8(m: int, i: int, j: int) -> int {
    16 * norm8(m, class8(i, j))
}

/// LevelScale4x4(m, i, j) with flat weights (16).
pub fn level_scale4(m: usize, i: usize, j: usize) -> (r: i32)
    requires
        m < 6,
    ensures
        r == spec_level_scale4(m as int, i as int, j as int),
        160 <= r <= 464,
{
    let norm: [i32; 18] = [10, 16, 13, 11, 18, 14, 13, 20, 16, 14, 23, 18, 16, 25, 20, 18, 29, 23];
    let class: usize = if i % 2 == 0 && j % 2 == 0 {
        0
    } else if i % 2 == 1 && j % 2 == 1 {
        1
    } else {
        2
    };
    assert(norm@ == seq![10i32, 16, 13, 11, 18, 14, 13, 20, 16, 14, 23, 18, 16, 25, 20, 18, 29, 23]);
    16 * norm[m * 3 + class]
}

/// LevelScale8x8(m, i, j) with flat weights (16).
pub fn level_scale8(m: usize, i: usize, j: usize) -> (r: i32)
    requires
        m < 6,
    ensures
        r == spec_level_scale8(m as int, i as int, j as int),
        288 <= r <= 928,
{
    let norm: [i32; 36] = [
        20, 18, 32, 19, 25, 24, 22, 19, 35, 21, 28, 26, 26, 23, 42, 24, 33, 31,
        28, 25, 45, 26, 35, 33, 32, 28, 51, 30, 40, 38, 36, 32, 58, 34, 46, 43,
    ];
    let class: usize = if i % 4 == 0 && j % 4 == 0 {
        0
    } else if i % 2 == 1 && j % 2 == 1 {
        1
    } else if i % 4 == 2 && j % 4 == 2 {
        2
    } else if (i % 4 == 0 && j % 2 == 1) || (i % 2 == 1 && j % 4 == 0) {
        3
    } else if (i % 4 == 0 && j % 4 == 2) || (i % 4 == 2 && j % 4 == 0) {
        4
    } else {
        5
    };
    assert(norm@ == seq![
        20i32, 18, 32, 19, 25, 24, 22, 19, 35, 21, 28, 26, 26, 23, 42, 24, 33, 31,
        28, 25, 45, 26, 35, 33, 32, 28, 51, 30, 40, 38, 36, 32, 58, 34, 46, 43,
    ]);
    16 * norm[m * 6 + class]
}

/// A scaled coefficient: `x` times `2^(per - base)`, or divided by
/// `2^(base - per)` with rounding (half up) where `per` is below `base`.
pub open spec fn scaled(x: int, per: int, base: int) -> int {
    if per >= base {
        x * pow2((per - base) as nat)
    } else {
        (x + pow2((base - 1 - per) as nat)) / (pow2((base - per) as nat) as int)
    }
}

/// Whether scaling `x` keeps to 32 bits.
pub open spec fn scaled_fits(x: int, per: int, base: int) -> bool {
    &&& fits(x)
    &&& per >= base ==> per - base < 32 && fits(x * pow2((per - base) as nat))
    &&& per < base ==> fits(x + pow2((base - 1 - per) as nat))
}

/// Scales one product as the decoder does: a left shift, or a rounding right shift.
fn scale_value(x: i32, per: i32, base: i32) -> (r: i32)
    requires
        0 <= per,
        1 <= base <= 6,
        scaled_fits(x as int, per as int, base as int),
    ensures
        r == scaled(x as int, per as int, base as int),
{
    proof {
        lemma_pow2_values();
    }
    if per >= base {
        proof {
            lemma_shl_mul(x, (per - base) as u32);
        }
        x << ((per - base) as u32)
    } else {
        let k = (base - 1 - per) as u32;
        proof {
            lemma_shl_mul(1i32, k);
        }
        let half = 1i32 << k;
        let y = x + half;
        proof {
            lemma_shr_floor(y, (base - per) as u32);
        }
        y >> ((base - per) as u32)
    }
}

/// The scaled 4x4 coefficient at raster `k`.
pub open spec fn scale4_entry(c: Seq<i32>, qp: int, k: int) -> int {
    scaled(c[k] * spec_level_scale4(qp % 6, k / 4, k % 4), qp / 6, 4)
}

/// Whether scaling a 4x4 block keeps to 32 bits.
pub open spec fn scale4_fits(c: Seq<i32>, qp: int) -> bool {
    forall|k: int| 0 <= k < 16 ==> scaled_fits(#[trigger] c[k] * spec_level_scale4(qp % 6, k / 4, k % 4), qp / 6, 4)
}

/// 8.5.12.1 scaling of a 4x4 block (raster `c`); `dc` replaces the DC entry
/// for Intra16x16 and chroma blocks.
pub fn scale4(c: &[i32; 16], qp: i32, dc: Option<i32>) -> (r: [i32; 16])
    requires
        0 <= qp,
        scale4_fits(c@, qp as int),
    ensures
        forall|k: int| 0 <= k < 16 ==> #[trigger] r@[k] == (if k == 0 && dc is Some {
            dc->0 as int
        } else {
            scale4_entry(c@, qp as int, k)
        }),
{
    let m = (qp % 6) as usize;
    let per = qp / 6;
    let mut d = [0i32; 16];
    let mut k: usize = 0;
    while k < 16
        invariant
            0 <= qp,
            m == qp % 6,
            per == qp / 6,
            scale4_fits(c@, qp as int),
            k <= 16,
            d@.len() == 16,
            forall|t: int| 0 <= t < k ==> #[trigger] d@[t] == scale4_entry(c@, qp as int, t),
        decreases 16 - k,
    {
        let ls = level_scale4(m, k / 4, k % 4);
        assert(scaled_fits(c@[k as int] * spec_level_scale4(qp as int % 6, k as int / 4, k as int % 4), qp as int / 6, 4));
        let x = c[k] * ls;
        d[k] = scale_value(x, per, 4);
        k = k + 1;
    }
    match dc {
        Some(v) => {
            d[0] = v;
        },
        None => {},
    }
    d
}

/// The scaled 8x8 coefficient at raster `k`.
pub open spec fn scale8_entry(c: Seq<i32>, qp: int, k: int) -> int {
    scaled(c[k] * spec_level_scale8(qp % 6, k / 8, k % 8), qp / 6, 6)
}

/// Whether scaling an 8x8 block keeps to 32 bits.
pub open spec fn scale8_fits(c: Seq<i32>, qp: int) -> bool {
    forall|k: int| 0 <= k < 64 ==> scaled_fits(#[trigger] c[k] * spec_level_scale8(qp % 6, k / 8, k % 8), qp / 6, 6)
}

/// 8.5.13.1 scaling of an 8x8 block.
pub fn scale8(c: &[i32; 64], qp: i32) -> (r: [i32; 64])
    requires
        0 <= qp,
        scale8_fits(c@, qp as int),
    ensures
        forall|k: int| 0 <= k < 64 ==> #[trigger] r@[k] == scale8_entry(c@, qp as int, k),
{
    let m = (qp % 6) as usize;
    let per = qp / 6;
    let mut d = [0i32; 64];
    let mut k: usize = 0;
    while k < 64
        invariant
            0 <= qp,
            m == qp % 6,
            per == qp / 6,
            scale8_fits(c@, qp as int),
            k <= 64,
            d@.len() == 64,
            forall|t: int| 0 <= t < k ==> #[trigger] d@[t] == scale8_entry(c@, qp as int, t),
        decreases 64 - k,
    {
        let ls = level_scale8(m, k / 8, k % 8);
        assert(scaled_fits(c@[k as int] * spec_level_scale8(qp as int % 6, k as int / 8, k as int % 8), qp as int / 6, 6));
        let x = c[k] * ls;
        d[k] = scale_value(x, per, 6);
        k = k + 1;
    }
    d
}

/// `f(0) + ... + f(n - 1)`.
pub open spec fn sum_to(n: int, f: spec_fn(int) -> int) -> int
    decreases n,
{
    if n <= 0 { 0 } else { sum_to(n - 1, f) + f(n - 1) }
}

/// A sum of `n` terms each within `b` in magnitude is within `n * b`.
pub proof fn lemma_sum_bound(n: int, f: spec_fn(int) -> int, b: int)
    requires
        0 <= n,
        0 <= b,
        forall|i: int| 0 <= i < n ==> -b <= #[trigger] f(i) <= b,
    ensures
        -n * b <= sum_to(n, f) <= n * b,
    decreases n,
{
    if n > 0 {
        lemma_sum_bound(n - 1, f, b);
        assert((n - 1) * b + b == n * b && -(n - 1) * b - b == -n * b) by (nonlinear_arith);
    } else {
        assert(-n * b == 0 && n * b == 0) by (nonlinear_arith) requires n == 0;
    }
}

/// Entry (i, k) of the 4x4 Hadamard matrix (rows 1 1 1 1, 1 1 -1 -1,
/// 1 -1 -1 1, 1 -1 1 -1).
pub open spec fn had4(i: int, k: int) -> int {
    seq![1int, 1, 1, 1, 1, 1, -1, -1, 1, -1, -1, 1, 1, -1, 1, -1][i * 4 + k]
}

/// Entry (i, k) of the 2x2 Hadamard matrix (rows 1 1, 1 -1).
pub open spec fn had2(i: int, k: int) -> int {
    seq![1int, 1, 1, -1][i * 2 + k]
}

fn had4_entry(i: usize, k: usize) -> (r: i32)
    requires
        i < 4,
        k < 4,
    ensures
        r == had4(i as int, k as int),
        r == 1 || r == -1,
{
    let a: [i32; 16] = [1, 1, 1, 1, 1, 1, -1, -1, 1, -1, -1, 1, 1, -1, 1, -1];
    assert(a@ == seq![1i32, 1i32, 1i32, 1i32, 1i32, 1i32, -1i32, -1i32, 1i32, -1i32, -1i32, 1i32, 1i32, -1i32, 1i32, -1i32]);
    a[i * 4 + k]
}

/// Entry (i, j) of the Hadamard transform A * c * A of a raster 4x4 block.
pub open spec fn hadamard4_entry(c: Seq<i32>, i: int, j: int) -> int {
    sum_to(4, |l: int| sum_to(4, |k: int| had4(i, k) * c[k * 4 + l]) * had4(l, j))
}

/// Whether every entry of a 4x4 block lies within `b` in magnitude.
pub open spec fn bounded(c: Seq<i32>, n: int, b: int) -> bool {
    forall|k: int| 0 <= k < n ==> -b <= #[trigger] c[k] <= b
}

/// 4x4 Hadamard A · c · A (A symmetric, rows [1,1,1,1], [1,1,-1,-1],
/// [1,-1,-1,1], [1,-1,1,-1]); entries within 2^26 keep every sum in 32 bits.
pub fn hadamard4(c: &[i32; 16]) -> (r: [i32; 16])
    requires
        bounded(c@, 16, 0x400_0000),
    ensures
        forall|k: int| 0 <= k < 16 ==> #[trigger] r@[k] == hadamard4_entry(c@, k / 4, k % 4),
        bounded(r@, 16, 0x4000_0000),
        bounded(c@, 16, 0x40_0000) ==> bounded(r@, 16, 0x400_0000),
{
    let mut t = [0i32; 16];
    let mut i: usize = 0;
    while i < 4
        invariant
            bounded(c@, 16, 0x400_0000),
            i <= 4,
            t@.len() == 16,
            forall|q: int| 0 <= q < i * 4 ==> #[trigger] t@[q] == sum_to(4, |k: int| had4(q / 4, k) * c@[k * 4 + q % 4]),
            bounded(t@, i * 4, 0x1000_0000),
        decreases 4 - i,
    {
        let mut j: usize = 0;
        while j < 4
            invariant
                bounded(c@, 16, 0x400_0000),
                i < 4,
                j <= 4,
                t@.len() == 16,
                forall|q: int| 0 <= q < i * 4 + j ==> #[trigger] t@[q] == sum_to(4, |k: int| had4(q / 4, k) * c@[k * 4 + q % 4]),
                bounded(t@, i * 4 + j, 0x1000_0000),
            decreases 4 - j,
        {
            let ghost f = |k: int| had4(i as int, k) * c@[k * 4 + j];
            let mut acc: i32 = 0;
            let mut k: usize = 0;
            while k < 4
                invariant
                    bounded(c@, 16, 0x400_0000),
                    i < 4,
                    j < 4,
                    k <= 4,
                    f == (|k: int| had4(i as int, k) * c@[k * 4 + j]),
                    acc == sum_to(k as int, f),
                    -0x400_0000 * k <= acc <= 0x400_0000 * k,
                decreases 4 - k,
            {
                let a = had4_entry(i, k);
                let v = c[k * 4 + j];
                assert(a * v == v || a * v == -v) by (nonlinear_arith) requires a == 1 || a == -1;
                acc = acc + a * v;
                k = k + 1;
            }
            assert((i * 4 + j) as int / 4 == i && (i * 4 + j) as int % 4 == j);
            t[i * 4 + j] = acc;
            j = j + 1;
        }
        i = i + 1;
    }
    let mut f = [0i32; 16];
    let mut i: usize = 0;
    while i < 4
        invariant
            bounded(t@, 16, 0x1000_0000),
            forall|q: int| 0 <= q < 16 ==> #[trigger] t@[q] == sum_to(4, |k: int| had4(q / 4, k) * c@[k * 4 + q % 4]),
            i <= 4,
            f@.len() == 16,
            forall|q: int| 0 <= q < i * 4 ==> #[trigger] f@[q] == hadamard4_entry(c@, q / 4, q % 4),
            bounded(f@, i * 4, 0x4000_0000),
        decreases 4 - i,
    {
        let mut j: usize = 0;
        while j < 4
            invariant
                bounded(t@, 16, 0x1000_0000),
                forall|q: int| 0 <= q < 16 ==> #[trigger] t@[q] == sum_to(4, |k: int| had4(q / 4, k) * c@[k * 4 + q % 4]),
                i < 4,
                j <= 4,
                f@.len() == 16,
                forall|q: int| 0 <= q < i * 4 + j ==> #[trigger] f@[q] == hadamard4_entry(c@, q / 4, q % 4),
                bounded(f@, i * 4 + j, 0x4000_0000),
            decreases 4 - j,
        {
            let ghost g = |l: int| sum_to(4, |k: int| had4(i as int, k) * c@[k * 4 + l]) * had4(l, j as int);
            let mut acc: i32 = 0;
            let mut k: usize = 0;
            while k < 4
                invariant
                    bounded(t@, 16, 0x1000_0000),
                    forall|q: int| 0 <= q < 16 ==> #[trigger] t@[q] == sum_to(4, |k: int| had4(q / 4, k) * c@[k * 4 + q % 4]),
                    i < 4,
                    j < 4,
                    k <= 4,
                    g == (|l: int| sum_to(4, |k: int| had4(i as int, k) * c@[k * 4 + l]) * had4(l, j as int)),
                    acc == sum_to(k as int, g),
                    -0x1000_0000 * k <= acc <= 0x1000_0000 * k,
                decreases 4 - k,
            {
                let a = had4_entry(k, j);
                assert((i * 4 + k) as int / 4 == i && (i * 4 + k) as int % 4 == k);
                let v = t[i * 4 + k];
                assert(v * a == v || v * a == -v) by (nonlinear_arith) requires a == 1 || a == -1;
                acc = acc + v * a;
                k = k + 1;
            }
            assert((i * 4 + j) as int / 4 == i && (i * 4 + j) as int % 4 == j);
            f[i * 4 + j] = acc;
            j = j + 1;
        }
        i = i + 1;
    }
    proof {
        if bounded(c@, 16, 0x40_0000) {
            lemma_hadamard4_result_bound(c@, f@);
        }
    }
    f
}

/// 8.5.10: Intra16x16 luma DC (raster 4x4 of levels) to dcY: the Hadamard
/// transform, scaled by the DC level scale.
pub fn luma_dc(c: &[i32; 16], qp: i32) -> (r: [i32; 16])
    requires
        0 <= qp,
        bounded(c@, 16, 0x400_0000),
        forall|k: int| 0 <= k < 16 ==> scaled_fits(
            #[trigger] hadamard4_entry(c@, k / 4, k % 4) * spec_level_scale4(qp as int % 6, 0, 0),
            qp as int / 6,
            6,
        ),
    ensures
        forall|k: int| 0 <= k < 16 ==> #[trigger] r@[k] == scaled(
            hadamard4_entry(c@, k / 4, k % 4) * spec_level_scale4(qp as int % 6, 0, 0),
            qp as int / 6,
            6,
        ),
{
    let f = hadamard4(c);
    let m = (qp % 6) as usize;
    let per = qp / 6;
    let scale = level_scale4(m, 0, 0);
    let mut r = [0i32; 16];
    let mut k: usize = 0;
    while k < 16
        invariant
            0 <= qp,
            m == qp % 6,
            per == qp / 6,
            scale == spec_level_scale4(qp as int % 6, 0, 0),
            forall|q: int| 0 <= q < 16 ==> #[trigger] f@[q] == hadamard4_entry(c@, q / 4, q % 4),
            forall|q: int| 0 <= q < 16 ==> scaled_fits(
                #[trigger] hadamard4_entry(c@, q / 4, q % 4) * spec_level_scale4(qp as int % 6, 0, 0),
                qp as int / 6,
                6,
            ),
            k <= 16,
            r@.len() == 16,
            forall|q: int| 0 <= q < k ==> #[trigger] r@[q] == scaled(
                hadamard4_entry(c@, q / 4, q % 4) * spec_level_scale4(qp as int % 6, 0, 0),
                qp as int / 6,
                6,
            ),
        decreases 16 - k,
    {
        assert(scaled_fits(hadamard4_entry(c@, k as int / 4, k as int % 4) * spec_level_scale4(qp as int % 6, 0, 0), qp as int / 6, 6));
        let x = f[k] * scale;
        r[k] = scale_value(x, per, 6);
        k = k + 1;
    }
    r
}

/// One pass of the forward 4x4 core transform over (a, b, c, d).
pub open spec fn fwd4_pass(a: int, b: int, c: int, d: int) -> (int, int, int, int) {
    let (s03, d03, s12, d12) = (a + d, a - d, b + c, b - c);
    (s03 + s12, 2 * d03 + d12, s03 - s12, d03 - 2 * d12)
}

/// Component `i` of a 4-tuple.
pub open spec fn pick4(t: (int, int, int, int), i: int) -> int {
    if i == 0 { t.0 } else if i == 1 { t.1 } else if i == 2 { t.2 } else { t.3 }
}

/// The row pass of the forward 4x4 transform at raster `k`.
pub open spec fn fwd4_row(x: Seq<i32>, k: int) -> int {
    let i = k / 4;
    pick4(fwd4_pass(x[i * 4] as int, x[i * 4 + 1] as int, x[i * 4 + 2] as int, x[i * 4 + 3] as int), k % 4)
}

/// Entry (i, j) of the forward 4x4 core transform Cf · X · Cfᵀ.
#[verifier::opaque]
pub open spec fn forward4_entry(x: Seq<i32>, i: int, j: int) -> int {
    pick4(fwd4_pass(fwd4_row(x, j), fwd4_row(x, 4 + j), fwd4_row(x, 8 + j), fwd4_row(x, 12 + j)), i)
}

fn fwd4_butterfly(a: i32, b: i32, c: i32, d: i32) -> (r: (i32, i32, i32, i32))
    requires
        -0x1000_0000 <= a <= 0x1000_0000,
        -0x1000_0000 <= b <= 0x1000_0000,
        -0x1000_0000 <= c <= 0x1000_0000,
        -0x1000_0000 <= d <= 0x1000_0000,
    ensures
        (r.0 as int, r.1 as int, r.2 as int, r.3 as int) == fwd4_pass(a as int, b as int, c as int, d as int),
{
    let s03 = a + d;
    let d03 = a - d;
    let s12 = b + c;
    let d12 = b - c;
    (s03 + s12, 2 * d03 + d12, s03 - s12, d03 - 2 * d12)
}

/// Forward 4x4 core transform Cf · X · Cfᵀ; entries within 2^25 keep every
/// sum in 32 bits.
#[verifier::rlimit(40)]
#[verifier::spinoff_prover]
pub fn forward4(x: &[i32; 16]) -> (r: [i32; 16])
    requires
        bounded(x@, 16, 0x200_0000),
    ensures
        forall|k: int| 0 <= k < 16 ==> #[trigger] r@[k] == forward4_entry(x@, k / 4, k % 4),
{
    let mut t = [0i32; 16];
    let mut i: usize = 0;
    while i < 4
        invariant
            bounded(x@, 16, 0x200_0000),
            i <= 4,
            t@.len() == 16,
            forall|q: int| 0 <= q < i * 4 ==> #[trigger] t@[q] == fwd4_row(x@, q),
            bounded(t@, i * 4, 0xC00_0000),
        decreases 4 - i,
    {
        let (a, b, c, d) = fwd4_butterfly(x[i * 4], x[i * 4 + 1], x[i * 4 + 2], x[i * 4 + 3]);
        t[i * 4] = a;
        t[i * 4 + 1] = b;
        t[i * 4 + 2] = c;
        t[i * 4 + 3] = d;
        assert((i * 4) as int / 4 == i && (i * 4 + 1) as int / 4 == i && (i * 4 + 2) as int / 4 == i
            && (i * 4 + 3) as int / 4 == i);
        assert((i * 4) as int % 4 == 0 && (i * 4 + 1) as int % 4 == 1 && (i * 4 + 2) as int % 4 == 2
            && (i * 4 + 3) as int % 4 == 3);
        i = i + 1;
    }
    let mut w = [0i32; 16];
    let mut j: usize = 0;
    while j < 4
        invariant
            bounded(t@, 16, 0xC00_0000),
            forall|q: int| 0 <= q < 16 ==> #[trigger] t@[q] == fwd4_row(x@, q),
            j <= 4,
            w@.len() == 16,
            forall|ii: int, jj: int| 0 <= ii < 4 && 0 <= jj < j ==> #[trigger] w@[ii * 4 + jj] == forward4_entry(x@, ii, jj),
        decreases 4 - j,
    {
        let (a, b, c, d) = fwd4_butterfly(t[j], t[4 + j], t[8 + j], t[12 + j]);
        proof {
            let jj = j as int;
            assert(t@[jj] == fwd4_row(x@, jj) && t@[4 + jj] == fwd4_row(x@, 4 + jj)
                && t@[8 + jj] == fwd4_row(x@, 8 + jj) && t@[12 + jj] == fwd4_row(x@, 12 + jj));
            reveal(forward4_entry);
            assert(a == forward4_entry(x@, 0, jj) && b == forward4_entry(x@, 1, jj)
                && c == forward4_entry(x@, 2, jj) && d == forward4_entry(x@, 3, jj));
        }
        w[j] = a;
        w[4 + j] = b;
        w[8 + j] = c;
        w[12 + j] = d;
        j = j + 1;
    }
    assert forall|k: int| 0 <= k < 16 implies #[trigger] w@[k] == forward4_entry(x@, k / 4, k % 4) by {
        assert(k == (k / 4) * 4 + k % 4);
    }
    w
}

/// One pass of the inverse 4x4 transform over (a, b, c, d) (8.5.12.2).
pub open spec fn inv4_pass(a: int, b: int, c: int, d: int) -> (int, int, int, int) {
    let (e, f, g, h) = (a + c, a - c, b / 2 - d, b + d / 2);
    (e + h, f + g, f - g, e - h)
}

/// The row pass of the inverse 4x4 transform at raster `k`.
pub open spec fn inv4_row(d: Seq<i32>, k: int) -> int {
    let i = k / 4;
    pick4(inv4_pass(d[i * 4] as int, d[i * 4 + 1] as int, d[i * 4 + 2] as int, d[i * 4 + 3] as int), k % 4)
}

/// Entry (i, j) of the inverse 4x4 transform with its final (x + 32) >> 6.
#[verifier::opaque]
pub open spec fn inverse4_entry(d: Seq<i32>, i: int, j: int) -> int {
    (pick4(inv4_pass(inv4_row(d, j), inv4_row(d, 4 + j), inv4_row(d, 8 + j), inv4_row(d, 12 + j)), i) + 32) / 64
}

fn inv4_butterfly(a: i32, b: i32, c: i32, d: i32) -> (r: (i32, i32, i32, i32))
    requires
        -0x2000_0000 <= a <= 0x2000_0000,
        -0x2000_0000 <= b <= 0x2000_0000,
        -0x2000_0000 <= c <= 0x2000_0000,
        -0x2000_0000 <= d <= 0x2000_0000,
    ensures
        (r.0 as int, r.1 as int, r.2 as int, r.3 as int) == inv4_pass(a as int, b as int, c as int, d as int),
{
    proof {
        lemma_shr_floor(b, 1);
        lemma_shr_floor(d, 1);
        lemma_pow2_values();
    }
    let e = a + c;
    let f = a - c;
    let g = (b >> 1u32) - d;
    let h = b + (d >> 1u32);
    (e + h, f + g, f - g, e - h)
}

/// 8.5.12.2 inverse 4x4 transform with the final (x + 32) >> 6; entries
/// within 2^27 keep every sum in 32 bits.
pub fn inverse4(d: &[i32; 16]) -> (r: [i32; 16])
    requires
        bounded(d@, 16, 0x800_0000),
    ensures
        forall|k: int| 0 <= k < 16 ==> #[trigger] r@[k] == inverse4_entry(d@, k / 4, k % 4),
{
    let mut f = [0i32; 16];
    let mut i: usize = 0;
    while i < 4
        invariant
            bounded(d@, 16, 0x800_0000),
            i <= 4,
            f@.len() == 16,
            forall|q: int| 0 <= q < i * 4 ==> #[trigger] f@[q] == inv4_row(d@, q),
            bounded(f@, i * 4, 0x1C00_0000),
        decreases 4 - i,
    {
        let (a, b, c, e) = inv4_butterfly(d[i * 4], d[i * 4 + 1], d[i * 4 + 2], d[i * 4 + 3]);
        f[i * 4] = a;
        f[i * 4 + 1] = b;
        f[i * 4 + 2] = c;
        f[i * 4 + 3] = e;
        assert((i * 4) as int / 4 == i && (i * 4 + 1) as int / 4 == i && (i * 4 + 2) as int / 4 == i
            && (i * 4 + 3) as int / 4 == i);
        assert((i * 4) as int % 4 == 0 && (i * 4 + 1) as int % 4 == 1 && (i * 4 + 2) as int % 4 == 2
            && (i * 4 + 3) as int % 4 == 3);
        i = i + 1;
    }
    let mut r = [0i32; 16];
    let mut j: usize = 0;
    while j < 4
        invariant
            bounded(f@, 16, 0x1C00_0000),
            forall|q: int| 0 <= q < 16 ==> #[trigger] f@[q] == inv4_row(d@, q),
            j <= 4,
            r@.len() == 16,
            forall|ii: int, jj: int| 0 <= ii < 4 && 0 <= jj < j ==> #[trigger] r@[ii * 4 + jj] == inverse4_entry(d@, ii, jj),
        decreases 4 - j,
    {
        let (a, b, c, e) = inv4_butterfly(f[j], f[4 + j], f[8 + j], f[12 + j]);
        let (a2, b2, c2, e2) = (a + 32, b + 32, c + 32, e + 32);
        proof {
            lemma_shr_floor(a2, 6);
            lemma_shr_floor(b2, 6);
            lemma_shr_floor(c2, 6);
            lemma_shr_floor(e2, 6);
            lemma_pow2_values();
            let jj = j as int;
            assert(f@[jj] == inv4_row(d@, jj) && f@[4 + jj] == inv4_row(d@, 4 + jj)
                && f@[8 + jj] == inv4_row(d@, 8 + jj) && f@[12 + jj] == inv4_row(d@, 12 + jj));
            reveal(inverse4_entry);
            assert((a2 as int) / 64 == inverse4_entry(d@, 0, jj) && (b2 as int) / 64 == inverse4_entry(d@, 1, jj)
                && (c2 as int) / 64 == inverse4_entry(d@, 2, jj) && (e2 as int) / 64 == inverse4_entry(d@, 3, jj));
        }
        r[j] = a2 >> 6u32;
        r[4 + j] = b2 >> 6u32;
        r[8 + j] = c2 >> 6u32;
        r[12 + j] = e2 >> 6u32;
        j = j + 1;
    }
    assert forall|k: int| 0 <= k < 16 implies #[trigger] r@[k] == inverse4_entry(d@, k / 4, k % 4) by {
        assert(k == (k / 4) * 4 + k % 4);
    }
    r
}

/// The even half of the 8-point inverse transform of 8.5.13.2: (b0, b2, b4, b6).
pub open spec fn inv8_even(s0: int, s2: int, s4: int, s6: int) -> (int, int, int, int) {
    let a0 = s0 + s4;
    let a4 = s0 - s4;
    let a2 = s2 / 2 - s6;
    let a6 = s2 + s6 / 2;
    (a0 + a6, a4 + a2, a4 - a2, a0 - a6)
}

/// The odd half of the 8-point inverse transform of 8.5.13.2: (b1, b3, b5, b7).
pub open spec fn inv8_odd(s1: int, s3: int, s5: int, s7: int) -> (int, int, int, int) {
    let a1 = -s3 + s5 - s7 - s7 / 2;
    let a3 = s1 + s7 - s3 - s3 / 2;
    let a5 = -s1 + s7 + s5 + s5 / 2;
    let a7 = s3 + s5 + s1 + s1 / 2;
    (a1 + a7 / 4, a3 + a5 / 4, a3 / 4 - a5, a7 - a1 / 4)
}

/// The 8-point inverse transform of 8.5.13.2 (one dimension).
#[verifier::opaque]
pub open spec fn inv8_pass(s0: int, s1: int, s2: int, s3: int, s4: int, s5: int, s6: int, s7: int) -> Seq<int> {
    let (b0, b2, b4, b6) = inv8_even(s0, s2, s4, s6);
    let (b1, b3, b5, b7) = inv8_odd(s1, s3, s5, s7);
    seq![b0 + b7, b2 + b5, b4 + b3, b6 + b1, b6 - b1, b4 - b3, b2 - b5, b0 - b7]
}

/// `inv8_pass` of eight 32-bit entries.
pub open spec fn inv8_of(s: Seq<i32>) -> Seq<int> {
    inv8_pass(s[0] as int, s[1] as int, s[2] as int, s[3] as int, s[4] as int, s[5] as int, s[6] as int, s[7] as int)
}

fn inv8_even_exec(s0: i32, s2: i32, s4: i32, s6: i32, Ghost(m): Ghost<int>) -> (r: (i32, i32, i32, i32))
    requires
        0 <= m <= 0xE00_0000,
        -m <= s0 <= m,
        -m <= s2 <= m,
        -m <= s4 <= m,
        -m <= s6 <= m,
    ensures
        (r.0 as int, r.1 as int, r.2 as int, r.3 as int) == inv8_even(s0 as int, s2 as int, s4 as int, s6 as int),
        -(4 * m + 1) <= r.0 <= 4 * m + 1,
        -(4 * m + 1) <= r.1 <= 4 * m + 1,
        -(4 * m + 1) <= r.2 <= 4 * m + 1,
        -(4 * m + 1) <= r.3 <= 4 * m + 1,
{
    proof {
        lemma_pow2_values();
        lemma_shr_floor(s2, 1);
        lemma_shr_floor(s6, 1);
    }
    let a0 = s0 + s4;
    let a4 = s0 - s4;
    let a2 = (s2 >> 1u32) - s6;
    let a6 = s2 + (s6 >> 1u32);
    (a0 + a6, a4 + a2, a4 - a2, a0 - a6)
}

fn inv8_odd_exec(s1: i32, s3: i32, s5: i32, s7: i32, Ghost(m): Ghost<int>) -> (r: (i32, i32, i32, i32))
    requires
        0 <= m <= 0xE00_0000,
        -m <= s1 <= m,
        -m <= s3 <= m,
        -m <= s5 <= m,
        -m <= s7 <= m,
    ensures
        (r.0 as int, r.1 as int, r.2 as int, r.3 as int) == inv8_odd(s1 as int, s3 as int, s5 as int, s7 as int),
        -(5 * m + 3) <= r.0 <= 5 * m + 3,
        -(5 * m + 3) <= r.1 <= 5 * m + 3,
        -(5 * m + 3) <= r.2 <= 5 * m + 3,
        -(5 * m + 3) <= r.3 <= 5 * m + 3,
{
    proof {
        lemma_pow2_values();
        lemma_shr_floor(s1, 1);
        lemma_shr_floor(s3, 1);
        lemma_shr_floor(s5, 1);
        lemma_shr_floor(s7, 1);
    }
    let a1 = -s3 + s5 - s7 - (s7 >> 1u32);
    let a3 = s1 + s7 - s3 - (s3 >> 1u32);
    let a5 = -s1 + s7 + s5 + (s5 >> 1u32);
    let a7 = s3 + s5 + s1 + (s1 >> 1u32);
    proof {
        lemma_shr_floor(a1, 2);
        lemma_shr_floor(a3, 2);
        lemma_shr_floor(a5, 2);
        lemma_shr_floor(a7, 2);
    }
    (a1 + (a7 >> 2u32), a3 + (a5 >> 2u32), (a3 >> 2u32) - a5, a7 - (a1 >> 2u32))
}

/// The 8-point inverse transform of 8.5.13.2: entries within `m` give
/// results within `9m + 4`.
#[verifier::rlimit(80)]
#[verifier::spinoff_prover]
fn inverse8_1d(s: [i32; 8], Ghost(m): Ghost<int>) -> (r: [i32; 8])
    requires
        0 <= m <= 0xE00_0000,
        bounded(s@, 8, m),
    ensures
        forall|k: int| 0 <= k < 8 ==> #[trigger] r@[k] as int == inv8_of(s@)[k],
        bounded(r@, 8, 9 * m + 4),
{
    let (b0, b2, b4, b6) = inv8_even_exec(s[0], s[2], s[4], s[6], Ghost(m));
    let (b1, b3, b5, b7) = inv8_odd_exec(s[1], s[3], s[5], s[7], Ghost(m));
    let r = [b0 + b7, b2 + b5, b4 + b3, b6 + b1, b6 - b1, b4 - b3, b2 - b5, b0 - b7];
    proof {
        reveal(inv8_pass);
        let v = inv8_of(s@);
        assert(v == seq![
            b0 + b7, b2 + b5, b4 + b3, b6 + b1, b6 - b1, b4 - b3, b2 - b5, b0 - b7,
        ]);
        assert(r@ == seq![
            (b0 + b7) as i32, (b2 + b5) as i32, (b4 + b3) as i32, (b6 + b1) as i32,
            (b6 - b1) as i32, (b4 - b3) as i32, (b2 - b5) as i32, (b0 - b7) as i32,
        ]);
    }
    r
}

/// The row pass of the inverse 8x8 transform at raster `k`.
pub open spec fn inv8_row(d: Seq<i32>, k: int) -> int {
    let b = (k / 8) * 8;
    inv8_pass(
        d[b] as int, d[b + 1] as int, d[b + 2] as int, d[b + 3] as int,
        d[b + 4] as int, d[b + 5] as int, d[b + 6] as int, d[b + 7] as int,
    )[k % 8]
}

/// Entry (i, j) of the inverse 8x8 transform with its final (x + 32) >> 6.
pub open spec fn inverse8_entry(d: Seq<i32>, i: int, j: int) -> int {
    (inv8_pass(
        inv8_row(d, j), inv8_row(d, 8 + j), inv8_row(d, 16 + j), inv8_row(d, 24 + j),
        inv8_row(d, 32 + j), inv8_row(d, 40 + j), inv8_row(d, 48 + j), inv8_row(d, 56 + j),
    )[i] + 32) / 64
}

/// 8.5.13.2 inverse 8x8 transform with the final (x + 32) >> 6; entries
/// within 2^24 keep every sum in 32 bits.
pub fn inverse8(d: &[i32; 64]) -> (r: [i32; 64])
    requires
        bounded(d@, 64, 0x100_0000),
    ensures
        forall|k: int| 0 <= k < 64 ==> #[trigger] r@[k] == inverse8_entry(d@, k / 8, k % 8),
{
    let mut g = [0i32; 64];
    let mut i: usize = 0;
    while i < 8
        invariant
            bounded(d@, 64, 0x100_0000),
            i <= 8,
            g@.len() == 64,
            forall|ii: int, jj: int| 0 <= ii < i && 0 <= jj < 8 ==> #[trigger] g@[ii * 8 + jj] == inv8_row(d@, ii * 8 + jj),
            forall|q: int| 0 <= q < i * 8 ==> -(9 * 0x100_0000 + 4) <= #[trigger] g@[q] <= 9 * 0x100_0000 + 4,
        decreases 8 - i,
    {
        let b = i * 8;
        let row = [d[b], d[b + 1], d[b + 2], d[b + 3], d[b + 4], d[b + 5], d[b + 6], d[b + 7]];
        let out = inverse8_1d(row, Ghost(0x100_0000int));
        let mut j: usize = 0;
        while j < 8
            invariant
                i < 8,
                b == i * 8,
                j <= 8,
                g@.len() == 64,
                forall|k: int| 0 <= k < 8 ==> #[trigger] out@[k] as int == inv8_pass(
                    d@[b as int] as int, d@[b + 1] as int, d@[b + 2] as int, d@[b + 3] as int,
                    d@[b + 4] as int, d@[b + 5] as int, d@[b + 6] as int, d@[b + 7] as int,
                )[k],
                bounded(out@, 8, 9 * 0x100_0000int + 4),
                bounded(d@, 64, 0x100_0000),
                forall|ii: int, jj: int| 0 <= ii < i && 0 <= jj < 8 ==> #[trigger] g@[ii * 8 + jj] == inv8_row(d@, ii * 8 + jj),
                forall|jj: int| 0 <= jj < j ==> #[trigger] g@[b + jj] == inv8_row(d@, b + jj),
                forall|q: int| 0 <= q < i * 8 ==> -(9 * 0x100_0000 + 4) <= #[trigger] g@[q] <= 9 * 0x100_0000 + 4,
                forall|q: int| i * 8 <= q < i * 8 + j ==> -(9 * 0x100_0000 + 4) <= #[trigger] g@[q] <= 9 * 0x100_0000 + 4,
            decreases 8 - j,
        {
            assert((b + j) as int / 8 == i && (b + j) as int % 8 == j);
            g[b + j] = out[j];
            j = j + 1;
        }
        i = i + 1;
    }
    let mut r = [0i32; 64];
    let mut j: usize = 0;
    while j < 8
        invariant
            j <= 8,
            r@.len() == 64,
            g@.len() == 64,
            forall|ii: int, jj: int| 0 <= ii < 8 && 0 <= jj < 8 ==> #[trigger] g@[ii * 8 + jj] == inv8_row(d@, ii * 8 + jj),
            forall|q: int| 0 <= q < 64 ==> -(9 * 0x100_0000 + 4) <= #[trigger] g@[q] <= 9 * 0x100_0000 + 4,
            forall|ii: int, jj: int| 0 <= ii < 8 && 0 <= jj < j ==> #[trigger] r@[ii * 8 + jj] == inverse8_entry(d@, ii, jj),
        decreases 8 - j,
    {
        let col = [g[j], g[8 + j], g[16 + j], g[24 + j], g[32 + j], g[40 + j], g[48 + j], g[56 + j]];
        assert(g@[j as int] == inv8_row(d@, 0 * 8 + j));
        assert(g@[8 + j] == inv8_row(d@, 1 * 8 + j));
        assert(g@[16 + j] == inv8_row(d@, 2 * 8 + j));
        assert(g@[24 + j] == inv8_row(d@, 3 * 8 + j));
        assert(g@[32 + j] == inv8_row(d@, 4 * 8 + j));
        assert(g@[40 + j] == inv8_row(d@, 5 * 8 + j));
        assert(g@[48 + j] == inv8_row(d@, 6 * 8 + j));
        assert(g@[56 + j] == inv8_row(d@, 7 * 8 + j));
        let out = inverse8_1d(col, Ghost(9 * 0x100_0000int + 4));
        let ghost column = inv8_pass(
            inv8_row(d@, j as int), inv8_row(d@, 8 + j), inv8_row(d@, 16 + j), inv8_row(d@, 24 + j),
            inv8_row(d@, 32 + j), inv8_row(d@, 40 + j), inv8_row(d@, 48 + j), inv8_row(d@, 56 + j),
        );
        assert(forall|ii: int| 0 <= ii < 8 ==> inverse8_entry(d@, ii, j as int) == (#[trigger] column[ii] + 32) / 64);
        let mut i: usize = 0;
        while i < 8
            invariant
                j < 8,
                i <= 8,
                r@.len() == 64,
                forall|k: int| 0 <= k < 8 ==> #[trigger] out@[k] as int == column[k],
                bounded(out@, 8, 9 * (9 * 0x100_0000int + 4) + 4),
                forall|ii: int, jj: int| 0 <= ii < 8 && 0 <= jj < j ==> #[trigger] r@[ii * 8 + jj] == inverse8_entry(d@, ii, jj),
                forall|ii: int| 0 <= ii < i ==> #[trigger] r@[ii * 8 + j] == (column[ii] + 32) / 64,
            decreases 8 - i,
        {
            let v = out[i] + 32;
            proof {
                lemma_shr_floor(v, 6);
                lemma_pow2_values();
            }
            r[i * 8 + j] = v >> 6u32;
            i = i + 1;
        }
        assert(forall|ii: int| 0 <= ii < 8 ==> #[trigger] r@[ii * 8 + j] == inverse8_entry(d@, ii, j as int));
        j = j + 1;
    }
    assert forall|k: int| 0 <= k < 64 implies #[trigger] r@[k] == inverse8_entry(d@, k / 8, k % 8) by {
        assert(k == (k / 8) * 8 + k % 8);
    }
    r
}

/// Entry (k, j) of the 8x8 forward integer transform matrix (eight times the
/// inverse basis).
pub open spec fn t8(k: int, j: int) -> int {
    seq![
        8int, 8, 8, 8, 8, 8, 8, 8,
        12, 10, 6, 3, -3, -6, -10, -12,
        8, 4, -4, -8, -8, -4, 4, 8,
        10, -3, -12, -6, 6, 12, 3, -10,
        8, -8, -8, 8, 8, -8, -8, 8,
        6, -12, 3, 10, -10, -3, 12, -6,
        4, -8, 8, -4, -4, 8, -8, 4,
        3, -6, 10, -12, 12, -10, 6, -3,
    ][k * 8 + j]
}

fn t8_entry(k: usize, j: usize) -> (r: i32)
    requires
        k < 8,
        j < 8,
    ensures
        r == t8(k as int, j as int),
        -12 <= r <= 12,
{
    let t: [i32; 64] = [
        8, 8, 8, 8, 8, 8, 8, 8,
        12, 10, 6, 3, -3, -6, -10, -12,
        8, 4, -4, -8, -8, -4, 4, 8,
        10, -3, -12, -6, 6, 12, 3, -10,
        8, -8, -8, 8, 8, -8, -8, 8,
        6, -12, 3, 10, -10, -3, 12, -6,
        4, -8, 8, -4, -4, 8, -8, 4,
        3, -6, 10, -12, 12, -10, 6, -3,
    ];
    assert(t@ == seq![
        8i32, 8i32, 8i32, 8i32, 8i32, 8i32, 8i32, 8i32,
        12i32, 10i32, 6i32, 3i32, -3i32, -6i32, -10i32, -12i32,
        8i32, 4i32, -4i32, -8i32, -8i32, -4i32, 4i32, 8i32,
        10i32, -3i32, -12i32, -6i32, 6i32, 12i32, 3i32, -10i32,
        8i32, -8i32, -8i32, 8i32, 8i32, -8i32, -8i32, 8i32,
        6i32, -12i32, 3i32, 10i32, -10i32, -3i32, 12i32, -6i32,
        4i32, -8i32, 8i32, -4i32, -4i32, 8i32, -8i32, 4i32,
        3i32, -6i32, 10i32, -12i32, 12i32, -10i32, 6i32, -3i32,
    ]);
    t[k * 8 + j]
}

/// The row pass of the forward 8x8 transform: row `i` of X times row `k` of T.
pub open spec fn fwd8_row(x: Seq<i32>, i: int, k: int) -> int {
    sum_to(8, |j: int| x[i * 8 + j] * t8(k, j))
}

/// Entry (k, l) of the forward 8x8 transform T · X · Tᵀ.
pub open spec fn forward8_entry(x: Seq<i32>, k: int, l: int) -> int {
    sum_to(8, |i: int| t8(k, i) * fwd8_row(x, i, l))
}

/// Forward 8x8 transform T · X · Tᵀ (scaled by 64 against the inverse);
/// entries within 2^17 keep every sum in 32 bits.
pub fn forward8(x: &[i32; 64]) -> (r: [i32; 64])
    requires
        bounded(x@, 64, 0x2_0000),
    ensures
        forall|q: int| 0 <= q < 64 ==> #[trigger] r@[q] == forward8_entry(x@, q / 8, q % 8),
{
    let mut t = [0i32; 64];
    let mut i: usize = 0;
    while i < 8
        invariant
            bounded(x@, 64, 0x2_0000),
            i <= 8,
            t@.len() == 64,
            forall|ii: int, kk: int| 0 <= ii < i && 0 <= kk < 8 ==> #[trigger] t@[ii * 8 + kk] == fwd8_row(x@, ii, kk),
            forall|q: int| 0 <= q < i * 8 ==> -0xC0_0000 <= #[trigger] t@[q] <= 0xC0_0000,
        decreases 8 - i,
    {
        let mut k: usize = 0;
        while k < 8
            invariant
                bounded(x@, 64, 0x2_0000),
                i < 8,
                k <= 8,
                t@.len() == 64,
                forall|ii: int, kk: int| 0 <= ii < i && 0 <= kk < 8 ==> #[trigger] t@[ii * 8 + kk] == fwd8_row(x@, ii, kk),
                forall|kk: int| 0 <= kk < k ==> #[trigger] t@[i * 8 + kk] == fwd8_row(x@, i as int, kk),
                forall|q: int| 0 <= q < i * 8 + k ==> -0xC0_0000 <= #[trigger] t@[q] <= 0xC0_0000,
            decreases 8 - k,
        {
            let ghost f = |j: int| x@[i * 8 + j] * t8(k as int, j);
            let mut acc: i32 = 0;
            let mut j: usize = 0;
            while j < 8
                invariant
                    bounded(x@, 64, 0x2_0000),
                    i < 8,
                    k < 8,
                    j <= 8,
                    f == (|j: int| x@[i * 8 + j] * t8(k as int, j)),
                    acc == sum_to(j as int, f),
                    -0x18_0000 * j <= acc <= 0x18_0000 * j,
                decreases 8 - j,
            {
                let a = t8_entry(k, j);
                let xv = x[i * 8 + j];
                proof {
                    assert(-0x18_0000 <= xv * a <= 0x18_0000) by (nonlinear_arith)
                        requires -0x2_0000 <= xv <= 0x2_0000, -12 <= a <= 12;
                }
                acc = acc + xv * a;
                j = j + 1;
            }
            t[i * 8 + k] = acc;
            k = k + 1;
        }
        i = i + 1;
    }
    let mut w = [0i32; 64];
    let mut k: usize = 0;
    while k < 8
        invariant
            forall|ii: int, kk: int| 0 <= ii < 8 && 0 <= kk < 8 ==> #[trigger] t@[ii * 8 + kk] == fwd8_row(x@, ii, kk),
            forall|q: int| 0 <= q < 64 ==> -0xC0_0000 <= #[trigger] t@[q] <= 0xC0_0000,
            t@.len() == 64,
            k <= 8,
            w@.len() == 64,
            forall|kk: int, ll: int| 0 <= kk < k && 0 <= ll < 8 ==> #[trigger] w@[kk * 8 + ll] == forward8_entry(x@, kk, ll),
        decreases 8 - k,
    {
        let mut l: usize = 0;
        while l < 8
            invariant
                forall|ii: int, kk: int| 0 <= ii < 8 && 0 <= kk < 8 ==> #[trigger] t@[ii * 8 + kk] == fwd8_row(x@, ii, kk),
                forall|q: int| 0 <= q < 64 ==> -0xC0_0000 <= #[trigger] t@[q] <= 0xC0_0000,
                t@.len() == 64,
                k < 8,
                l <= 8,
                w@.len() == 64,
                forall|kk: int, ll: int| 0 <= kk < k && 0 <= ll < 8 ==> #[trigger] w@[kk * 8 + ll] == forward8_entry(x@, kk, ll),
                forall|ll: int| 0 <= ll < l ==> #[trigger] w@[k * 8 + ll] == forward8_entry(x@, k as int, ll),
            decreases 8 - l,
        {
            let ghost g = |i: int| t8(k as int, i) * fwd8_row(x@, i, l as int);
            let mut acc: i32 = 0;
            let mut i: usize = 0;
            while i < 8
                invariant
                    forall|ii: int, kk: int| 0 <= ii < 8 && 0 <= kk < 8 ==> #[trigger] t@[ii * 8 + kk] == fwd8_row(x@, ii, kk),
                    forall|q: int| 0 <= q < 64 ==> -0xC0_0000 <= #[trigger] t@[q] <= 0xC0_0000,
                    t@.len() == 64,
                    k < 8,
                    l < 8,
                    i <= 8,
                    g == (|i: int| t8(k as int, i) * fwd8_row(x@, i, l as int)),
                    acc == sum_to(i as int, g),
                    -0x900_0000 * i <= acc <= 0x900_0000 * i,
                decreases 8 - i,
            {
                let a = t8_entry(k, i);
                let tv = t[i * 8 + l];
                proof {
                    assert(-0x900_0000 <= a * tv <= 0x900_0000) by (nonlinear_arith)
                        requires -0xC0_0000 <= tv <= 0xC0_0000, -12 <= a <= 12;
                }
                acc = acc + a * tv;
                i = i + 1;
            }
            w[k * 8 + l] = acc;
            l = l + 1;
        }
        k = k + 1;
    }
    assert forall|q: int| 0 <= q < 64 implies #[trigger] w@[q] == forward8_entry(x@, q / 8, q % 8) by {
        assert(q == (q / 8) * 8 + q % 8);
    }
    w
}

/// The 2x2 chroma DC transform of 4:2:0 at raster `k`.
pub open spec fn chroma_dc2_entry(c: Seq<i32>, k: int) -> int {
    let (c0, c1, c2, c3) = (c[0] as int, c[1] as int, c[2] as int, c[3] as int);
    if k == 0 {
        c0 + c1 + c2 + c3
    } else if k == 1 {
        c0 - c1 + c2 - c3
    } else if k == 2 {
        c0 + c1 - c2 - c3
    } else {
        c0 - c1 - c2 + c3
    }
}

/// The 4x2 chroma DC transform A4 · c · A2 of 4:2:2 at raster `q` (two columns).
pub open spec fn chroma_dc4_entry(c: Seq<i32>, q: int) -> int {
    let (i, j) = (q / 2, q % 2);
    sum_to(4, |k: int| had4(i, k) * (c[k * 2] + if j == 0 { c[k * 2 + 1] as int } else { -c[k * 2 + 1] }))
}

/// The dequantized 4:2:0 chroma DC value at raster `k`.
pub open spec fn chroma_dc2_value(c: Seq<i32>, qp: int, k: int) -> int {
    chroma_dc2_entry(c, k) * spec_level_scale4(qp % 6, 0, 0) * pow2((qp / 6) as nat) / 32
}

/// The dequantized 4:2:2 chroma DC value at raster `k` (at QP + 3).
pub open spec fn chroma_dc4_value(c: Seq<i32>, qp: int, k: int) -> int {
    scaled(chroma_dc4_entry(c, k) * spec_level_scale4((qp + 3) % 6, 0, 0), (qp + 3) / 6, 6)
}

/// Whether dequantizing the chroma DC of `rows` rows keeps to 32 bits.
pub open spec fn chroma_dc_fits(c: Seq<i32>, qp: int, rows: int) -> bool {
    if rows == 2 {
        &&& c.len() >= 4
        &&& bounded(c, 4, 0x1000_0000)
        &&& qp / 6 < 32
        &&& forall|k: int| 0 <= k < 4 ==> fits(#[trigger] chroma_dc2_entry(c, k) * spec_level_scale4(qp % 6, 0, 0))
        &&& forall|k: int| 0 <= k < 4 ==> fits(
            #[trigger] chroma_dc2_entry(c, k) * spec_level_scale4(qp % 6, 0, 0) * pow2((qp / 6) as nat),
        )
    } else {
        &&& c.len() >= 8
        &&& bounded(c, 8, 0x800_0000)
        &&& qp + 3 <= i32::MAX
        &&& forall|k: int| 0 <= k < 8 ==> scaled_fits(
            #[trigger] chroma_dc4_entry(c, k) * spec_level_scale4((qp + 3) % 6, 0, 0),
            (qp + 3) / 6,
            6,
        )
    }
}

/// 8.5.11.1 chroma DC for 4:2:0 (2x2, raster) and 4:2:2 (4 rows x 2
/// columns, raster): the DC values of the chroma 4x4 blocks in raster order.
pub fn chroma_dc(c: &[i32], qp: i32, rows: usize) -> (r: Vec<i32>)
    requires
        0 <= qp,
        chroma_dc_fits(c@, qp as int, rows as int),
    ensures
        rows == 2 ==> r@.len() == 4 && forall|k: int| 0 <= k < 4 ==> #[trigger] r@[k] == chroma_dc2_value(
            c@,
            qp as int,
            k,
        ),
        rows != 2 ==> r@.len() == 8 && forall|k: int| 0 <= k < 8 ==> #[trigger] r@[k] == chroma_dc4_value(
            c@,
            qp as int,
            k,
        ),
{
    if rows == 2 {
        let f = [
            c[0] + c[1] + c[2] + c[3],
            c[0] - c[1] + c[2] - c[3],
            c[0] + c[1] - c[2] - c[3],
            c[0] - c[1] - c[2] + c[3],
        ];
        let scale = level_scale4((qp % 6) as usize, 0, 0);
        let per = (qp / 6) as u32;
        let mut out: Vec<i32> = Vec::new();
        let mut k: usize = 0;
        while k < 4
            invariant
                0 <= qp,
                chroma_dc_fits(c@, qp as int, 2),
                scale == spec_level_scale4(qp as int % 6, 0, 0),
                per == qp / 6,
                forall|q: int| 0 <= q < 4 ==> #[trigger] f@[q] == chroma_dc2_entry(c@, q),
                k <= 4,
                out@.len() == k,
                forall|q: int| 0 <= q < k ==> #[trigger] out@[q] == chroma_dc2_value(c@, qp as int, q),
            decreases 4 - k,
        {
            assert(fits(chroma_dc2_entry(c@, k as int) * spec_level_scale4(qp as int % 6, 0, 0)));
            assert(fits(chroma_dc2_entry(c@, k as int) * spec_level_scale4(qp as int % 6, 0, 0) * pow2((qp as int / 6) as nat)));
            let x = f[k] * scale;
            proof {
                lemma_shl_mul(x, per);
            }
            let y = x << per;
            proof {
                lemma_shr_floor(y, 5);
                lemma_pow2_values();
            }
            out.push(y >> 5u32);
            k = k + 1;
        }
        out
    } else {
        let mut f: Vec<i32> = Vec::new();
        let mut i: usize = 0;
        while i < 4
            invariant
                chroma_dc_fits(c@, qp as int, rows as int),
                rows != 2,
                i <= 4,
                f@.len() == i * 2,
                forall|q: int| 0 <= q < i * 2 ==> #[trigger] f@[q] == chroma_dc4_entry(c@, q),
            decreases 4 - i,
        {
            let mut j: usize = 0;
            while j < 2
                invariant
                    chroma_dc_fits(c@, qp as int, rows as int),
                    rows != 2,
                    i < 4,
                    j <= 2,
                    f@.len() == i * 2 + j,
                    forall|q: int| 0 <= q < i * 2 + j ==> #[trigger] f@[q] == chroma_dc4_entry(c@, q),
                decreases 2 - j,
            {
                let ghost g = |k: int| had4(i as int, k) * (c@[k * 2] + if j == 0 { c@[k * 2 + 1] as int } else { -c@[k * 2 + 1] });
                let mut acc: i32 = 0;
                let mut k: usize = 0;
                while k < 4
                    invariant
                        chroma_dc_fits(c@, qp as int, rows as int),
                        rows != 2,
                        i < 4,
                        j < 2,
                        k <= 4,
                        g == (|k: int| had4(i as int, k) * (c@[k * 2] + if j == 0 { c@[k * 2 + 1] as int } else { -c@[k * 2 + 1] })),
                        acc == sum_to(k as int, g),
                        -0x1000_0000 * k <= acc <= 0x1000_0000 * k,
                    decreases 4 - k,
                {
                    let t = c[k * 2] + if j == 0 { c[k * 2 + 1] } else { -c[k * 2 + 1] };
                    let a = had4_entry(i, k);
                    assert(a * t == t || a * t == -t) by (nonlinear_arith) requires a == 1 || a == -1;
                    acc = acc + a * t;
                    k = k + 1;
                }
                assert((i * 2 + j) as int / 2 == i && (i * 2 + j) as int % 2 == j);
                f.push(acc);
                j = j + 1;
            }
            i = i + 1;
        }
        let qp_dc = qp + 3;
        let scale = level_scale4((qp_dc % 6) as usize, 0, 0);
        let per = qp_dc / 6;
        let mut out: Vec<i32> = Vec::new();
        let mut k: usize = 0;
        while k < 8
            invariant
                chroma_dc_fits(c@, qp as int, rows as int),
                rows != 2,
                0 <= qp,
                qp_dc == qp + 3,
                scale == spec_level_scale4(qp_dc as int % 6, 0, 0),
                per == qp_dc / 6,
                f@.len() == 8,
                forall|q: int| 0 <= q < 8 ==> #[trigger] f@[q] == chroma_dc4_entry(c@, q),
                k <= 8,
                out@.len() == k,
                forall|q: int| 0 <= q < k ==> #[trigger] out@[q] == chroma_dc4_value(c@, qp as int, q),
            decreases 8 - k,
        {
            assert(scaled_fits(chroma_dc4_entry(c@, k as int) * spec_level_scale4((qp + 3) % 6, 0, 0), (qp + 3) / 6, 6));
            let x = f[k] * scale;
            out.push(scale_value(x, per, 6));
            k = k + 1;
        }
        out
    }
}

/// Entry (i, k) of the Hadamard matrix of order `n` (2, or 4 otherwise).
pub open spec fn had(n: int, i: int, k: int) -> int {
    if n == 2 { had2(i, k) } else { had4(i, k) }
}

fn had_entry(n: usize, i: usize, k: usize) -> (r: i32)
    requires
        i < 4,
        k < 4,
        n == 2 ==> i < 2 && k < 2,
    ensures
        r == had(n as int, i as int, k as int),
        r == 1 || r == -1,
{
    if n == 2 {
        if i == 1 && k == 1 { -1 } else { 1 }
    } else {
        had4_entry(i, k)
    }
}

/// The column pass of a forward DC transform: row `i` of the Hadamard
/// matrix of order `rows` times column `l` of `w`.
pub open spec fn dc_column(w: Seq<i32>, rows: int, cols: int, i: int, l: int) -> int {
    sum_to(rows, |k: int| had(rows, i, k) * w[k * cols + l])
}

/// Entry (i, j) of a forward DC transform H_rows · W · H_cols.
pub open spec fn forward_dc_entry(w: Seq<i32>, rows: int, cols: int, i: int, j: int) -> int {
    sum_to(cols, |l: int| dc_column(w, rows, cols, i, l) * had(cols, l, j))
}

/// Row `i`, column `j` of a row-major layout with `cols` columns.
pub proof fn lemma_flat_index(i: int, j: int, cols: int)
    requires
        0 <= i,
        0 <= j < cols,
    ensures
        (i * cols + j) / cols == i,
        (i * cols + j) % cols == j,
{
    vstd::arithmetic::div_mod::lemma_fundamental_div_mod_converse(i * cols + j, cols, i, j);
}

/// The flat index of an entry of a `rows` x `cols` layout lies within it.
pub proof fn lemma_flat_bound(i: int, j: int, rows: int, cols: int)
    requires
        0 <= i < rows,
        0 <= j < cols,
    ensures
        0 <= i * cols + j < rows * cols,
{
    assert(0 <= i * cols + j < rows * cols) by (nonlinear_arith)
        requires 0 <= i < rows, 0 <= j < cols;
}

/// Forward DC transforms applied to the forward-transform DC coefficients:
/// 4x4 Hadamard (luma, 4:4:4 chroma), 2x2 (4:2:0), 4x2 (4:2:2); entries
/// within 2^26 keep every sum in 32 bits.
pub fn forward_dc(w: &[i32], rows: usize, cols: usize) -> (r: Vec<i32>)
    requires
        rows <= 4,
        cols <= 4,
        rows * cols <= w@.len(),
        bounded(w@, rows * cols, 0x400_0000),
    ensures
        r@.len() == rows * cols,
        forall|i: int, j: int| 0 <= i < rows && 0 <= j < cols ==> #[trigger] r@[i * cols + j] == forward_dc_entry(
            w@,
            rows as int,
            cols as int,
            i,
            j,
        ),
        bounded(w@, rows * cols, 0x40_0000) ==> bounded(r@, rows * cols, 0x400_0000),
{
    proof {
        assert(rows * cols <= 16) by (nonlinear_arith) requires rows <= 4, cols <= 4;
    }
    let n = rows * cols;
    let mut t: Vec<i32> = Vec::new();
    let mut i: usize = 0;
    while i < rows
        invariant
            rows <= 4,
            cols <= 4,
            n == rows * cols,
            n <= w@.len(),
            bounded(w@, rows * cols, 0x400_0000),
            i <= rows,
            t@.len() == i * cols,
            forall|q: int| 0 <= q < t@.len() ==> #[trigger] t@[q] == dc_column(
                w@,
                rows as int,
                cols as int,
                q / (cols as int),
                q % (cols as int),
            ),
            bounded(t@, t@.len() as int, 0x1000_0000),
        decreases rows - i,
    {
        let mut l: usize = 0;
        while l < cols
            invariant
                rows <= 4,
                cols <= 4,
                n == rows * cols,
                n <= w@.len(),
                bounded(w@, rows * cols, 0x400_0000),
                i < rows,
                l <= cols,
                t@.len() == i * cols + l,
                forall|q: int| 0 <= q < t@.len() ==> #[trigger] t@[q] == dc_column(
                    w@,
                    rows as int,
                    cols as int,
                    q / (cols as int),
                    q % (cols as int),
                ),
                bounded(t@, t@.len() as int, 0x1000_0000),
            decreases cols - l,
        {
            let ghost f = |k: int| had(rows as int, i as int, k) * w@[k * cols + l];
            let mut acc: i32 = 0;
            let mut k: usize = 0;
            while k < rows
                invariant
                    rows <= 4,
                    cols <= 4,
                    n == rows * cols,
                    n <= w@.len(),
                    bounded(w@, rows * cols, 0x400_0000),
                    i < rows,
                    l < cols,
                    k <= rows,
                    f == (|k: int| had(rows as int, i as int, k) * w@[k * cols + l]),
                    acc == sum_to(k as int, f),
                    -0x400_0000 * k <= acc <= 0x400_0000 * k,
                decreases rows - k,
            {
                proof {
                    lemma_flat_bound(k as int, l as int, rows as int, cols as int);
                }
                let a = had_entry(rows, i, k);
                let v = w[k * cols + l];
                assert(a * v == v || a * v == -v) by (nonlinear_arith) requires a == 1 || a == -1;
                acc = acc + a * v;
                k = k + 1;
            }
            proof {
                lemma_flat_index(i as int, l as int, cols as int);
            }
            t.push(acc);
            l = l + 1;
        }
        assert(i * cols + cols == (i + 1) * cols) by (nonlinear_arith);
        i = i + 1;
    }
    let mut f: Vec<i32> = Vec::new();
    let mut i: usize = 0;
    while i < rows
        invariant
            rows <= 4,
            cols <= 4,
            t@.len() == rows * cols,
            rows * cols <= 16,
            forall|q: int| 0 <= q < t@.len() ==> #[trigger] t@[q] == dc_column(
                w@,
                rows as int,
                cols as int,
                q / (cols as int),
                q % (cols as int),
            ),
            bounded(t@, t@.len() as int, 0x1000_0000),
            i <= rows,
            f@.len() == i * cols,
            forall|q: int| 0 <= q < f@.len() ==> #[trigger] f@[q] == forward_dc_entry(
                w@,
                rows as int,
                cols as int,
                q / (cols as int),
                q % (cols as int),
            ),
        decreases rows - i,
    {
        let mut j: usize = 0;
        while j < cols
            invariant
                rows <= 4,
                cols <= 4,
                t@.len() == rows * cols,
                rows * cols <= 16,
            rows * cols <= 16,
                forall|q: int| 0 <= q < t@.len() ==> #[trigger] t@[q] == dc_column(
                    w@,
                    rows as int,
                    cols as int,
                    q / (cols as int),
                    q % (cols as int),
                ),
                bounded(t@, t@.len() as int, 0x1000_0000),
                i < rows,
                j <= cols,
                f@.len() == i * cols + j,
                forall|q: int| 0 <= q < f@.len() ==> #[trigger] f@[q] == forward_dc_entry(
                    w@,
                    rows as int,
                    cols as int,
                    q / (cols as int),
                    q % (cols as int),
                ),
            decreases cols - j,
        {
            let ghost g = |l: int| dc_column(w@, rows as int, cols as int, i as int, l) * had(cols as int, l, j as int);
            let mut acc: i32 = 0;
            let mut l: usize = 0;
            while l < cols
                invariant
                    rows <= 4,
                    cols <= 4,
                    t@.len() == rows * cols,
                    rows * cols <= 16,
                rows * cols <= 16,
            rows * cols <= 16,
                    forall|q: int| 0 <= q < t@.len() ==> #[trigger] t@[q] == dc_column(
                        w@,
                        rows as int,
                        cols as int,
                        q / (cols as int),
                        q % (cols as int),
                    ),
                    bounded(t@, t@.len() as int, 0x1000_0000),
                    i < rows,
                    j < cols,
                    l <= cols,
                    g == (|l: int| dc_column(w@, rows as int, cols as int, i as int, l) * had(cols as int, l, j as int)),
                    acc == sum_to(l as int, g),
                    -0x1000_0000 * l <= acc <= 0x1000_0000 * l,
                decreases cols - l,
            {
                proof {
                    lemma_flat_bound(i as int, l as int, rows as int, cols as int);
                    lemma_flat_index(i as int, l as int, cols as int);
                }
                let a = had_entry(cols, l, j);
                let v = t[i * cols + l];
                assert(v * a == v || v * a == -v) by (nonlinear_arith) requires a == 1 || a == -1;
                acc = acc + v * a;
                l = l + 1;
            }
            proof {
                lemma_flat_index(i as int, j as int, cols as int);
            }
            f.push(acc);
            j = j + 1;
        }
        assert(i * cols + cols == (i + 1) * cols) by (nonlinear_arith);
        i = i + 1;
    }
    assert forall|i: int, j: int| 0 <= i < rows && 0 <= j < cols implies #[trigger] f@[i * cols + j]
        == forward_dc_entry(w@, rows as int, cols as int, i, j) by {
        lemma_flat_bound(i, j, rows as int, cols as int);
        lemma_flat_index(i, j, cols as int);
    }
    proof {
        if bounded(w@, rows * cols, 0x40_0000) {
            lemma_dc_result_bound(w@, f@, rows as int, cols as int);
        }
    }
    f
}

/// A forward DC transform of entries within 2^22 has entries within 2^26,
/// so that it can be transformed again.
pub proof fn lemma_dc_result_bound(w: Seq<i32>, r: Seq<i32>, rows: int, cols: int)
    requires
        0 <= rows <= 4,
        0 <= cols <= 4,
        rows * cols <= w.len(),
        r.len() == rows * cols,
        bounded(w, rows * cols, 0x40_0000),
        forall|i: int, j: int| 0 <= i < rows && 0 <= j < cols ==> #[trigger] r[i * cols + j] == forward_dc_entry(w, rows,
            cols, i, j),
    ensures
        bounded(r, rows * cols, 0x400_0000),
{
    assert forall|q: int| 0 <= q < rows * cols implies -0x400_0000 <= #[trigger] r[q] <= 0x400_0000 by {
        let i = q / cols;
        let j = q % cols;
        assert(cols > 0) by (nonlinear_arith) requires 0 <= q < rows * cols, 0 <= rows, 0 <= cols;
        assert(rows > 0) by (nonlinear_arith) requires 0 <= q < rows * cols, 0 <= rows, 0 <= cols;
        assert(q == i * cols + j && 0 <= j < cols && 0 <= i) by (nonlinear_arith) requires cols > 0, q >= 0, i == q / cols, j == q % cols;
        assert(i < rows) by (nonlinear_arith) requires q == i * cols + j, 0 <= j < cols, q < rows * cols, cols > 0;
        lemma_dc_entry_bound(w, rows, cols, i, j, 0x40_0000);
        assert(rows * cols * 0x40_0000 <= 0x400_0000) by (nonlinear_arith) requires rows <= 4, cols <= 4, rows >= 0, cols >= 0;
    }
}

/// A 4x4 Hadamard transform of entries within 2^22 has entries within
/// 2^26, so that it can be transformed again.
pub proof fn lemma_hadamard4_result_bound(c: Seq<i32>, r: Seq<i32>)
    requires
        c.len() == 16,
        r.len() == 16,
        bounded(c, 16, 0x40_0000),
        forall|k: int| 0 <= k < 16 ==> #[trigger] r[k] == hadamard4_entry(c, k / 4, k % 4),
    ensures
        bounded(r, 16, 0x400_0000),
{
    assert forall|k: int| 0 <= k < 16 implies -0x400_0000 <= #[trigger] r[k] <= 0x400_0000 by {
        let i = k / 4;
        let j = k % 4;
        reveal_with_fuel(sum_to, 5);
        assert(forall|l: int| #[trigger] dc_column(c, 4, 4, i, l) == sum_to(4, |m: int| had4(i, m) * c[m * 4 + l]));
        assert(hadamard4_entry(c, i, j) == forward_dc_entry(c, 4, 4, i, j));
        lemma_dc_entry_bound(c, 4, 4, i, j, 0x40_0000);
    }
}

/// Every entry of the Hadamard matrices used here is 1 or -1.
pub proof fn lemma_had_unit(n: int, i: int, k: int)
    requires
        0 <= i < n,
        0 <= k < n,
        n <= 4,
    ensures
        had(n, i, k) == 1 || had(n, i, k) == -1,
{
    lemma_had_values();
    if n == 2 {
        assert(0 <= i < 2 && 0 <= k < 2);
        if i == 0 { if k == 0 {} else {} } else { if k == 0 {} else {} }
    } else {
        if i == 0 {
            if k == 0 {} else if k == 1 {} else if k == 2 {} else {}
        } else if i == 1 {
            if k == 0 {} else if k == 1 {} else if k == 2 {} else {}
        } else if i == 2 {
            if k == 0 {} else if k == 1 {} else if k == 2 {} else {}
        } else {
            if k == 0 {} else if k == 1 {} else if k == 2 {} else {}
        }
    }
}

/// An entry of a forward DC transform of a block whose entries lie within
/// `b` lies within `rows * cols * b`.
pub proof fn lemma_dc_entry_bound(w: Seq<i32>, rows: int, cols: int, i: int, j: int, b: int)
    requires
        1 <= rows <= 4,
        1 <= cols <= 4,
        0 <= i < rows,
        0 <= j < cols,
        0 <= b,
        rows * cols <= w.len(),
        bounded(w, rows * cols, b),
    ensures
        -(rows * cols * b) <= forward_dc_entry(w, rows, cols, i, j) <= rows * cols * b,
{
    assert forall|l: int| 0 <= l < cols implies -(rows * b) <= #[trigger] dc_column(w, rows, cols, i, l) <= rows * b by {
        let f = |k: int| had(rows, i, k) * w[k * cols + l];
        assert forall|k: int| 0 <= k < rows implies -b <= #[trigger] f(k) <= b by {
            lemma_had_unit(rows, i, k);
            lemma_flat_bound(k, l, rows, cols);
            let v = w[k * cols + l] as int;
            assert(-b <= v <= b);
            let h = had(rows, i, k);
            assert(-b <= h * v <= b) by (nonlinear_arith) requires h == 1 || h == -1, -b <= v <= b;
        }
        lemma_sum_bound(rows, f, b);
        assert((|k: int| had(rows, i, k) * w[k * cols + l]) =~= f);
        assert(-rows * b == -(rows * b)) by (nonlinear_arith);
        assert(dc_column(w, rows, cols, i, l) == sum_to(rows, f));
    }
    let g = |l: int| dc_column(w, rows, cols, i, l) * had(cols, l, j);
    assert forall|l: int| 0 <= l < cols implies -(rows * b) <= #[trigger] g(l) <= rows * b by {
        lemma_had_unit(cols, l, j);
        let v = dc_column(w, rows, cols, i, l);
        let h = had(cols, l, j);
        let m = rows * b;
        assert(-m <= v <= m);
        assert(-m <= v * h <= m) by (nonlinear_arith) requires h == 1 || h == -1, -m <= v <= m;
    }
    assert(rows * b >= 0) by (nonlinear_arith) requires rows >= 1, b >= 0;
    lemma_sum_bound(cols, g, rows * b);
    assert((|l: int| dc_column(w, rows, cols, i, l) * had(cols, l, j)) =~= g);
    assert(forward_dc_entry(w, rows, cols, i, j) == sum_to(cols, g));
    assert(cols * (rows * b) == rows * cols * b && -cols * (rows * b) == -(rows * cols * b)) by (nonlinear_arith);
}

/// The values of the 2x2 and 4x4 Hadamard matrices.
pub proof fn lemma_had_values()
    ensures
        had4(0, 0) == 1,
        had4(0, 1) == 1,
        had4(0, 2) == 1,
        had4(0, 3) == 1,
        had4(1, 0) == 1,
        had4(1, 1) == 1,
        had4(1, 2) == -1,
        had4(1, 3) == -1,
        had4(2, 0) == 1,
        had4(2, 1) == -1,
        had4(2, 2) == -1,
        had4(2, 3) == 1,
        had4(3, 0) == 1,
        had4(3, 1) == -1,
        had4(3, 2) == 1,
        had4(3, 3) == -1,
        had2(0, 0) == 1,
        had2(0, 1) == 1,
        had2(1, 0) == 1,
        had2(1, 1) == -1,
{
}

/// Column `l` of the first pass of a forward DC transform, its sum written out.
pub open spec fn dc_column_lin(w: Seq<i32>, rows: int, cols: int, i: int, l: int) -> int {
    had(rows, i, 0) * w[l] + had(rows, i, 1) * w[cols + l] + if rows == 4 {
        had(rows, i, 2) * w[2 * cols + l] + had(rows, i, 3) * w[3 * cols + l]
    } else {
        0
    }
}

/// A forward DC entry with both sums written out.
pub open spec fn dc_entry_lin(w: Seq<i32>, rows: int, cols: int, i: int, j: int) -> int {
    dc_column_lin(w, rows, cols, i, 0) * had(cols, 0, j) + dc_column_lin(w, rows, cols, i, 1) * had(cols, 1, j)
        + if cols == 4 {
        dc_column_lin(w, rows, cols, i, 2) * had(cols, 2, j) + dc_column_lin(w, rows, cols, i, 3) * had(cols, 3, j)
    } else {
        0
    }
}

/// A forward DC entry of a 2x2, 2x4, 4x2 or 4x4 block is its written-out sum.
pub proof fn lemma_dc_entry_lin(w: Seq<i32>, rows: int, cols: int, i: int, j: int)
    requires
        rows == 2 || rows == 4,
        cols == 2 || cols == 4,
    ensures
        forward_dc_entry(w, rows, cols, i, j) == dc_entry_lin(w, rows, cols, i, j),
{
    reveal_with_fuel(sum_to, 5);
    if rows == 2 {
        assert(forall|l: int| #[trigger] dc_column(w, rows, cols, i, l) == dc_column_lin(w, rows, cols, i, l));
    } else {
        assert(forall|l: int| #[trigger] dc_column(w, rows, cols, i, l) == dc_column_lin(w, rows, cols, i, l));
    }
}

#[verifier::rlimit(50)]
#[verifier::spinoff_prover]
proof fn lemma_dc_twice_2x2(w: Seq<i32>, r: Seq<i32>)
    requires
        w.len() >= 4,
        r.len() == 4,
        forall|i: int, j: int| 0 <= i < 2 && 0 <= j < 2 ==> #[trigger] r[i * 2 + j] == forward_dc_entry(w, 2, 2, i, j),
    ensures
        forall|i: int, j: int| 0 <= i < 2 && 0 <= j < 2 ==> #[trigger] forward_dc_entry(r, 2, 2, i, j) == 4 * w[i * 2 + j],
{
    lemma_had_values();
    lemma_dc_entry_lin(w, 2, 2, 0, 0);
    assert(r[0int] == r[0int * 2 + 0]);
    lemma_dc_entry_lin(w, 2, 2, 0, 1);
    assert(r[1int] == r[0int * 2 + 1]);
    lemma_dc_entry_lin(w, 2, 2, 1, 0);
    assert(r[2int] == r[1int * 2 + 0]);
    lemma_dc_entry_lin(w, 2, 2, 1, 1);
    assert(r[3int] == r[1int * 2 + 1]);
    lemma_dc_entry_lin(r, 2, 2, 0, 0);
    assert(forward_dc_entry(r, 2, 2, 0, 0) == 4 * w[0int]);
    lemma_dc_entry_lin(r, 2, 2, 0, 1);
    assert(forward_dc_entry(r, 2, 2, 0, 1) == 4 * w[1int]);
    lemma_dc_entry_lin(r, 2, 2, 1, 0);
    assert(forward_dc_entry(r, 2, 2, 1, 0) == 4 * w[2int]);
    lemma_dc_entry_lin(r, 2, 2, 1, 1);
    assert(forward_dc_entry(r, 2, 2, 1, 1) == 4 * w[3int]);
    assert forall|i: int, j: int| 0 <= i < 2 && 0 <= j < 2 implies #[trigger] forward_dc_entry(r, 2, 2, i, j) == 4 * w[i * 2 + j] by {
        if i == 0 && j == 0 {
            assert(i * 2 + j == 0);
        } else if i == 0 && j == 1 {
            assert(i * 2 + j == 1);
        } else if i == 1 && j == 0 {
            assert(i * 2 + j == 2);
        } else if i == 1 && j == 1 {
            assert(i * 2 + j == 3);
        }
    }
}

#[verifier::rlimit(50)]
#[verifier::spinoff_prover]
proof fn lemma_dc_twice_2x4(w: Seq<i32>, r: Seq<i32>)
    requires
        w.len() >= 8,
        r.len() == 8,
        forall|i: int, j: int| 0 <= i < 2 && 0 <= j < 4 ==> #[trigger] r[i * 4 + j] == forward_dc_entry(w, 2, 4, i, j),
    ensures
        forall|i: int, j: int| 0 <= i < 2 && 0 <= j < 4 ==> #[trigger] forward_dc_entry(r, 2, 4, i, j) == 8 * w[i * 4 + j],
{
    lemma_had_values();
    lemma_dc_entry_lin(w, 2, 4, 0, 0);
    assert(r[0int] == r[0int * 4 + 0]);
    lemma_dc_entry_lin(w, 2, 4, 0, 1);
    assert(r[1int] == r[0int * 4 + 1]);
    lemma_dc_entry_lin(w, 2, 4, 0, 2);
    assert(r[2int] == r[0int * 4 + 2]);
    lemma_dc_entry_lin(w, 2, 4, 0, 3);
    assert(r[3int] == r[0int * 4 + 3]);
    lemma_dc_entry_lin(w, 2, 4, 1, 0);
    assert(r[4int] == r[1int * 4 + 0]);
    lemma_dc_entry_lin(w, 2, 4, 1, 1);
    assert(r[5int] == r[1int * 4 + 1]);
    lemma_dc_entry_lin(w, 2, 4, 1, 2);
    assert(r[6int] == r[1int * 4 + 2]);
    lemma_dc_entry_lin(w, 2, 4, 1, 3);
    assert(r[7int] == r[1int * 4 + 3]);
    lemma_dc_entry_lin(r, 2, 4, 0, 0);
    assert(forward_dc_entry(r, 2, 4, 0, 0) == 8 * w[0int]);
    lemma_dc_entry_lin(r, 2, 4, 0, 1);
    assert(forward_dc_entry(r, 2, 4, 0, 1) == 8 * w[1int]);
    lemma_dc_entry_lin(r, 2, 4, 0, 2);
    assert(forward_dc_entry(r, 2, 4, 0, 2) == 8 * w[2int]);
    lemma_dc_entry_lin(r, 2, 4, 0, 3);
    assert(forward_dc_entry(r, 2, 4, 0, 3) == 8 * w[3int]);
    lemma_dc_entry_lin(r, 2, 4, 1, 0);
    assert(forward_dc_entry(r, 2, 4, 1, 0) == 8 * w[4int]);
    lemma_dc_entry_lin(r, 2, 4, 1, 1);
    assert(forward_dc_entry(r, 2, 4, 1, 1) == 8 * w[5int]);
    lemma_dc_entry_lin(r, 2, 4, 1, 2);
    assert(forward_dc_entry(r, 2, 4, 1, 2) == 8 * w[6int]);
    lemma_dc_entry_lin(r, 2, 4, 1, 3);
    assert(forward_dc_entry(r, 2, 4, 1, 3) == 8 * w[7int]);
    assert forall|i: int, j: int| 0 <= i < 2 && 0 <= j < 4 implies #[trigger] forward_dc_entry(r, 2, 4, i, j) == 8 * w[i * 4 + j] by {
        if i == 0 && j == 0 {
            assert(i * 4 + j == 0);
        } else if i == 0 && j == 1 {
            assert(i * 4 + j == 1);
        } else if i == 0 && j == 2 {
            assert(i * 4 + j == 2);
        } else if i == 0 && j == 3 {
            assert(i * 4 + j == 3);
        } else if i == 1 && j == 0 {
            assert(i * 4 + j == 4);
        } else if i == 1 && j == 1 {
            assert(i * 4 + j == 5);
        } else if i == 1 && j == 2 {
            assert(i * 4 + j == 6);
        } else if i == 1 && j == 3 {
            assert(i * 4 + j == 7);
        }
    }
}

#[verifier::rlimit(50)]
#[verifier::spinoff_prover]
proof fn lemma_dc_twice_4x2(w: Seq<i32>, r: Seq<i32>)
    requires
        w.len() >= 8,
        r.len() == 8,
        forall|i: int, j: int| 0 <= i < 4 && 0 <= j < 2 ==> #[trigger] r[i * 2 + j] == forward_dc_entry(w, 4, 2, i, j),
    ensures
        forall|i: int, j: int| 0 <= i < 4 && 0 <= j < 2 ==> #[trigger] forward_dc_entry(r, 4, 2, i, j) == 8 * w[i * 2 + j],
{
    lemma_had_values();
    lemma_dc_entry_lin(w, 4, 2, 0, 0);
    assert(r[0int] == r[0int * 2 + 0]);
    lemma_dc_entry_lin(w, 4, 2, 0, 1);
    assert(r[1int] == r[0int * 2 + 1]);
    lemma_dc_entry_lin(w, 4, 2, 1, 0);
    assert(r[2int] == r[1int * 2 + 0]);
    lemma_dc_entry_lin(w, 4, 2, 1, 1);
    assert(r[3int] == r[1int * 2 + 1]);
    lemma_dc_entry_lin(w, 4, 2, 2, 0);
    assert(r[4int] == r[2int * 2 + 0]);
    lemma_dc_entry_lin(w, 4, 2, 2, 1);
    assert(r[5int] == r[2int * 2 + 1]);
    lemma_dc_entry_lin(w, 4, 2, 3, 0);
    assert(r[6int] == r[3int * 2 + 0]);
    lemma_dc_entry_lin(w, 4, 2, 3, 1);
    assert(r[7int] == r[3int * 2 + 1]);
    lemma_dc_entry_lin(r, 4, 2, 0, 0);
    assert(forward_dc_entry(r, 4, 2, 0, 0) == 8 * w[0int]);
    lemma_dc_entry_lin(r, 4, 2, 0, 1);
    assert(forward_dc_entry(r, 4, 2, 0, 1) == 8 * w[1int]);
    lemma_dc_entry_lin(r, 4, 2, 1, 0);
    assert(forward_dc_entry(r, 4, 2, 1, 0) == 8 * w[2int]);
    lemma_dc_entry_lin(r, 4, 2, 1, 1);
    assert(forward_dc_entry(r, 4, 2, 1, 1) == 8 * w[3int]);
    lemma_dc_entry_lin(r, 4, 2, 2, 0);
    assert(forward_dc_entry(r, 4, 2, 2, 0) == 8 * w[4int]);
    lemma_dc_entry_lin(r, 4, 2, 2, 1);
    assert(forward_dc_entry(r, 4, 2, 2, 1) == 8 * w[5int]);
    lemma_dc_entry_lin(r, 4, 2, 3, 0);
    assert(forward_dc_entry(r, 4, 2, 3, 0) == 8 * w[6int]);
    lemma_dc_entry_lin(r, 4, 2, 3, 1);
    assert(forward_dc_entry(r, 4, 2, 3, 1) == 8 * w[7int]);
    assert forall|i: int, j: int| 0 <= i < 4 && 0 <= j < 2 implies #[trigger] forward_dc_entry(r, 4, 2, i, j) == 8 * w[i * 2 + j] by {
        if i == 0 && j == 0 {
            assert(i * 2 + j == 0);
        } else if i == 0 && j == 1 {
            assert(i * 2 + j == 1);
        } else if i == 1 && j == 0 {
            assert(i * 2 + j == 2);
        } else if i == 1 && j == 1 {
            assert(i * 2 + j == 3);
        } else if i == 2 && j == 0 {
            assert(i * 2 + j == 4);
        } else if i == 2 && j == 1 {
            assert(i * 2 + j == 5);
        } else if i == 3 && j == 0 {
            assert(i * 2 + j == 6);
        } else if i == 3 && j == 1 {
            assert(i * 2 + j == 7);
        }
    }
}

#[verifier::rlimit(50)]
#[verifier::spinoff_prover]
proof fn lemma_dc_twice_4x4(w: Seq<i32>, r: Seq<i32>)
    requires
        w.len() >= 16,
        r.len() == 16,
        forall|i: int, j: int| 0 <= i < 4 && 0 <= j < 4 ==> #[trigger] r[i * 4 + j] == forward_dc_entry(w, 4, 4, i, j),
    ensures
        forall|i: int, j: int| 0 <= i < 4 && 0 <= j < 4 ==> #[trigger] forward_dc_entry(r, 4, 4, i, j) == 16 * w[i * 4 + j],
{
    lemma_had_values();
    lemma_dc_entry_lin(w, 4, 4, 0, 0);
    assert(r[0int] == r[0int * 4 + 0]);
    lemma_dc_entry_lin(w, 4, 4, 0, 1);
    assert(r[1int] == r[0int * 4 + 1]);
    lemma_dc_entry_lin(w, 4, 4, 0, 2);
    assert(r[2int] == r[0int * 4 + 2]);
    lemma_dc_entry_lin(w, 4, 4, 0, 3);
    assert(r[3int] == r[0int * 4 + 3]);
    lemma_dc_entry_lin(w, 4, 4, 1, 0);
    assert(r[4int] == r[1int * 4 + 0]);
    lemma_dc_entry_lin(w, 4, 4, 1, 1);
    assert(r[5int] == r[1int * 4 + 1]);
    lemma_dc_entry_lin(w, 4, 4, 1, 2);
    assert(r[6int] == r[1int * 4 + 2]);
    lemma_dc_entry_lin(w, 4, 4, 1, 3);
    assert(r[7int] == r[1int * 4 + 3]);
    lemma_dc_entry_lin(w, 4, 4, 2, 0);
    assert(r[8int] == r[2int * 4 + 0]);
    lemma_dc_entry_lin(w, 4, 4, 2, 1);
    assert(r[9int] == r[2int * 4 + 1]);
    lemma_dc_entry_lin(w, 4, 4, 2, 2);
    assert(r[10int] == r[2int * 4 + 2]);
    lemma_dc_entry_lin(w, 4, 4, 2, 3);
    assert(r[11int] == r[2int * 4 + 3]);
    lemma_dc_entry_lin(w, 4, 4, 3, 0);
    assert(r[12int] == r[3int * 4 + 0]);
    lemma_dc_entry_lin(w, 4, 4, 3, 1);
    assert(r[13int] == r[3int * 4 + 1]);
    lemma_dc_entry_lin(w, 4, 4, 3, 2);
    assert(r[14int] == r[3int * 4 + 2]);
    lemma_dc_entry_lin(w, 4, 4, 3, 3);
    assert(r[15int] == r[3int * 4 + 3]);
    lemma_dc_entry_lin(r, 4, 4, 0, 0);
    assert(forward_dc_entry(r, 4, 4, 0, 0) == 16 * w[0int]);
    lemma_dc_entry_lin(r, 4, 4, 0, 1);
    assert(forward_dc_entry(r, 4, 4, 0, 1) == 16 * w[1int]);
    lemma_dc_entry_lin(r, 4, 4, 0, 2);
    assert(forward_dc_entry(r, 4, 4, 0, 2) == 16 * w[2int]);
    lemma_dc_entry_lin(r, 4, 4, 0, 3);
    assert(forward_dc_entry(r, 4, 4, 0, 3) == 16 * w[3int]);
    lemma_dc_entry_lin(r, 4, 4, 1, 0);
    assert(forward_dc_entry(r, 4, 4, 1, 0) == 16 * w[4int]);
    lemma_dc_entry_lin(r, 4, 4, 1, 1);
    assert(forward_dc_entry(r, 4, 4, 1, 1) == 16 * w[5int]);
    lemma_dc_entry_lin(r, 4, 4, 1, 2);
    assert(forward_dc_entry(r, 4, 4, 1, 2) == 16 * w[6int]);
    lemma_dc_entry_lin(r, 4, 4, 1, 3);
    assert(forward_dc_entry(r, 4, 4, 1, 3) == 16 * w[7int]);
    lemma_dc_entry_lin(r, 4, 4, 2, 0);
    assert(forward_dc_entry(r, 4, 4, 2, 0) == 16 * w[8int]);
    lemma_dc_entry_lin(r, 4, 4, 2, 1);
    assert(forward_dc_entry(r, 4, 4, 2, 1) == 16 * w[9int]);
    lemma_dc_entry_lin(r, 4, 4, 2, 2);
    assert(forward_dc_entry(r, 4, 4, 2, 2) == 16 * w[10int]);
    lemma_dc_entry_lin(r, 4, 4, 2, 3);
    assert(forward_dc_entry(r, 4, 4, 2, 3) == 16 * w[11int]);
    lemma_dc_entry_lin(r, 4, 4, 3, 0);
    assert(forward_dc_entry(r, 4, 4, 3, 0) == 16 * w[12int]);
    lemma_dc_entry_lin(r, 4, 4, 3, 1);
    assert(forward_dc_entry(r, 4, 4, 3, 1) == 16 * w[13int]);
    lemma_dc_entry_lin(r, 4, 4, 3, 2);
    assert(forward_dc_entry(r, 4, 4, 3, 2) == 16 * w[14int]);
    lemma_dc_entry_lin(r, 4, 4, 3, 3);
    assert(forward_dc_entry(r, 4, 4, 3, 3) == 16 * w[15int]);
    assert forall|i: int, j: int| 0 <= i < 4 && 0 <= j < 4 implies #[trigger] forward_dc_entry(r, 4, 4, i, j) == 16 * w[i * 4 + j] by {
        if i == 0 && j == 0 {
            assert(i * 4 + j == 0);
        } else if i == 0 && j == 1 {
            assert(i * 4 + j == 1);
        } else if i == 0 && j == 2 {
            assert(i * 4 + j == 2);
        } else if i == 0 && j == 3 {
            assert(i * 4 + j == 3);
        } else if i == 1 && j == 0 {
            assert(i * 4 + j == 4);
        } else if i == 1 && j == 1 {
            assert(i * 4 + j == 5);
        } else if i == 1 && j == 2 {
            assert(i * 4 + j == 6);
        } else if i == 1 && j == 3 {
            assert(i * 4 + j == 7);
        } else if i == 2 && j == 0 {
            assert(i * 4 + j == 8);
        } else if i == 2 && j == 1 {
            assert(i * 4 + j == 9);
        } else if i == 2 && j == 2 {
            assert(i * 4 + j == 10);
        } else if i == 2 && j == 3 {
            assert(i * 4 + j == 11);
        } else if i == 3 && j == 0 {
            assert(i * 4 + j == 12);
        } else if i == 3 && j == 1 {
            assert(i * 4 + j == 13);
        } else if i == 3 && j == 2 {
            assert(i * 4 + j == 14);
        } else if i == 3 && j == 3 {
            assert(i * 4 + j == 15);
        }
    }
}

/// The forward DC transform of a 2x2, 2x4, 4x2 or 4x4 block applied twice
/// gives the block scaled by its size (H2 · H2 = 2I, H4 · H4 = 4I).
pub proof fn lemma_forward_dc_twice(w: Seq<i32>, r: Seq<i32>, rows: int, cols: int)
    requires
        rows == 2 || rows == 4,
        cols == 2 || cols == 4,
        w.len() >= rows * cols,
        r.len() == rows * cols,
        forall|i: int, j: int| 0 <= i < rows && 0 <= j < cols ==> #[trigger] r[i * cols + j] == forward_dc_entry(w, rows, cols, i, j),
    ensures
        forall|i: int, j: int| 0 <= i < rows && 0 <= j < cols ==> #[trigger] forward_dc_entry(r, rows, cols, i, j) == rows * cols * w[i * cols + j],
{
    if rows == 2 && cols == 2 {
        lemma_dc_twice_2x2(w, r);
    } else if rows == 2 && cols == 4 {
        lemma_dc_twice_2x4(w, r);
    } else if rows == 4 && cols == 2 {
        lemma_dc_twice_4x2(w, r);
    } else {
        lemma_dc_twice_4x4(w, r);
    }
}

/// The 4x4 Hadamard transform applied twice gives 16 times the block
/// (A symmetric, A · A = 4I).
pub proof fn lemma_hadamard4_twice(c: Seq<i32>, r: Seq<i32>)
    requires
        c.len() == 16,
        r.len() == 16,
        forall|k: int| 0 <= k < 16 ==> #[trigger] r[k] == hadamard4_entry(c, k / 4, k % 4),
    ensures
        forall|i: int, j: int| 0 <= i < 4 && 0 <= j < 4 ==> #[trigger] hadamard4_entry(r, i, j) == 16 * c[i * 4 + j],
{
    reveal_with_fuel(sum_to, 5);
    assert forall|i: int, j: int| #[trigger] hadamard4_entry(r, i, j) == forward_dc_entry(r, 4, 4, i, j) by {
        assert(forall|l: int| #[trigger] dc_column(r, 4, 4, i, l) == sum_to(4, |k: int| had4(i, k) * r[k * 4 + l]));
    }
    assert forall|i: int, j: int| #[trigger] hadamard4_entry(c, i, j) == forward_dc_entry(c, 4, 4, i, j) by {
        assert(forall|l: int| #[trigger] dc_column(c, 4, 4, i, l) == sum_to(4, |k: int| had4(i, k) * c[k * 4 + l]));
    }
    assert forall|i: int, j: int| 0 <= i < 4 && 0 <= j < 4 implies #[trigger] r[i * 4 + j] == forward_dc_entry(c, 4, 4, i, j) by {
        lemma_flat_index(i, j, 4);
        assert(r[i * 4 + j] == hadamard4_entry(c, i, j));
    }
    lemma_dc_twice_4x4(c, r);
}

} // verus!
