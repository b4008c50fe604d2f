use libheifer::transform::{
    chroma_dc, forward4, forward8, forward_dc, hadamard4, inverse4, inverse8, level_scale4, level_scale8,
    luma_dc, scale4, scale8,
};

fn lcg(seed: &mut u32) -> i32 {
    *seed = seed.wrapping_mul(1103515245).wrapping_add(12345);
    ((*seed >> 16) & 0xff) as i32 - 128
}

/// The 8x8 forward integer transform matrix.
const T8: [[i32; 8]; 8] = [
    [8, 8, 8, 8, 8, 8, 8, 8],
    [12, 10, 6, 3, -3, -6, -10, -12],
    [8, 4, -4, -8, -8, -4, 4, 8],
    [10, -3, -12, -6, 6, 12, 3, -10],
    [8, -8, -8, 8, 8, -8, -8, 8],
    [6, -12, 3, 10, -10, -3, 12, -6],
    [4, -8, 8, -4, -4, 8, -8, 4],
    [3, -6, 10, -12, 12, -10, 6, -3],
];

fn inverse4_f(d: &[f64; 16]) -> [f64; 16] {
    let ci = [
        [1.0, 1.0, 1.0, 1.0],
        [1.0, 0.5, -0.5, -1.0],
        [1.0, -1.0, -1.0, 1.0],
        [0.5, -1.0, 1.0, -0.5],
    ];
    let mut t = [0.0; 16];
    for i in 0..4 {
        for j in 0..4 {
            t[i * 4 + j] = (0..4).map(|k| d[i * 4 + k] * ci[k][j]).sum();
        }
    }
    let mut r = [0.0; 16];
    for i in 0..4 {
        for j in 0..4 {
            r[i * 4 + j] = (0..4).map(|k| ci[k][i] * t[k * 4 + j]).sum::<f64>() / 64.0;
        }
    }
    r
}

fn forward4_f(x: &[f64; 16]) -> [f64; 16] {
    let cf = [
        [1.0, 1.0, 1.0, 1.0],
        [2.0, 1.0, -1.0, -2.0],
        [1.0, -1.0, -1.0, 1.0],
        [1.0, -2.0, 2.0, -1.0],
    ];
    let mut t = [0.0; 16];
    for i in 0..4 {
        for j in 0..4 {
            t[i * 4 + j] = (0..4).map(|k| x[i * 4 + k] * cf[j][k]).sum();
        }
    }
    let mut w = [0.0; 16];
    for i in 0..4 {
        for j in 0..4 {
            w[i * 4 + j] = (0..4).map(|k| cf[i][k] * t[k * 4 + j]).sum();
        }
    }
    w
}

fn inverse8_f(d: &[f64; 64]) -> [f64; 64] {
    let b = |k: usize, n: usize| f64::from(T8[k][n]) / 8.0;
    let mut t = [0.0; 64];
    for i in 0..8 {
        for n in 0..8 {
            t[i * 8 + n] = (0..8).map(|k| d[i * 8 + k] * b(k, n)).sum();
        }
    }
    let mut r = [0.0; 64];
    for m in 0..8 {
        for n in 0..8 {
            r[m * 8 + n] = (0..8).map(|k| b(k, m) * t[k * 8 + n]).sum::<f64>() / 64.0;
        }
    }
    r
}

fn forward8_f(x: &[f64; 64]) -> [f64; 64] {
    let mut t = [0.0; 64];
    for i in 0..8 {
        for k in 0..8 {
            t[i * 8 + k] = (0..8).map(|j| x[i * 8 + j] * f64::from(T8[k][j])).sum();
        }
    }
    let mut w = [0.0; 64];
    for k in 0..8 {
        for l in 0..8 {
            w[k * 8 + l] = (0..8).map(|i| f64::from(T8[k][i]) * t[i * 8 + l]).sum();
        }
    }
    w
}

/// The forward coefficient one unit level produces through scaling and the
/// inverse transform, per position.
fn steps(qp: i32) -> ([f64; 16], [f64; 64]) {
    let (m, per) = ((qp % 6) as usize, qp / 6);
    let s4 = |i, j| f64::from(level_scale4(m, i, j)) * 2f64.powi(per) / 16.0;
    let s8 = |i, j| f64::from(level_scale8(m, i, j)) * 2f64.powi(per) / 64.0;
    let mut ac4 = [0.0; 16];
    for (k, s) in ac4.iter_mut().enumerate() {
        let mut d = [0.0; 16];
        d[k] = s4(k / 4, k % 4);
        *s = forward4_f(&inverse4_f(&d))[k];
    }
    let mut ac8 = [0.0; 64];
    for (k, s) in ac8.iter_mut().enumerate() {
        let mut d = [0.0; 64];
        d[k] = s8(k / 8, k % 8);
        *s = forward8_f(&inverse8_f(&d))[k];
    }
    (ac4, ac8)
}

#[test]
fn inverse8_matches_float_basis() {
    let mut seed = 7;
    for _ in 0..50 {
        let d: [i32; 64] = std::array::from_fn(|_| lcg(&mut seed) * 16);
        let r = inverse8(&d);
        let rf = inverse8_f(&d.map(f64::from));
        for k in 0..64 {
            assert!((f64::from(r[k]) - rf[k]).abs() < 2.0, "{k} {} {}", r[k], rf[k]);
        }
    }
}

#[test]
fn quantization_round_trips() {
    let mut seed = 3;
    for qp in [0, 12, 24, 30, 40, 51, 63] {
        let (ac4, ac8) = steps(qp);
        let tol = 1.0 + ac4[0].max(ac8[0]) / 30.0;
        for _ in 0..20 {
            let x: [i32; 16] = std::array::from_fn(|_| lcg(&mut seed));
            let w = forward4(&x);
            let c: [i32; 16] = std::array::from_fn(|k| (f64::from(w[k]) / ac4[k]).round() as i32);
            let r = inverse4(&scale4(&c, qp, None));
            for k in 0..16 {
                assert!(f64::from((r[k] - x[k]).abs()) <= tol * 2.0, "qp {qp} 4x4 {k}: {} {}", r[k], x[k]);
            }
            let x8: [i32; 64] = std::array::from_fn(|_| lcg(&mut seed));
            let w = forward8(&x8);
            let c: [i32; 64] = std::array::from_fn(|k| (f64::from(w[k]) / ac8[k]).round() as i32);
            let r = inverse8(&scale8(&c, qp));
            for k in 0..64 {
                assert!(f64::from((r[k] - x8[k]).abs()) <= tol * 2.0, "qp {qp} 8x8 {k}: {} {}", r[k], x8[k]);
            }
        }
    }
}

#[test]
fn level_scales_follow_norm_adjust() {
    assert_eq!(level_scale4(0, 0, 0), 160);
    assert_eq!(level_scale4(0, 1, 1), 256);
    assert_eq!(level_scale4(5, 0, 1), 368);
    assert_eq!(level_scale8(0, 0, 0), 320);
    assert_eq!(level_scale8(5, 2, 2), 928);
    assert_eq!(level_scale8(1, 0, 1), 336);
}

#[test]
fn scaling_rounds_and_shifts() {
    let mut c = [0i32; 16];
    c[0] = 1;
    c[5] = -1;
    // qp 0: (x * 160 + 8) >> 4.
    let d = scale4(&c, 0, None);
    assert_eq!(d[0], 10);
    assert_eq!(d[5], -16);
    // qp 30 (per 5): x * 16 * 2.
    let d = scale4(&c, 30, Some(7));
    assert_eq!(d[0], 7);
    assert_eq!(d[5], -256 * 2);
    let mut c8 = [0i32; 64];
    c8[0] = 3;
    assert_eq!(scale8(&c8, 0)[0], (3 * 320 + 32) >> 6);
    assert_eq!(scale8(&c8, 42)[0], 3 * 320 * 2);
}

#[test]
fn transforms_of_a_dc_block() {
    let mut d = [0i32; 16];
    d[0] = 64;
    assert_eq!(inverse4(&d), [1; 16]);
    let x = [1i32; 16];
    let mut w = [0i32; 16];
    w[0] = 16;
    assert_eq!(forward4(&x), w);
    let x8 = [1i32; 64];
    let w8 = forward8(&x8);
    assert_eq!(w8[0], 64 * 64);
    assert!(w8[1..].iter().all(|&v| v == 0));
    let mut d8 = [0i32; 64];
    d8[0] = 64;
    assert_eq!(inverse8(&d8), [1; 64]);
}

#[test]
fn dc_transforms() {
    let c = [1i32; 16];
    let h = hadamard4(&c);
    assert_eq!(h[0], 16);
    assert!(h[1..].iter().all(|&v| v == 0));
    // qp 36 (per 6): (x * 160) << 0.
    let dc = luma_dc(&c, 36);
    assert_eq!(dc[0], 16 * 160);
    assert_eq!(chroma_dc(&[1, 1, 1, 1], 0, 2), vec![(4 * 160) >> 5, 0, 0, 0]);
    assert_eq!(chroma_dc(&[1, 0, 0, 0, 0, 0, 0, 0], 3, 4).len(), 8);
    assert_eq!(forward_dc(&[1, 2, 3, 4], 2, 2), vec![10, -2, -4, 0]);
    assert_eq!(forward_dc(&[1, 1, 1, 1, 1, 1, 1, 1], 4, 2)[0], 8);
}

#[test]
fn hadamard4_twice_scales_by_sixteen() {
    let c: [i32; 16] = [3, -1, 4, 1, -5, 9, 2, -6, 5, 3, -5, 8, 9, -7, 9, 3];
    let twice = hadamard4(&hadamard4(&c));
    for k in 0..16 {
        assert_eq!(twice[k], 16 * c[k]);
    }
    let mut unit = [0i32; 16];
    unit[0] = 1;
    assert_eq!(hadamard4(&unit), [1i32; 16]);
}

#[test]
fn forward_dc_twice_scales_by_block_size() {
    let w: Vec<i32> = vec![7, -2, 5, 1, 0, 3, -4, 6];
    for (rows, cols) in [(2usize, 2usize), (2, 4), (4, 2)] {
        let n = rows * cols;
        let twice = forward_dc(&forward_dc(&w, rows, cols), rows, cols);
        for k in 0..n {
            assert_eq!(twice[k], (n as i32) * w[k]);
        }
    }
    let v: Vec<i32> = (0..16).map(|k| k * 3 - 20).collect();
    let twice = forward_dc(&forward_dc(&v, 4, 4), 4, 4);
    for k in 0..16 {
        assert_eq!(twice[k], 16 * v[k]);
    }
}
