use libheifer::intra::{
    chroma_mode_available, filter8, i16_mode_available, nxn_mode_available, predict16, predict_chroma, predict_nxn,
    Edge,
};

fn edge(has_top: bool, has_left: bool, has_corner: bool) -> Edge {
    Edge {
        top: std::array::from_fn(|i| 10 + i as i32),
        left: std::array::from_fn(|i| 100 + 2 * i as i32),
        corner: 50,
        has_top,
        has_left,
        has_corner,
    }
}

#[test]
fn mode_availability() {
    let e = edge(true, false, false);
    assert!(nxn_mode_available(0, &e));
    assert!(!nxn_mode_available(1, &e));
    assert!(nxn_mode_available(2, &e));
    assert!(nxn_mode_available(7, &e));
    assert!(!nxn_mode_available(4, &e));
    assert!(i16_mode_available(0, &e) && !i16_mode_available(1, &e) && !i16_mode_available(3, &e));
    assert!(chroma_mode_available(2, &e) && !chroma_mode_available(1, &e) && chroma_mode_available(0, &e));
}

#[test]
fn nxn_predictions() {
    let e = edge(true, true, true);
    let mut out = [0i32; 16];
    predict_nxn(0, 4, &e, 8, &mut out);
    assert_eq!(&out[..4], &[10, 11, 12, 13]);
    assert_eq!(&out[12..], &[10, 11, 12, 13]);
    predict_nxn(1, 4, &e, 8, &mut out);
    assert_eq!(out[5], 102);
    // DC: (10+11+12+13 + 100+102+104+106 + 4) >> 3 = 57.
    predict_nxn(2, 4, &e, 8, &mut out);
    assert!(out.iter().all(|&v| v == 57));
    // No neighbours: mid grey.
    predict_nxn(2, 4, &edge(false, false, false), 8, &mut out);
    assert!(out.iter().all(|&v| v == 128));
    // Diagonal down left at (0, 0): (10 + 2*11 + 12 + 2) >> 2 = 11.
    predict_nxn(3, 4, &e, 8, &mut out);
    assert_eq!(out[0], 11);
    // Diagonal down right on the diagonal: (10 + 2*50 + 100 + 2) >> 2 = 53.
    predict_nxn(4, 4, &e, 8, &mut out);
    assert_eq!(out[0], 53);
    assert_eq!(out[5], 53);
    // Horizontal up past the limit repeats the last left sample.
    predict_nxn(8, 4, &e, 8, &mut out);
    assert_eq!(out[15], 106);
    let mut out8 = [0i32; 64];
    predict_nxn(0, 8, &e, 8, &mut out8);
    assert_eq!(out8[63], 17);
}

#[test]
fn filter8_smooths_edges() {
    let e = edge(true, true, true);
    let f = filter8(&e);
    // (50 + 2*10 + 11 + 2) >> 2 = 20.
    assert_eq!(f.top[0], 20);
    assert_eq!(f.top[1], 11);
    // (24 + 3*25 + 2) >> 2 = 25.
    assert_eq!(f.top[15], 25);
    assert_eq!(f.top[16], 26);
    // (10 + 2*50 + 100 + 2) >> 2 = 53.
    assert_eq!(f.corner, 53);
    assert_eq!(f.left[7], (112 + 3 * 114 + 2) >> 2);
    let g = filter8(&edge(false, false, true));
    assert_eq!(g.corner, 50);
    assert_eq!(g.top, e.top);
}

#[test]
fn sixteen_by_sixteen_predictions() {
    let e = edge(true, true, true);
    let mut out = [0i32; 256];
    predict16(0, &e, 8, &mut out);
    assert_eq!(out[17], 11);
    predict16(1, &e, 8, &mut out);
    assert_eq!(out[17], 102);
    predict16(2, &edge(false, true, false), 8, &mut out);
    // (sum of left 0..16 + 8) >> 4 = (1600 + 240 + 8) >> 4 = 115.
    assert!(out.iter().all(|&v| v == 115));
    predict16(3, &e, 8, &mut out);
    assert!(out.iter().all(|&v| (0..=255).contains(&v)));
    // A flat edge predicts a flat plane.
    let flat = Edge { top: [80; 32], left: [80; 16], corner: 80, has_top: true, has_left: true, has_corner: true };
    predict16(3, &flat, 8, &mut out);
    assert!(out.iter().all(|&v| v == 80));
}

#[test]
fn chroma_predictions() {
    let e = edge(true, true, true);
    let mut out = vec![0i32; 128];
    predict_chroma(2, 8, 8, &e, 8, &mut out);
    assert_eq!(&out[8..16], &[10, 11, 12, 13, 14, 15, 16, 17]);
    predict_chroma(1, 8, 16, &e, 8, &mut out);
    assert_eq!(out[127], 130);
    predict_chroma(0, 8, 8, &e, 8, &mut out);
    // Top-left block: (46 + 412 + 4) >> 3 = 57; top-right: from the top only (62 + 2) >> 2 = 16.
    assert_eq!(out[0], 57);
    assert_eq!(out[4], 16);
    // Bottom-left block: from the left only (444 + 2) >> 2 = 111.
    assert_eq!(out[32], 111);
    let flat = Edge { top: [60; 32], left: [60; 16], corner: 60, has_top: true, has_left: true, has_corner: true };
    predict_chroma(3, 8, 8, &flat, 8, &mut out);
    assert!(out[..64].iter().all(|&v| v == 60));
}
