use libheifer::avc_encoder::profile;
use libheifer::avc_encoder::{plan, Settings, Speed};
use libheifer::avc_encoder::{
    annex_b_units, escape, level, quality_to_qp, rewrite_sps, rewrite_stream, unescape, VuiSignal,
};

#[test]
fn levels_follow_x264() {
    assert_eq!(level(64, 64, 1), (10, false, 64));
    assert_eq!(level(176, 144, 1), (10, false, 64));
    assert_eq!(level(352, 288, 1), (11, false, 128));
    assert_eq!(level(1920, 1080, 1), (40, false, 512));
}

#[test]
fn escaping_round_trips() {
    let data = [0, 0, 0, 1, 0, 0, 2, 0, 0, 3, 7];
    assert_eq!(unescape(&escape(&data)), data);
}

#[test]
fn escape_inserts_after_two_zeros() {
    assert_eq!(escape(&[0, 0, 1]), vec![0, 0, 3, 1]);
    assert_eq!(escape(&[0, 0, 4]), vec![0, 0, 4]);
    assert_eq!(escape(&[0, 0, 0, 0]), vec![0, 0, 3, 0, 0]);
    assert_eq!(unescape(&[0, 0, 3, 3]), vec![0, 0, 3]);
}

#[test]
fn quality_maps_to_qp_like_the_float_formula() {
    for q in -5..=105 {
        let crf = f64::from(100 - q.clamp(0, 100)) / 2.0;
        let expected = (crf - 3.0 + 0.07 * (crf - 15.0).max(0.0)).round().clamp(0.0, 51.0) as u8;
        assert_eq!(quality_to_qp(q), expected, "quality {q}");
    }
    assert_eq!(quality_to_qp(50), 23);
    assert_eq!(quality_to_qp(100), 0);
}

#[test]
fn large_pictures_take_the_last_level() {
    assert_eq!(level(16384, 16384, 1).0, 62);
    assert_eq!(level(16, 16, 1), (10, false, 64));
}

const SPS: [u8; 7] = [103, 66, 192, 10, 218, 16, 153];

#[test]
fn sps_gains_x264_vui() {
    let vui = VuiSignal::default();
    assert_eq!(
        rewrite_sps(&SPS, true, 10, false, 64, &vui).unwrap(),
        vec![103, 66, 192, 10, 218, 16, 154, 16, 0, 0, 3, 1, 144, 0, 0, 3, 0, 40, 241, 34, 106]
    );
}

#[test]
fn sps_vui_carries_colour_and_aspect() {
    let vui = VuiSignal { full_range: true, description: Some((1, 13, 1)), sar: Some((4, 3)) };
    assert_eq!(
        rewrite_sps(&SPS, false, 11, true, 128, &vui).unwrap(),
        vec![103, 77, 80, 11, 218, 16, 155, 14, 110, 2, 26, 2, 128, 0, 0, 12, 128, 0, 0, 3, 1, 71, 138, 21, 80]
    );
    // An unknown primaries code becomes 2, an unlisted ratio is written out.
    let vui = VuiSignal { full_range: false, description: Some((200, 1, 1)), sar: Some((7, 5)) };
    assert_eq!(
        rewrite_sps(&SPS, false, 40, false, 512, &vui).unwrap(),
        vec![103, 77, 64, 40, 218, 16, 155, 255, 0, 7, 0, 5, 106, 4, 2, 2, 128, 0, 0, 12, 128, 0, 0, 3, 1, 71, 140, 25, 80]
    );
}

#[test]
fn sps_rewrite_refusals() {
    let vui = VuiSignal::default();
    let with_vui = [103, 66, 192, 10, 218, 16, 155];
    assert_eq!(rewrite_sps(&with_vui, true, 10, false, 64, &vui).unwrap_err(), "SPS already carries a VUI");
    assert_eq!(rewrite_sps(&[103, 0, 0], true, 10, false, 64, &vui).unwrap_err(), "SPS without a stop bit");
}

#[test]
fn short_sps_ors_the_vui_into_the_level_byte() {
    let vui = VuiSignal::default();
    assert_eq!(
        rewrite_sps(&[103, 66, 192, 4], true, 10, false, 64, &vui).unwrap(),
        vec![103, 66, 192, 10, 64, 0, 0, 6, 64, 0, 0, 3, 0, 163, 196, 137, 168]
    );
}

#[test]
fn annex_b_splits_and_trims() {
    let stream = [0, 0, 0, 1, 0xaa, 0, 0, 0, 1, 0, 0, 1, 0xbb, 0xcc, 0, 0, 0, 1, 0, 0];
    let units = annex_b_units(&stream);
    assert_eq!(units, vec![&[0xaau8][..], &[0xbbu8, 0xcc][..]]);
    assert!(annex_b_units(&[1, 2, 3]).is_empty());
}

#[test]
fn stream_rewrites_only_the_sps() {
    let mut stream = vec![0, 0, 0, 1];
    stream.extend_from_slice(&SPS);
    stream.extend_from_slice(&[0, 0, 1, 0x68, 0xce, 0x3c, 0x80, 0, 0, 1, 0x65, 0x88, 0x84, 0, 0]);
    let units = rewrite_stream(&stream, true, 10, false, 64, &VuiSignal::default()).unwrap();
    assert_eq!(units.len(), 3);
    assert_eq!(units[0], rewrite_sps(&SPS, true, 10, false, 64, &VuiSignal::default()).unwrap());
    assert_eq!(units[1], vec![0x68, 0xce, 0x3c, 0x80]);
    assert_eq!(units[2], vec![0x65, 0x88, 0x84]);
    let mut bad = vec![0, 0, 1];
    bad.extend_from_slice(&[103, 66, 192, 10, 218, 16, 155]);
    assert!(rewrite_stream(&bad, true, 10, false, 64, &VuiSignal::default()).is_err());
}

#[test]
fn plan_follows_settings() {
    let mut s = Settings {
        quality: 50,
        speed: Speed::Balanced,
        cabac: true,
        baseline: false,
        vui: VuiSignal::default(),
    };
    let p = plan(1920, 1080, &s);
    assert!(!p.baseline);
    assert!(p.cabac);
    assert_eq!(p.qp, 23);
    assert_eq!(p.speed, Speed::Balanced);
    assert_eq!((p.level_idc, p.constraint_set3, p.mv_range), (40, false, 512));
    s.baseline = true;
    s.quality = 100;
    s.speed = Speed::Fast;
    let p = plan(64, 64, &s);
    assert!(p.baseline);
    assert!(!p.cabac);
    assert_eq!(p.qp, 0);
    assert_eq!(p.speed, Speed::Fast);
    assert_eq!((p.level_idc, p.constraint_set3, p.mv_range), (10, false, 64));
}

#[test]
fn profile_follows_format() {
    assert_eq!(profile(1, 8, false), 100);
    assert_eq!(profile(1, 10, false), 110);
    assert_eq!(profile(2, 8, false), 122);
    assert_eq!(profile(3, 8, false), 244);
    assert_eq!(profile(1, 8, true), 244);
}
