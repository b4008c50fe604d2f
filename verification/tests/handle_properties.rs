use libheifer::color::{AmbientViewingEnvironment, ContentLightLevel, MasteringDisplayColourVolume};
use libheifer::handle_properties::{Value, AMVE, CLLI, MDCV, NDWT, PASP};

#[test]
fn content_light_body_and_round_trip() {
    let v = Value::ContentLight(ContentLightLevel {
        max_content_light_level: 1000,
        max_pic_average_light_level: 400,
    });
    let p = v.property().unwrap();
    assert!(!p.raw && p.uuid.is_none() && p.write_error.is_none());
    let (kind, data) = (p.kind, p.data);
    assert_eq!(kind, CLLI);
    assert_eq!(data, vec![0x03, 0xe8, 0x01, 0x90]);
    match Value::parse(kind, false, &data) {
        Some(Value::ContentLight(c)) => {
            assert_eq!(c.max_content_light_level, 1000);
            assert_eq!(c.max_pic_average_light_level, 400);
        }
        _ => panic!("expected content light"),
    }
}

#[test]
fn default_values_need_no_property() {
    let none = Value::ContentLight(ContentLightLevel {
        max_content_light_level: 0,
        max_pic_average_light_level: 0,
    });
    assert!(none.property().is_none());
    assert!(Value::PixelAspect(3, 3).property().is_none());
}

#[test]
fn mastering_round_trip() {
    let m = MasteringDisplayColourVolume {
        display_primaries_x: [13250, 7500, 34000],
        display_primaries_y: [34500, 3000, 16000],
        white_point_x: 15635,
        white_point_y: 16450,
        max_display_mastering_luminance: 10_000_000,
        min_display_mastering_luminance: 50,
    };
    let p = Value::Mastering(m).property().unwrap();
    assert!(!p.raw && p.uuid.is_none() && p.write_error.is_none());
    let (kind, data) = (p.kind, p.data);
    assert_eq!(kind, MDCV);
    assert_eq!(data.len(), 24);
    assert_eq!(&data[0..4], &[0x33, 0xc2, 0x86, 0xc4]);
    assert_eq!(&data[16..24], &[0x00, 0x98, 0x96, 0x80, 0, 0, 0, 50]);
    match Value::parse(kind, false, &data) {
        Some(Value::Mastering(p)) => {
            assert_eq!(p.display_primaries_x, m.display_primaries_x);
            assert_eq!(p.display_primaries_y, m.display_primaries_y);
            assert_eq!(p.white_point_x, 15635);
            assert_eq!(p.white_point_y, 16450);
            assert_eq!(p.max_display_mastering_luminance, 10_000_000);
            assert_eq!(p.min_display_mastering_luminance, 50);
        }
        _ => panic!("expected mastering"),
    }
}

#[test]
fn ambient_diffuse_white_and_aspect() {
    let a = Value::Ambient(AmbientViewingEnvironment {
        ambient_illumination: 314,
        ambient_light_x: 15635,
        ambient_light_y: 16450,
    });
    let p = a.property().unwrap();
    assert!(!p.raw && p.uuid.is_none() && p.write_error.is_none());
    let (kind, data) = (p.kind, p.data);
    assert_eq!(kind, AMVE);
    assert_eq!(data, vec![0, 0, 1, 0x3a, 0x3d, 0x13, 0x40, 0x42]);
    let p = Value::DiffuseWhite(203).property().unwrap();
    assert!(!p.raw && p.uuid.is_none() && p.write_error.is_none());
    let (kind, data) = (p.kind, p.data);
    assert_eq!(kind, NDWT);
    assert_eq!(data, vec![0, 0, 0, 0, 0, 0, 0, 203]);
    assert!(matches!(Value::parse(kind, false, &data), Some(Value::DiffuseWhite(203))));
    let p = Value::PixelAspect(4, 3).property().unwrap();
    assert!(!p.raw && p.uuid.is_none() && p.write_error.is_none());
    let (kind, data) = (p.kind, p.data);
    assert_eq!(kind, PASP);
    assert_eq!(data, vec![0, 0, 0, 4, 0, 0, 0, 3]);
    assert!(matches!(Value::parse(kind, false, &data), Some(Value::PixelAspect(4, 3))));
}

#[test]
fn parse_refuses_raw_short_and_nonzero_ndwt() {
    assert!(Value::parse(CLLI, true, &[0, 1, 0, 2]).is_none());
    assert!(Value::parse(CLLI, false, &[0, 1, 0]).is_none());
    assert!(Value::parse(NDWT, false, &[1, 0, 0, 0, 0, 0, 0, 1]).is_none());
    assert!(Value::parse(0x6672_6565, false, &[0; 8]).is_none());
}
