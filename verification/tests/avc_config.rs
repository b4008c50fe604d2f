use libheifer::avc_config::EncoderConfiguration;

const SPS: [u8; 8] = [0x67, 0x42, 0xc0, 0x1e, 0xf4, 0x0a, 0x0f, 0xc8];

#[test]
fn sps_sets_profile_and_size() {
    let mut c = EncoderConfiguration::new();
    assert_eq!(c.update(&SPS).unwrap(), true);
    assert_eq!((c.profile, c.compatibility, c.level), (66, 0xc0, 30));
    assert_eq!((c.chroma, c.luma, c.color), (1, 8, 8));
    assert_eq!(c.size, (320, 240));
    assert_eq!(c.sps.len(), 1);
    assert_eq!(c.update(&[0x68, 0xce, 0x38, 0x80]).unwrap(), true);
    assert_eq!(c.update(&[0x6d, 0x01]).unwrap(), true);
    assert_eq!(c.update(&[0x65, 0x88]).unwrap(), false);
    assert_eq!(c.update(&[]).unwrap(), false);
    assert_eq!((c.sps.len(), c.pps.len(), c.extensions.len()), (1, 1, 1));
}

#[test]
fn baseline_record_has_no_extension_part() {
    let mut c = EncoderConfiguration::new();
    c.update(&SPS).unwrap();
    c.update(&[0x68, 0xce, 0x38, 0x80]).unwrap();
    let mut out = Vec::new();
    c.write_into(&mut out).unwrap();
    let mut expected = vec![1, 66, 0xc0, 30, 255, 225, 0, 8];
    expected.extend_from_slice(&SPS);
    expected.extend_from_slice(&[1, 0, 4, 0x68, 0xce, 0x38, 0x80]);
    assert_eq!(out, expected);
}

#[test]
fn high_profile_record_and_limits() {
    let mut c = EncoderConfiguration::new();
    c.profile = 100;
    c.chroma = 1;
    c.luma = 10;
    c.color = 8;
    let mut out = Vec::new();
    c.write_into(&mut out).unwrap();
    assert_eq!(out, vec![1, 100, 0, 0, 255, 224, 0, 1, 2, 0, 0]);
    for _ in 0..32 {
        c.update(&SPS).unwrap();
    }
    let e = c.write_into(&mut Vec::new()).unwrap_err();
    assert_eq!(e.code, 9);
    assert_eq!(e.message, "Encoding error: Unspecified: Cannot write more than 31 PPS into avcC box.");
}

#[test]
fn property_carries_the_record() {
    let mut c = EncoderConfiguration::new();
    c.update(&SPS).unwrap();
    let mut out = Vec::new();
    c.write_into(&mut out).unwrap();
    let p = c.property();
    assert!(!p.raw && p.uuid.is_none());
    let (kind, data, error) = (p.kind, p.data, p.write_error);
    assert_eq!(kind, u32::from_be_bytes(*b"avcC"));
    assert_eq!(data, out);
    assert!(error.is_none());
    let level = c.level;
    assert_eq!(c.update(&[0x68, 0xce, 0x38, 0x80]).unwrap(), true);
    assert_eq!(c.level, level);
}
