use libheifer::av1_config::Configuration;

fn blank() -> Configuration {
    Configuration { profile: 2, level: 31, tier: 0, high: 0, twelve: 0, mono: 0, sx: 0, sy: 0, position: 2 }
}

#[test]
fn record_bytes_pack_the_fields() {
    let c = Configuration { profile: 1, level: 13, tier: 1, high: 1, twelve: 0, mono: 0, sx: 1, sy: 0, position: 2 };
    assert_eq!(c.bytes(), vec![0x81, 0x20 | 13, 0x80 | 0x40 | 0x08 | 2, 0]);
}

#[test]
fn sequence_header_sets_the_configuration() {
    // Temporal delimiter, then a sequence header OBU of 5 bytes.
    let data = [0x12, 0x00, 0x0a, 0x05, 0x0a, 0x0c, 0xff, 0xc0, 0x84];
    let mut c = blank();
    c.update(&data);
    assert_eq!((c.profile, c.level, c.tier), (0, 8, 0));
    assert_eq!((c.high, c.twelve, c.mono), (1, 0, 0));
    assert_eq!((c.sx, c.sy, c.position), (1, 1, 1));
}

#[test]
fn no_sequence_header_leaves_the_configuration() {
    let mut c = blank();
    c.update(&[0x12, 0x00]);
    assert!(c == blank());
    // An OBU without a size stops the search.
    c.update(&[0x10, 0x00, 0x0a, 0x05]);
    assert!(c == blank());
}
