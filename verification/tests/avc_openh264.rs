use libheifer::avc_openh264::{accept, split, Bits};

#[test]
fn split_follows_openh264_unescaping() {
    let units = split(&[0, 0, 1, 0x67, 0, 0, 3, 1, 0, 0, 1, 0x68, 0, 0, 3, 9]).unwrap();
    assert_eq!(units, vec![vec![0x67, 0, 0, 1], vec![0x68, 9]]);
    assert!(split(&[0, 0, 1, 0x67, 0, 0, 2]).is_err());
    assert!(split(&[1, 2, 3]).is_err());
}

#[test]
fn reader_tolerates_bounded_over_read() {
    // Four bytes load at initialization; refills may pass the end by at
    // most one byte, so a one-byte unit fails its first refill.
    let mut r = Bits::new(&[0x80], 1).unwrap();
    assert_eq!(r.u(16).unwrap(), 0x8000);
    assert!(r.u(16).is_err());
    let mut r = Bits::new(&[0x80, 0, 0, 0, 0], 33).unwrap();
    assert_eq!(r.u(16).unwrap(), 0x8000);
    assert_eq!(r.u(16).unwrap(), 0);
    assert_eq!(r.u(16).unwrap(), 0);
    assert!(r.u(16).is_err());
}

#[test]
fn split_handles_zero_runs_and_escapes() {
    // 00 00 00 ends the unit's bytes with a zero and then 00 00 01 splits.
    let units = split(&[9, 0, 0, 1, 0x41, 0, 0, 0, 1, 0x42]).unwrap();
    assert_eq!(units, vec![vec![0x41, 0], vec![0x42]]);
    // After 00 00 00, only 00 or 01 may follow.
    assert!(split(&[0, 0, 1, 0x41, 0, 0, 0, 0, 0, 3]).is_err());
    // 00 00 03 followed by a byte above 3 drops the zeros too.
    assert_eq!(split(&[0, 0, 1, 0x41, 0, 0, 3, 7]).unwrap(), vec![vec![0x41, 7]]);
    // A stream that is only a start code holds one empty unit.
    assert_eq!(split(&[0, 0, 1]).unwrap(), vec![Vec::<u8>::new()]);
}

#[test]
fn exp_golomb_reads() {
    // 1 -> 0, 010 -> 1, 011 -> 2, 00100 -> 3.
    let mut r = Bits::new(&[0b1010_0110, 0b0100_0000], 10).unwrap();
    assert_eq!(r.ue().unwrap(), 0);
    assert_eq!(r.ue().unwrap(), 1);
    assert_eq!(r.ue().unwrap(), 2);
    assert_eq!(r.ue().unwrap(), 3);
    // Signed codes: 010 -> 1, 011 -> -1.
    let mut r = Bits::new(&[0b0100_1100], 6).unwrap();
    assert_eq!(r.se().unwrap(), 1);
    assert_eq!(r.se().unwrap(), -1);
    // No one bit left in the cache: leading-zero error.
    let mut r = Bits::new(&[0, 0, 0, 0], 32).unwrap();
    assert_eq!(r.ue().unwrap_err().0, 12);
    // An empty payload does not initialize.
    assert!(Bits::new(&[], 0).is_err());
}

#[test]
fn accept_requires_parameter_sets() {
    assert!(accept(&[1, 2, 3]).is_err());
    // A slice before any SPS rejects the stream.
    assert!(accept(&[0, 0, 1, 0x65, 0x88, 0x80]).is_err());
    // The forbidden bit rejects.
    assert!(accept(&[0, 0, 1, 0x89]).is_err());
    // An access unit delimiter alone is accepted with nothing to decode.
    let a = accept(&[0, 0, 1, 0x09, 0xf0]).unwrap();
    assert!(a.units.is_empty());
    assert!(!a.constructed_early);
}

#[test]
fn accept_keeps_no_lone_sei() {
    let a = accept(&[0, 0, 1, 0x06, 0x05]).unwrap();
    assert!(a.units.is_empty());
    assert!(!a.constructed_early);
    assert!(accept(&[0, 0, 1, 0x65, 0x88]).is_err());
    assert!(accept(&[1, 2, 3]).is_err());
}
