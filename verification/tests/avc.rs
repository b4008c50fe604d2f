use libheifer::avc::annex_b;

#[test]
fn annex_b_matches_native_emulation_quirk() {
    // Leading 00 00 0x bytes gain an emulation byte; later ones do not.
    let input = [0, 0, 0, 6, 0, 0, 1, 0x65, 0, 0];
    assert_eq!(annex_b(&input).unwrap(), [0, 0, 1, 0, 0, 3, 1, 0x65, 0, 0]);
    assert_eq!(annex_b(&[0, 0, 0, 9]).unwrap_err().subcode, 100);
    assert_eq!(annex_b(&[0, 0, 0, 0]).unwrap_err().subcode, 2006);
}

#[test]
fn annex_b_joins_several_units() {
    let input = [0, 0, 0, 2, 0x67, 1, 0, 0, 0, 1, 0x68];
    assert_eq!(annex_b(&input).unwrap(), [0, 0, 1, 0x67, 1, 0, 0, 1, 0x68]);
    assert_eq!(annex_b(&[0, 0, 0, 1, 5, 0, 0]).unwrap_err().code, 7);
    assert!(annex_b(&[]).unwrap().is_empty());
}
