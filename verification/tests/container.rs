use libheifer::container::{boxes, ParseError};

#[test]
fn all_truncations_of_box_header_fail_safely() {
    let data = b"\0\0\0\x01ftyp\0\0\0\0\0\0\0\x18avif\0\0\0\0";
    for n in 1..data.len() {
        assert!(boxes(&data[..n], 100).is_err());
    }
    assert_eq!(boxes(data, 100).unwrap().len(), 1);
}

#[test]
fn zero_size_and_overflow() {
    assert_eq!(boxes(b"\0\0\0\0free", 100).unwrap().len(), 1);
    assert_eq!(
        boxes(b"\0\0\0\x01free\xff\xff\xff\xff\xff\xff\xff\xff", 100).unwrap_err(),
        ParseError::Truncated
    );
}

#[test]
fn boxes_respects_the_limit() {
    let data = b"\0\0\0\x08free\0\0\0\x08skip";
    assert_eq!(boxes(data, 2).unwrap().len(), 2);
    assert_eq!(boxes(data, 1).unwrap_err(), ParseError::Limit);
    let v = boxes(b"\0\0\0\x0afree\x01\x02", 10).unwrap();
    assert_eq!(v[0].kind, 0x6672_6565);
    assert_eq!(v[0].data, &[1u8, 2][..]);
}

#[test]
fn box_smaller_than_its_header_is_invalid() {
    assert_eq!(boxes(b"\0\0\0\x04free", 10).unwrap_err(), ParseError::InvalidSize);
}
