use libheifer::auxiliary::{depth_info, DepthElement};
use libheifer::camera::kind;
use libheifer::gimi::{c_string, parse_components};

const HEADER: [u8; 12] = [0, 0, 0, 20, 0, 0, 0, 16, 78, 1, 177, 5];

fn sei(body: &[u8]) -> Vec<u8> {
    [&HEADER[..], body].concat()
}

#[test]
fn depth_representation_with_minimum() {
    let info = depth_info(&sei(&[132, 62, 58])).unwrap().unwrap();
    assert_eq!(info.flags, [1, 0, 0, 0]);
    assert_eq!(info.representation_type, 1);
    assert_eq!(info.disparity_reference_view, 0);
    assert_eq!(info.elements[0], Some(DepthElement { negative: false, exponent: 31, length: 4, mantissa: 10 }));
    assert_eq!(info.elements[1], None);
}

#[test]
fn depth_representation_with_disparity_view() {
    let info = depth_info(&sei(&[52, 104, 16, 127, 194, 128])).unwrap().unwrap();
    assert_eq!(info.flags, [0, 0, 1, 1]);
    assert_eq!(info.disparity_reference_view, 5);
    assert_eq!(info.elements[2], Some(DepthElement { negative: true, exponent: 1, length: 1, mantissa: 1 }));
    assert_eq!(info.elements[3], Some(DepthElement { negative: true, exponent: 127, length: 2, mantissa: 1 }));
}

#[test]
fn depth_sei_that_is_not_one() {
    assert_eq!(depth_info(&[0, 0, 0]).err().unwrap().subcode, 100);
    assert!(depth_info(&[0, 0, 0, 4]).unwrap().is_none());
    assert_eq!(depth_info(&[0, 0, 0, 5, 0, 0, 0, 0]).err().unwrap().subcode, 100);
    assert!(depth_info(&[0, 0, 0, 5, 0, 0, 0, 0, 76, 1]).unwrap().is_none());
    assert_eq!(depth_info(&[0, 0, 0, 5, 0, 0, 0, 0, 78, 1]).err().unwrap().subcode, 100);
    assert!(depth_info(&[0, 0, 0, 5, 0, 0, 0, 0, 78, 1, 178, 0]).unwrap().is_none());
}

#[test]
fn depth_sei_failures() {
    let e = depth_info(&sei(&[0, 0, 0, 0])).err().unwrap();
    assert_eq!((e.code, e.subcode), (2, 2006));
    assert_eq!(e.message, "Invalid input: Invalid parameter value: invalid depth representation type in input");
    let e = depth_info(&sei(&[2, 128])).err().unwrap();
    assert_eq!(e.message, "Invalid input: Invalid parameter value: input depth representation type out of range");
}

#[test]
fn gimi_component_ids() {
    let ids = parse_components(&[0, 0, 0, 2, b'a', b'b', 0, b'c', b'd'], 0).unwrap();
    assert_eq!(ids, vec![b"ab".to_vec(), b"c".to_vec()]);
    let e = parse_components(&[0, 0, 0, 3, b'a', 0], 0).err().unwrap();
    assert_eq!(e.subcode, 100);
    assert_eq!(e.message, "Invalid input: Unexpected end of file: Not enough data for all component content IDs");
    let e = parse_components(&[0, 0, 0, 12], 10).err().unwrap();
    assert_eq!((e.code, e.subcode), (2, 1000));
    assert_eq!(
        e.message,
        "Invalid input: Security limit exceeded: GIMI component content IDs box contains 12 components, but security limit is set to 10 components"
    );
    assert_eq!(parse_components(&[0, 0], 0).err().unwrap().subcode, 100);
    assert_eq!(c_string(b"abc\0def"), b"abc".to_vec());
    assert_eq!(c_string(b"xyz"), b"xyz".to_vec());
}

#[test]
fn camera_property_kinds() {
    let uuid = u32::from_be_bytes(*b"uuid");
    let cmin = [0x22, 0xcc, 0x04, 0xc7, 0xd6, 0xd9, 0x4e, 0x07, 0x9d, 0x90, 0x4e, 0xb6, 0xec, 0xba, 0xf3, 0xa3];
    let cmex = [0x43, 0x63, 0xe9, 0x14, 0x5b, 0x7d, 0x4a, 0xab, 0x97, 0xae, 0xbe, 0xa6, 0x98, 0x03, 0xb4, 0x34];
    assert_eq!(kind(uuid, Some(cmin)), u32::from_be_bytes(*b"cmin"));
    assert_eq!(kind(uuid, Some(cmex)), u32::from_be_bytes(*b"cmex"));
    assert_eq!(kind(uuid, Some([0; 16])), uuid);
    assert_eq!(kind(uuid, None), uuid);
    assert_eq!(kind(u32::from_be_bytes(*b"cmin"), Some(cmex)), u32::from_be_bytes(*b"cmin"));
}
