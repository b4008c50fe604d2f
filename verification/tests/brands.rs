use libheifer::brands::{
    check_filetype, check_jpeg, fourcc, has_compatible_filetype, legacy_brand, main_brand,
    mime_type, minor_version_brand, to_brand, CompatibleBrands, FileType,
};

#[test]
fn read_compatibility_brands_preserves_order_and_duplicates() {
    let data = b"\0\0\0\x1cftypavif\0\0\0\0mif1avifmif1";
    let brands = CompatibleBrands::parse(data).unwrap();
    assert_eq!(
        brands.iter(),
        vec![fourcc(*b"mif1"), fourcc(*b"avif"), fourcc(*b"mif1")]
    );
    assert!(brands.contains(fourcc(*b"avif")));
    assert!(has_compatible_filetype(data).is_ok());
}

#[test]
fn truncated_inputs_do_not_panic() {
    let data = b"\0\0\0\x18ftypheic\0\0\0\0mif1heic";
    for len in 0..data.len() {
        assert!(CompatibleBrands::parse(&data[..len]).is_err());
        let _ = (
            main_brand(&data[..len]),
            mime_type(&data[..len]),
            check_filetype(&data[..len]),
        );
    }
}

#[test]
fn brand_parse_errors() {
    let e = CompatibleBrands::parse(&[]).unwrap_err();
    assert_eq!((e.code, e.subcode), (5, 2006));
    let e = CompatibleBrands::parse(b"\0\0\0\x10moovheic\0\0\0\0").unwrap_err();
    assert_eq!((e.code, e.subcode), (2, 0));
    let e = CompatibleBrands::parse(b"\0\0\0\x40ftypheic\0\0\0\0").unwrap_err();
    assert_eq!((e.code, e.subcode), (2, 100));
    assert_eq!(e.message, "insufficient input data");
    let e = CompatibleBrands::parse(b"\0\0\0\x0cftypheic").unwrap_err();
    assert_eq!((e.code, e.subcode), (2, 101));
    let e = CompatibleBrands::parse(b"\0\0\0\x01ftyp\xf0\0\0\0\0\0\0\0").unwrap_err();
    assert_eq!((e.code, e.subcode), (6, 1000));
}

#[test]
fn brand_list_len_and_emptiness() {
    let brands = CompatibleBrands::parse(b"\0\0\0\x10ftypheic\0\0\0\0").unwrap();
    assert!(brands.is_empty());
    assert_eq!(brands.len(), 0);
    let brands = CompatibleBrands::parse(b"\0\0\0\x16ftypheic\0\0\0\0mif1xy").unwrap();
    assert_eq!(brands.len(), 1);
    assert!(!brands.contains(fourcc(*b"heic")));
}

#[test]
fn unsupported_brands_are_refused() {
    let e = has_compatible_filetype(b"\0\0\0\x14ftypabcd\0\0\0\0wxyz").unwrap_err();
    assert_eq!((e.code, e.subcode), (2, 3001));
    assert!(has_compatible_filetype(b"\0\0\0\x14ftypabcd\0\0\0\0isom").is_ok());
    assert!(has_compatible_filetype(b"\0\0\0\x10ftypmif2\0\0\0\0").is_ok());
}

#[test]
fn file_type_and_brands() {
    assert_eq!(check_filetype(b"\0\0\0\x10ftyp"), FileType::Maybe);
    assert_eq!(check_filetype(b"\0\0\0\x10moovheic"), FileType::No);
    assert_eq!(check_filetype(b"\0\0\0\x10ftypavif"), FileType::Supported);
    assert_eq!(check_filetype(b"\0\0\0\x10ftypmif1"), FileType::Maybe);
    assert_eq!(check_filetype(b"\0\0\0\x10ftypqwer"), FileType::Unsupported);
    assert_eq!(to_brand(*b"he\0c"), 0);
    assert_eq!(to_brand(*b"heic"), 0x6865_6963);
    assert_eq!(main_brand(b"\0\0\0\x10ftypheic"), fourcc(*b"heic"));
    assert_eq!(main_brand(b"\0\0\0\x10ftyphei"), 0);
    assert_eq!(minor_version_brand(b"\0\0\0\x10ftypheicmif1"), fourcc(*b"mif1"));
    assert_eq!(legacy_brand(b"\0\0\0\x10ftypj2is"), 18);
    assert_eq!(legacy_brand(b"\0\0\0\x10ftypzzzz"), 0);
}

#[test]
fn jpeg_and_mime_detection() {
    assert_eq!(check_jpeg(&[0xff, 0xd8, 0xff]), -1);
    assert_eq!(check_jpeg(&[0xff, 0xd8, 0xff, 0xe1]), 1);
    assert_eq!(check_jpeg(&[0xff, 0xd8, 0xff, 0xd1]), 0);
    assert_eq!(mime_type(b"\0\0\0\x10ftypavis"), "image/avif-sequence");
    assert_eq!(mime_type(b"\0\0\0\x14ftypmif3heix"), "image/heic");
    assert_eq!(mime_type(b"\0\0\0\x14ftypmif3zzzz"), "image/heif");
    assert_eq!(
        mime_type(&[0xff, 0xd8, 0xff, 0xe0, 0, 0x10, b'J', b'F', b'I', b'F', 0, 1]),
        "image/jpeg"
    );
    assert_eq!(mime_type(b"\x89PNG\r\n\x1a\nrest"), "image/png");
    assert_eq!(mime_type(b"nothing"), "");
}
