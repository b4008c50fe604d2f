use libheifer::decoding::{codec_configuration, unsupported_conversion};
use libheifer::container::{Container, ParseError};

fn bx(kind: &[u8; 4], body: &[u8]) -> Vec<u8> {
    let mut out = ((body.len() + 8) as u32).to_be_bytes().to_vec();
    out.extend_from_slice(kind);
    out.extend_from_slice(body);
    out
}

fn full(kind: &[u8; 4], version: u8, flags: u32, body: &[u8]) -> Vec<u8> {
    let mut b = vec![version];
    b.extend_from_slice(&flags.to_be_bytes()[1..]);
    b.extend_from_slice(body);
    bx(kind, &b)
}

fn infe(id: u16, kind: &[u8; 4], flags: u32, rest: &[u8]) -> Vec<u8> {
    let mut b = id.to_be_bytes().to_vec();
    b.extend_from_slice(&[0, 0]);
    b.extend_from_slice(kind);
    b.extend_from_slice(rest);
    full(b"infe", 2, flags, &b)
}

fn fourcc(k: &[u8; 4]) -> u32 {
    u32::from_be_bytes(*k)
}

/// A file with an HEVC image (1), a hidden Exif item (2) and an XMP item (3)
/// stored in `idat`. `mdat_at` is where the image data starts.
fn sample(pitm: bool, ipma_index: u8) -> (Vec<u8>, usize) {
    let ftyp = bx(b"ftyp", b"heic\0\0\0\0mif1heic");
    let mut iinf_body = vec![0, 3];
    iinf_body.extend(infe(1, b"hvc1", 0, b"img\0"));
    iinf_body.extend(infe(2, b"Exif", 1, b"\0"));
    iinf_body.extend(infe(3, b"mime", 0, b"\0application/rdf+xml\0"));
    let iinf = full(b"iinf", 0, 0, &iinf_body);
    let mut hvcc = vec![1u8];
    hvcc.extend_from_slice(&[0; 20]);
    hvcc.push(3);
    hvcc.push(1);
    hvcc.extend_from_slice(&[0x20, 0, 1, 0, 3, 0x40, 0x01, 0x0c]);
    let ispe = full(b"ispe", 0, 0, &[0, 0, 0, 64, 0, 0, 0, 48]);
    let ipco = bx(b"ipco", &[bx(b"hvcC", &hvcc), ispe].concat());
    let ipma = full(b"ipma", 0, 0, &[0, 0, 0, 1, 0, 1, 2, 0x81, ipma_index]);
    let iprp = bx(b"iprp", &[ipco, ipma].concat());
    let iref = full(b"iref", 0, 0, &[bx(b"cdsc", &[0, 3, 0, 1, 0, 1]), bx(b"thmb", &[0, 2, 0, 1, 0, 1])].concat());
    let idat = bx(b"idat", b"xmp");
    let mdat_payload = [0u8, 0, 0, 2, 0x26, 0x01];
    // The iloc is written twice: once to learn the layout, once with the offset.
    let build = |offset: u32| {
        let mut iloc_body = vec![0x44, 0x00, 0, 2];
        iloc_body.extend_from_slice(&[0, 1, 0, 0, 0, 0, 0, 1]);
        iloc_body.extend_from_slice(&offset.to_be_bytes());
        iloc_body.extend_from_slice(&(mdat_payload.len() as u32).to_be_bytes());
        iloc_body.extend_from_slice(&[0, 3, 0, 1, 0, 0, 0, 1, 0, 0, 0, 0, 0, 0, 0, 3]);
        let iloc = full(b"iloc", 1, 0, &iloc_body);
        let pitm_box = full(b"pitm", 0, 0, &[0, 1]);
        let mut meta_body = Vec::new();
        if pitm {
            meta_body.extend(pitm_box);
        }
        meta_body.extend(iinf.clone());
        meta_body.extend(iloc);
        meta_body.extend(iprp.clone());
        meta_body.extend(iref.clone());
        meta_body.extend(idat.clone());
        let meta = full(b"meta", 0, 0, &meta_body);
        let mut file = ftyp.clone();
        file.extend(meta);
        let at = file.len() + 8;
        file.extend(bx(b"mdat", &mdat_payload));
        (file, at)
    };
    let (_, at) = build(0);
    build(at as u32)
}

#[test]
fn parses_items_properties_and_references() {
    let (file, at) = sample(true, 2);
    let c = Container::parse(&file).unwrap();
    assert_eq!(c.primary, 1);
    assert_eq!(c.items.len(), 3);
    let image = &c.items[&1];
    assert_eq!(image.kind, fourcc(b"hvc1"));
    assert_eq!(image.name, b"img".to_vec());
    assert!(!image.hidden);
    assert_eq!(image.properties, vec![0, 1]);
    assert_eq!(image.extents, vec![(false, at, at + 6)]);
    assert!(c.items[&2].hidden);
    assert_eq!(c.items[&3].content_type, b"application/rdf+xml".to_vec());
    assert!(c.items[&3].content_encoding.is_empty());
    assert_eq!(c.items[&3].references[&fourcc(b"cdsc")], vec![1]);
    assert_eq!(c.items[&2].references[&fourcc(b"thmb")], vec![1]);
    assert_eq!(c.properties.len(), 2);
    assert_eq!(c.idat, Some(&b"xmp"[..]));
}

#[test]
fn item_data_and_units() {
    let (file, _) = sample(true, 2);
    let c = Container::parse(&file).unwrap();
    assert_eq!(c.dimensions(1).unwrap(), (64, 48));
    assert_eq!(c.payload(1).unwrap(), vec![0, 0, 0, 2, 0x26, 0x01]);
    assert_eq!(c.payload(3).unwrap(), b"xmp".to_vec());
    assert_eq!(c.hevc_nals(1).unwrap(), vec![vec![0x40, 0x01, 0x0c], vec![0x26, 0x01]]);
    assert_eq!(c.hevc_nals(3).unwrap_err(), ParseError::Unsupported);
    assert_eq!(c.hevc_nals(9).unwrap_err(), ParseError::MissingItem);
    assert_eq!(c.property(1, fourcc(b"colr")).unwrap_err(), ParseError::MissingProperty);
    assert_eq!(c.property(3, fourcc(b"ispe")).unwrap_err(), ParseError::MissingProperty);
    let props = c.properties(1).unwrap();
    assert_eq!(props.len(), 2);
    assert_eq!(props[0].0, fourcc(b"hvcC"));
    assert_eq!(props[1].0, fourcc(b"ispe"));
    assert_eq!(c.properties(7).unwrap_err(), ParseError::MissingItem);
}

#[test]
fn top_level_images_skip_hidden_and_metadata() {
    let (file, _) = sample(true, 2);
    let c = Container::parse(&file).unwrap();
    let ids: Vec<u32> = c.top_level_images().iter().map(|i| i.id).collect();
    assert_eq!(ids, vec![1]);
}

#[test]
fn container_failures() {
    let (file, _) = sample(false, 2);
    assert_eq!(Container::parse(&file).unwrap_err(), ParseError::MissingProperty);
    let (file, _) = sample(true, 3);
    assert_eq!(Container::parse(&file).unwrap_err(), ParseError::MissingProperty);
    let (file, _) = sample(true, 2);
    assert_eq!(Container::parse(&file[24..]).unwrap_err(), ParseError::InvalidField);
    assert_eq!(Container::parse(&bx(b"ftyp", b"heic")).unwrap_err(), ParseError::MissingItem);
    let meta = full(b"meta", 1, 0, &[]);
    let file = [bx(b"ftyp", b"heic"), meta].concat();
    assert_eq!(Container::parse(&file).unwrap_err(), ParseError::Unsupported);
    // An iinf count that does not match its entries.
    let iinf = full(b"iinf", 0, 0, &[0, 2]);
    let meta = full(b"meta", 0, 0, &[full(b"pitm", 0, 0, &[0, 1]), iinf].concat());
    let file = [bx(b"ftyp", b"heic"), meta].concat();
    assert_eq!(Container::parse(&file).unwrap_err(), ParseError::InvalidField);
}

#[test]
fn codec_configuration_prefixes_parameter_sets() {
    let (file, _) = sample(true, 1);
    let c = Container::parse(&file).unwrap();
    assert_eq!(codec_configuration(&c, 1, 1).unwrap(), vec![0, 0, 0, 3, 0x40, 0x01, 0x0c]);
    assert_eq!(codec_configuration(&c, 1, 3).unwrap(), Vec::<u8>::new());
    assert_eq!(codec_configuration(&c, 1, 7).unwrap(), Vec::<u8>::new());
    let e = codec_configuration(&c, 1, 4).err().unwrap();
    assert_eq!((e.code, e.subcode, e.message.as_str()), (2, 0, "Invalid input: Unspecified"));
    let e = codec_configuration(&c, 9, 1).err().unwrap();
    assert_eq!((e.code, e.subcode), (2, 0));
    let e = unsupported_conversion();
    assert_eq!((e.code, e.subcode, e.message.as_str()), (4, 3003, "Unsupported feature: Unsupported color conversion"));
}
