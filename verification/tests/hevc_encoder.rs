use libheifer::hevc_encoder::{
    be, boxes, child, cicp_codes, hpvca_qp, nal_units, picture_format, quality_to_hpvca, Picture,
    VuiSignal,
};

fn bx(kind: &[u8; 4], body: &[u8]) -> Vec<u8> {
    let mut out = ((body.len() + 8) as u32).to_be_bytes().to_vec();
    out.extend_from_slice(kind);
    out.extend_from_slice(body);
    out
}

/// A file shaped like hpvca's output: an hvcC with one VPS, and item 1's
/// data holding two length-prefixed units.
fn hpvca_like(extent_len: u32) -> Vec<u8> {
    let mut hvcc = vec![1u8];
    hvcc.extend_from_slice(&[0; 21]);
    hvcc.push(1);
    hvcc.extend_from_slice(&[0x20, 0, 1, 0, 2, 0x40, 0x01]);
    let iprp = bx(b"iprp", &bx(b"ipco", &bx(b"hvcC", &hvcc)));
    let ftyp = bx(b"ftyp", b"heic\0\0\0\0mif1heic");
    let data = [0u8, 0, 0, 2, 0x26, 0x01, 0, 0, 0, 1, 0x02];
    let build = |offset: u32| {
        // iloc version 0: offset and length of 4 bytes, no base, two items,
        // item 2 pointing elsewhere.
        let mut iloc = vec![0u8, 0, 0, 0, 0x44, 0x00, 0, 2];
        iloc.extend_from_slice(&[0, 2, 0, 0, 0, 1, 0, 0, 0, 0, 0, 0, 0, 1]);
        iloc.extend_from_slice(&[0, 1, 0, 0, 0, 1]);
        iloc.extend_from_slice(&offset.to_be_bytes());
        iloc.extend_from_slice(&extent_len.to_be_bytes());
        let mut meta_body = vec![0u8, 0, 0, 0];
        meta_body.extend(iprp.clone());
        meta_body.extend(bx(b"iloc", &iloc));
        let mut file = ftyp.clone();
        file.extend(bx(b"meta", &meta_body));
        let at = file.len() + 8;
        file.extend(bx(b"mdat", &data));
        (file, at)
    };
    let (_, at) = build(0);
    build(at as u32).0
}

#[test]
fn units_of_hpvca_output() {
    let file = hpvca_like(11);
    assert_eq!(nal_units(&file).unwrap(), vec![vec![0x40, 0x01], vec![0x26, 0x01], vec![0x02]]);
}

#[test]
fn hpvca_output_failures() {
    let file = hpvca_like(200);
    assert_eq!(nal_units(&file).unwrap_err(), "hpvca item extent outside the file");
    let file = hpvca_like(10);
    assert_eq!(nal_units(&file).unwrap_err(), "truncated slice");
    assert_eq!(nal_units(&bx(b"ftyp", b"heic")).unwrap_err(), "hpvca output without meta");
    assert_eq!(nal_units(&bx(b"meta", &[0, 0])).unwrap_err(), "truncated meta");
}

#[test]
fn box_helpers() {
    let data = [bx(b"free", &[1, 2]), bx(b"skip", &[])].concat();
    let b = boxes(&data);
    assert_eq!(b.len(), 2);
    assert_eq!(b[0].0, u32::from_be_bytes(*b"free"));
    assert_eq!(b[0].1, &[1u8, 2][..]);
    assert_eq!(child(&data, u32::from_be_bytes(*b"skip")).unwrap(), &[] as &[u8]);
    assert_eq!(child(&data, u32::from_be_bytes(*b"mdat")).unwrap_err(), "hpvca output without mdat");
    // A short box ends the list.
    let mut bad = data.clone();
    bad.extend_from_slice(&[0, 0, 0, 4, b'x', b'x', b'x', b'x']);
    assert_eq!(boxes(&bad).len(), 2);
    assert_eq!(be(&[1, 2, 3], 0, 3).unwrap(), 0x010203);
    assert_eq!(be(&[1, 2, 3], 1, 3).unwrap_err(), "truncated hpvca output");
    let nine = [9, 1, 2, 3, 4, 5, 6, 7, 8];
    assert_eq!(be(&nine, 0, 9).unwrap(), 0x0102030405060708);
}

#[test]
fn quality_tracks_x265_crf() {
    assert_eq!(hpvca_qp(100), 10);
    assert_eq!(hpvca_qp(0), 51);
    assert_eq!(hpvca_qp(1), 51);
    assert_eq!(hpvca_qp(50), 30);
    let expected = [(-5, 5), (0, 5), (1, 5), (2, 8), (30, 42), (50, 66), (75, 95), (90, 100), (99, 100), (100, 100), (150, 100)];
    for (q, hp) in expected {
        assert_eq!(quality_to_hpvca(q), hp, "quality {q}");
    }
}

#[test]
fn colour_descriptions_hpvca_knows() {
    let vui = VuiSignal { full_range: true, description: Some((1, 13, 6)) };
    assert_eq!(cicp_codes(&vui), Some((1, 13, 6, true)));
    assert_eq!(cicp_codes(&VuiSignal { full_range: false, description: Some((3, 13, 6)) }), None);
    assert_eq!(cicp_codes(&VuiSignal { full_range: false, description: Some((22, 18, 3)) }), None);
    assert_eq!(cicp_codes(&VuiSignal { full_range: false, description: Some((22, 18, 0)) }), Some((22, 18, 0, false)));
    assert_eq!(cicp_codes(&VuiSignal::default()), None);
}

#[test]
fn picture_checks() {
    let y = [0u16; 4];
    let p = Picture { width: 2, height: 2, bit_depth: 10, chroma: 0, planes: [&y, &[], &[]] };
    assert_eq!(picture_format(&p).unwrap(), (0, 10));
    let p = Picture { width: 2, height: 2, bit_depth: 9, chroma: 1, planes: [&y, &[], &[]] };
    assert_eq!(picture_format(&p).unwrap_err(), "unsupported bit depth");
    let p = Picture { width: 2, height: 2, bit_depth: 8, chroma: 4, planes: [&y, &[], &[]] };
    assert_eq!(picture_format(&p).unwrap_err(), "unsupported chroma format");
}
