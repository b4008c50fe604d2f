use libheifer::hevc_config::{coded_size, EncoderConfiguration};

const SPS: [u8; 19] = [
    0x42, 0x01, 0x01, 0x01, 0x60, 0, 0, 0, 0x90, 0, 0, 0, 0, 0, 0x5d, 0xa0, 0x20, 0x83, 0x17,
];

fn record(arrays: &[(u8, &[&[u8]])]) -> Vec<u8> {
    let mut out = vec![0u8; 22];
    out.push(arrays.len() as u8);
    for (kind, units) in arrays {
        out.push(*kind);
        out.extend_from_slice(&(units.len() as u16).to_be_bytes());
        for unit in *units {
            out.extend_from_slice(&(unit.len() as u16).to_be_bytes());
            out.extend_from_slice(unit);
        }
    }
    out
}

#[test]
fn coded_size_reads_the_first_sps() {
    let config = record(&[(0x20, &[&[0x40, 0x01, 0xff]]), (0x21, &[&SPS])]);
    assert_eq!(coded_size(&config).unwrap(), Some((64, 48)));
    // No SPS: no size.
    let config = record(&[(0x20, &[&[0x40, 0x01]])]);
    assert_eq!(coded_size(&config).unwrap(), None);
    // An empty SPS is passed over.
    let config = record(&[(0x21, &[&[], &SPS])]);
    assert_eq!(coded_size(&config).unwrap(), Some((64, 48)));
}

#[test]
fn coded_size_reports_truncation_and_bad_values() {
    assert_eq!(coded_size(&[0u8; 22]).unwrap_err().subcode, 100);
    let mut config = record(&[(0x21, &[&SPS])]);
    config.truncate(config.len() - 1);
    assert_eq!(coded_size(&config).unwrap_err().subcode, 100);
    // chroma_format_idc 4 is refused.
    let mut bad = SPS.to_vec();
    bad[15] = 0b1001_0100;
    let config = record(&[(0x21, &[&bad])]);
    let e = coded_size(&config).unwrap_err();
    assert_eq!(e.subcode, 2006);
    assert_eq!(e.message, "Invalid input: Invalid parameter value: SPS chroma_format_idc out of range");
}

#[test]
fn encoder_configuration_collects_parameter_sets() {
    let mut c = EncoderConfiguration::new();
    assert_eq!(c.update(&[]).unwrap(), false);
    assert_eq!(c.update(&[0x26, 0x01, 0xaf]).unwrap(), false);
    assert_eq!(c.update(&[0x40, 0x01, 0x0c, 0x01]).unwrap(), true);
    assert_eq!(c.update(&SPS).unwrap(), true);
    assert_eq!(c.size, (64, 48));
    assert_eq!(c.header[0], 1);
    assert_eq!(c.header[1], 0x01);
    assert_eq!(&c.header[2..6], &[0x60, 0, 0, 0]);
    assert_eq!(c.header[12], 0x5d);
    assert_eq!(c.header[21], 15);
    // A unit agreeing with a stored one on their common length keeps the shorter.
    assert_eq!(c.update(&[0x40, 0x01, 0x0c]).unwrap(), true);
    assert_eq!(c.arrays.len(), 2);
    assert_eq!(c.arrays[0].1, vec![vec![0x40, 0x01, 0x0c]]);
    let mut out = Vec::new();
    c.write_into(&mut out).unwrap();
    assert_eq!(&out[..22], &c.header);
    assert_eq!(out[22], 2);
    assert_eq!(&out[23..31], &[0x60, 0, 1, 0, 3, 0x40, 0x01, 0x0c]);
    assert_eq!(out.len(), 31 + 3 + 2 + SPS.len());
}

#[test]
fn hevc_property_carries_the_record() {
    let c = EncoderConfiguration::new();
    let mut out = Vec::new();
    c.write_into(&mut out).unwrap();
    let p = c.property();
    assert!(!p.raw && p.uuid.is_none());
    let (kind, data, error) = (p.kind, p.data, p.write_error);
    assert_eq!(kind, u32::from_be_bytes(*b"hvcC"));
    assert_eq!(data, out);
    assert!(error.is_none());
}
