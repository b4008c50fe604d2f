use libheifer::htj2k::{diagnostics, Settings, CPRL, LRCP, PCRL, RPCL};
use libheifer::htj2k::{
    rev_lift, sot, terminate_mel_vlc, uvlc, BitWriter, EncodeError, Mel, Ms, Uvlc, Vlc,
};

#[test]
fn mel_runs_and_terminations() {
    let mut m = Mel::new();
    for b in [0, 0, 1, 0, 0, 0, 0, 1, 1, 0, 1, 0, 0, 0, 0, 0, 0, 0, 0, 0, 1, 1, 1, 1] {
        m.encode(b == 1).unwrap();
    }
    assert_eq!(m.buf, vec![220, 39, 160]);
    assert_eq!((m.remaining_bits, m.tmp, m.run, m.k), (6, 0, 0, 2));
}

#[test]
fn mel_buffer_limit() {
    let mut m = Mel::new();
    let mut result = Ok(());
    for _ in 0..10_000 {
        result = m.encode(true);
        if result.is_err() {
            break;
        }
    }
    assert_eq!(result, Err(EncodeError::Unsupported));
    assert_eq!(m.buf.len(), 192);
}

#[test]
fn vlc_bit_stuffing() {
    let mut v = Vlc::new();
    for (cw, l) in [(5, 3), (0x1ff, 9), (0, 4), (0x7f, 7), (3, 2), (0xaa, 8)] {
        v.encode(cw, l).unwrap();
    }
    assert_eq!(v.buf, vec![255, 223, 127, 225, 191]);
    assert_eq!((v.used_bits, v.tmp, v.last_greater_than_8f), (6, 42, true));
    assert_eq!(v.pos(), 5);
}

#[test]
fn magsgn_bytes_and_termination() {
    let mut ms = Ms::new();
    for (cw, l) in [(0xff, 8), (0x3, 2), (0x1234, 13), (1, 1)] {
        ms.encode(cw, l);
    }
    assert_eq!(ms.buf, vec![255, 83, 145]);
    assert_eq!((ms.max_bits, ms.used_bits, ms.tmp), (8, 1, 1));
    ms.terminate();
    assert_eq!(ms.buf, vec![255, 83, 145]);
}

#[test]
fn mel_and_vlc_fuse() {
    let mut m = Mel::new();
    m.encode(false).unwrap();
    let mut v = Vlc::new();
    v.encode(0x15, 5).unwrap();
    terminate_mel_vlc(&mut m, &mut v).unwrap();
    assert_eq!(m.buf, vec![129]);
    assert_eq!(v.buf, vec![255, 95]);
    let mut m = Mel::new();
    let mut v = Vlc::new();
    terminate_mel_vlc(&mut m, &mut v).unwrap();
    assert_eq!(m.buf, vec![0]);
    assert_eq!(v.buf, vec![255, 15]);
}

#[test]
fn uvlc_table() {
    assert_eq!(uvlc(0), Uvlc { pre: 0, pre_len: 0, suf: 0, suf_len: 0 });
    assert_eq!(uvlc(3), Uvlc { pre: 4, pre_len: 3, suf: 0, suf_len: 1 });
    assert_eq!(uvlc(4), Uvlc { pre: 4, pre_len: 3, suf: 1, suf_len: 1 });
    assert_eq!(uvlc(20), Uvlc { pre: 0, pre_len: 3, suf: 15, suf_len: 5 });
    assert_eq!(uvlc(38), Uvlc { pre: 0, pre_len: 3, suf: 29, suf_len: 5 });
}

#[test]
fn packet_header_bits() {
    let mut bw = BitWriter::new();
    bw.put_bits(0x1ff, 9);
    bw.put_bit(1);
    bw.put_bits(0x7f, 7);
    bw.put_bits(0xabc, 12);
    bw.terminate();
    assert_eq!(bw.out, vec![255, 127, 234, 240]);
}

#[test]
fn reversible_lifting() {
    let (mut lo, mut hi) = (vec![10, 20, 30, 40], vec![5, -7, 12]);
    rev_lift(&mut lo, &mut hi, true);
    assert_eq!((lo, hi), (vec![5, 10, 16, 29], vec![-10, -32, -23]));
    let (mut lo, mut hi) = (vec![1, -3, 8], vec![4, 6, -9]);
    rev_lift(&mut lo, &mut hi, false);
    assert_eq!((lo, hi), (vec![4, -4, 3], vec![3, 7, -11]));
}

#[test]
fn tile_part_marker() {
    let mut out = vec![1];
    sot(&mut out, 0x0102, 0x10, 3, 4);
    assert_eq!(out, vec![1, 0xff, 0x90, 0x00, 0x0a, 1, 2, 0, 0, 0, 0x1e, 3, 4, 0xff, 0x93]);
}

#[test]
fn diagnostics_follow_progression_and_tile_parts() {
    let base = |progression: u8, res: bool, comp: bool| Settings {
        reversible: true,
        num_decompositions: 5,
        progression,
        log_block: (6, 6),
        tile_size: (0, 0),
        tilepart_resolutions: res,
        tilepart_components: comp,
        tlm: false,
        comment: b"",
    };
    assert!(diagnostics(&base(LRCP, false, false)).is_empty());
    let d = diagnostics(&base(LRCP, false, true));
    assert_eq!(d.len(), 1);
    assert!(d[0].starts_with("ojph info 0x00030021"));
    assert!(d[0].ends_with("component.\n\n"));
    assert!(diagnostics(&base(LRCP, true, true)).is_empty());
    let d = diagnostics(&base(RPCL, true, true));
    assert_eq!(d.len(), 1);
    assert!(d[0].starts_with("ojph warning 0x00030021 at ojph_codestream_local.cpp:595"));
    let d = diagnostics(&base(PCRL, true, false));
    assert_eq!(d.len(), 1);
    assert!(d[0].contains("tile parts.  This has been corrected"));
    let d = diagnostics(&base(CPRL, true, true));
    assert_eq!(d.len(), 1);
    assert!(d[0].starts_with("ojph warning 0x00030023"));
}
