use libheifer::input::{RangeAction, RangeReader, RangeStage, Snapshot, SnapshotReader, Stage};

fn bx(kind: &[u8; 4], body: &[u8]) -> Vec<u8> {
    let mut out = ((body.len() + 8) as u32).to_be_bytes().to_vec();
    out.extend_from_slice(kind);
    out.extend_from_slice(body);
    out
}

fn run(file: &[u8]) -> (Snapshot, usize) {
    let mut reader = SnapshotReader::new(file.len() as u64);
    let mut steps = 0;
    while let Some((offset, size)) = reader.request() {
        let data = &file[offset as usize..(offset + size) as usize];
        reader.feed(data);
        steps += 1;
        assert!(steps < 100);
    }
    (reader.finish(), steps)
}

fn sample() -> Vec<u8> {
    let mut file = bx(b"ftyp", b"heic\0\0\0\0mif1heic");
    file.extend(bx(b"free", &[7u8; 40]));
    file.extend(bx(b"meta", &[9u8; 40]));
    file.extend(bx(b"mdat", &[1u8; 50]));
    file
}

#[test]
fn keeps_headers_and_metadata_with_their_offsets() {
    let file = sample();
    let (snap, steps) = run(&file);
    assert_eq!(steps, 6);
    assert_eq!(snap.length, file.len() as u64);
    // ftyp whole, free as a 32-byte header saying 32, meta whole, mdat header
    assert_eq!(snap.regions, vec![(0, 0, 24), (24, 24, 32), (56, 72, 48), (104, 120, 32)]);
    assert_eq!(&snap.bytes[0..24], &file[0..24]);
    assert_eq!(&snap.bytes[24..28], &[0, 0, 0, 32]);
    assert_eq!(&snap.bytes[28..56], &file[28..56]);
    assert_eq!(&snap.bytes[56..104], &file[72..120]);
    assert_eq!(&snap.bytes[104..108], &[0, 0, 0, 32]);
    assert_eq!(snap.original_offset(0), 0);
    assert_eq!(snap.original_offset(30), 30);
    assert_eq!(snap.original_offset(60), 76);
    assert_eq!(snap.original_offset(110), 126);
    assert_eq!(snap.original_offset(500), 500);
}

#[test]
fn a_file_without_ftyp_keeps_its_prefix_only() {
    let mut file = bx(b"free", &[0u8; 40]);
    file.extend(bx(b"meta", &[0u8; 8]));
    let (snap, steps) = run(&file);
    assert_eq!(steps, 1);
    assert_eq!(snap.regions, vec![(0, 0, 32)]);
    assert_eq!(snap.bytes, file[0..32].to_vec());
}

#[test]
fn a_short_tail_is_kept_as_it_is() {
    let mut file = bx(b"ftyp", b"heic\0\0\0\0mif1heic");
    file.extend_from_slice(&[1, 2, 3, 4, 5]);
    file.extend(vec![0u8; 20]);
    let (snap, _) = run(&file);
    assert_eq!(snap.regions, vec![(0, 0, 24), (24, 24, 25)]);
    assert_eq!(snap.bytes, file);
}

#[test]
fn a_metadata_box_past_the_end_stops_reading() {
    let mut file = bx(b"ftyp", b"heic\0\0\0\0mif1heic");
    let mut meta = bx(b"meta", &[0u8; 40]);
    meta[3] = 200;
    file.extend(meta);
    let (snap, _) = run(&file);
    assert_eq!(snap.regions, vec![(0, 0, 24), (24, 24, 32)]);
}

#[test]
fn stages_advance() {
    let file = sample();
    let mut reader = SnapshotReader::new(file.len() as u64);
    assert_eq!(reader.stage, Stage::Start);
    assert_eq!(reader.request(), Some((0, 32)));
    reader.feed(&file[0..32]);
    assert_eq!(reader.stage, Stage::First);
    assert_eq!(reader.request(), Some((0, 24)));
    reader.feed(&file[0..24]);
    assert_eq!(reader.stage, Stage::Prefix);
    assert_eq!(reader.request(), Some((24, 32)));
}

fn run_ranges(file: &[u8]) -> Result<Snapshot, libheifer::context::ContextError> {
    let mut reader = RangeReader::new();
    let mut steps = 0;
    loop {
        match reader.action() {
            RangeAction::Request(_, _) => reader.on_range(file.len() as u64),
            RangeAction::Take(offset, size) => {
                reader.on_bytes(&file[offset as usize..(offset + size) as usize])
            }
            RangeAction::Done => break,
        }
        steps += 1;
        assert!(steps < 100);
    }
    reader.result()
}

#[test]
fn ranges_keep_headers_and_metadata() {
    let file = sample();
    let snap = run_ranges(&file).ok().unwrap();
    assert_eq!(snap.length, u64::MAX);
    assert_eq!(snap.regions, vec![(0, 0, 24), (24, 24, 32), (56, 72, 48), (104, 120, 32)]);
    assert_eq!(&snap.bytes[56..104], &file[72..120]);
}

#[test]
fn ranges_without_metadata_are_insufficient() {
    let mut file = bx(b"ftyp", b"heic\0\0\0\0mif1heic");
    file.extend(bx(b"free", &[7u8; 40]));
    let e = run_ranges(&file).err().unwrap();
    assert_eq!((e.code, e.subcode), (2, 0));
    assert_eq!(e.message, "Invalid input: Unspecified: Insufficient input data");
}

#[test]
fn ranges_report_an_incomplete_metadata_box() {
    let mut file = bx(b"ftyp", b"heic\0\0\0\0mif1heic");
    let mut meta = bx(b"meta", &[0u8; 40]);
    meta[3] = 200;
    file.extend(meta);
    let e = run_ranges(&file).err().unwrap();
    assert_eq!((e.code, e.subcode), (2, 104));
    assert_eq!(e.message, "Invalid input: No 'meta' box: Cannot read full meta box");
}

#[test]
fn ranges_of_a_tiny_source_are_empty() {
    let mut reader = RangeReader::new();
    assert_eq!(reader.action(), RangeAction::Request(0, 1024));
    reader.on_range(20);
    assert_eq!(reader.state.stage, RangeStage::Finished);
    let snap = reader.result().ok().unwrap();
    assert!(snap.bytes.is_empty());
}

#[test]
fn ranges_of_an_unsized_moov_run_to_the_end() {
    let mut file = bx(b"ftyp", b"heic\0\0\0\0mif1heic");
    let mut moov = bx(b"moov", &[5u8; 40]);
    moov[..4].copy_from_slice(&[0, 0, 0, 0]);
    file.extend(moov);
    let snap = run_ranges(&file).ok().unwrap();
    assert_eq!(snap.regions, vec![(0, 0, 24), (24, 24, 48)]);
}
