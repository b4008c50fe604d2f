use libheifer::decoding::{place_tiles, tile_failure_error, TileFailure, TileInfo};

fn tile(w: u32, h: u32) -> TileInfo {
    TileInfo { failed: false, width: w, height: h }
}

fn failed() -> TileInfo {
    TileInfo { failed: true, width: 0, height: 0 }
}

#[test]
fn tiles_are_placed_by_column_and_row() {
    let tiles = vec![tile(64, 64); 4];
    let placed = place_tiles(&tiles, 2, 2, 128, 100, false).ok().unwrap();
    assert_eq!(placed, vec![Some((0, 0)), Some((64, 0)), Some((0, 64)), Some((64, 64))]);
}

#[test]
fn failed_tiles_are_skipped_or_refuse_the_grid() {
    let tiles = vec![tile(64, 64), failed(), tile(64, 64), tile(64, 64)];
    let placed = place_tiles(&tiles, 2, 2, 128, 128, false).ok().unwrap();
    assert_eq!(placed, vec![Some((0, 0)), None, Some((0, 64)), Some((64, 64))]);
    assert!(place_tiles(&tiles, 2, 2, 128, 128, true).err() == Some(TileFailure::Load(1)));
    let first = vec![failed(), tile(64, 64)];
    assert!(place_tiles(&first, 2, 1, 128, 64, false).err() == Some(TileFailure::Load(0)));
}

#[test]
fn tiles_must_cover_and_match() {
    let small = vec![tile(32, 64), tile(32, 64)];
    assert!(place_tiles(&small, 2, 1, 128, 64, false).err() == Some(TileFailure::Cover));
    let mixed = vec![tile(64, 64), tile(64, 32)];
    assert!(place_tiles(&mixed, 2, 1, 128, 32, false).err() == Some(TileFailure::Sizes));
    let e = tile_failure_error(TileFailure::Cover);
    assert_eq!(e.message, "Invalid input: Invalid grid data: Grid tiles do not cover whole image");
    let e = tile_failure_error(TileFailure::Sizes);
    assert_eq!((e.code, e.subcode), (2, 118));
}
