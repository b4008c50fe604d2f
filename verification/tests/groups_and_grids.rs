use libheifer::derived::Grid;
use libheifer::entity_groups::{parse_group, EntityGroups};

#[test]
fn alternative_group_members_in_order() {
    let data = [0, 0, 0, 0, 0, 0, 0, 7, 0, 0, 0, 2, 0, 0, 0, 1, 0, 0, 0, 3];
    let g = parse_group(*b"altr", &data, 0).unwrap().unwrap();
    assert_eq!((g.id, g.entities.clone()), (7, vec![1, 3]));
    assert_eq!(g.kind, u32::from_be_bytes(*b"altr"));
    assert!(parse_group(*b"xxxx", &data, 0).unwrap().is_none());
    assert!(EntityGroups::new().groups.is_empty());
}

#[test]
fn group_failures() {
    assert_eq!(parse_group(*b"altr", &[0, 0], 0).err().unwrap().subcode, 100);
    let data = [0, 0, 0, 0, 0, 0, 0, 7, 0, 0, 0, 3, 0, 0, 0, 1];
    let e = parse_group(*b"ster", &data, 0).err().unwrap();
    assert_eq!(e.subcode, 100);
    assert_eq!(
        e.message,
        "Invalid input: Unexpected end of file: entity group box should contain 3 entities, but we can only read 1 entities."
    );
    let data = [0, 0, 0, 0, 0, 0, 0, 7, 0, 0, 0, 1, 0, 0, 0, 1];
    assert_eq!(parse_group(*b"ster", &data, 0).err().unwrap().subcode, 101);
    let data = [0, 0, 0, 0, 0, 0, 0, 7, 0, 0, 0, 2, 0, 0, 0, 1, 0, 0, 0, 2];
    assert_eq!(parse_group(*b"altr", &data, 1).err().unwrap().subcode, 1000);
    // A failed pyramid group is ignored.
    assert!(parse_group(*b"pymd", &[0], 0).unwrap().is_none());
}

#[test]
fn grid_records() {
    let g = Grid::parse(&[0, 0, 1, 2, 1, 0, 0, 200]).unwrap();
    assert_eq!(g, Grid { rows: 2, columns: 3, width: 256, height: 200 });
    let g = Grid::parse(&[0, 1, 0, 0, 0, 1, 0, 0, 0, 0, 0, 9]).unwrap();
    assert_eq!((g.width, g.height), (65536, 9));
    assert_eq!(Grid::parse(&[0, 1, 0, 0, 0, 1, 0, 0]).err().unwrap().subcode, 118);
    assert_eq!(Grid::parse(&[0; 7]).err().unwrap().subcode, 118);
    let e = Grid::parse(&[3, 0, 0, 0, 0, 0, 0, 0]).err().unwrap();
    assert_eq!((e.code, e.subcode), (4, 3002));
    assert_eq!(e.message, "Unsupported feature: Unsupported data version: Grid image version 3 is not supported");
}
