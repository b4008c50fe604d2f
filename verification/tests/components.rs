use libheifer::components::{ComponentIds, Description};

fn description(kind: u16) -> Description {
    Description {
        id: 0,
        channel: 0,
        kind,
        datatype: 0,
        bit_depth: 8,
        width: 4,
        height: 2,
        has_data: false,
        content_id: Vec::new(),
    }
}

#[test]
fn find_mut_changes_the_described_component() {
    let mut ids = ComponentIds::new();
    let a = ids.add(description(1)).ok().unwrap();
    let b = ids.add(description(2)).ok().unwrap();
    ids.find_mut(b).unwrap().width = 9;
    assert_eq!(ids.find(b).unwrap().width, 9);
    assert_eq!(ids.find(a).unwrap().width, 4);
    assert!(ids.find_mut(77).is_none());
}
