use schrom::names::CellNames;

fn names(list: &[&str]) -> CellNames {
    CellNames::new(list.iter().map(|x| x.as_bytes().to_vec()).collect())
}

#[test]
fn cell_name_resolves_to_its_last_place() {
    let cells = names(&["a", "b", "a", "c"]);
    assert_eq!(cells.len(), 4);
    assert_eq!(cells.index_of(b"a"), Some(2));
    assert_eq!(cells.index_of(b"b"), Some(1));
    assert_eq!(cells.index_of(b"c"), Some(3));
    assert_eq!(cells.index_of(b"d"), None);
    assert_eq!(cells.index_of(b""), None);
    assert_eq!(names(&[]).index_of(b"a"), None);
    assert_eq!(names(&["", "x", ""]).index_of(b""), Some(2));
}

#[test]
fn every_name_of_a_long_list_is_found() {
    let list: Vec<Vec<u8>> = (0..5000u32)
        .map(|i| format!("ACGT{:07}TTGA-{}", (i * 7919) % 6000, i % 3).into_bytes())
        .collect();
    let cells = CellNames::new(list.clone());
    for (i, name) in list.iter().enumerate() {
        let last = list.iter().rposition(|other| other == name).unwrap();
        assert!(last >= i);
        assert_eq!(cells.index_of(name), Some(last));
    }
    assert_eq!(cells.index_of(b"ACGT0000000TTGA-9"), None);
    assert_eq!(cells.index_of(b"ACGT0000000TTGA"), None);
}
