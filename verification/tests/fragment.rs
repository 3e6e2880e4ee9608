use schrom::anchors::AnchorWeights;
use schrom::fragment::parse_fragment_line;
use schrom::fragment::redistribute;
use schrom::fragment::FragmentError;
use schrom::fragment::FragmentFields;
use schrom::record::Record;
use schrom::text::Span;

fn span(start: usize, end: usize) -> Span {
    Span { start, end }
}

#[test]
fn fragment_line_gives_positions_barcode_and_library() {
    assert_eq!(
        parse_fragment_line(b"chr1\t1000\t1200\tACGTACGTACGTACGT-1\t3"),
        Ok(FragmentFields { start: 1000, end: 1200, barcode: span(15, 31), suffix: 1 })
    );
    assert_eq!(
        parse_fragment_line(b"chr1 1 2 ACGT-2-1"),
        Ok(FragmentFields { start: 1, end: 2, barcode: span(9, 13), suffix: 2 })
    );
    assert_eq!(
        parse_fragment_line(b"chrX 0 4294967295 -1"),
        Ok(FragmentFields { start: 0, end: 4_294_967_295, barcode: span(18, 18), suffix: 1 })
    );
}

#[test]
fn malformed_fragment_lines_are_refused() {
    assert_eq!(parse_fragment_line(b""), Err(FragmentError::FieldCount));
    assert_eq!(parse_fragment_line(b"chr1 1 2"), Err(FragmentError::FieldCount));
    assert_eq!(parse_fragment_line(b"chr1 x 2 A-1"), Err(FragmentError::BadCoordinate));
    assert_eq!(parse_fragment_line(b"chr1 1 -2 A-1"), Err(FragmentError::BadCoordinate));
    assert_eq!(parse_fragment_line(b"chr1 1 4294967296 A-1"), Err(FragmentError::BadCoordinate));
    assert_eq!(parse_fragment_line(b"chr1 1 2 ACGT"), Err(FragmentError::MissingSuffix));
    assert_eq!(parse_fragment_line(b"chr1 1 2 ACGT-3"), Err(FragmentError::BadSuffix));
    assert_eq!(parse_fragment_line(b"chr1 1 2 ACGT-0"), Err(FragmentError::BadSuffix));
    assert_eq!(parse_fragment_line(b"chr1 1 2 ACGT-"), Err(FragmentError::BadSuffix));
    assert_eq!(parse_fragment_line(b"chr1 1 2 ACGT-x"), Err(FragmentError::BadSuffix));
}

fn table() -> AnchorWeights<f64> {
    let mut table = AnchorWeights::new(3);
    table.insert(10, 0, 0.5).unwrap();
    table.insert(10, 1, 0.25).unwrap();
    table.insert(11, 1, 1.0).unwrap();
    table.insert(12, 1, 0.75).unwrap();
    table.insert(12, 2, 0.1).unwrap();
    table
}

#[test]
fn record_starts_one_below_the_first_position() {
    let anchors = table();
    let fields = FragmentFields { start: 1000, end: 1200, barcode: span(0, 0), suffix: 1 };
    let record = Record::from_fields(&fields, 10, &anchors).unwrap().unwrap();
    assert_eq!(record.range(), &(999..1200));
    assert_eq!(record.id(), 10);
    let first = FragmentFields { start: 1, end: 1, barcode: span(0, 0), suffix: 2 };
    let record = Record::from_fields(&first, 12, &anchors).unwrap().unwrap();
    assert_eq!(record.range(), &(0..1));
}

#[test]
fn fragment_of_an_unknown_barcode_is_dropped() {
    let anchors = table();
    let fields = FragmentFields { start: 1000, end: 1200, barcode: span(0, 0), suffix: 1 };
    assert!(Record::from_fields(&fields, 13, &anchors).unwrap().is_none());
    let zero = FragmentFields { start: 0, end: 5, barcode: span(0, 0), suffix: 1 };
    assert!(Record::from_fields(&zero, 13, &anchors).unwrap().is_none());
}

#[test]
fn first_position_zero_is_refused() {
    let anchors = table();
    let zero = FragmentFields { start: 0, end: 5, barcode: span(0, 0), suffix: 1 };
    assert!(matches!(Record::from_fields(&zero, 10, &anchors), Err(FragmentError::ZeroStart)));
}

fn summary(list: &schrom::record::CellRecords<schrom::fragment::Share<f64>>) -> Vec<(u32, u32, f64, usize)> {
    list.records()
        .iter()
        .map(|r| (r.range().start, r.range().end, r.id().weight, r.id().sharers))
        .collect()
}

#[test]
fn each_cell_gets_the_weight_and_the_number_of_sharers() {
    let anchors = table();
    let records = vec![
        Record::new_with_id(&(0..10), 10u64),
        Record::new_with_id(&(5..15), 99u64),
        Record::new_with_id(&(20..30), 12u64),
        Record::new_with_id(&(1..2), 10u64),
        Record::new_with_id(&(7..8), 11u64),
    ];
    let cells = redistribute(&anchors, &records);
    assert_eq!(cells.len(), 3);
    assert_eq!(summary(&cells[0]), vec![(0, 10, 0.5, 1), (1, 2, 0.5, 1)]);
    assert_eq!(
        summary(&cells[1]),
        vec![(0, 10, 0.25, 3), (20, 30, 0.75, 3), (1, 2, 0.25, 3), (7, 8, 1.0, 3)]
    );
    assert_eq!(summary(&cells[2]), vec![(20, 30, 0.1, 1)]);
    let contribution = cells[1].records()[1].id();
    assert_eq!(contribution.weight / contribution.sharers as f64, 0.25);
}

#[test]
fn nothing_is_handed_out_without_fragments_or_anchors() {
    let anchors = table();
    let cells = redistribute(&anchors, &Vec::new());
    assert_eq!(cells.len(), 3);
    assert!(cells.iter().all(|c| c.records().is_empty()));
    let empty: AnchorWeights<f64> = AnchorWeights::new(2);
    let cells = redistribute(&empty, &vec![Record::new_with_id(&(0..10), 10u64)]);
    assert_eq!(cells.len(), 2);
    assert!(cells.iter().all(|c| c.records().is_empty()));
}
