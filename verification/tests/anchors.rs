use schrom::anchors::parse_anchor_line;
use schrom::anchors::AnchorError;
use schrom::anchors::AnchorFields;
use schrom::anchors::AnchorWeights;
use schrom::text::Span;

fn span(start: usize, end: usize) -> Span {
    Span { start, end }
}

fn pairs(table: &AnchorWeights<f64>, barcode: u64) -> Option<Vec<(u32, f64)>> {
    table.row(barcode).map(|(cells, weights)| {
        let mut all: Vec<(u32, f64)> = cells.iter().cloned().zip(weights.iter().cloned()).collect();
        all.sort_by_key(|p| p.0);
        all
    })
}

#[test]
fn table_keeps_one_weight_per_barcode_and_cell() {
    let mut table: AnchorWeights<f64> = AnchorWeights::new(4);
    assert_eq!(table.num_cells(), 4);
    assert!(!table.contains_key(10));
    assert_eq!(table.insert(10, 2, 0.5), Ok(()));
    assert_eq!(table.insert(10, 0, 0.25), Ok(()));
    assert_eq!(table.insert(11, 2, 1.0), Ok(()));
    assert!(table.contains_key(10));
    assert!(table.contains_key(11));
    assert!(!table.contains_key(12));
    assert_eq!(pairs(&table, 10), Some(vec![(0, 0.25), (2, 0.5)]));
    assert_eq!(pairs(&table, 11), Some(vec![(2, 1.0)]));
    assert_eq!(pairs(&table, 12), None);
}

#[test]
fn later_weight_takes_the_place_of_the_earlier() {
    let mut table: AnchorWeights<f64> = AnchorWeights::new(4);
    table.insert(10, 2, 0.5).unwrap();
    table.insert(10, 2, 0.75).unwrap();
    assert_eq!(pairs(&table, 10), Some(vec![(2, 0.75)]));
    assert_eq!(table.sharers(), vec![0, 0, 1, 0]);
}

#[test]
fn cell_outside_the_table_is_refused() {
    let mut table: AnchorWeights<f64> = AnchorWeights::new(2);
    assert_eq!(table.insert(10, 2, 0.5), Err(AnchorError::OutOfRange));
    assert!(!table.contains_key(10));
    assert_eq!(table.insert(10, 1, 0.5), Ok(()));
    let mut none: AnchorWeights<f64> = AnchorWeights::new(0);
    assert_eq!(none.insert(1, 0, 0.5), Err(AnchorError::OutOfRange));
    assert_eq!(none.sharers(), Vec::<usize>::new());
}

#[test]
fn sharers_count_the_barcodes_of_each_cell() {
    let mut table: AnchorWeights<f64> = AnchorWeights::new(3);
    table.insert(10, 0, 0.5).unwrap();
    table.insert(10, 1, 0.25).unwrap();
    table.insert(11, 1, 1.0).unwrap();
    table.insert(12, 1, 0.75).unwrap();
    table.insert(12, 2, 0.1).unwrap();
    table.insert(11, 1, 0.9).unwrap();
    assert_eq!(table.sharers(), vec![1, 3, 1]);
}

#[test]
fn anchor_line_names_cell_barcode_and_weight() {
    assert_eq!(
        parse_anchor_line(b"cellA\tACGT-1\t0.93"),
        Ok(AnchorFields { cell: span(0, 5), barcode: span(6, 10), suffix: 1, score: span(13, 17) })
    );
    assert_eq!(
        parse_anchor_line(b"c ACGT-200-x 1 more"),
        Ok(AnchorFields { cell: span(0, 1), barcode: span(2, 6), suffix: 200, score: span(13, 14) })
    );
}

#[test]
fn malformed_anchor_lines_are_refused() {
    assert_eq!(parse_anchor_line(b""), Err(AnchorError::FieldCount));
    assert_eq!(parse_anchor_line(b"cellA ACGT-1"), Err(AnchorError::FieldCount));
    assert_eq!(parse_anchor_line(b"cellA ACGT 0.5"), Err(AnchorError::MissingSuffix));
    assert_eq!(parse_anchor_line(b"cellA ACGT- 0.5"), Err(AnchorError::BadSuffix));
    assert_eq!(parse_anchor_line(b"cellA ACGT-x 0.5"), Err(AnchorError::BadSuffix));
    assert_eq!(parse_anchor_line(b"cellA ACGT-256 0.5"), Err(AnchorError::BadSuffix));
}
