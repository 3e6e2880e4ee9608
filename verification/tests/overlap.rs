use schrom::bins::Binning;
use schrom::overlap::index_cell;
use schrom::overlap::payloads;
use schrom::overlap::window_hits;
use schrom::overlap::CellIndex;
use schrom::overlap::OverlapError;
use schrom::record::CellRecords;
use schrom::record::Record;

fn cell(ranges: &[(u32, u32)]) -> CellRecords<f64> {
    CellRecords::new(
        ranges
            .iter()
            .enumerate()
            .map(|(i, &(start, end))| Record::new_with_id(&(start..end), i as f64 + 0.5))
            .collect(),
    )
}

fn sorted(mut places: Vec<usize>) -> Vec<usize> {
    places.sort();
    places
}

#[test]
fn query_finds_the_overlapping_records() {
    let records = cell(&[(0, 10), (5, 15), (10, 10), (20, 30)]);
    let index = CellIndex::build(&records).unwrap();
    assert_eq!(sorted(index.hits(0, 5)), vec![0]);
    assert_eq!(sorted(index.hits(9, 11)), vec![0, 1]);
    assert_eq!(sorted(index.hits(10, 20)), vec![1]);
    assert_eq!(sorted(index.hits(0, 100)), vec![0, 1, 3]);
    assert_eq!(sorted(index.hits(29, 30)), vec![3]);
    assert_eq!(sorted(index.hits(14, 21)), vec![1, 3]);
}

#[test]
fn touching_ranges_do_not_overlap() {
    let records = cell(&[(0, 10), (20, 30)]);
    let index = CellIndex::build(&records).unwrap();
    assert!(index.hits(10, 20).is_empty());
    assert!(index.hits(30, 40).is_empty());
    assert!(index.hits(15, 16).is_empty());
}

#[test]
fn empty_ranges_overlap_nothing() {
    let records = cell(&[(0, 10), (5, 5)]);
    let index = CellIndex::build(&records).unwrap();
    assert!(index.hits(3, 3).is_empty());
    assert_eq!(sorted(index.hits(4, 6)), vec![0]);
    let none = CellIndex::build(&cell(&[])).unwrap();
    assert!(none.hits(0, 1000).is_empty());
}

#[test]
fn equal_records_are_each_found() {
    let records = cell(&[(5, 9), (5, 9), (5, 9), (1, 2), (5, 9)]);
    let index = CellIndex::build(&records).unwrap();
    assert_eq!(sorted(index.hits(8, 9)), vec![0, 1, 2, 4]);
    assert_eq!(sorted(index.hits(0, 6)), vec![0, 1, 2, 3, 4]);
}

#[test]
fn many_records_are_all_found() {
    let ranges: Vec<(u32, u32)> = (0..500u32).map(|i| ((i * 37) % 1000, (i * 37) % 1000 + 1 + i % 7)).collect();
    let records = cell(&ranges);
    let index = CellIndex::build(&records).unwrap();
    for &(lo, hi) in &[(0u32, 1u32), (100, 130), (990, 1010), (0, 2000), (500, 500)] {
        let expected: Vec<usize> = (0..ranges.len())
            .filter(|&i| lo < hi && ranges[i].0 < hi && lo < ranges[i].1)
            .collect();
        assert_eq!(sorted(index.hits(lo, hi)), expected);
    }
}

#[test]
fn record_that_ends_before_it_starts_is_refused() {
    let records = cell(&[(0, 10), (9, 3)]);
    assert!(matches!(CellIndex::build(&records), Err(OverlapError::NegativeWidth)));
    let good = cell(&[(0, 10)]);
    let data = vec![&good, &records];
    assert!(matches!(index_cell(&data), Err(OverlapError::NegativeWidth)));
}

#[test]
fn every_bin_lists_its_hits_per_assay() {
    let first = cell(&[(150, 250), (400, 410)]);
    let second = cell(&[]);
    let third = cell(&[(0, 600), (200, 399)]);
    let data = vec![&first, &second, &third];
    let indexes = index_cell(&data).unwrap();
    let binning = Binning::new(600, 200).unwrap();
    let hits = window_hits(&indexes, &binning);
    assert_eq!(hits.len(), 3);
    let seen: Vec<Vec<Vec<usize>>> =
        hits.into_iter().map(|row| row.into_iter().map(sorted).collect()).collect();
    assert_eq!(seen[0], vec![vec![0], vec![], vec![0, 1]]);
    assert_eq!(seen[1], vec![vec![0], vec![], vec![0, 1]]);
    assert_eq!(seen[2], vec![vec![1], vec![], vec![0]]);
}

#[test]
fn cell_without_records_has_no_hit_in_any_bin() {
    let first = cell(&[]);
    let second = cell(&[]);
    let data = vec![&first, &second];
    let indexes = index_cell(&data).unwrap();
    let binning = Binning::new(100_000, 200).unwrap();
    let hits = window_hits(&indexes, &binning);
    assert_eq!(hits.len(), 500);
    assert!(hits.iter().all(|row| row.len() == 2 && row.iter().all(|list| list.is_empty())));
}

#[test]
fn payloads_follow_the_places() {
    let records = cell(&[(0, 10), (5, 15), (20, 30)]);
    assert_eq!(payloads(&records, &vec![2, 0, 0]), vec![2.5, 0.5, 0.5]);
    assert_eq!(payloads(&records, &Vec::new()), Vec::<f64>::new());
    let index = CellIndex::build(&records).unwrap();
    let sum: f64 = payloads(&records, &index.hits(9, 25)).iter().sum();
    assert_eq!(sum, 4.5);
}
