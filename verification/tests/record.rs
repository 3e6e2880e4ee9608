use schrom::record::AssayRecords;
use schrom::record::CellRecords;
use schrom::record::Experiment;
use schrom::record::Record;

fn cell(ids: &[u32]) -> CellRecords<u32> {
    CellRecords::new(ids.iter().map(|&id| Record::new_with_id(&(id..id + 10), id)).collect())
}

#[test]
fn record_keeps_range_and_payload() {
    let range = 5..17;
    let record = Record::new_with_id(&range, 2.5f64);
    assert_eq!(record.id(), 2.5);
    assert_eq!(record.range(), &(5..17));
    let copy = record.clone();
    assert_eq!(copy.range(), &(5..17));
    assert_eq!(copy.id(), 2.5);
    let backwards = Record::new_with_id(&(9..3), 1u64);
    assert_eq!(backwards.range().start, 9);
    assert_eq!(backwards.range().end, 3);
}

#[test]
fn cell_records_keep_their_order() {
    let mut list = cell(&[3, 1, 2]);
    let ids: Vec<u32> = list.records().iter().map(|r| r.id()).collect();
    assert_eq!(ids, vec![3, 1, 2]);
    list.push(Record::new_with_id(&(0..1), 9));
    assert_eq!(list.records().len(), 4);
    assert_eq!(list.records()[3].id(), 9);
}

#[test]
fn assay_gives_the_list_of_a_cell_it_has() {
    let assay = AssayRecords::new(vec![cell(&[1]), cell(&[]), cell(&[2, 3])]);
    assert_eq!(assay.get_cell_records(0).unwrap().records().len(), 1);
    assert_eq!(assay.get_cell_records(1).unwrap().records().len(), 0);
    assert_eq!(assay.get_cell_records(2).unwrap().records()[1].id(), 3);
    assert!(assay.get_cell_records(3).is_none());
}

#[test]
fn experiment_gives_one_list_per_assay() {
    let first = AssayRecords::new(vec![cell(&[1]), cell(&[2, 3])]);
    let second = AssayRecords::new(vec![cell(&[]), cell(&[4])]);
    let experiment = Experiment::new(vec![first, second]);
    assert_eq!(experiment.num_assays(), 2);
    assert!(experiment.is_rectangular(2));
    assert!(!experiment.is_rectangular(3));
    let data = experiment.get_cell_data(1);
    assert_eq!(data.len(), 2);
    assert_eq!(data[0].records().len(), 2);
    assert_eq!(data[0].records()[0].id(), 2);
    assert_eq!(data[1].records()[0].id(), 4);
    let none = experiment.get_cell_data(0);
    assert_eq!(none[0].records().len(), 1);
    assert_eq!(none[1].records().len(), 0);
}

#[test]
fn ragged_experiment_is_told_apart() {
    let first = AssayRecords::new(vec![cell(&[1]), cell(&[2])]);
    let second = AssayRecords::new(vec![cell(&[])]);
    let experiment = Experiment::new(vec![first, second]);
    assert!(!experiment.is_rectangular(2));
    assert!(!experiment.is_rectangular(1));
    let empty: Experiment<u32> = Experiment::new(Vec::new());
    assert!(empty.is_rectangular(5));
    assert!(empty.get_cell_data(3).is_empty());
}
