use schrom::codec::decode_cell;
use schrom::codec::encode_cell;
use schrom::codec::regroup;
use schrom::codec::split_by_state;
use schrom::codec::CodecError;
use schrom::codec::StateTable;
use schrom::codec::Triplet;

fn t(bin: u32, state: u8, prob: u8) -> Triplet {
    Triplet { bin, state, prob }
}

#[test]
fn cell_file_has_the_documented_layout() {
    let triplets = vec![t(7, 1, 93), t(258, 0, 12)];
    let bytes = encode_cell(&triplets, 3, 12).unwrap();
    assert_eq!(
        bytes,
        vec![2, 0, 0, 0, 3, 0, 0, 0, 12, 0, 0, 0, 93, 12, 1, 0, 7, 0, 0, 0, 2, 1, 0, 0]
    );
}

#[test]
fn empty_cell_file_is_the_header_alone() {
    let bytes = encode_cell(&Vec::new(), 1_246_254, 12).unwrap();
    assert_eq!(bytes, vec![0, 0, 0, 0, 0x2e, 0x04, 0x13, 0, 12, 0, 0, 0]);
    let file = decode_cell(&bytes).unwrap();
    assert_eq!(file.num_bins, 1_246_254);
    assert_eq!(file.num_states, 12);
    assert!(file.triplets.is_empty());
}

#[test]
fn decoding_gives_back_what_was_encoded() {
    let triplets = vec![
        t(4_000_000_000, 11, 100),
        t(70_000, 3, 56),
        t(70_000, 0, 44),
        t(0, 0, 255),
        t(0, 9, 0),
    ];
    let bytes = encode_cell(&triplets, 77, 12).unwrap();
    assert_eq!(bytes.len(), 12 + 6 * triplets.len());
    let file = decode_cell(&bytes).unwrap();
    assert_eq!(file.num_bins, 77);
    assert_eq!(file.num_states, 12);
    assert_eq!(file.triplets, triplets);
}

#[test]
fn decoding_ignores_what_follows_the_arrays() {
    let mut bytes = encode_cell(&vec![t(1, 2, 3)], 5, 6).unwrap();
    bytes.push(99);
    let file = decode_cell(&bytes).unwrap();
    assert_eq!(file.triplets, vec![t(1, 2, 3)]);
}

#[test]
fn short_header_is_truncated() {
    assert_eq!(decode_cell(&[]), Err(CodecError::Truncated));
    assert_eq!(decode_cell(&[1, 0, 0, 0, 0, 0, 0, 0, 0, 0, 0]), Err(CodecError::Truncated));
}

#[test]
fn missing_array_bytes_are_truncated() {
    let mut bytes = encode_cell(&vec![t(1, 2, 3), t(4, 5, 6)], 5, 6).unwrap();
    bytes.pop();
    assert_eq!(decode_cell(&bytes), Err(CodecError::Truncated));
    let huge = vec![0xff, 0xff, 0xff, 0xff, 0, 0, 0, 0, 0, 0, 0, 0];
    assert_eq!(decode_cell(&huge), Err(CodecError::Truncated));
}

#[test]
fn triplet_from_parts_checks_the_widths() {
    assert_eq!(Triplet::from_parts(5, 11, 42), Some(t(5, 11, 42)));
    assert_eq!(Triplet::from_parts(0xffff_ffff, 255, 0), Some(t(0xffff_ffff, 255, 0)));
    assert_eq!(Triplet::from_parts(5, 256, 42), None);
    if usize::BITS > 32 {
        assert_eq!(Triplet::from_parts(0xffff_ffff + 1, 0, 42), None);
    }
}

#[test]
fn columns_hold_each_state_in_reverse_file_order() {
    let triplets = vec![t(9, 1, 10), t(9, 0, 90), t(8, 1, 20), t(7, 0, 70), t(7, 1, 30)];
    let columns = split_by_state(&triplets, 3).unwrap();
    assert_eq!(columns.len(), 3);
    assert_eq!(columns[0], vec![t(7, 0, 70), t(9, 0, 90)]);
    assert_eq!(columns[1], vec![t(7, 1, 30), t(8, 1, 20), t(9, 1, 10)]);
    assert!(columns[2].is_empty());
}

#[test]
fn state_without_a_column_is_refused() {
    let triplets = vec![t(9, 1, 10), t(9, 2, 90)];
    assert_eq!(split_by_state(&triplets, 2), Err(CodecError::StateOutOfRange));
    assert_eq!(split_by_state(&triplets, 0), Err(CodecError::StateOutOfRange));
    assert_eq!(split_by_state(&Vec::new(), 0), Ok(Vec::new()));
}

#[test]
fn state_file_has_the_documented_layout() {
    let mut table = StateTable::new(2);
    let first = split_by_state(&vec![t(5, 1, 50), t(3, 1, 30), t(3, 0, 70)], 2).unwrap();
    let second = split_by_state(&vec![t(4, 0, 100)], 2).unwrap();
    let third = split_by_state(&vec![t(258, 1, 61)], 2).unwrap();
    assert_eq!(table.append_cell(&first), Ok(()));
    assert_eq!(table.append_cell(&second), Ok(()));
    assert_eq!(table.append_cell(&third), Ok(()));
    assert_eq!(table.cell_count(), 3);
    assert_eq!(table.state_count(), 2);
    let zero = table.encode_state(0, 1000).unwrap();
    assert_eq!(
        zero,
        vec![
            0xe8, 3, 0, 0, 4, 0, 0, 0, 0, 0, 0, 0, 1, 0, 0, 0, 2, 0, 0, 0, 2, 0, 0, 0, 70, 100, 3,
            0, 0, 0, 4, 0, 0, 0
        ]
    );
    let one = table.encode_state(1, 1000).unwrap();
    assert_eq!(
        one,
        vec![
            0xe8, 3, 0, 0, 4, 0, 0, 0, 0, 0, 0, 0, 2, 0, 0, 0, 2, 0, 0, 0, 3, 0, 0, 0, 30, 50,
            61, 3, 0, 0, 0, 5, 0, 0, 0, 2, 1, 0, 0
        ]
    );
}

#[test]
fn state_without_entries_writes_no_file() {
    let mut table = StateTable::new(3);
    let cell = split_by_state(&vec![t(5, 1, 50)], 3).unwrap();
    table.append_cell(&cell).unwrap();
    assert_eq!(table.encode_state(0, 10), None);
    assert!(table.encode_state(1, 10).is_some());
    assert_eq!(table.encode_state(2, 10), None);
}

#[test]
fn cell_of_another_shape_is_refused() {
    let mut table = StateTable::new(3);
    let cell = split_by_state(&vec![t(5, 1, 50)], 2).unwrap();
    assert_eq!(table.append_cell(&cell), Err(CodecError::ShapeMismatch));
    assert_eq!(table.cell_count(), 0);
    assert_eq!(table.encode_state(1, 10), None);
}

#[test]
fn regroup_is_append_cell_by_cell() {
    let cells = vec![
        split_by_state(&vec![t(5, 1, 50), t(3, 0, 70)], 2).unwrap(),
        split_by_state(&Vec::new(), 2).unwrap(),
        split_by_state(&vec![t(8, 1, 61), t(2, 1, 39)], 2).unwrap(),
    ];
    let whole = regroup(&cells, 2).unwrap();
    let mut step = StateTable::new(2);
    for cell in &cells {
        step.append_cell(cell).unwrap();
    }
    assert_eq!(whole.cell_count(), 3);
    assert_eq!(whole.encode_state(0, 9), step.encode_state(0, 9));
    assert_eq!(whole.encode_state(1, 9), step.encode_state(1, 9));
    assert_eq!(
        whole.encode_state(1, 9).unwrap(),
        vec![
            9, 0, 0, 0, 4, 0, 0, 0, 0, 0, 0, 0, 1, 0, 0, 0, 1, 0, 0, 0, 3, 0, 0, 0, 50, 39, 61,
            5, 0, 0, 0, 2, 0, 0, 0, 8, 0, 0, 0
        ]
    );
}

#[test]
fn regroup_refuses_a_ragged_list() {
    let cells = vec![
        split_by_state(&vec![t(5, 1, 50)], 2).unwrap(),
        split_by_state(&vec![t(5, 1, 50)], 3).unwrap(),
    ];
    assert!(matches!(regroup(&cells, 2), Err(CodecError::ShapeMismatch)));
}

fn state_summary(cells: &Vec<Vec<Vec<Triplet>>>, state: usize) -> (usize, Vec<usize>, Vec<Triplet>) {
    let table = regroup(cells, 2).unwrap();
    let bytes = table.encode_state(state, 1).unwrap();
    let count = u32::from_le_bytes([bytes[4], bytes[5], bytes[6], bytes[7]]) as usize;
    let mut offsets = Vec::new();
    for i in 0..count {
        let at = 8 + 4 * i;
        offsets.push(u32::from_le_bytes([bytes[at], bytes[at + 1], bytes[at + 2], bytes[at + 3]]) as usize);
    }
    let total = offsets[count - 1];
    let mut counts: Vec<usize> = (1..count).map(|i| offsets[i] - offsets[i - 1]).collect();
    counts.sort();
    let probs = 8 + 4 * count;
    let bins = probs + total;
    let mut entries = Vec::new();
    for i in 0..total {
        let at = bins + 4 * i;
        entries.push(Triplet {
            bin: u32::from_le_bytes([bytes[at], bytes[at + 1], bytes[at + 2], bytes[at + 3]]),
            state: state as u8,
            prob: bytes[probs + i],
        });
    }
    entries.sort_by_key(|e| (e.bin, e.prob));
    (total, counts, entries)
}

#[test]
fn order_of_the_cells_does_not_change_what_a_state_gathers() {
    let a = split_by_state(&vec![t(5, 1, 50), t(3, 0, 70), t(3, 1, 30)], 2).unwrap();
    let b = split_by_state(&vec![t(9, 1, 99)], 2).unwrap();
    let c = split_by_state(&vec![t(1, 0, 15), t(1, 1, 85), t(0, 1, 60), t(0, 0, 40)], 2).unwrap();
    let one = vec![a.clone(), b.clone(), c.clone()];
    let other = vec![c, a, b];
    for state in 0..2 {
        assert_eq!(state_summary(&one, state), state_summary(&other, state));
    }
    assert_eq!(state_summary(&one, 1).0, 5);
    assert_eq!(state_summary(&one, 1).1, vec![1, 2, 2]);
}
