use schrom::model::observation_patterns;
use schrom::model::pattern_count;
use schrom::model::pattern_flags;
use schrom::model::pattern_index;
use schrom::model::presence_flags;
use schrom::model::Hmm;
use schrom::model::ModelError;
use schrom::model_file::parse_model_header;
use schrom::model_file::parse_model_line;
use schrom::model_file::ModelBuilder;
use schrom::model_file::ModelRecord;
use schrom::text::Span;

fn span(start: usize, end: usize) -> Span {
    Span { start, end }
}

#[test]
fn pattern_number_adds_two_to_the_assay() {
    assert_eq!(pattern_index(&[]), Some(0));
    assert_eq!(pattern_index(&[false, false, false]), Some(0));
    assert_eq!(pattern_index(&[true, false, false]), Some(1));
    assert_eq!(pattern_index(&[false, true, false]), Some(2));
    assert_eq!(pattern_index(&[true, false, true]), Some(5));
    assert_eq!(pattern_index(&[true, true, true, true, true]), Some(31));
}

#[test]
fn pattern_number_that_does_not_fit_is_refused() {
    let bits = usize::BITS as usize;
    let mut flags = vec![true; bits];
    assert_eq!(pattern_index(&flags), Some(usize::MAX));
    flags.push(false);
    assert_eq!(pattern_index(&flags), Some(usize::MAX));
    flags.push(true);
    assert_eq!(pattern_index(&flags), None);
}

#[test]
fn pattern_flags_are_the_binary_digits() {
    assert_eq!(pattern_flags(5, 3), vec![true, false, true]);
    assert_eq!(pattern_flags(0, 2), vec![false, false]);
    assert_eq!(pattern_flags(6, 2), vec![false, true]);
    assert_eq!(pattern_flags(1, 0), Vec::<bool>::new());
    assert_eq!(pattern_flags(8, 5), vec![false, false, false, true, false]);
}

#[test]
fn flags_and_numbers_go_back_and_forth() {
    for pattern in 0..32usize {
        let flags = pattern_flags(pattern, 5);
        assert_eq!(flags.len(), 5);
        assert_eq!(pattern_index(&flags), Some(pattern));
    }
}

#[test]
fn pattern_count_is_a_power_of_two() {
    assert_eq!(pattern_count(0), Some(1));
    assert_eq!(pattern_count(3), Some(8));
    assert_eq!(pattern_count(5), Some(32));
    assert_eq!(pattern_count(usize::BITS as usize - 1), Some(1usize << (usize::BITS - 1)));
    assert_eq!(pattern_count(usize::BITS as usize), None);
}

fn small_model() -> Hmm<f64> {
    Hmm::new(
        vec![0.6, 0.4],
        vec![vec![0.7, 0.3], vec![0.4, 0.6]],
        vec![vec![0.1, 0.2, 0.3, 0.4], vec![0.5, 0.25, 0.125, 0.125]],
        2,
    )
    .unwrap()
}

#[test]
fn model_looks_its_tables_up() {
    let hmm = small_model();
    assert_eq!(hmm.num_states(), 2);
    assert_eq!(hmm.num_assays(), 2);
    assert_eq!(hmm.get_init_prob(0), 0.6);
    assert_eq!(hmm.get_init_prob(1), 0.4);
    assert_eq!(hmm.get_transition_prob(0, 1), 0.3);
    assert_eq!(hmm.get_transition_prob(1, 0), 0.4);
    assert_eq!(hmm.emission_at(1, 3), 0.125);
    assert_eq!(hmm.emission_of(0, &[false, false]), 0.1);
    assert_eq!(hmm.emission_of(0, &[true, false]), 0.2);
    assert_eq!(hmm.emission_of(0, &[false, true]), 0.3);
    assert_eq!(hmm.emission_of(1, &[false, true]), 0.125);
    assert_eq!(hmm.emission_of(1, &[true, true]), 0.125);
    assert_eq!(hmm.emission_of(1, &[true, false]), 0.25);
}

#[test]
fn emission_of_observations_goes_by_the_thresholds() {
    let hmm = small_model();
    let thresholds = [10, 20, 30];
    assert_eq!(hmm.get_emission_prob(0, &[10, 20], &thresholds), 0.1);
    assert_eq!(hmm.get_emission_prob(0, &[11, 20], &thresholds), 0.2);
    assert_eq!(hmm.get_emission_prob(0, &[0, 21], &thresholds), 0.3);
    assert_eq!(hmm.get_emission_prob(0, &[99, 99], &thresholds), 0.4);
    assert_eq!(hmm.get_emission_prob(1, &[11, 0], &thresholds), 0.25);
}

#[test]
fn model_of_the_wrong_shape_is_refused() {
    let short_row = Hmm::new(vec![1u8, 2], vec![vec![1, 2], vec![3]], vec![vec![1, 2], vec![3, 4]], 1);
    assert!(matches!(short_row, Err(ModelError::Shape)));
    let narrow = Hmm::new(vec![1u8, 2], vec![vec![1, 2], vec![3, 4]], vec![vec![1, 2], vec![3, 4]], 2);
    assert!(matches!(narrow, Err(ModelError::Shape)));
    let few = Hmm::new(vec![1u8, 2], vec![vec![1, 2], vec![3, 4]], vec![vec![1, 2]], 1);
    assert!(matches!(few, Err(ModelError::Shape)));
    let huge = Hmm::new(vec![1u8], vec![vec![1]], vec![vec![1]], usize::BITS as usize);
    assert!(matches!(huge, Err(ModelError::Shape)));
    let empty = Hmm::<u8>::new(Vec::new(), Vec::new(), Vec::new(), 3);
    assert_eq!(empty.unwrap().num_states(), 0);
}

#[test]
fn observations_must_form_a_rectangle() {
    let rows = vec![vec![true, false], vec![false, false], vec![true, true]];
    assert_eq!(observation_patterns(&rows, 2), Ok(vec![1, 0, 3]));
    assert_eq!(observation_patterns(&rows, 3), Err(ModelError::Shape));
    let ragged = vec![vec![true, false], vec![false]];
    assert_eq!(observation_patterns(&ragged, 2), Err(ModelError::Shape));
    assert_eq!(observation_patterns(&Vec::new(), 2), Ok(Vec::new()));
    let wide = vec![vec![true; usize::BITS as usize + 1]];
    assert_eq!(observation_patterns(&wide, usize::BITS as usize + 1), Err(ModelError::TooLarge));
}

#[test]
fn record_lines_of_each_kind_are_read() {
    assert_eq!(
        parse_model_line(b"probinit\t1\t0.5"),
        Ok(ModelRecord::Init { state: 0, value: span(11, 14) })
    );
    assert_eq!(
        parse_model_line(b"transitionprobs\t2\t1\t0.25"),
        Ok(ModelRecord::Transition { from: 1, to: 0, value: span(20, 24) })
    );
    assert_eq!(
        parse_model_line(b"emissionprobs\t3\t0\tH3K4me3\t1\t0.875"),
        Ok(ModelRecord::Presence { state: 2, assay: 0, value: span(28, 33) })
    );
    assert_eq!(parse_model_line(b"emissionprobs\t3\t0\tH3K4me3\t0\t0.125"), Ok(ModelRecord::Skipped));
    assert_eq!(parse_model_line(b"emissionprobs\tx\ty\tname\t0\tzz"), Ok(ModelRecord::Skipped));
}

#[test]
fn malformed_record_lines_are_refused() {
    assert_eq!(parse_model_line(b""), Err(ModelError::BlankLine));
    assert_eq!(parse_model_line(b"  \t "), Err(ModelError::BlankLine));
    assert_eq!(parse_model_line(b"foo 1 2"), Err(ModelError::UnknownKind));
    assert_eq!(parse_model_line(b"probinits 1 2"), Err(ModelError::UnknownKind));
    assert_eq!(parse_model_line(b"probinit 1"), Err(ModelError::FieldCount));
    assert_eq!(parse_model_line(b"probinit 1 0.5 x"), Err(ModelError::FieldCount));
    assert_eq!(parse_model_line(b"transitionprobs 1 2"), Err(ModelError::FieldCount));
    assert_eq!(parse_model_line(b"emissionprobs 1 0 n 1"), Err(ModelError::FieldCount));
    assert_eq!(parse_model_line(b"probinit x 0.5"), Err(ModelError::BadNumber));
    assert_eq!(parse_model_line(b"probinit 0 0.5"), Err(ModelError::ZeroState));
    assert_eq!(parse_model_line(b"transitionprobs 1 0 0.5"), Err(ModelError::ZeroState));
    assert_eq!(parse_model_line(b"transitionprobs 1 -2 0.5"), Err(ModelError::BadNumber));
    assert_eq!(parse_model_line(b"emissionprobs 1 0 n 2x 0.5"), Err(ModelError::BadNumber));
    assert_eq!(parse_model_line(b"emissionprobs 1 0 n 256 0.5"), Err(ModelError::BadNumber));
    assert_eq!(parse_model_line(b"emissionprobs 1 zz n 1 0.5"), Err(ModelError::BadNumber));
    assert_eq!(parse_model_line(b"emissionprobs 0 0 n 1 0.5"), Err(ModelError::ZeroState));
}

#[test]
fn header_gives_states_then_assays() {
    assert_eq!(parse_model_header(b"12\t5\tE\t-3.5\t2"), Ok((12, 5)));
    assert_eq!(parse_model_header(b"3 3"), Ok((3, 3)));
    assert_eq!(parse_model_header(b"12"), Err(ModelError::FieldCount));
    assert_eq!(parse_model_header(b""), Err(ModelError::FieldCount));
    assert_eq!(parse_model_header(b"a 5"), Err(ModelError::BadNumber));
    assert_eq!(parse_model_header(b"5 b"), Err(ModelError::BadNumber));
}

#[test]
fn builder_hands_out_complete_tables() {
    let mut builder = ModelBuilder::new(2, 1, 0.0f64).unwrap();
    assert_eq!(builder.set_init(0, 0.25), Ok(()));
    assert_eq!(builder.set_init(1, 0.75), Ok(()));
    assert_eq!(builder.set_transition(0, 0, 0.9), Ok(()));
    assert_eq!(builder.set_transition(0, 1, 0.1), Ok(()));
    assert_eq!(builder.set_transition(1, 0, 0.2), Ok(()));
    assert_eq!(builder.set_transition(1, 1, 0.8), Ok(()));
    assert_eq!(builder.set_presence(0, 0, 0.3), Ok(()));
    assert_eq!(builder.set_presence(1, 0, 0.6), Ok(()));
    let tables = builder.finish().unwrap();
    assert_eq!(tables.init, vec![0.25, 0.75]);
    assert_eq!(tables.transition, vec![vec![0.9, 0.1], vec![0.2, 0.8]]);
    assert_eq!(tables.presence, vec![vec![0.3], vec![0.6]]);
}

#[test]
fn missing_entry_keeps_the_fill() {
    let mut builder = ModelBuilder::new(1, 2, 7u32).unwrap();
    builder.set_init(0, 1).unwrap();
    builder.set_transition(0, 0, 2).unwrap();
    builder.set_presence(0, 1, 3).unwrap();
    builder.set_presence(0, 1, 4).unwrap();
    let tables = builder.finish().unwrap();
    assert_eq!(tables.presence, vec![vec![7, 4]]);
}

#[test]
fn builder_counts_the_records() {
    let mut builder = ModelBuilder::new(1, 1, 0u8).unwrap();
    assert_eq!(builder.set_init(1, 1), Err(ModelError::OutOfRange));
    assert_eq!(builder.set_transition(0, 1, 1), Err(ModelError::OutOfRange));
    assert_eq!(builder.set_transition(1, 0, 1), Err(ModelError::OutOfRange));
    assert_eq!(builder.set_presence(0, 1, 1), Err(ModelError::OutOfRange));
    assert_eq!(builder.set_presence(1, 0, 1), Err(ModelError::OutOfRange));
    assert_eq!(builder.set_init(0, 1), Ok(()));
    assert_eq!(builder.set_init(0, 2), Err(ModelError::ExtraRow));
    assert_eq!(builder.set_transition(0, 0, 1), Ok(()));
    assert_eq!(builder.set_transition(0, 0, 1), Err(ModelError::ExtraRow));
    assert!(matches!(builder.finish(), Err(ModelError::MissingRows)));
    let mut full = ModelBuilder::new(1, 1, 0u8).unwrap();
    full.set_init(0, 1).unwrap();
    full.set_transition(0, 0, 1).unwrap();
    full.set_presence(0, 0, 1).unwrap();
    assert_eq!(full.set_presence(0, 0, 1), Err(ModelError::ExtraRow));
    assert!(full.finish().is_ok());
}

#[test]
fn builder_refuses_tables_that_cannot_be_counted() {
    assert!(matches!(ModelBuilder::new(usize::MAX, 1, 0u8), Err(ModelError::TooLarge)));
    assert!(matches!(ModelBuilder::new(2, usize::MAX, 0u8), Err(ModelError::TooLarge)));
    assert!(ModelBuilder::new(0, usize::MAX, 0u8).is_ok());
}

#[test]
fn assay_is_present_above_its_threshold() {
    assert_eq!(presence_flags(&[5, 0, 7], &[4, 0, 7, 9]), Some(vec![true, false, false]));
    assert_eq!(presence_flags(&[1, 1], &[0, 0]), Some(vec![true, true]));
    assert_eq!(presence_flags(&[], &[0, 0]), Some(Vec::new()));
    assert_eq!(presence_flags(&[1, 1, 1], &[0, 0]), None);
}
