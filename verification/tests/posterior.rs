use schrom::posterior::informative_states;
use schrom::posterior::retain_all;
use schrom::posterior::retain_states;
use schrom::posterior::Entry;

fn e(bin: usize, state: usize, key: u64) -> Entry {
    Entry { bin, state, key }
}

#[test]
fn informative_states_are_the_listed_ones() {
    let mask = informative_states();
    let listed: Vec<usize> = (0..mask.len()).filter(|&s| mask[s]).collect();
    assert_eq!(mask.len(), 12);
    assert_eq!(listed, vec![0, 1, 2, 3, 8, 9, 11]);
}

#[test]
fn entries_above_the_minimum_in_open_states_are_kept() {
    let mut posterior = vec![e(9, 9, 9)];
    retain_states(3, &[5, 9, 2, 9], 4, &[true, false, true, true], &mut posterior);
    assert_eq!(posterior, vec![e(9, 9, 9), e(3, 0, 5), e(3, 3, 9)]);
}

#[test]
fn entry_at_the_minimum_is_dropped() {
    let mut posterior = Vec::new();
    retain_states(0, &[4, 5], 4, &[true, true], &mut posterior);
    assert_eq!(posterior, vec![e(0, 1, 5)]);
    retain_states(1, &[u64::MAX], u64::MAX, &[true], &mut posterior);
    assert_eq!(posterior, vec![e(0, 1, 5)]);
}

#[test]
fn state_beyond_the_mask_is_closed() {
    let mut posterior = Vec::new();
    retain_states(7, &[9, 9, 9], 0, &[true], &mut posterior);
    assert_eq!(posterior, vec![e(7, 0, 9)]);
    retain_states(8, &[9, 9, 9], 0, &[], &mut posterior);
    assert_eq!(posterior, vec![e(7, 0, 9)]);
    retain_states(9, &[], 0, &[true, true], &mut posterior);
    assert_eq!(posterior, vec![e(7, 0, 9)]);
}

#[test]
fn default_mask_hides_the_background_states() {
    let keys: Vec<u64> = (0..12).map(|s| 100 + s).collect();
    let mut posterior = Vec::new();
    retain_states(0, &keys, 0, &informative_states(), &mut posterior);
    let states: Vec<usize> = posterior.iter().map(|x| x.state).collect();
    assert_eq!(states, vec![0, 1, 2, 3, 8, 9, 11]);
    assert!(posterior.iter().all(|x| x.key == 100 + x.state as u64));
}

#[test]
fn cell_comes_out_last_bin_first() {
    let rows = vec![vec![5, 1], vec![0, 7], vec![3, 3]];
    assert_eq!(
        retain_all(&rows, 0, &[true, true]),
        vec![e(2, 0, 3), e(2, 1, 3), e(1, 1, 7), e(0, 0, 5), e(0, 1, 1)]
    );
    assert_eq!(retain_all(&rows, 3, &[true, true]), vec![e(1, 1, 7), e(0, 0, 5)]);
    assert_eq!(retain_all(&rows, 3, &[false, true]), vec![e(1, 1, 7)]);
    assert_eq!(retain_all(&Vec::new(), 0, &[true]), Vec::new());
}

#[test]
fn raising_the_minimum_never_keeps_more() {
    let rows: Vec<Vec<u64>> = (0..50u64)
        .map(|b| (0..12u64).map(|s| (b * 7919 + s * 104_729) % 1000).collect())
        .collect();
    let mask = informative_states();
    let mut last = usize::MAX;
    for min in [0u64, 1, 10, 100, 250, 500, 750, 998, 999, 1000] {
        let kept = retain_all(&rows, min, &mask).len();
        assert!(kept <= last);
        last = kept;
    }
    assert_eq!(last, 0);
    assert_eq!(retain_all(&rows, 999, &mask).len(), 0);
}
