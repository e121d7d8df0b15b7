use std::collections::HashMap;

use gramophone::pairs::{contract_pair, get_pair_freq, most_frequent_pair};

fn key(a: usize, b: usize) -> u128 {
    ((a as u128) << 64) + b as u128
}

#[test]
fn pair_counts_skip_boundaries() {
    // "ab ab ab" with the space (id 2) as boundary.
    let freq = get_pair_freq(&vec![0, 1, 2, 0, 1, 2, 0, 1], &vec![false, false, true]);
    assert_eq!(freq, HashMap::from([(key(0, 1), 3)]));
}

#[test]
fn overlapping_pairs_are_all_counted() {
    let freq = get_pair_freq(&vec![5, 5, 5], &vec![]);
    assert_eq!(freq, HashMap::from([(key(5, 5), 2)]));
}

#[test]
fn short_streams_have_no_pairs() {
    assert!(get_pair_freq(&vec![], &vec![]).is_empty());
    assert!(get_pair_freq(&vec![3], &vec![]).is_empty());
    assert_eq!(most_frequent_pair(&vec![3], &vec![], &HashMap::new()), None);
}

#[test]
fn best_pair_comes_with_its_count() {
    let tokens = vec![0, 1, 2, 1, 2, 0, 1];
    let freq = get_pair_freq(&tokens, &vec![]);
    // (0, 1) and (1, 2) both occur twice: the lower pair wins.
    assert_eq!(most_frequent_pair(&tokens, &vec![], &freq), Some((0, 1, 2)));
}

#[test]
fn contraction_replaces_left_to_right() {
    assert_eq!(contract_pair(&vec![0, 1, 0, 1, 1], 0, 1, 7), vec![7, 7, 1]);
}
