use wordle_strats::comb::{CombIter, IterComb, Length};
use wordle_strats::words::binomial_coeff;

fn collect<T: Copy, const N: usize>(mut it: CombIter<'_, T, N>) -> Vec<Vec<T>> {
    let mut out = Vec::new();
    while let Some(items) = it.next() {
        out.push(items.into_iter().copied().collect());
    }
    out
}

#[test]
fn length_of_array() {
    let a = [1u8, 2, 3];
    assert_eq!(a.length(), 3);
}

#[test]
fn pairs_in_lexicographic_order() {
    let a = [10u8, 20, 30, 40];
    let pairs = collect(a.iter_comb::<2>());
    assert_eq!(
        pairs,
        vec![
            vec![10, 20],
            vec![10, 30],
            vec![10, 40],
            vec![20, 30],
            vec![20, 40],
            vec![30, 40]
        ]
    );
}

#[test]
fn singles_and_triples() {
    let a = [1u8, 2, 3];
    assert_eq!(collect(a.iter_comb::<1>()), vec![vec![1], vec![2], vec![3]]);
    assert_eq!(collect(a.iter_comb::<3>()), vec![vec![1, 2, 3]]);
}

#[test]
fn empty_combination_once() {
    let a = [1u8, 2, 3];
    assert_eq!(collect(a.iter_comb::<0>()), vec![Vec::<u8>::new()]);
}

#[test]
fn exhausted_walk_stays_exhausted() {
    let a = [1u8, 2];
    let mut it = a.iter_comb::<2>();
    assert!(it.next().is_some());
    assert!(it.next().is_none());
    assert!(it.next().is_none());
}

#[test]
fn increment_reports_the_last_combination() {
    let a = [1u8, 2, 3];
    let mut it = a.iter_comb::<2>();
    assert!(!it.increment_indices());
    assert!(!it.increment_indices());
    assert!(it.increment_indices());
    assert_eq!(it.next().map(|v| v.into_iter().copied().collect::<Vec<u8>>()), Some(vec![2, 3]));
}

#[test]
fn walk_counts_every_subset_once() {
    let a = [0u8, 1, 2, 3, 4, 5, 6];
    let triples = collect(a.iter_comb::<3>());
    assert_eq!(triples.len(), binomial_coeff(7, 3));
    for w in triples.windows(2) {
        assert!(w[0] < w[1]);
    }
    for t in &triples {
        assert!(t[0] < t[1] && t[1] < t[2]);
    }
    let pairs = collect(a.iter_comb::<2>());
    assert_eq!(pairs.len(), binomial_coeff(7, 2));
}

#[test]
fn walk_of_more_positions_than_values_can_be_built() {
    let a = [1u8, 2, 3];
    let it = a.iter_comb::<5>();
    drop(it);
}
