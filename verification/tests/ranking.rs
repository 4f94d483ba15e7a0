use ternary_agent::ranking::rank_by_score;

#[test]
fn ranking_best_first() {
    assert_eq!(rank_by_score(&vec![(1, 90), (2, 30), (3, 60)]), vec![1, 3, 2]);
}

#[test]
fn ranking_empty() {
    assert_eq!(rank_by_score(&vec![]), Vec::<u64>::new());
}

#[test]
fn ranking_ties_keep_given_order() {
    assert_eq!(rank_by_score(&vec![(4, 5), (1, 7), (9, 5), (2, 7), (3, 0)]), vec![1, 2, 4, 9, 3]);
}

#[test]
fn ranking_is_permutation() {
    let entries = vec![(10, 3), (20, 1), (30, 4), (40, 1), (50, 5), (60, 9), (70, 2), (80, 6)];
    let mut ids = rank_by_score(&entries);
    assert_eq!(ids, vec![60, 80, 50, 30, 10, 70, 20, 40]);
    ids.sort();
    assert_eq!(ids, vec![10, 20, 30, 40, 50, 60, 70, 80]);
}

#[test]
fn ranking_extreme_scores() {
    assert_eq!(rank_by_score(&vec![(1, 0), (2, u64::MAX), (3, u64::MAX - 1)]), vec![2, 3, 1]);
}
