use fuzzy_matcher::ranking::rank;
use fuzzy_matcher::scoring::accumulate_matches;
use fuzzy_matcher::{ScoreAccumulator, WordIndex};

#[test]
fn rank_puts_the_best_first() {
    assert_eq!(rank(&vec![1, 7, 3]), vec![1, 2, 0]);
}

#[test]
fn rank_leaves_out_documents_without_score() {
    assert_eq!(rank(&vec![0, 5, 0, 2, 0]), vec![1, 3]);
}

#[test]
fn rank_breaks_ties_by_ascending_id() {
    assert_eq!(rank(&vec![0, 5, 9, 5, 0, 9]), vec![2, 5, 1, 3]);
    assert_eq!(rank(&vec![4, 4, 4, 4]), vec![0, 1, 2, 3]);
}

#[test]
fn rank_of_nothing_is_empty() {
    assert!(rank(&vec![]).is_empty());
    assert!(rank(&vec![0, 0, 0]).is_empty());
}

#[test]
fn rank_of_one() {
    assert_eq!(rank(&vec![3]), vec![0]);
}

#[test]
fn rank_orders_many_documents() {
    let scores: Vec<u64> = (0..1000u64).map(|d| (d * 7919) % 13).collect();
    let ranked = rank(&scores);
    let mut expected: Vec<usize> = (0..1000usize).filter(|d| scores[*d] > 0).collect();
    expected.sort_by(|a, b| scores[*b].cmp(&scores[*a]).then(a.cmp(b)));
    assert_eq!(ranked, expected);
}

#[test]
fn same_scores_give_the_same_ranking() {
    let scores = vec![3, 3, 8, 0, 8, 1];
    assert_eq!(rank(&scores), rank(&scores));
    assert_eq!(rank(&scores), vec![2, 4, 0, 1, 5]);
}

#[test]
fn accumulator_starts_at_zero() {
    let acc = ScoreAccumulator::new(3);
    assert_eq!(acc.len(), 3);
    assert_eq!(acc.score(0), 0);
    assert_eq!(acc.score(2), 0);
    assert!(acc.ranking().is_empty());
}

#[test]
fn accumulator_for_no_documents() {
    let acc = ScoreAccumulator::new(0);
    assert_eq!(acc.len(), 0);
    assert!(acc.ranking().is_empty());
}

#[test]
fn accumulator_adds() {
    let mut acc = ScoreAccumulator::new(3);
    acc.add(1, 5);
    acc.add(1, 6);
    acc.add(2, 20);
    assert_eq!(acc.score(0), 0);
    assert_eq!(acc.score(1), 11);
    assert_eq!(acc.score(2), 20);
    assert_eq!(acc.ranking(), vec![2, 1]);
}

#[test]
fn accumulator_caps_at_the_greatest_score() {
    let mut acc = ScoreAccumulator::new(2);
    acc.add(0, u64::MAX - 1);
    acc.add(0, 1);
    assert_eq!(acc.score(0), u64::MAX);
    acc.add(0, 10);
    assert_eq!(acc.score(0), u64::MAX);
    acc.add(1, u64::MAX);
    acc.add(1, u64::MAX);
    assert_eq!(acc.score(1), u64::MAX);
    assert_eq!(acc.ranking(), vec![0, 1]);
}

#[test]
fn accumulator_adds_to_each_listed_document() {
    let mut acc = ScoreAccumulator::new(5);
    acc.add_all(&vec![0, 2, 4], 3);
    acc.add_all(&vec![2, 3], 4);
    acc.add_all(&vec![], 9);
    assert_eq!(acc.score(0), 3);
    assert_eq!(acc.score(1), 0);
    assert_eq!(acc.score(2), 7);
    assert_eq!(acc.score(3), 4);
    assert_eq!(acc.score(4), 3);
    assert_eq!(acc.ranking(), vec![2, 3, 0, 4]);
}

fn small_index() -> WordIndex {
    let mut index = WordIndex::new();
    index.add_key("a".to_string(), 0);
    index.add_key("a".to_string(), 2);
    index.add_key("b".to_string(), 1);
    index.add_key("c".to_string(), 2);
    index
}

#[test]
fn accumulate_matches_adds_once_for_each_word() {
    let index = small_index();
    let mut acc = ScoreAccumulator::new(3);
    let words = vec![b"a".to_vec(), b"b".to_vec(), b"c".to_vec()];
    accumulate_matches(&index, &mut acc, &words, 5);
    assert_eq!(acc.score(0), 5);
    assert_eq!(acc.score(1), 5);
    assert_eq!(acc.score(2), 10);
}

#[test]
fn accumulate_matches_counts_a_repeated_word_again() {
    let index = small_index();
    let mut acc = ScoreAccumulator::new(3);
    let words = vec![b"a".to_vec(), b"a".to_vec()];
    accumulate_matches(&index, &mut acc, &words, 2);
    assert_eq!(acc.score(0), 4);
    assert_eq!(acc.score(1), 0);
    assert_eq!(acc.score(2), 4);
}

#[test]
fn accumulate_matches_with_no_weight_changes_nothing() {
    let index = small_index();
    let mut acc = ScoreAccumulator::new(3);
    acc.add(1, 8);
    let words = vec![b"a".to_vec(), b"b".to_vec()];
    accumulate_matches(&index, &mut acc, &words, 0);
    assert_eq!(acc.score(0), 0);
    assert_eq!(acc.score(1), 8);
    assert_eq!(acc.score(2), 0);
}

#[test]
fn accumulate_matches_with_no_words_changes_nothing() {
    let index = small_index();
    let mut acc = ScoreAccumulator::new(3);
    accumulate_matches(&index, &mut acc, &vec![], 5);
    assert!(acc.ranking().is_empty());
}

#[test]
fn accumulator_adds_to_documents_in_any_order() {
    let mut acc = ScoreAccumulator::new(4);
    acc.add_all(&vec![3, 0, 2], 6);
    assert_eq!(acc.score(0), 6);
    assert_eq!(acc.score(1), 0);
    assert_eq!(acc.score(2), 6);
    assert_eq!(acc.score(3), 6);
}
