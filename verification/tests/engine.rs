use fuzzy_matcher::weights::scaled_root;
use fuzzy_matcher::{Config, FuzzyMatcher, QueryAutomatonError, WeightRule};
use std::collections::BTreeSet;

fn corpus(phrases: &[&str]) -> Vec<String> {
    phrases.iter().map(|p| p.to_string()).collect()
}

fn strs(words: Vec<Vec<u8>>) -> Vec<String> {
    words.into_iter().map(|w| String::from_utf8(w).unwrap()).collect()
}

#[test]
fn two_exact_words_outrank_none() {
    let matcher = FuzzyMatcher::new(&corpus(&["the quick brown fox", "the lazy dog", "quick silver fox"]));
    let ranked = matcher.query("quick fox".to_string());
    assert_eq!(ranked, vec![0, 2]);
    let acc = matcher.query_scores("quick fox");
    assert!(acc.score(0) > acc.score(1));
    assert!(acc.score(2) > acc.score(1));
    assert_eq!(acc.score(1), 0);
    assert_eq!(acc.score(0), 23 * scaled_root(5) + 18 * scaled_root(3));
    assert_eq!(acc.score(0), acc.score(2));
}

#[test]
fn one_edit_from_an_indexed_word() {
    let matcher = FuzzyMatcher::new(&corpus(&["apple pie"]));
    assert_eq!(matcher.query("aple".to_string()), vec![0]);
    let acc = matcher.query_scores("aple");
    let cfg = Config::length_gated();
    assert_eq!(acc.score(0), cfg.weight(1, "aple".len()));
    assert_eq!(acc.score(0), 7 * scaled_root(4));
    assert_eq!(cfg.weight(1, "apple".len()), 7 * scaled_root(5));
}

#[test]
fn short_token_at_distance_one_adds_nothing() {
    let matcher = FuzzyMatcher::new(&corpus(&["ab", "xy"]));
    assert_eq!(matcher.matches("ac", 1), Ok(vec![b"ab".to_vec()]));
    assert!(matcher.query("ac".to_string()).is_empty());
    let acc = matcher.query_scores("ac");
    assert_eq!(acc.score(0), 0);
    assert_eq!(acc.score(1), 0);
}

#[test]
fn empty_query_gives_an_empty_result() {
    let matcher = FuzzyMatcher::new(&corpus(&["the quick brown fox", "the lazy dog"]));
    assert!(matcher.query(String::new()).is_empty());
    assert!(matcher.query("   \t\n".to_string()).is_empty());
}

#[test]
fn query_without_any_match_is_empty() {
    let matcher = FuzzyMatcher::new(&corpus(&["alpha beta", "gamma delta"]));
    assert!(matcher.query("zzzzzzzzzzzz".to_string()).is_empty());
}

#[test]
fn empty_corpus_answers_nothing() {
    let matcher = FuzzyMatcher::new(&Vec::new());
    assert_eq!(matcher.doc_count(), 0);
    assert!(matcher.words().is_empty());
    assert!(matcher.query("anything".to_string()).is_empty());
    assert!(!matcher.contains("anything"));
}

#[test]
fn corpus_of_empty_documents() {
    let matcher = FuzzyMatcher::new(&corpus(&["", "   ", "word"]));
    assert_eq!(matcher.doc_count(), 3);
    assert_eq!(strs(matcher.words()), vec!["word"]);
    assert_eq!(matcher.query("word".to_string()), vec![2]);
}

#[test]
fn dictionary_words_are_the_index_keys() {
    let phrases = corpus(&["The quick brown fox", "the lazy dog", "Quick silver FOX", "\u{C9}cole caf\u{E9}"]);
    let matcher = FuzzyMatcher::new(&phrases);
    let mut expected: BTreeSet<String> = BTreeSet::new();
    for phrase in &phrases {
        for word in phrase.split_whitespace() {
            expected.insert(word.to_lowercase());
        }
    }
    let expected: Vec<String> = expected.into_iter().collect();
    assert_eq!(strs(matcher.words()), expected);
    for word in &expected {
        assert!(matcher.contains(word));
        assert!(!matcher.query(word.clone()).is_empty());
    }
    assert!(!matcher.contains("absent"));
    assert!(!matcher.contains("The"));
    assert!(!matcher.contains(""));
}

#[test]
fn exact_token_returns_every_document_with_the_word() {
    let matcher = FuzzyMatcher::new(&corpus(&["hello world", "world peace", "no match here", "a world apart"]));
    let ranked = matcher.query("world".to_string());
    assert!(ranked.contains(&0));
    assert!(ranked.contains(&1));
    assert!(ranked.contains(&3));
    assert!(!ranked.contains(&2));
    let acc = matcher.query_scores("world");
    let exact = Config::length_gated().weight(0, 5);
    for doc in [0usize, 1, 3] {
        assert!(acc.score(doc) >= exact);
    }
}

#[test]
fn exact_short_token_is_found() {
    let matcher = FuzzyMatcher::new(&corpus(&["a b", "b c"]));
    assert_eq!(matcher.query("b".to_string()), vec![0, 1]);
    assert_eq!(matcher.query("a".to_string()), vec![0]);
    let acc = matcher.query_scores("a");
    assert_eq!(acc.score(0), 11 * scaled_root(1));
}

#[test]
fn query_folds_case_like_the_index() {
    let matcher = FuzzyMatcher::new(&corpus(&["Hello World"]));
    assert_eq!(matcher.query("HELLO".to_string()), vec![0]);
    assert_eq!(matcher.query("hello".to_string()), vec![0]);
    assert_eq!(matcher.query_scores("HeLLo").score(0), matcher.query_scores("hello").score(0));
}

#[test]
fn without_folding_case_matters() {
    let cfg = Config::new(false, false, vec![WeightRule { min_len: 0, factor: 1 }]).unwrap();
    let matcher = FuzzyMatcher::with_config(&corpus(&["Hello World"]), cfg);
    assert_eq!(strs(matcher.words()), vec!["Hello", "World"]);
    assert_eq!(matcher.query("Hello".to_string()), vec![0]);
    assert!(matcher.query("hello".to_string()).is_empty());
}

#[test]
fn same_query_twice_gives_same_ranking() {
    let matcher = FuzzyMatcher::new(&corpus(&[
        "red apple",
        "green apple",
        "apple pie",
        "red car",
        "green tea",
        "apple apple",
    ]));
    let first = matcher.query("red aple tea".to_string());
    let mut n = 0;
    while n < 20 {
        assert_eq!(matcher.query("red aple tea".to_string()), first);
        n += 1;
    }
    let again = FuzzyMatcher::new(&corpus(&[
        "red apple",
        "green apple",
        "apple pie",
        "red car",
        "green tea",
        "apple apple",
    ]));
    assert_eq!(again.query("red aple tea".to_string()), first);
}

#[test]
fn equal_scores_come_in_ascending_id_order() {
    let matcher = FuzzyMatcher::new(&corpus(&["same words", "same words", "same words", "other"]));
    assert_eq!(matcher.query("same".to_string()), vec![0, 1, 2]);
    assert_eq!(matcher.query("words same".to_string()), vec![0, 1, 2]);
}

#[test]
fn document_with_more_matching_words_scores_more() {
    let matcher = FuzzyMatcher::new(&corpus(&["quick", "quick fox", "quick brown fox jumps"]));
    let acc = matcher.query_scores("quick brown fox");
    assert!(acc.score(2) >= acc.score(1));
    assert!(acc.score(1) >= acc.score(0));
    assert!(acc.score(2) > acc.score(0));
    assert_eq!(matcher.query("quick brown fox".to_string()), vec![2, 1, 0]);
}

#[test]
fn repeated_token_counts_again() {
    let matcher = FuzzyMatcher::new(&corpus(&["fox"]));
    let once = matcher.query_scores("fox").score(0);
    let twice = matcher.query_scores("fox fox").score(0);
    assert_eq!(twice, 2 * once);
    assert_eq!(once, 18 * scaled_root(3));
}

#[test]
fn repeated_word_in_a_document_counts_once() {
    let matcher = FuzzyMatcher::new(&corpus(&["fox fox fox", "fox"]));
    let acc = matcher.query_scores("fox");
    assert_eq!(acc.score(0), acc.score(1));
}

#[test]
fn matches_finds_words_within_the_distance() {
    let matcher = FuzzyMatcher::new(&corpus(&["fa fo fob focus foo food foul"]));
    assert_eq!(strs(matcher.matches("foo", 0).unwrap()), vec!["foo"]);
    assert_eq!(strs(matcher.matches("foo", 1).unwrap()), vec!["fo", "fob", "foo", "food"]);
    assert_eq!(strs(matcher.matches("zzz", 0).unwrap()), Vec::<String>::new());
}

#[test]
fn matches_at_distance_zero_finds_a_word_beyond_ascii() {
    let matcher = FuzzyMatcher::new(&corpus(&["\u{E9}t\u{E9} \u{E8}re na\u{EF}ve"]));
    assert_eq!(strs(matcher.matches("\u{E9}t\u{E9}", 0).unwrap()), vec!["\u{E9}t\u{E9}"]);
    assert_eq!(strs(matcher.matches("na\u{EF}ve", 0).unwrap()), vec!["na\u{EF}ve"]);
    assert_eq!(matcher.query("\u{C9}T\u{C9}".to_string()), vec![0]);
}

#[test]
fn automaton_too_large_is_an_error() {
    let matcher = FuzzyMatcher::new(&corpus(&["short words"]));
    let long: String = "abcdefghij".repeat(60);
    assert_eq!(matcher.matches(&long, 4), Err(QueryAutomatonError { distance: 4 }));
}

#[test]
fn failed_distance_keeps_the_smaller_ones() {
    let long: String = "abcdefghij".repeat(60);
    let phrase = format!("{} tail", long);
    let matcher = FuzzyMatcher::new(&vec![phrase, "other".to_string()]);
    assert!(matcher.matches(&long, 0).is_ok());
    assert!(matcher.matches(&long, 4).is_err());
    let ranked = matcher.query(format!("{} other", long));
    assert!(ranked.contains(&0));
    assert!(ranked.contains(&1));
    let acc = matcher.query_scores(&long);
    assert!(acc.score(0) >= Config::length_gated().weight(0, long.len()));
}

#[test]
fn flat_configuration_scores_by_distance_alone() {
    let matcher = FuzzyMatcher::with_config(&corpus(&["apple", "ample", "maple syrup"]), Config::flat());
    let acc = matcher.query_scores("apple");
    assert_eq!(acc.score(0), 7 + 3 + 1);
    assert_eq!(acc.score(1), 3 + 1);
    assert_eq!(acc.score(2), 1);
    assert_eq!(matcher.query("apple".to_string()), vec![0, 1, 2]);
}

#[test]
fn document_ids_are_positions() {
    let matcher = FuzzyMatcher::new(&corpus(&["zero", "one", "two", "three"]));
    assert_eq!(matcher.doc_count(), 4);
    assert_eq!(matcher.query("zero".to_string()), vec![0]);
    assert_eq!(matcher.query("one".to_string()), vec![1]);
    assert_eq!(matcher.query("two".to_string()), vec![2]);
    assert_eq!(matcher.query("three".to_string()), vec![3]);
}

#[test]
fn score_token_adds_to_running_scores() {
    let matcher = FuzzyMatcher::new(&corpus(&["fox", "dog"]));
    let mut acc = fuzzy_matcher::ScoreAccumulator::new(2);
    acc.add(1, 4);
    matcher.score_token(&mut acc, "fox");
    assert_eq!(acc.score(0), 18 * scaled_root(3));
    assert_eq!(acc.score(1), 4);
}

#[test]
fn repeated_and_folded_words_are_held_once() {
    let matcher = FuzzyMatcher::new(&corpus(&["The quick the", "QUICK"]));
    assert_eq!(strs(matcher.words()), vec!["quick", "the"]);
    let quick = matcher.query_scores("quick");
    assert!(quick.score(0) > 0 && quick.score(1) > 0);
    let the = matcher.query_scores("the");
    assert!(the.score(0) > 0);
    assert_eq!(the.score(1), 0);
}

#[test]
fn documents_without_words_keep_their_ids() {
    let matcher = FuzzyMatcher::new(&corpus(&["", "  ", "a\tb\n a"]));
    assert_eq!(matcher.doc_count(), 3);
    assert_eq!(strs(matcher.words()), vec!["a", "b"]);
    assert_eq!(matcher.query("a".to_string()), vec![2]);
    assert_eq!(matcher.query("b".to_string()), vec![2]);
}

#[test]
fn punctuation_stays_in_the_words() {
    let matcher = FuzzyMatcher::new(&corpus(&["Hello, world!"]));
    assert_eq!(strs(matcher.words()), vec!["hello,", "world!"]);
    assert!(matcher.contains("hello,"));
    assert!(!matcher.contains("hello"));
    assert_eq!(matcher.query("hello,".to_string()), vec![0]);
}
