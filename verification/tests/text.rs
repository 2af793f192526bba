use fuzzy_matcher::lex::{compare_bytes, Order};
use fuzzy_matcher::tokenizer::{is_whitespace, normalize_word, tokenize};

#[test]
fn whitespace_is_the_unicode_property() {
    let mut code: u32 = 0;
    while code <= 0x10FFFF {
        if let Some(c) = char::from_u32(code) {
            assert_eq!(is_whitespace(c), c.is_whitespace(), "U+{:04X}", code);
        }
        code += 1;
    }
}

#[test]
fn whitespace_edges() {
    assert!(is_whitespace(' '));
    assert!(is_whitespace('\t'));
    assert!(is_whitespace('\n'));
    assert!(is_whitespace('\u{0B}'));
    assert!(is_whitespace('\u{0C}'));
    assert!(is_whitespace('\r'));
    assert!(is_whitespace('\u{85}'));
    assert!(is_whitespace('\u{A0}'));
    assert!(is_whitespace('\u{3000}'));
    assert!(!is_whitespace('\u{08}'));
    assert!(!is_whitespace('\u{0E}'));
    assert!(!is_whitespace('\u{200B}'));
    assert!(!is_whitespace('a'));
    assert!(!is_whitespace('-'));
}

#[test]
fn tokenize_splits_on_runs_of_whitespace() {
    let words = tokenize("  the quick\t\tbrown\n fox ", false);
    assert_eq!(words, vec!["the", "quick", "brown", "fox"]);
}

#[test]
fn tokenize_keeps_punctuation_and_case_without_folding() {
    let words = tokenize("Hello, World! it's", false);
    assert_eq!(words, vec!["Hello,", "World!", "it's"]);
}

#[test]
fn tokenize_folds_case() {
    let words = tokenize("The QUICK Brown fOX", true);
    assert_eq!(words, vec!["the", "quick", "brown", "fox"]);
}

#[test]
fn tokenize_folds_beyond_ascii() {
    let words = tokenize("\u{C0}B \u{C9}COLE", true);
    assert_eq!(words, vec!["\u{E0}b", "\u{E9}cole"]);
}

#[test]
fn tokenize_empty_text_has_no_words() {
    assert!(tokenize("", true).is_empty());
    assert!(tokenize("", false).is_empty());
}

#[test]
fn tokenize_whitespace_only_has_no_words() {
    assert!(tokenize(" \t\r\n\u{3000} ", true).is_empty());
}

#[test]
fn tokenize_single_word_without_whitespace() {
    assert_eq!(tokenize("word", true), vec!["word"]);
    assert_eq!(tokenize("x", false), vec!["x"]);
}

#[test]
fn tokenize_splits_on_wide_whitespace() {
    let words = tokenize("caf\u{E9}\u{3000}noir\u{A0}x", false);
    assert_eq!(words, vec!["caf\u{E9}", "noir", "x"]);
}

#[test]
fn tokenize_keeps_repeated_words() {
    assert_eq!(tokenize("a b a", false), vec!["a", "b", "a"]);
}

#[test]
fn tokenize_matches_the_standard_split() {
    let texts = ["the quick brown fox", "  lead", "trail  ", "a\tb\nc", "\u{2003}em\u{2003}space", ""];
    for text in texts {
        let expected: Vec<String> = text.split_whitespace().map(|w| w.to_lowercase()).collect();
        assert_eq!(tokenize(text, true), expected);
    }
}

#[test]
fn normalize_word_folds_only_on_request() {
    assert_eq!(normalize_word("MiXed", true), "mixed");
    assert_eq!(normalize_word("MiXed", false), "MiXed");
}

#[test]
fn compare_bytes_orders_lexicographically() {
    assert_eq!(compare_bytes(b"", b""), Order::Equal);
    assert_eq!(compare_bytes(b"", b"a"), Order::Less);
    assert_eq!(compare_bytes(b"a", b""), Order::Greater);
    assert_eq!(compare_bytes(b"abc", b"abc"), Order::Equal);
    assert_eq!(compare_bytes(b"ab", b"abc"), Order::Less);
    assert_eq!(compare_bytes(b"abc", b"ab"), Order::Greater);
    assert_eq!(compare_bytes(b"abd", b"abc"), Order::Greater);
    assert_eq!(compare_bytes(b"b", b"abc"), Order::Greater);
    assert_eq!(compare_bytes(b"Z", b"a"), Order::Less);
    assert_eq!(compare_bytes(&[0xFF], &[0x00, 0x01]), Order::Greater);
}

#[test]
fn compare_bytes_agrees_with_slice_order() {
    let samples: [&[u8]; 7] = [b"", b"a", b"ab", b"abc", b"b", b"ba", &[0xC3, 0xA9]];
    for a in samples {
        for b in samples {
            let expected = match a.cmp(b) {
                std::cmp::Ordering::Less => Order::Less,
                std::cmp::Ordering::Equal => Order::Equal,
                std::cmp::Ordering::Greater => Order::Greater,
            };
            assert_eq!(compare_bytes(a, b), expected);
        }
    }
}
