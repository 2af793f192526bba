//! Splitting text into normalized words.
//!
//! A word is a maximal run of characters that holds no whitespace. Documents
//! and queries go through the same function, so the same surface form always
//! maps to the same dictionary entry.

use vstd::prelude::*;
use vstd::std_specs::iter::IteratorSpec;
use vstd::string::*;

verus! {

/// The characters that separate words: those with the Unicode property
/// `White_Space`.
pub open spec fn is_space(c: char) -> bool {
    let u = c as u32;
    ||| 0x09 <= u <= 0x0D
    ||| u == 0x20
    ||| u == 0x85
    ||| u == 0xA0
    ||| u == 0x1680
    ||| 0x2000 <= u <= 0x200A
    ||| u == 0x2028
    ||| u == 0x2029
    ||| u == 0x202F
    ||| u == 0x205F
    ||| u == 0x3000
}

/// The lowercase form that the standard library gives a string.
pub uninterp spec fn lowercase_of(word: Seq<char>) -> Seq<char>;

/// A word as the index holds it.
pub open spec fn normalize(word: Seq<char>, fold_case: bool) -> Seq<char> {
    if fold_case {
        lowercase_of(word)
    } else {
        word
    }
}

/// Length of the whitespace-free run at the front of `text`.
pub open spec fn word_len(text: Seq<char>) -> nat
    decreases text.len(),
{
    if text.len() == 0 || is_space(text[0]) {
        0
    } else {
        1 + word_len(text.drop_first())
    }
}

/// The words of `text`, in order, as they stand in it.
pub open spec fn split_words(text: Seq<char>) -> Seq<Seq<char>>
    decreases text.len(),
    via split_words_terminates
{
    if text.len() == 0 {
        Seq::empty()
    } else if is_space(text[0]) {
        split_words(text.drop_first())
    } else {
        let n = word_len(text) as int;
        seq![text.take(n)] + split_words(text.skip(n))
    }
}

#[via_fn]
proof fn split_words_terminates(text: Seq<char>) {
    lemma_word_len_bounds(text);
}

/// The leading run lies within the text, and is not empty where the text
/// starts with a character of a word.
pub proof fn lemma_word_len_bounds(text: Seq<char>)
    ensures
        word_len(text) <= text.len(),
        text.len() > 0 && !is_space(text[0]) ==> word_len(text) >= 1,
    decreases text.len(),
{
    if text.len() > 0 && !is_space(text[0]) {
        lemma_word_len_bounds(text.drop_first());
    }
}

/// The normalized words of `text`, in order.
pub open spec fn tokens(text: Seq<char>, fold_case: bool) -> Seq<Seq<char>> {
    split_words(text).map_values(|w: Seq<char>| normalize(w, fold_case))
}

/// `text[start..end]` is a word of `text`: a run without whitespace that
/// cannot be extended on either side.
pub open spec fn is_word_at(text: Seq<char>, start: int, end: int) -> bool {
    &&& 0 <= start < end <= text.len()
    &&& forall|i: int| start <= i < end ==> !is_space(#[trigger] text[i])
    &&& (start == 0 || is_space(text[start - 1]))
    &&& (end == text.len() || is_space(text[end]))
}

/// A run of `n` characters without whitespace that ends the text or meets
/// whitespace is the whole leading run.
pub proof fn lemma_word_len(text: Seq<char>, n: nat)
    requires
        n <= text.len(),
        forall|i: int| 0 <= i < n ==> !is_space(#[trigger] text[i]),
        n == text.len() || is_space(text[n as int]),
    ensures
        word_len(text) == n,
    decreases n,
{
    if n > 0 {
        let rest = text.drop_first();
        assert forall|i: int| 0 <= i < n - 1 implies !is_space(#[trigger] rest[i]) by {
            assert(rest[i] == text[i + 1]);
        }
        lemma_word_len(rest, (n - 1) as nat);
    }
}

/// The leading run holds no whitespace, and ends the text or meets whitespace.
pub proof fn lemma_word_len_run(text: Seq<char>)
    ensures
        word_len(text) <= text.len(),
        forall|i: int| 0 <= i < word_len(text) ==> !is_space(#[trigger] text[i]),
        word_len(text) == text.len() || is_space(text[word_len(text) as int]),
    decreases text.len(),
{
    if text.len() > 0 && !is_space(text[0]) {
        let rest = text.drop_first();
        lemma_word_len_run(rest);
        assert forall|i: int| 0 <= i < word_len(text) implies !is_space(#[trigger] text[i]) by {
            if i > 0 {
                assert(text[i] == rest[i - 1]);
            }
        }
        if word_len(text) < text.len() {
            assert(text[word_len(text) as int] == rest[word_len(rest) as int]);
        }
    }
}

/// The words that `split_words` gives are the maximal runs of the text that
/// hold no whitespace.
pub proof fn lemma_split_words_are_runs(text: Seq<char>)
    ensures
        forall|word: Seq<char>|
            split_words(text).contains(word) <==> exists|start: int, end: int|
                is_word_at(text, start, end) && text.subrange(start, end) == word,
    decreases text.len(),
{
    if text.len() == 0 {
        assert forall|word: Seq<char>| split_words(text).contains(word) implies false by {}
    } else if is_space(text[0]) {
        let rest = text.drop_first();
        lemma_split_words_are_runs(rest);
        assert(rest =~= text.skip(1));
        assert forall|word: Seq<char>|
            split_words(text).contains(word) <==> exists|start: int, end: int|
                is_word_at(text, start, end) && text.subrange(start, end) == word by {
            if split_words(rest).contains(word) {
                let (s, e) = choose|s: int, e: int| is_word_at(rest, s, e) && rest.subrange(s, e) == word;
                lemma_word_of_tail(text, 1, s, e);
                assert(is_word_at(text, s + 1, e + 1) && text.subrange(s + 1, e + 1) == word);
            }
            if exists|start: int, end: int| is_word_at(text, start, end) && text.subrange(start, end) == word {
                let (s, e) = choose|s: int, e: int| is_word_at(text, s, e) && text.subrange(s, e) == word;
                assert(!is_space(text[s]));
                lemma_word_of_tail(text, 1, s - 1, e - 1);
                assert(is_word_at(rest, s - 1, e - 1) && rest.subrange(s - 1, e - 1) == word);
            }
        }
    } else {
        let n = word_len(text) as int;
        lemma_word_len_run(text);
        lemma_word_len_bounds(text);
        let first = text.take(n);
        let rest = text.skip(n);
        lemma_split_words_are_runs(rest);
        assert(is_word_at(text, 0, n));
        assert(text.subrange(0, n) =~= first);
        let words = split_words(text);
        assert(words == seq![first] + split_words(rest));
        assert forall|word: Seq<char>|
            words.contains(word) <==> exists|start: int, end: int|
                is_word_at(text, start, end) && text.subrange(start, end) == word by {
            if words.contains(word) {
                let k = choose|k: int| 0 <= k < words.len() && words[k] == word;
                if k == 0 {
                    assert(is_word_at(text, 0, n) && text.subrange(0, n) == word);
                } else {
                    assert(split_words(rest)[k - 1] == word);
                    assert(split_words(rest).contains(word));
                    let (s, e) = choose|s: int, e: int| is_word_at(rest, s, e) && rest.subrange(s, e) == word;
                    assert(!is_space(rest[s]));
                    if s == 0 {
                        assert(rest[0] == text[n]);
                    }
                    lemma_word_of_tail(text, n, s, e);
                    assert(is_word_at(text, s + n, e + n) && text.subrange(s + n, e + n) == word);
                }
            }
            if exists|start: int, end: int| is_word_at(text, start, end) && text.subrange(start, end) == word {
                let (s, e) = choose|s: int, e: int| is_word_at(text, s, e) && text.subrange(s, e) == word;
                if s == 0 {
                    if e < n {
                        assert(!is_space(text[e]));
                    }
                    if e > n {
                        assert(!is_space(text[n]));
                    }
                    assert(words[0] == word);
                } else {
                    if s - 1 < n {
                        assert(!is_space(text[s - 1]));
                    }
                    lemma_word_of_tail(text, n, s - n, e - n);
                    assert(is_word_at(rest, s - n, e - n) && rest.subrange(s - n, e - n) == word);
                    assert(split_words(rest).contains(word));
                    let k = choose|k: int| 0 <= k < split_words(rest).len() && split_words(rest)[k] == word;
                    assert(words[k + 1] == word);
                }
            }
        }
    }
}

/// A run of the text behind its first `n` characters is a word of that tail
/// exactly if it is a word of the text, provided that it does not touch the
/// cut or that whitespace stands before the cut.
proof fn lemma_word_of_tail(text: Seq<char>, n: int, start: int, end: int)
    requires
        0 < n <= text.len(),
        0 <= start,
        0 < start || is_space(text[n - 1]),
    ensures
        is_word_at(text.skip(n), start, end) <==> is_word_at(text, start + n, end + n),
        is_word_at(text.skip(n), start, end) ==> text.skip(n).subrange(start, end) == text.subrange(
            start + n,
            end + n,
        ),
{
    let tail = text.skip(n);
    if is_word_at(tail, start, end) {
        assert forall|i: int| start + n <= i < end + n implies !is_space(#[trigger] text[i]) by {
            assert(text[i] == tail[i - n]);
        }
        if start > 0 {
            assert(tail[start - 1] == text[start + n - 1]);
        }
        if end < tail.len() {
            assert(tail[end] == text[end + n]);
        }
        assert(tail.subrange(start, end) =~= text.subrange(start + n, end + n));
    }
    if is_word_at(text, start + n, end + n) {
        assert forall|i: int| start <= i < end implies !is_space(#[trigger] tail[i]) by {
            assert(tail[i] == text[i + n]);
        }
        if start > 0 {
            assert(tail[start - 1] == text[start + n - 1]);
        }
        if end < tail.len() {
            assert(tail[end] == text[end + n]);
        }
    }
}

/// Tells whether `c` separates words.
pub fn is_whitespace(c: char) -> (b: bool)
    ensures
        b == is_space(c),
{
    let u: u32 = c as u32;
    (0x09 <= u && u <= 0x0D) || u == 0x20 || u == 0x85 || u == 0xA0 || u == 0x1680 || (0x2000 <= u
        && u <= 0x200A) || u == 0x2028 || u == 0x2029 || u == 0x202F || u == 0x205F || u == 0x3000
}

/// `str::to_lowercase` of the standard library. Its result follows Unicode's
/// case tables and depends on the string alone, so it goes by the name
/// `lowercase_of`; nothing more is claimed of it.
#[verifier::external_body]
fn lowercase(word: &str) -> (folded: String)
    ensures
        folded@ == lowercase_of(word@),
{
    word.to_lowercase()
}

/// Normalizes one word.
pub fn normalize_word(word: &str, fold_case: bool) -> (w: String)
    ensures
        w@ == normalize(word@, fold_case),
{
    if fold_case {
        lowercase(word)
    } else {
        word.to_owned()
    }
}

/// Splits `text` on runs of whitespace and normalizes each word.
pub fn tokenize(text: &str, fold_case: bool) -> (words: Vec<String>)
    ensures
        words.len() == tokens(text@, fold_case).len(),
        forall|k: int| 0 <= k < words.len() ==> (#[trigger] words[k])@ == tokens(text@, fold_case)[k],
{
    let total = text.unicode_len();
    let mut words: Vec<String> = Vec::new();
    let ghost mut done: Seq<Seq<char>> = Seq::empty();
    let mut chars = text.chars();
    let mut i: usize = 0;
    let mut start: usize = 0;
    let mut pending = false;
    proof {
        assert(text@.skip(0) =~= text@);
        assert(done + split_words(text@) =~= split_words(text@));
    }
    loop
        invariant
            total == text@.len(),
            i <= total,
            chars.remaining() == text@.skip(i as int),
            words.len() == done.len(),
            forall|k: int| 0 <= k < words.len() ==> (#[trigger] words[k])@ == normalize(done[k], fold_case),
            pending ==> start < i,
            pending ==> forall|j: int| start <= j < i ==> !is_space(#[trigger] text@[j]),
            pending ==> split_words(text@) == done + split_words(text@.skip(start as int)),
            !pending ==> split_words(text@) == done + split_words(text@.skip(i as int)),
        ensures
            words.len() == done.len(),
            forall|k: int| 0 <= k < words.len() ==> (#[trigger] words[k])@ == normalize(done[k], fold_case),
            split_words(text@) == done,
        decreases total - i,
    {
        broadcast use vstd::string::group_string_axioms;

        let ghost rest = text@.skip(i as int);
        let next = chars.next();
        let at_space = match next {
            Some(c) => is_whitespace(c),
            None => true,
        };
        proof {
            if next is Some {
                assert(rest.len() > 0);
                assert(rest[0] == text@[i as int]);
                assert(rest.drop_first() =~= text@.skip(i + 1));
            } else {
                assert(rest.len() == 0);
            }
        }
        if at_space && pending {
            let raw = text.substring_char(start, i);
            let word = normalize_word(raw, fold_case);
            proof {
                let tail = text@.skip(start as int);
                let n = (i - start) as nat;
                assert forall|j: int| 0 <= j < n implies !is_space(#[trigger] tail[j]) by {
                    assert(tail[j] == text@[start + j]);
                }
                if i < total {
                    assert(tail[n as int] == text@[i as int]);
                }
                lemma_word_len(tail, n);
                assert(tail.take(n as int) =~= text@.subrange(start as int, i as int));
                assert(tail.skip(n as int) =~= text@.skip(i as int));
                assert(done + (seq![tail.take(n as int)] + split_words(text@.skip(i as int)))
                    =~= done.push(raw@) + split_words(text@.skip(i as int)));
                done = done.push(raw@);
            }
            words.push(word);
            pending = false;
        }
        match next {
            Some(_) => {
                if !at_space && !pending {
                    start = i;
                    pending = true;
                }
                i = i + 1;
            },
            None => {
                proof {
                    assert(split_words(text@.skip(i as int)) =~= Seq::<Seq<char>>::empty());
                    assert(done + Seq::<Seq<char>>::empty() =~= done);
                }
                break;
            },
        }
    }
    proof {
        let all = tokens(text@, fold_case);
        assert(all.len() == done.len());
        assert forall|k: int| 0 <= k < words.len() implies (#[trigger] words[k])@ == all[k] by {
            assert(all[k] == normalize(done[k], fold_case));
        }
    }
    words
}

} // verus!
