//! The engine: an index built once from a corpus, and the queries against it.

use crate::dictionary::{
    build_automaton, levenshtein_language, matched, set_contains, set_keys, set_search, set_stream, word_views,
    FuzzyMatcherBuilder,
};
use crate::error::QueryAutomatonError;
use crate::lex::{bytes_lt, strictly_ascending};
use crate::ranking::{is_ranking, ScoreAccumulator};
use crate::scoring::{
    accumulate_matches, distance_score, doc_hits, lemma_exact_match, lemma_token_counts, lists, query_score,
    score, stored_scores, token_score, EngineView,
};
use crate::tokenizer::{tokenize, tokens};
use crate::weights::{spec_weight, Config};
use crate::word_index::{key_bytes, WordIndex};
use vstd::prelude::*;
use vstd::string::*;

verus! {

/// The texts of a corpus.
pub open spec fn corpus_texts(phrases: Seq<String>) -> Seq<Seq<char>> {
    phrases.map_values(|phrase: String| phrase@)
}

/// The words of a text as the index holds them, in order.
pub open spec fn doc_keys(text: Seq<char>, fold_case: bool) -> Seq<Seq<u8>> {
    tokens(text, fold_case).map_values(|word: Seq<char>| key_bytes(word))
}

/// Document `doc` of the corpus holds `word`.
pub open spec fn corpus_lists(texts: Seq<Seq<char>>, fold_case: bool, word: Seq<u8>, doc: usize) -> bool {
    doc < texts.len() && doc_keys(texts[doc as int], fold_case).contains(word)
}

/// Some document of the corpus holds `word`.
pub open spec fn corpus_holds(texts: Seq<Seq<char>>, fold_case: bool, word: Seq<u8>) -> bool {
    exists|doc: usize| corpus_lists(texts, fold_case, word, doc)
}

/// One of the words of `all` from position `from` on has the key `word`.
pub open spec fn holds_from(all: Seq<Seq<char>>, from: int, word: Seq<u8>) -> bool {
    exists|k: int| from <= k < all.len() && key_bytes(#[trigger] all[k]) == word
}

/// The search engine: the dictionary of the corpus's words and the inverted
/// index from each word to the documents that hold it.
pub struct FuzzyMatcher {
    set: fst::Set<Vec<u8>>,
    word_index: WordIndex,
    config: Config,
    doc_count: usize,
}

impl FuzzyMatcher {
    /// The engine as a plain value.
    pub closed spec fn view(&self) -> EngineView {
        EngineView {
            config: self.config@,
            table: self.word_index@,
            dictionary: set_keys(self.set),
            doc_count: self.doc_count as nat,
        }
    }

    /// The dictionary holds the words of the index, in ascending order, and
    /// the index lists no document beyond the corpus.
    pub closed spec fn wf(&self) -> bool {
        &&& self.config.wf()
        &&& self.word_index.wf()
        &&& set_keys(self.set) == self.word_index.keys()
        &&& self.word_index.ids_below(self.doc_count as nat)
    }

    /// Bijection: the dictionary's words are the keys of the index, each
    /// once and in ascending order. Every key lists at least one document,
    /// and every listed document is one of the corpus.
    pub proof fn lemma_dictionary_matches_index(&self)
        requires
            self.wf(),
        ensures
            strictly_ascending(self@.dictionary),
            self@.dictionary.to_set() == self@.table.dom(),
            forall|word: Seq<u8>| self@.dictionary.contains(word) <==> self@.table.contains_key(word),
            forall|word: Seq<u8>|
                #[trigger] self@.table.contains_key(word) ==> exists|doc: usize| lists(self@.table, word, doc),
            forall|word: Seq<u8>, doc: usize| lists(self@.table, word, doc) ==> doc < self@.doc_count,
            self@.config.rules.len() > 0,
    {
        self.word_index.lemma_keys();
        assert(self@.dictionary.to_set() =~= self@.table.dom());
        assert forall|word: Seq<u8>| #[trigger] self@.table.contains_key(word) implies exists|doc: usize|
            lists(self@.table, word, doc) by {
            let doc = choose|doc: usize| self.word_index.lists(word, doc);
            assert(lists(self@.table, word, doc));
        }
        assert forall|word: Seq<u8>, doc: usize| lists(self@.table, word, doc) implies doc
            < self@.doc_count by {
            assert(self.word_index.lists(word, doc));
        }
    }

    /// Builds the engine for a corpus with the length-gated weight table.
    /// Document ids are the positions of the phrases. The index and the
    /// dictionary hold the words of the corpus and no other: a word lists a
    /// document exactly if the document's text holds the word, and every key
    /// lists a document.
    pub fn new(phrases: &Vec<String>) -> (matcher: FuzzyMatcher)
        ensures
            matcher.wf(),
            matcher@.config == Config::length_gated_view(),
            matcher@.doc_count == phrases.len(),
            forall|word: Seq<u8>, doc: usize|
                lists(matcher@.table, word, doc) <==> corpus_lists(corpus_texts(phrases@), true, word, doc),
            forall|word: Seq<u8>|
                #[trigger] matcher@.table.contains_key(word) <==> corpus_holds(
                    corpus_texts(phrases@),
                    true,
                    word,
                ),
            forall|word: Seq<u8>| matcher@.dictionary.contains(word) <==> matcher@.table.contains_key(word),
            strictly_ascending(matcher@.dictionary),
    {
        FuzzyMatcher::with_config(phrases, Config::length_gated())
    }

    /// Builds the engine for a corpus with the given configuration. The
    /// index and the dictionary hold the words of the corpus and no other: a
    /// word lists a document exactly if the document's text holds the word,
    /// and every key lists a document.
    pub fn with_config(phrases: &Vec<String>, config: Config) -> (matcher: FuzzyMatcher)
        requires
            config.wf(),
        ensures
            matcher.wf(),
            matcher@.config == config@,
            matcher@.doc_count == phrases.len(),
            forall|word: Seq<u8>, doc: usize|
                lists(matcher@.table, word, doc) <==> corpus_lists(
                    corpus_texts(phrases@),
                    config@.fold_case,
                    word,
                    doc,
                ),
            forall|word: Seq<u8>|
                #[trigger] matcher@.table.contains_key(word) <==> corpus_holds(
                    corpus_texts(phrases@),
                    config@.fold_case,
                    word,
                ),
            forall|word: Seq<u8>| matcher@.dictionary.contains(word) <==> matcher@.table.contains_key(word),
            strictly_ascending(matcher@.dictionary),
    {
        let fold_case = config.fold_case();
        let ghost texts = corpus_texts(phrases@);
        let mut word_index = WordIndex::new();
        let mut doc: usize = 0;
        while doc < phrases.len()
            invariant
                doc <= phrases.len(),
                texts == corpus_texts(phrases@),
                word_index.wf(),
                forall|word: Seq<u8>, d: usize|
                    word_index.lists(word, d) <==> d < doc && corpus_lists(texts, fold_case, word, d),
            decreases phrases.len() - doc,
        {
            let mut words = tokenize(phrases[doc].as_str(), fold_case);
            let ghost all = tokens(texts[doc as int], fold_case);
            while words.len() > 0
                invariant
                    doc < phrases.len(),
                    texts == corpus_texts(phrases@),
                    all == tokens(texts[doc as int], fold_case),
                    words.len() <= all.len(),
                    forall|k: int| 0 <= k < words.len() ==> (#[trigger] words[k])@ == all[k],
                    word_index.wf(),
                    forall|word: Seq<u8>, d: usize|
                        word_index.lists(word, d) <==> (d < doc && corpus_lists(texts, fold_case, word, d))
                            || (d == doc && holds_from(all, words.len() as int, word)),
                decreases words.len(),
            {
                let ghost k = words.len() - 1;
                let ghost before = word_index;
                let word = words.pop().unwrap();
                assert(word@ == all[k]);
                word_index.add_key(word, doc);
                proof {
                    let key = key_bytes(all[k]);
                    assert forall|w: Seq<u8>, d: usize|
                        word_index.lists(w, d) <==> (d < doc && corpus_lists(texts, fold_case, w, d)) || (d
                            == doc && holds_from(all, k, w)) by {
                        assert(word_index.lists(w, d) <==> before.lists(w, d) || (w == key && d == doc));
                        if holds_from(all, k + 1, w) {
                            let j = choose|j: int| k + 1 <= j < all.len() && key_bytes(#[trigger] all[j]) == w;
                            assert(k <= j < all.len() && key_bytes(all[j]) == w);
                        }
                        if holds_from(all, k, w) {
                            let j = choose|j: int| k <= j < all.len() && key_bytes(#[trigger] all[j]) == w;
                            if j != k {
                                assert(k + 1 <= j < all.len() && key_bytes(all[j]) == w);
                            }
                        }
                    }
                }
            }
            proof {
                let keys = doc_keys(texts[doc as int], fold_case);
                assert forall|w: Seq<u8>| holds_from(all, 0, w) <==> keys.contains(w) by {
                    if holds_from(all, 0, w) {
                        let j = choose|j: int| 0 <= j < all.len() && key_bytes(#[trigger] all[j]) == w;
                        assert(keys[j] == w);
                    }
                    if keys.contains(w) {
                        let j = choose|j: int| 0 <= j < keys.len() && keys[j] == w;
                        assert(key_bytes(all[j]) == w);
                    }
                }
            }
            doc = doc + 1;
        }
        let count = word_index.len();
        let mut builder = FuzzyMatcherBuilder::new();
        let mut i: usize = 0;
        proof {
            word_index.lemma_keys();
            assert(word_index.keys().take(0) =~= builder.keys());
        }
        while i < count
            invariant
                i <= count,
                count == word_index.keys().len(),
                strictly_ascending(word_index.keys()),
                builder.wf(),
                builder.keys() == word_index.keys().take(i as int),
            decreases count - i,
        {
            let ghost keys = word_index.keys();
            proof {
                if i > 0 {
                    assert(keys.take(i as int).last() == keys[i - 1]);
                    assert(bytes_lt(keys[i - 1], keys[i as int]));
                }
                assert(keys.take(i + 1) =~= keys.take(i as int).push(keys[i as int]));
            }
            match builder.insert(word_index.key_at(i)) {
                Ok(()) => {},
                Err(_) => {
                    assert(false);
                },
            }
            i = i + 1;
        }
        proof {
            assert(word_index.keys().take(count as int) =~= word_index.keys());
            assert forall|word: Seq<u8>, d: usize|
                lists(word_index@, word, d) <==> corpus_lists(texts, fold_case, word, d) by {
                assert(word_index.lists(word, d) <==> d < doc && corpus_lists(texts, fold_case, word, d));
            }
        }
        let set = builder.pack();
        let matcher = FuzzyMatcher { set, word_index, config, doc_count: phrases.len() };
        proof {
            matcher.lemma_dictionary_matches_index();
            assert forall|word: Seq<u8>| #[trigger]
                matcher@.table.contains_key(word) <==> corpus_holds(texts, fold_case, word) by {
                if matcher@.table.contains_key(word) {
                    let d = choose|d: usize| lists(matcher@.table, word, d);
                    assert(corpus_lists(texts, fold_case, word, d));
                }
                if corpus_holds(texts, fold_case, word) {
                    let d = choose|d: usize| corpus_lists(texts, fold_case, word, d);
                    assert(lists(matcher@.table, word, d));
                }
            }
        }
        matcher
    }

    /// The number of documents.
    pub fn doc_count(&self) -> (n: usize)
        ensures
            n == self@.doc_count,
    {
        self.doc_count
    }

    /// The words of the dictionary, in ascending order.
    pub fn words(&self) -> (all: Vec<Vec<u8>>)
        requires
            self.wf(),
        ensures
            word_views(all@) == self@.dictionary,
            strictly_ascending(word_views(all@)),
    {
        proof {
            self.lemma_dictionary_matches_index();
        }
        set_stream(&self.set)
    }

    /// Whether the dictionary holds `word`, which is the case exactly if the
    /// index lists some document under it.
    pub fn contains(&self, word: &str) -> (b: bool)
        requires
            self.wf(),
        ensures
            b == self@.dictionary.contains(key_bytes(word@)),
            b == self@.table.contains_key(key_bytes(word@)),
    {
        proof {
            self.lemma_dictionary_matches_index();
        }
        set_contains(&self.set, word.as_bytes())
    }

    /// The dictionary words that the edit-distance automaton for `token` and
    /// `distance` accepts, in ascending order; an error where no automaton
    /// can be built for the two.
    pub fn matches(&self, token: &str, distance: u8) -> (r: Result<Vec<Vec<u8>>, QueryAutomatonError>)
        ensures
            match r {
                Ok(found) => levenshtein_language(token@, distance) matches Some(language) && word_views(
                    found@,
                ) == matched(self@.dictionary, language),
                Err(e) => levenshtein_language(token@, distance) is None && e.distance == distance,
            },
            distance == 0 ==> (levenshtein_language(token@, 0) matches Some(language)
                ==> language.contains(key_bytes(token@))),
    {
        match build_automaton(token, distance) {
            Ok(automaton) => Ok(set_search(&self.set, &automaton)),
            Err(e) => Err(e),
        }
    }

    /// Adds to the running scores what `token` gives each document: for
    /// each distance from 0 up, until one admits no automaton, the weight of
    /// the distance for every matching word that lists the document.
    pub fn score_token(&self, acc: &mut ScoreAccumulator, token: &str)
        requires
            self.wf(),
            old(acc).wf(),
            old(acc)@.len() == self@.doc_count,
        ensures
            final(acc).wf(),
            final(acc)@.len() == old(acc)@.len(),
            forall|doc: int|
                0 <= doc < old(acc)@.len() ==> final(acc)@[doc] == old(acc)@[doc] + token_score(
                    self@,
                    token@,
                    doc as usize,
                ),
            levenshtein_language(token@, 0) matches Some(language) ==> language.contains(key_bytes(token@)),
    {
        let max = self.config.max_distance();
        let mut distance: u8 = 0;
        let mut done = false;
        let ghost mut next: nat = 0;
        while !done
            invariant
                self.wf(),
                acc.wf(),
                acc@.len() == old(acc)@.len(),
                acc@.len() == self@.doc_count,
                max == self@.config.rules.len() - 1,
                self@.config.rules.len() <= 256,
                !done ==> next == distance && distance <= max,
                done ==> forall|doc: usize| distance_score(self@, token@, next, doc) == 0,
                next > 0 || done ==> (levenshtein_language(token@, 0) matches Some(language)
                    ==> language.contains(key_bytes(token@))),
                forall|doc: int|
                    0 <= doc < old(acc)@.len() ==> acc@[doc] + distance_score(self@, token@, next, doc as usize)
                        == old(acc)@[doc] + token_score(self@, token@, doc as usize),
            decreases
                    if done {
                        0
                    } else {
                        max - distance + 1
                    },
        {
            match self.matches(token, distance) {
                Err(_) => {
                    done = true;
                },
                Ok(found) => {
                    let weight = self.config.weight(distance as u32, token.as_bytes().len());
                    let ghost before = acc@;
                    let ghost language = levenshtein_language(token@, distance)->0;
                    let ghost words = matched(self@.dictionary, language);
                    proof {
                        self.lemma_dictionary_matches_index();
                        assert forall|k: int| 0 <= k < words.len() implies self@.table.contains_key(
                            #[trigger] words[k],
                        ) by {
                            assert(words.contains(words[k]));
                            self@.dictionary.lemma_filter_contains_rev(
                                |word: Seq<u8>| language.contains(word),
                                words[k],
                            );
                        }
                        assert forall|k: int| 0 <= k < found.len() implies self@.table.contains_key(
                            #[trigger] found[k]@,
                        ) by {
                            assert(words[k] == found[k]@);
                        }
                    }
                    accumulate_matches(&self.word_index, acc, &found, weight);
                    proof {
                        assert forall|doc: int| 0 <= doc < before.len() implies acc@[doc] + distance_score(
                            self@,
                            token@,
                            next + 1,
                            doc as usize,
                        ) == before[doc] + distance_score(self@, token@, next, doc as usize) by {
                            assert(next as u8 == distance);
                            assert(acc@[doc] == before[doc] + weight * doc_hits(
                                self@.table,
                                words,
                                doc as usize,
                            ));
                        }
                        let end = next + 1;
                        if distance == max {
                            assert forall|doc: usize| distance_score(self@, token@, end, doc) == 0 by {}
                        }
                        next = next + 1;
                    }
                    if distance == max {
                        done = true;
                    } else {
                        distance = distance + 1;
                    }
                },
            }
        }
    }

    /// The scores that the query gives the documents: each token is scored
    /// on its own, and a document collects what all of them give it. A token
    /// that is a word of the index, and for which an automaton of distance 0
    /// can be built, gives every document under that word at least the
    /// weight of distance 0.
    pub fn query_scores(&self, keywords: &str) -> (acc: ScoreAccumulator)
        requires
            self.wf(),
        ensures
            acc.wf(),
            acc@.len() == self@.doc_count,
            forall|doc: int| 0 <= doc < acc@.len() ==> acc@[doc] == score(self@, keywords@, doc as usize),
            acc.stored() == stored_scores(self@, keywords@),
            forall|k: int, doc: usize|
                #![trigger lists(self@.table, key_bytes(tokens(keywords@, self@.config.fold_case)[k]), doc)]
                0 <= k < tokens(keywords@, self@.config.fold_case).len() && lists(
                    self@.table,
                    key_bytes(tokens(keywords@, self@.config.fold_case)[k]),
                    doc,
                ) && levenshtein_language(tokens(keywords@, self@.config.fold_case)[k], 0) is Some ==> doc
                    < acc@.len() && acc@[doc as int] >= spec_weight(
                    self@.config,
                    0,
                    key_bytes(tokens(keywords@, self@.config.fold_case)[k]).len(),
                ),
    {
        let words = tokenize(keywords, self.config.fold_case());
        let ghost all = tokens(keywords@, self@.config.fold_case);
        let mut acc = ScoreAccumulator::new(self.doc_count);
        let mut t: usize = 0;
        proof {
            assert(all.take(0) =~= Seq::<Seq<char>>::empty());
        }
        while t < words.len()
            invariant
                t <= words.len(),
                self.wf(),
                all == tokens(keywords@, self@.config.fold_case),
                words.len() == all.len(),
                forall|k: int| 0 <= k < words.len() ==> (#[trigger] words[k])@ == all[k],
                acc.wf(),
                acc@.len() == self@.doc_count,
                forall|doc: int|
                    0 <= doc < acc@.len() ==> acc@[doc] == query_score(self@, all.take(t as int), doc as usize),
                forall|k: int|
                    0 <= k < t ==> (levenshtein_language(#[trigger] all[k], 0) matches Some(language)
                        ==> language.contains(key_bytes(all[k]))),
            decreases words.len() - t,
        {
            self.score_token(&mut acc, words[t].as_str());
            proof {
                assert(all.take(t + 1).drop_last() =~= all.take(t as int));
                assert(all.take(t + 1).last() == all[t as int]);
            }
            t = t + 1;
        }
        proof {
            assert(all.take(t as int) =~= all);
            assert(acc.stored() =~= stored_scores(self@, keywords@));
            self.lemma_dictionary_matches_index();
            assert forall|k: int, doc: usize|
                #![trigger lists(self@.table, key_bytes(all[k]), doc)]
                0 <= k < all.len() && lists(self@.table, key_bytes(all[k]), doc) && levenshtein_language(
                    all[k],
                    0,
                ) is Some implies doc < acc@.len() && acc@[doc as int] >= spec_weight(
                self@.config,
                0,
                key_bytes(all[k]).len(),
            ) by {
                lemma_exact_match(self@, all[k], doc);
                lemma_token_counts(self@, all, k, doc);
            }
        }
        acc
    }

    /// Answers a query: the documents that score, the best first, and those
    /// with equal scores in ascending order of their ids. A query without
    /// words has an empty answer. A token that is a word of the index, for
    /// which an automaton of distance 0 can be built and distance 0 has a
    /// weight, brings every document under that word into the answer.
    pub fn query(&self, keywords: String) -> (ranked: Vec<usize>)
        requires
            self.wf(),
        ensures
            is_ranking(stored_scores(self@, keywords@), ranked@),
            tokens(keywords@, self@.config.fold_case).len() == 0 ==> ranked@.len() == 0,
            forall|k: int, doc: usize|
                #![trigger lists(self@.table, key_bytes(tokens(keywords@, self@.config.fold_case)[k]), doc)]
                0 <= k < tokens(keywords@, self@.config.fold_case).len() && lists(
                    self@.table,
                    key_bytes(tokens(keywords@, self@.config.fold_case)[k]),
                    doc,
                ) && levenshtein_language(tokens(keywords@, self@.config.fold_case)[k], 0) is Some
                    && spec_weight(
                    self@.config,
                    0,
                    key_bytes(tokens(keywords@, self@.config.fold_case)[k]).len(),
                ) > 0 ==> ranked@.contains(doc),
    {
        let acc = self.query_scores(keywords.as_str());
        let ranked = acc.ranking();
        proof {
            let all = tokens(keywords@, self@.config.fold_case);
            if all.len() == 0 && ranked@.len() > 0 {
                assert(acc.stored()[ranked@[0] as int] > 0);
            }
            assert forall|k: int, doc: usize|
                #![trigger lists(self@.table, key_bytes(all[k]), doc)]
                0 <= k < all.len() && lists(self@.table, key_bytes(all[k]), doc) && levenshtein_language(
                    all[k],
                    0,
                ) is Some && spec_weight(self@.config, 0, key_bytes(all[k]).len()) > 0 implies ranked@.contains(
                doc,
            ) by {
                assert(acc@[doc as int] > 0);
                assert(acc.stored()[doc as int] > 0);
            }
        }
        ranked
    }
}

} // verus!
