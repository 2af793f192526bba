//! What a query scores: the definition of a document's score, the step that
//! adds the matches of one search to the running scores, and the laws that
//! follow from the definition.

use crate::dictionary::{levenshtein_language, matched, word_views};
use crate::ranking::{capped, ScoreAccumulator};
use crate::tokenizer::tokens;
use crate::weights::{spec_weight, ConfigView};
use crate::word_index::{key_bytes, lemma_ascending_no_duplicates, WordIndex};
use vstd::prelude::*;

verus! {

/// The engine as a plain value: its configuration, the inverted index, the
/// dictionary's words in order, and the number of documents.
pub struct EngineView {
    pub config: ConfigView,
    pub table: Map<Seq<u8>, Set<usize>>,
    pub dictionary: Seq<Seq<u8>>,
    pub doc_count: nat,
}

/// `table` lists document `doc` under `word`.
pub open spec fn lists(table: Map<Seq<u8>, Set<usize>>, word: Seq<u8>, doc: usize) -> bool {
    table.contains_key(word) && table[word].contains(doc)
}

/// The number of entries of `words` under which `table` lists `doc`.
pub open spec fn doc_hits(table: Map<Seq<u8>, Set<usize>>, words: Seq<Seq<u8>>, doc: usize) -> nat
    decreases words.len(),
{
    if words.len() == 0 {
        0
    } else {
        doc_hits(table, words.drop_last(), doc) + if lists(table, words.last(), doc) {
            1nat
        } else {
            0nat
        }
    }
}

/// What `token` adds to the score of `doc` at the distances from `from` up:
/// at each distance the weight, once for every matching dictionary word that
/// lists `doc`. The distances end with the table, or earlier at the first
/// for which no automaton can be built.
pub open spec fn distance_score(engine: EngineView, token: Seq<char>, from: nat, doc: usize) -> nat
    decreases engine.config.rules.len() - from,
{
    if from >= engine.config.rules.len() {
        0
    } else {
        match levenshtein_language(token, from as u8) {
            None => 0,
            Some(language) => spec_weight(engine.config, from, key_bytes(token).len()) * doc_hits(
                engine.table,
                matched(engine.dictionary, language),
                doc,
            ) + distance_score(engine, token, from + 1, doc),
        }
    }
}

/// What `token` adds to the score of `doc`.
pub open spec fn token_score(engine: EngineView, token: Seq<char>, doc: usize) -> nat {
    distance_score(engine, token, 0, doc)
}

/// The score that the tokens `query` give to `doc`: the sum over the tokens.
pub open spec fn query_score(engine: EngineView, query: Seq<Seq<char>>, doc: usize) -> nat
    decreases query.len(),
{
    if query.len() == 0 {
        0
    } else {
        query_score(engine, query.drop_last(), doc) + token_score(engine, query.last(), doc)
    }
}

/// The score that the query `text` gives to `doc`.
pub open spec fn score(engine: EngineView, text: Seq<char>, doc: usize) -> nat {
    query_score(engine, tokens(text, engine.config.fold_case), doc)
}

/// The scores that the query `text` gives, as the engine stores them.
pub open spec fn stored_scores(engine: EngineView, text: Seq<char>) -> Seq<u64> {
    Seq::new(engine.doc_count, |doc: int| capped(score(engine, text, doc as usize)))
}

/// A document that is listed wherever another is has at least as many hits.
pub proof fn lemma_hits_monotonic(table: Map<Seq<u8>, Set<usize>>, words: Seq<Seq<u8>>, more: usize, less: usize)
    requires
        forall|word: Seq<u8>| lists(table, word, less) ==> lists(table, word, more),
    ensures
        doc_hits(table, words, more) >= doc_hits(table, words, less),
    decreases words.len(),
{
    if words.len() > 0 {
        lemma_hits_monotonic(table, words.drop_last(), more, less);
    }
}

/// A document that is listed under one of the words has a hit.
pub proof fn lemma_hit(table: Map<Seq<u8>, Set<usize>>, words: Seq<Seq<u8>>, word: Seq<u8>, doc: usize)
    requires
        words.contains(word),
        lists(table, word, doc),
    ensures
        doc_hits(table, words, doc) >= 1,
    decreases words.len(),
{
    if words.last() != word {
        let i = choose|i: int| 0 <= i < words.len() && words[i] == word;
        assert(words.drop_last()[i] == word);
        lemma_hit(table, words.drop_last(), word, doc);
    }
}

proof fn lemma_distance_score_monotonic(engine: EngineView, token: Seq<char>, from: nat, more: usize, less: usize)
    requires
        forall|word: Seq<u8>| lists(engine.table, word, less) ==> lists(engine.table, word, more),
    ensures
        distance_score(engine, token, from, more) >= distance_score(engine, token, from, less),
    decreases engine.config.rules.len() - from,
{
    if from < engine.config.rules.len() {
        match levenshtein_language(token, from as u8) {
            None => {},
            Some(language) => {
                let words = matched(engine.dictionary, language);
                let weight = spec_weight(engine.config, from, key_bytes(token).len());
                lemma_hits_monotonic(engine.table, words, more, less);
                lemma_distance_score_monotonic(engine, token, from + 1, more, less);
                assert(weight * doc_hits(engine.table, words, more) >= weight * doc_hits(
                    engine.table,
                    words,
                    less,
                )) by (nonlinear_arith)
                    requires
                        doc_hits(engine.table, words, more) >= doc_hits(engine.table, words, less),
                ;
            },
        }
    }
}

/// Accumulation monotonicity: a document that is listed under every word
/// under which another document is listed scores at least as much as the
/// other, whatever the query.
pub proof fn lemma_score_monotonic(engine: EngineView, query: Seq<Seq<char>>, more: usize, less: usize)
    requires
        forall|word: Seq<u8>| lists(engine.table, word, less) ==> lists(engine.table, word, more),
    ensures
        query_score(engine, query, more) >= query_score(engine, query, less),
        capped(query_score(engine, query, more)) >= capped(query_score(engine, query, less)),
    decreases query.len(),
{
    if query.len() > 0 {
        lemma_score_monotonic(engine, query.drop_last(), more, less);
        lemma_distance_score_monotonic(engine, query.last(), 0, more, less);
    }
}

/// Exact-match guarantee, for one token: where the token is a word of the
/// dictionary and the automaton for distance 0 accepts it, every document
/// listed under the word gets at least the weight of distance 0.
pub proof fn lemma_exact_match(engine: EngineView, token: Seq<char>, doc: usize)
    requires
        engine.config.rules.len() > 0,
        engine.dictionary.contains(key_bytes(token)),
        lists(engine.table, key_bytes(token), doc),
        levenshtein_language(token, 0) matches Some(language) && language.contains(key_bytes(token)),
    ensures
        token_score(engine, token, doc) >= spec_weight(engine.config, 0, key_bytes(token).len()),
{
    let language = levenshtein_language(token, 0)->0;
    let words = matched(engine.dictionary, language);
    let weight = spec_weight(engine.config, 0, key_bytes(token).len());
    let i = choose|i: int| 0 <= i < engine.dictionary.len() && engine.dictionary[i] == key_bytes(token);
    engine.dictionary.lemma_filter_contains(|word: Seq<u8>| language.contains(word), i);
    lemma_hit(engine.table, words, key_bytes(token), doc);
    assert(weight * doc_hits(engine.table, words, doc) >= weight) by (nonlinear_arith)
        requires
            doc_hits(engine.table, words, doc) >= 1,
    ;
}

/// A query scores for a document at least what any one of its tokens does.
pub proof fn lemma_token_counts(engine: EngineView, query: Seq<Seq<char>>, k: int, doc: usize)
    requires
        0 <= k < query.len(),
    ensures
        query_score(engine, query, doc) >= token_score(engine, query[k], doc),
    decreases query.len(),
{
    if k < query.len() - 1 {
        assert(query.drop_last()[k] == query[k]);
        lemma_token_counts(engine, query.drop_last(), k, doc);
    }
}

/// Adds `weight` to the score of every document listed under one of `words`,
/// once for each such word. Every word must be one of the index.
pub fn accumulate_matches(index: &WordIndex, acc: &mut ScoreAccumulator, words: &Vec<Vec<u8>>, weight: u64)
    requires
        index.wf(),
        old(acc).wf(),
        index.ids_below(old(acc)@.len()),
        forall|i: int| 0 <= i < words.len() ==> index@.contains_key(#[trigger] words[i]@),
    ensures
        final(acc).wf(),
        final(acc)@.len() == old(acc)@.len(),
        forall|doc: int|
            0 <= doc < old(acc)@.len() ==> final(acc)@[doc] == old(acc)@[doc] + weight * doc_hits(
                index@,
                word_views(words@),
                doc as usize,
            ),
{
    let ghost all = word_views(words@);
    let mut i: usize = 0;
    proof {
        assert(all.take(0) =~= Seq::<Seq<u8>>::empty());
    }
    while i < words.len()
        invariant
            i <= words.len(),
            all == word_views(words@),
            index.wf(),
            acc.wf(),
            acc@.len() == old(acc)@.len(),
            index.ids_below(acc@.len()),
            forall|k: int| 0 <= k < words.len() ==> index@.contains_key(#[trigger] words[k]@),
            forall|doc: int|
                0 <= doc < old(acc)@.len() ==> acc@[doc] == old(acc)@[doc] + weight * doc_hits(
                    index@,
                    all.take(i as int),
                    doc as usize,
                ),
        decreases words.len() - i,
    {
        let ghost word = all[i as int];
        assert(word == words[i as int]@);
        let docs = index.get_bytes(words[i].as_slice());
        proof {
            assert forall|k: int| 0 <= k < docs.len() implies docs[k] < acc@.len() by {
                assert(docs@.to_set().contains(docs[k]));
                assert(index.lists(word, docs[k]));
            }
            lemma_ascending_no_duplicates(docs@);
        }
        if weight > 0 {
            acc.add_all(docs, weight);
        }
        proof {
            let seen = all.take(i as int);
            let grown = all.take(i + 1);
            assert(grown.drop_last() =~= seen);
            assert(grown.last() == word);
            assert forall|doc: int| 0 <= doc < old(acc)@.len() implies acc@[doc] == old(acc)@[doc] + weight
                * doc_hits(index@, grown, doc as usize) by {
                let hits = doc_hits(index@, seen, doc as usize);
                assert(docs@.contains(doc as usize) <==> lists(index@, word, doc as usize)) by {
                    assert(docs@.to_set().contains(doc as usize) <==> docs@.contains(doc as usize));
                }
                if lists(index@, word, doc as usize) {
                    assert(weight * (hits + 1) == weight * hits + weight) by (nonlinear_arith);
                }
            }
        }
        i = i + 1;
    }
    proof {
        assert(all.take(words.len() as int) =~= all);
    }
}

} // verus!
