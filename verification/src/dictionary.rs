//! The sorted word dictionary and the edit-distance automata that search it.
//!
//! The dictionary is a finite-state set of the `fst` crate, built by
//! inserting the words in ascending byte order. What this module claims of
//! that crate is stated in the contracts of the functions that call it:
//! those contracts are assumed, not proved.

use crate::error::{ConstructionError, QueryAutomatonError};
use crate::lex::{
    bytes_lt, compare_bytes, extends, lemma_lt_asymmetric, lemma_push_ascending, strictly_ascending, Order,
};
use crate::word_index::key_bytes;
use vstd::prelude::*;
use vstd::slice::slice_to_vec;
use vstd::string::*;

verus! {

/// `fst::Set`, an immutable ordered set of byte strings; opaque here.
#[verifier::external_type_specification]
#[verifier::external_body]
#[verifier::reject_recursive_types(D)]
pub struct ExSet<D>(fst::Set<D>);

/// `fst::SetBuilder`, which builds a set from keys given in order; opaque
/// here.
#[verifier::external_type_specification]
#[verifier::external_body]
#[verifier::reject_recursive_types(W)]
pub struct ExSetBuilder<W>(fst::SetBuilder<W>);

/// `fst::Error`, the error of the set's builder; opaque here.
#[verifier::external_type_specification]
#[verifier::external_body]
pub struct ExFstError(fst::Error);

/// `fst::automaton::Levenshtein`, an edit-distance automaton; opaque here.
#[verifier::external_type_specification]
#[verifier::external_body]
pub struct ExLevenshtein(fst::automaton::Levenshtein);

/// `fst::automaton::LevenshteinError`, the error of an automaton that grew
/// too large; opaque here.
#[verifier::external_type_specification]
#[verifier::external_body]
pub struct ExLevenshteinError(fst::automaton::LevenshteinError);

/// The keys that a set holds, in the order in which it streams them.
pub uninterp spec fn set_keys(set: fst::Set<Vec<u8>>) -> Seq<Seq<u8>>;

/// The keys that a builder has taken, in the order of their insertion.
pub uninterp spec fn builder_keys(builder: fst::SetBuilder<Vec<u8>>) -> Seq<Seq<u8>>;

/// The byte strings that an automaton accepts.
pub uninterp spec fn automaton_language(automaton: fst::automaton::Levenshtein) -> Set<Seq<u8>>;

/// The byte strings accepted by the automaton that `fst` builds for `query`
/// and `distance`; none where it builds no automaton for them.
pub uninterp spec fn levenshtein_language(query: Seq<char>, distance: u8) -> Option<Set<Seq<u8>>>;

/// The dictionary words that `language` holds, in the dictionary's order.
pub open spec fn matched(dictionary: Seq<Seq<u8>>, language: Set<Seq<u8>>) -> Seq<Seq<u8>> {
    dictionary.filter(|word: Seq<u8>| language.contains(word))
}

/// The byte strings that a list of byte vectors holds.
pub open spec fn word_views(words: Seq<Vec<u8>>) -> Seq<Seq<u8>> {
    words.map_values(|word: Vec<u8>| word@)
}

/// `fst::SetBuilder::memory`: a builder that writes to memory and has taken
/// no key yet.
#[verifier::external_body]
fn builder_memory() -> (builder: fst::SetBuilder<Vec<u8>>)
    ensures
        builder_keys(builder) == Seq::<Seq<u8>>::empty(),
{
    fst::SetBuilder::memory()
}

/// `fst::SetBuilder::insert` on a builder that writes to memory. The builder
/// refuses a key that comes before the one it took last and then stays as it
/// was. It accepts any other key, since writing to memory cannot fail: a key
/// above the last one is added, and the last key given again is passed over
/// in silence.
#[verifier::external_body]
fn builder_insert(builder: &mut fst::SetBuilder<Vec<u8>>, key: &[u8]) -> (r: Result<(), fst::Error>)
    ensures
        r is Err <==> builder_keys(*old(builder)).len() > 0 && bytes_lt(
            key@,
            builder_keys(*old(builder)).last(),
        ),
        builder_keys(*final(builder)) == if extends(builder_keys(*old(builder)), key@) {
            builder_keys(*old(builder)).push(key@)
        } else {
            builder_keys(*old(builder))
        },
{
    builder.insert(key)
}

/// `fst::SetBuilder::into_set`: the set of the keys that the builder took.
#[verifier::external_body]
fn builder_into_set(builder: fst::SetBuilder<Vec<u8>>) -> (set: fst::Set<Vec<u8>>)
    ensures
        set_keys(set) == builder_keys(builder),
{
    builder.into_set()
}

/// `fst::automaton::Levenshtein::new`. Whether an automaton is built, and
/// which byte strings it accepts, depends on the query and the distance
/// alone; the construction gives up where it would need more states than the
/// crate allows. An automaton for distance 0 accepts the query itself. Of
/// the strings accepted at greater distances nothing is claimed.
#[verifier::external_body]
fn levenshtein_new(query: &str, distance: u8) -> (r: Result<
    fst::automaton::Levenshtein,
    fst::automaton::LevenshteinError,
>)
    ensures
        match r {
            Ok(automaton) => levenshtein_language(query@, distance) == Some(automaton_language(automaton)),
            Err(_) => levenshtein_language(query@, distance) is None,
        },
        r matches Ok(automaton) ==> distance == 0 ==> automaton_language(automaton).contains(
            key_bytes(query@),
        ),
{
    fst::automaton::Levenshtein::new(query, distance as u32)
}

/// `fst::Set::search`, streamed to its end: the keys of the set that the
/// automaton accepts, in the set's order.
#[verifier::external_body]
pub(crate) fn set_search(set: &fst::Set<Vec<u8>>, automaton: &fst::automaton::Levenshtein) -> (found: Vec<Vec<u8>>)
    ensures
        word_views(found@) == matched(set_keys(*set), automaton_language(*automaton)),
{
    fst::IntoStreamer::into_stream(set.search(automaton)).into_bytes()
}

/// `fst::Set::stream`, streamed to its end: the keys of the set, in its order.
#[verifier::external_body]
pub(crate) fn set_stream(set: &fst::Set<Vec<u8>>) -> (all: Vec<Vec<u8>>)
    ensures
        word_views(all@) == set_keys(*set),
{
    set.stream().into_bytes()
}

/// `fst::Set::contains`: whether the set holds the key.
#[verifier::external_body]
pub(crate) fn set_contains(set: &fst::Set<Vec<u8>>, key: &[u8]) -> (b: bool)
    ensures
        b == set_keys(*set).contains(key@),
{
    set.contains(key)
}

/// Builds the dictionary from words inserted in strictly ascending order.
pub struct FuzzyMatcherBuilder {
    set_builder: fst::SetBuilder<Vec<u8>>,
    last: Option<Vec<u8>>,
}

impl FuzzyMatcherBuilder {
    /// The words inserted so far, in order.
    pub closed spec fn keys(&self) -> Seq<Seq<u8>> {
        builder_keys(self.set_builder)
    }

    /// The words are in strictly ascending order, and the builder remembers
    /// the last of them.
    pub closed spec fn wf(&self) -> bool {
        &&& strictly_ascending(self.keys())
        &&& match self.last {
            None => self.keys().len() == 0,
            Some(word) => self.keys().len() > 0 && self.keys().last() == word@,
        }
    }

    /// Makes a builder that holds no word.
    pub fn new() -> (builder: FuzzyMatcherBuilder)
        ensures
            builder.wf(),
            builder.keys() == Seq::<Seq<u8>>::empty(),
    {
        FuzzyMatcherBuilder { set_builder: builder_memory(), last: None }
    }

    /// Inserts `key`, which must come after every word inserted before. A key
    /// that does not is refused, and the builder stays as it was.
    pub fn insert(&mut self, key: &str) -> (r: Result<(), ConstructionError>)
        requires
            old(self).wf(),
        ensures
            final(self).wf(),
            r is Ok <==> extends(old(self).keys(), key_bytes(key@)),
            r is Ok ==> final(self).keys() == old(self).keys().push(key_bytes(key@)),
            r is Err ==> final(self).keys() == old(self).keys(),
            r == Err::<(), ConstructionError>(ConstructionError::Duplicate) <==> old(self).keys().len() > 0
                && old(self).keys().last() == key_bytes(key@),
    {
        let bytes = key.as_bytes();
        match &self.last {
            None => {},
            Some(word) => {
                match compare_bytes(word.as_slice(), bytes) {
                    Order::Less => {
                        proof {
                            lemma_lt_asymmetric(word@, bytes@);
                        }
                    },
                    Order::Equal => {
                        return Err(ConstructionError::Duplicate);
                    },
                    Order::Greater => {
                        proof {
                            lemma_lt_asymmetric(bytes@, word@);
                        }
                        return Err(ConstructionError::OutOfOrder);
                    },
                }
            },
        }
        proof {
            lemma_push_ascending(self.keys(), bytes@);
        }
        match builder_insert(&mut self.set_builder, bytes) {
            Ok(()) => {
                self.last = Some(slice_to_vec(bytes));
                Ok(())
            },
            Err(_) => Err(ConstructionError::OutOfOrder),
        }
    }

    /// Finishes the dictionary: the set of the words inserted.
    pub fn pack(self) -> (set: fst::Set<Vec<u8>>)
        ensures
            set_keys(set) == self.keys(),
    {
        builder_into_set(self.set_builder)
    }
}

/// Builds the edit-distance automaton for `token` and `distance`, where one
/// can be built.
pub fn build_automaton(token: &str, distance: u8) -> (r: Result<
    fst::automaton::Levenshtein,
    QueryAutomatonError,
>)
    ensures
        match r {
            Ok(automaton) => levenshtein_language(token@, distance) == Some(automaton_language(automaton)),
            Err(e) => levenshtein_language(token@, distance) is None && e.distance == distance,
        },
        r matches Ok(automaton) ==> distance == 0 ==> automaton_language(automaton).contains(
            key_bytes(token@),
        ),
{
    match levenshtein_new(token, distance) {
        Ok(automaton) => Ok(automaton),
        Err(_) => Err(QueryAutomatonError { distance }),
    }
}

} // verus!
