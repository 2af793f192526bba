//! The inverted index: for each word, the documents that hold it.
//!
//! The words are kept in ascending byte order, which is the order in which
//! the dictionary wants them, and each word's documents in ascending order
//! of their ids.

use crate::lex::{bytes_lt, compare_bytes, lemma_lt_asymmetric, lemma_lt_transitive, strictly_ascending, Order};
use vstd::prelude::*;
use vstd::string::*;
use vstd::utf8::encode_utf8;

verus! {

/// The bytes under which a word is indexed: its UTF-8 encoding.
pub open spec fn key_bytes(word: Seq<char>) -> Seq<u8> {
    encode_utf8(word)
}

/// Each id is smaller than every later one.
pub open spec fn ascending_ids(ids: Seq<usize>) -> bool {
    forall|i: int, j: int| 0 <= i < j < ids.len() ==> ids[i] < ids[j]
}

/// An ascending list of ids names no document twice.
pub proof fn lemma_ascending_no_duplicates(ids: Seq<usize>)
    requires
        ascending_ids(ids),
    ensures
        ids.no_duplicates(),
{
    assert forall|i: int, j: int| 0 <= i < ids.len() && 0 <= j < ids.len() && i != j implies ids[i]
        != ids[j] by {
        if i < j {
            assert(ids[i] < ids[j]);
        } else {
            assert(ids[j] < ids[i]);
        }
    }
}

/// The documents that `table` lists under `word`; none where it lacks the word.
pub open spec fn docs_under(table: Map<Seq<u8>, Set<usize>>, word: Seq<u8>) -> Set<usize> {
    if table.contains_key(word) {
        table[word]
    } else {
        Set::empty()
    }
}

/// One word with the documents that hold it.
struct WordEntry {
    word: String,
    docs: Vec<usize>,
}

impl WordEntry {
    spec fn key(self) -> Seq<u8> {
        key_bytes(self.word@)
    }

    spec fn ids(self) -> Seq<usize> {
        self.docs@
    }
}

spec fn entry_keys(entries: Seq<WordEntry>) -> Seq<Seq<u8>> {
    Seq::new(entries.len(), |i: int| entries[i].key())
}

spec fn entries_wf(entries: Seq<WordEntry>) -> bool {
    &&& strictly_ascending(entry_keys(entries))
    &&& forall|i: int|
        0 <= i < entries.len() ==> ascending_ids((#[trigger] entries[i]).ids()) && entries[i].ids().len() > 0
}

spec fn holds(entries: Seq<WordEntry>, word: Seq<u8>) -> bool {
    exists|i: int| 0 <= i < entries.len() && (#[trigger] entries[i]).key() == word
}

spec fn slot(entries: Seq<WordEntry>, word: Seq<u8>) -> int {
    choose|i: int| 0 <= i < entries.len() && (#[trigger] entries[i]).key() == word
}

spec fn table(entries: Seq<WordEntry>) -> Map<Seq<u8>, Set<usize>> {
    Map::new(|w: Seq<u8>| holds(entries, w), |w: Seq<u8>| entries[slot(entries, w)].ids().to_set())
}

/// In a well-formed list of entries, the table lists under each entry's word
/// that entry's documents.
proof fn lemma_table_at(entries: Seq<WordEntry>, i: int)
    requires
        entries_wf(entries),
        0 <= i < entries.len(),
    ensures
        holds(entries, entries[i].key()),
        slot(entries, entries[i].key()) == i,
        table(entries).contains_key(entries[i].key()),
        table(entries)[entries[i].key()] == entries[i].ids().to_set(),
{
    let w = entries[i].key();
    let j = slot(entries, w);
    let keys = entry_keys(entries);
    assert(keys[i] == w && keys[j] == w);
    if i < j {
        lemma_lt_asymmetric(keys[i], keys[j]);
    } else if j < i {
        lemma_lt_asymmetric(keys[j], keys[i]);
    }
}

/// A word that stands strictly between its neighbours in a well-formed list
/// is none of the list's words.
proof fn lemma_absent(entries: Seq<WordEntry>, word: Seq<u8>, p: int)
    requires
        0 <= p <= entries.len(),
        forall|i: int| 0 <= i < p ==> bytes_lt((#[trigger] entries[i]).key(), word),
        forall|i: int| p <= i < entries.len() ==> bytes_lt(word, (#[trigger] entries[i]).key()),
    ensures
        !holds(entries, word),
{
    assert forall|i: int| 0 <= i < entries.len() implies (#[trigger] entries[i]).key() != word by {
        if i < p {
            lemma_lt_asymmetric(entries[i].key(), word);
        } else {
            lemma_lt_asymmetric(word, entries[i].key());
        }
    }
}

/// Adding a document to one entry adds it to the table under that entry's
/// word and changes nothing else.
proof fn lemma_table_update(before: Seq<WordEntry>, after: Seq<WordEntry>, p: int, id: usize)
    requires
        entries_wf(before),
        0 <= p < before.len(),
        after.len() == before.len(),
        forall|j: int| 0 <= j < before.len() && j != p ==> after[j] == before[j],
        after[p].key() == before[p].key(),
        ascending_ids(after[p].ids()),
        after[p].ids().to_set() == before[p].ids().to_set().insert(id),
    ensures
        entries_wf(after),
        entry_keys(after) == entry_keys(before),
        table(after) == table(before).insert(
            before[p].key(),
            docs_under(table(before), before[p].key()).insert(id),
        ),
{
    let word = before[p].key();
    assert(entry_keys(after) =~= entry_keys(before));
    assert(after[p].ids().to_set().contains(id));
    assert(after[p].ids().len() > 0);
    assert(entries_wf(after));
    lemma_table_at(before, p);
    let expected = table(before).insert(word, docs_under(table(before), word).insert(id));
    assert forall|w: Seq<u8>| table(after).contains_key(w) <==> expected.contains_key(w) by {
        if holds(after, w) {
            let i = slot(after, w);
            assert(before[i].key() == w);
        }
        if holds(before, w) {
            let i = slot(before, w);
            assert(after[i].key() == w);
        }
    }
    assert forall|w: Seq<u8>| table(after).contains_key(w) implies table(after)[w] == expected[w] by {
        let i = slot(after, w);
        lemma_table_at(after, i);
        lemma_table_at(before, i);
    }
    assert(table(after) =~= expected);
}

/// Inserting an entry for a new word at its place adds the word to the table
/// and changes nothing else.
proof fn lemma_table_insert(before: Seq<WordEntry>, p: int, entry: WordEntry, id: usize)
    requires
        entries_wf(before),
        0 <= p <= before.len(),
        forall|i: int| 0 <= i < p ==> bytes_lt((#[trigger] before[i]).key(), entry.key()),
        forall|i: int| p <= i < before.len() ==> bytes_lt(entry.key(), (#[trigger] before[i]).key()),
        entry.ids() == seq![id],
    ensures
        entries_wf(before.insert(p, entry)),
        entry_keys(before.insert(p, entry)) == entry_keys(before).insert(p, entry.key()),
        !table(before).contains_key(entry.key()),
        table(before.insert(p, entry)) == table(before).insert(entry.key(), Set::<usize>::empty().insert(id)),
{
    let after = before.insert(p, entry);
    let word = entry.key();
    let keys = entry_keys(before);
    let grown = entry_keys(after);
    assert(grown =~= keys.insert(p, word));
    assert forall|i: int, j: int| 0 <= i < j < grown.len() implies bytes_lt(
        #[trigger] grown[i],
        #[trigger] grown[j],
    ) by {
        if j < p {
            assert(bytes_lt(keys[i], keys[j]));
        } else if j == p {
            assert(grown[i] == before[i].key());
        } else if i < p {
            assert(grown[j] == before[j - 1].key());
            assert(grown[i] == before[i].key());
            lemma_lt_transitive(grown[i], word, grown[j]);
        } else if i == p {
            assert(grown[j] == before[j - 1].key());
        } else {
            assert(bytes_lt(keys[i - 1], keys[j - 1]));
        }
    }
    assert forall|i: int| 0 <= i < after.len() implies ascending_ids((#[trigger] after[i]).ids())
        && after[i].ids().len() > 0 by {
        if i < p {
            assert(after[i] == before[i]);
        } else if i > p {
            assert(after[i] == before[i - 1]);
        }
    }
    assert(entries_wf(after));
    lemma_absent(before, word, p);
    let expected = table(before).insert(word, Set::<usize>::empty().insert(id));
    assert forall|w: Seq<u8>| table(after).contains_key(w) <==> expected.contains_key(w) by {
        if holds(after, w) {
            let i = slot(after, w);
            if i < p {
                assert(before[i].key() == w);
            } else if i > p {
                assert(before[i - 1].key() == w);
            }
        }
        if holds(before, w) {
            let i = slot(before, w);
            if i < p {
                assert(after[i].key() == w);
            } else {
                assert(after[i + 1].key() == w);
            }
        }
        if w == word {
            assert(after[p].key() == w);
        }
    }
    assert forall|w: Seq<u8>| table(after).contains_key(w) implies table(after)[w] == expected[w] by {
        let i = slot(after, w);
        lemma_table_at(after, i);
        if i < p {
            assert(after[i] == before[i]);
            lemma_table_at(before, i);
        } else if i > p {
            assert(after[i] == before[i - 1]);
            lemma_table_at(before, i - 1);
        } else {
            assert(seq![id].to_set() =~= Set::<usize>::empty().insert(id)) by {
                assert(seq![id][0] == id);
            }
        }
    }
    assert(table(after) =~= expected);
}

/// Adds `id` to an ascending list of ids, at its place, unless the list
/// holds it already.
pub fn insert_id(ids: &mut Vec<usize>, id: usize)
    requires
        ascending_ids(old(ids)@),
    ensures
        ascending_ids(final(ids)@),
        final(ids)@.to_set() == old(ids)@.to_set().insert(id),
        old(ids)@.contains(id) ==> final(ids)@ == old(ids)@,
{
    let mut lo: usize = 0;
    let mut hi: usize = ids.len();
    while lo < hi
        invariant
            lo <= hi <= ids.len(),
            *ids == *old(ids),
            ascending_ids(ids@),
            forall|i: int| 0 <= i < lo ==> ids@[i] < id,
            forall|i: int| hi <= i < ids.len() ==> ids@[i] >= id,
        decreases hi - lo,
    {
        let mid = lo + (hi - lo) / 2;
        if ids[mid] < id {
            lo = mid + 1;
        } else {
            hi = mid;
        }
    }
    let ghost before = ids@;
    if lo < ids.len() && ids[lo] == id {
        assert(before.to_set().insert(id) =~= before.to_set());
    } else {
        ids.insert(lo, id);
        proof {
            let after = ids@;
            assert(!before.contains(id));
            assert forall|x: usize| after.to_set().contains(x) <==> before.to_set().insert(id).contains(
                x,
            ) by {
                if after.contains(x) {
                    let i = choose|i: int| 0 <= i < after.len() && after[i] == x;
                    if i < lo {
                        assert(before[i] == x);
                    } else if i > lo {
                        assert(before[i - 1] == x);
                    }
                }
                if before.contains(x) {
                    let i = choose|i: int| 0 <= i < before.len() && before[i] == x;
                    if i < lo {
                        assert(after[i] == x);
                    } else {
                        assert(after[i + 1] == x);
                    }
                }
                if x == id {
                    assert(after[lo as int] == x);
                }
            }
            assert(after.to_set() =~= before.to_set().insert(id));
        }
    }
}

/// The inverted index.
pub struct WordIndex {
    entries: Vec<WordEntry>,
}

impl WordIndex {
    /// The indexed words, in ascending byte order.
    pub closed spec fn keys(&self) -> Seq<Seq<u8>> {
        entry_keys(self.entries@)
    }

    /// The index as a map from each word to the documents that hold it.
    pub closed spec fn view(&self) -> Map<Seq<u8>, Set<usize>> {
        table(self.entries@)
    }

    /// The words are in strictly ascending order, and each has at least one
    /// document.
    pub closed spec fn wf(&self) -> bool {
        entries_wf(self.entries@)
    }

    /// The index lists document `doc` under `word`.
    pub open spec fn lists(&self, word: Seq<u8>, doc: usize) -> bool {
        self@.contains_key(word) && self@[word].contains(doc)
    }

    /// Every listed document has an id below `bound`.
    pub open spec fn ids_below(&self, bound: nat) -> bool {
        forall|word: Seq<u8>, doc: usize| self.lists(word, doc) ==> doc < bound
    }

    /// The words of a well-formed index are the keys of its map, each once
    /// and in ascending order, and each lists a finite, non-empty set of
    /// documents: the index holds no word without a document.
    pub proof fn lemma_keys(&self)
        requires
            self.wf(),
        ensures
            strictly_ascending(self.keys()),
            forall|word: Seq<u8>| self@.contains_key(word) <==> self.keys().contains(word),
            forall|word: Seq<u8>|
                self@.contains_key(word) ==> (#[trigger] self@[word]).finite() && self@[word].len() > 0,
            forall|word: Seq<u8>|
                #[trigger] self@.contains_key(word) ==> exists|doc: usize| self.lists(word, doc),
    {
        let entries = self.entries@;
        let keys = entry_keys(entries);
        assert forall|word: Seq<u8>| self@.contains_key(word) <==> self.keys().contains(word) by {
            if holds(entries, word) {
                let i = slot(entries, word);
                assert(keys[i] == word);
            }
            if keys.contains(word) {
                let i = choose|i: int| 0 <= i < keys.len() && keys[i] == word;
                assert(entries[i].key() == word);
            }
        }
        assert forall|word: Seq<u8>| self@.contains_key(word) implies (#[trigger] self@[word]).finite()
            && self@[word].len() > 0 by {
            let i = slot(entries, word);
            lemma_table_at(entries, i);
            let ids = entries[i].ids();
            vstd::seq_lib::seq_to_set_is_finite(ids);
            assert(ids.to_set().contains(ids[0]));
            if ids.to_set().len() == 0 {
                ids.to_set().lemma_len0_is_empty();
            }
        }
        assert forall|word: Seq<u8>| #[trigger] self@.contains_key(word) implies exists|doc: usize|
            self.lists(word, doc) by {
            let i = slot(entries, word);
            lemma_table_at(entries, i);
            let ids = entries[i].ids();
            assert(ids.to_set().contains(ids[0]));
            assert(self.lists(word, ids[0]));
        }
    }

    /// Makes an empty index.
    pub fn new() -> (index: WordIndex)
        ensures
            index.wf(),
            index@ == Map::<Seq<u8>, Set<usize>>::empty(),
            index.keys() == Seq::<Seq<u8>>::empty(),
    {
        let index = WordIndex { entries: Vec::new() };
        proof {
            assert(index@ =~= Map::<Seq<u8>, Set<usize>>::empty());
            assert(index.keys() =~= Seq::<Seq<u8>>::empty());
        }
        index
    }

    /// Finds the place of `key`: whether the index holds it, and the
    /// position at which it stands or would have to stand.
    fn locate(&self, key: &[u8]) -> (r: (bool, usize))
        requires
            self.wf(),
        ensures
            r.1 <= self.entries@.len(),
            r.0 ==> r.1 < self.entries@.len() && self.entries@[r.1 as int].key() == key@,
            !r.0 ==> forall|i: int| 0 <= i < r.1 ==> bytes_lt((#[trigger] self.entries@[i]).key(), key@),
            !r.0 ==> forall|i: int|
                r.1 <= i < self.entries@.len() ==> bytes_lt(key@, (#[trigger] self.entries@[i]).key()),
    {
        let mut lo: usize = 0;
        let mut hi: usize = self.entries.len();
        while lo < hi
            invariant
                lo <= hi <= self.entries@.len(),
                self.wf(),
                forall|i: int| 0 <= i < lo ==> bytes_lt((#[trigger] self.entries@[i]).key(), key@),
                forall|i: int|
                    hi <= i < self.entries@.len() ==> bytes_lt(key@, (#[trigger] self.entries@[i]).key()),
            decreases hi - lo,
        {
            let mid = lo + (hi - lo) / 2;
            let ghost keys = entry_keys(self.entries@);
            let ghost here = self.entries@[mid as int].key();
            match compare_bytes(self.entries[mid].word.as_str().as_bytes(), key) {
                Order::Less => {
                    proof {
                        assert forall|i: int| 0 <= i < mid + 1 implies bytes_lt(
                            (#[trigger] self.entries@[i]).key(),
                            key@,
                        ) by {
                            if i < mid {
                                assert(bytes_lt(keys[i], keys[mid as int]));
                                lemma_lt_transitive(self.entries@[i].key(), here, key@);
                            }
                        }
                    }
                    lo = mid + 1;
                },
                Order::Equal => {
                    return (true, mid);
                },
                Order::Greater => {
                    proof {
                        assert forall|i: int| mid <= i < self.entries@.len() implies bytes_lt(
                            key@,
                            (#[trigger] self.entries@[i]).key(),
                        ) by {
                            if mid < i {
                                assert(bytes_lt(keys[mid as int], keys[i]));
                                lemma_lt_transitive(key@, here, self.entries@[i].key());
                            }
                        }
                    }
                    hi = mid;
                },
            }
        }
        (false, lo)
    }

    /// Lists document `index` under the word `key`. Listing a document twice
    /// under one word changes nothing.
    pub fn add_key(&mut self, key: String, index: usize)
        requires
            old(self).wf(),
        ensures
            final(self).wf(),
            final(self)@ == old(self)@.insert(
                key_bytes(key@),
                docs_under(old(self)@, key_bytes(key@)).insert(index),
            ),
    {
        let (found, p) = self.locate(key.as_str().as_bytes());
        let ghost before = self.entries@;
        if found {
            let entry = &mut self.entries[p];
            insert_id(&mut entry.docs, index);
            proof {
                lemma_table_update(before, self.entries@, p as int, index);
            }
        } else {
            let mut docs: Vec<usize> = Vec::new();
            docs.push(index);
            let entry = WordEntry { word: key, docs };
            proof {
                assert(entry.ids() =~= seq![index]);
                lemma_table_insert(before, p as int, entry, index);
            }
            self.entries.insert(p, entry);
        }
    }

    /// Whether the index holds the word with the bytes `key`.
    pub fn contains_bytes(&self, key: &[u8]) -> (b: bool)
        requires
            self.wf(),
        ensures
            b == self@.contains_key(key@),
    {
        let (found, p) = self.locate(key);
        proof {
            if found {
                lemma_table_at(self.entries@, p as int);
            } else {
                lemma_absent(self.entries@, key@, p as int);
            }
        }
        found
    }

    /// Whether the index holds the word `key`.
    pub fn contains_key(&self, key: &str) -> (b: bool)
        requires
            self.wf(),
        ensures
            b == self@.contains_key(key_bytes(key@)),
    {
        self.contains_bytes(key.as_bytes())
    }

    /// The documents listed under the word with the bytes `key`, in
    /// ascending order of their ids. The word must be one of the index: to
    /// look up another is a breach of the engine's invariant, which callers
    /// rule out beforehand.
    pub fn get_bytes(&self, key: &[u8]) -> (docs: &Vec<usize>)
        requires
            self.wf(),
            self@.contains_key(key@),
        ensures
            docs@.to_set() == self@[key@],
            ascending_ids(docs@),
    {
        let (found, p) = self.locate(key);
        proof {
            if !found {
                lemma_absent(self.entries@, key@, p as int);
            }
            lemma_table_at(self.entries@, p as int);
        }
        &self.entries[p].docs
    }

    /// The documents listed under `key`, in ascending order of their ids.
    /// The word must be one of the index: to look up another is a breach of
    /// the engine's invariant, which callers rule out beforehand.
    pub fn get(&self, key: &str) -> (docs: &Vec<usize>)
        requires
            self.wf(),
            self@.contains_key(key_bytes(key@)),
        ensures
            docs@.to_set() == self@[key_bytes(key@)],
            ascending_ids(docs@),
    {
        self.get_bytes(key.as_bytes())
    }

    /// The number of words.
    pub fn len(&self) -> (n: usize)
        ensures
            n == self.keys().len(),
    {
        self.entries.len()
    }

    /// The word at position `i` of the ascending order.
    pub fn key_at(&self, i: usize) -> (key: &str)
        requires
            i < self.keys().len(),
        ensures
            key_bytes(key@) == self.keys()[i as int],
    {
        self.entries[i].word.as_str()
    }
}

} // verus!
