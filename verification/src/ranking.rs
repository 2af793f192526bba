//! Scores and their ranking.
//!
//! A query collects a score for each document and returns the documents that
//! scored, the best first. Documents with equal scores come in ascending
//! order of their ids, so a ranking is fixed by the scores alone.

use crate::word_index::ascending_ids;
use vstd::prelude::*;

verus! {

/// A total as the accumulator stores it: totals above `u64::MAX` are held as
/// `u64::MAX`.
pub open spec fn capped(total: nat) -> u64 {
    if total >= u64::MAX {
        u64::MAX
    } else {
        total as u64
    }
}

/// Document `a` ranks before document `b`: it has the greater score, or the
/// same score and the smaller id.
pub open spec fn ranked_before(scores: Seq<u64>, a: usize, b: usize) -> bool {
    scores[a as int] > scores[b as int] || (scores[a as int] == scores[b as int] && a < b)
}

/// Each document of `ids` ranks before every later one.
pub open spec fn in_rank_order(scores: Seq<u64>, ids: Seq<usize>) -> bool {
    forall|i: int, j: int| 0 <= i < j < ids.len() ==> ranked_before(scores, ids[i], ids[j])
}

/// `ranked` is the ranking for `scores`: the documents that scored, each
/// once, the best first.
pub open spec fn is_ranking(scores: Seq<u64>, ranked: Seq<usize>) -> bool {
    &&& forall|i: int|
        0 <= i < ranked.len() ==> (#[trigger] ranked[i]) < scores.len() && scores[ranked[i] as int] > 0
    &&& forall|doc: usize| doc < scores.len() && scores[doc as int] > 0 ==> ranked.contains(doc)
    &&& in_rank_order(scores, ranked)
}

/// Two lists in rank order that hold the same documents are the same list.
pub proof fn lemma_same_order(scores: Seq<u64>, a: Seq<usize>, b: Seq<usize>)
    requires
        in_rank_order(scores, a),
        in_rank_order(scores, b),
        forall|x: usize| a.contains(x) <==> b.contains(x),
    ensures
        a == b,
    decreases a.len(),
{
    if a.len() == 0 {
        if b.len() > 0 {
            assert(b.contains(b[0]));
        }
        assert(a =~= b);
    } else {
        assert(a.contains(a[0]));
        let k = choose|k: int| 0 <= k < b.len() && b[k] == a[0];
        assert(b.contains(b[0]));
        let m = choose|m: int| 0 <= m < a.len() && a[m] == b[0];
        if k > 0 {
            assert(ranked_before(scores, b[0], b[k]));
            if m > 0 {
                assert(ranked_before(scores, a[0], a[m]));
            }
        }
        assert(a[0] == b[0]);
        let rest_a = a.skip(1);
        let rest_b = b.skip(1);
        assert forall|x: usize| rest_a.contains(x) <==> rest_b.contains(x) by {
            if rest_a.contains(x) {
                let i = choose|i: int| 0 <= i < rest_a.len() && rest_a[i] == x;
                assert(a[i + 1] == x);
                assert(ranked_before(scores, a[0], a[i + 1]));
                assert(a.contains(x));
                let j = choose|j: int| 0 <= j < b.len() && b[j] == x;
                assert(rest_b[j - 1] == x);
            }
            if rest_b.contains(x) {
                let i = choose|i: int| 0 <= i < rest_b.len() && rest_b[i] == x;
                assert(b[i + 1] == x);
                assert(ranked_before(scores, b[0], b[i + 1]));
                assert(b.contains(x));
                let j = choose|j: int| 0 <= j < a.len() && a[j] == x;
                assert(rest_a[j - 1] == x);
            }
        }
        assert forall|i: int, j: int| 0 <= i < j < rest_a.len() implies ranked_before(
            scores,
            rest_a[i],
            rest_a[j],
        ) by {
            assert(ranked_before(scores, a[i + 1], a[j + 1]));
        }
        assert forall|i: int, j: int| 0 <= i < j < rest_b.len() implies ranked_before(
            scores,
            rest_b[i],
            rest_b[j],
        ) by {
            assert(ranked_before(scores, b[i + 1], b[j + 1]));
        }
        lemma_same_order(scores, rest_a, rest_b);
        assert(a =~= seq![a[0]] + rest_a);
        assert(b =~= seq![b[0]] + rest_b);
    }
}

/// Determinism: the scores admit one ranking only, so equal scores always
/// give the same ranked output.
pub proof fn lemma_ranking_unique(scores: Seq<u64>, first: Seq<usize>, second: Seq<usize>)
    requires
        is_ranking(scores, first),
        is_ranking(scores, second),
    ensures
        first == second,
{
    assert forall|x: usize| first.contains(x) <==> second.contains(x) by {
        if first.contains(x) {
            let i = choose|i: int| 0 <= i < first.len() && first[i] == x;
            assert(first[i] < scores.len());
        }
        if second.contains(x) {
            let i = choose|i: int| 0 <= i < second.len() && second[i] == x;
            assert(second[i] < scores.len());
        }
    }
    lemma_same_order(scores, first, second);
}

/// Tells whether document `a` ranks before document `b`.
fn ranks_before(scores: &Vec<u64>, a: usize, b: usize) -> (r: bool)
    requires
        a < scores.len(),
        b < scores.len(),
    ensures
        r == ranked_before(scores@, a, b),
{
    scores[a] > scores[b] || (scores[a] == scores[b] && a < b)
}

/// Merges two lists in rank order that share no document.
fn merge(scores: &Vec<u64>, left: &Vec<usize>, right: &Vec<usize>) -> (merged: Vec<usize>)
    requires
        in_rank_order(scores@, left@),
        in_rank_order(scores@, right@),
        forall|i: int| 0 <= i < left.len() ==> left[i] < scores.len(),
        forall|i: int| 0 <= i < right.len() ==> right[i] < scores.len(),
        forall|i: int, j: int| 0 <= i < left.len() && 0 <= j < right.len() ==> left[i] != right[j],
        left.len() + right.len() <= usize::MAX,
    ensures
        in_rank_order(scores@, merged@),
        merged.len() == left.len() + right.len(),
        forall|x: usize| merged@.contains(x) <==> left@.contains(x) || right@.contains(x),
{
    let mut merged: Vec<usize> = Vec::new();
    let mut i: usize = 0;
    let mut j: usize = 0;
    while i < left.len() || j < right.len()
        invariant
            i <= left.len(),
            j <= right.len(),
            merged.len() == i + j,
            in_rank_order(scores@, left@),
            in_rank_order(scores@, right@),
            forall|k: int| 0 <= k < left.len() ==> left[k] < scores.len(),
            forall|k: int| 0 <= k < right.len() ==> right[k] < scores.len(),
            forall|k: int, l: int| 0 <= k < left.len() && 0 <= l < right.len() ==> left[k] != right[l],
            in_rank_order(scores@, merged@),
            forall|k: int| 0 <= k < merged.len() ==> merged[k] < scores.len(),
            forall|k: int| 0 <= k < merged.len() && i < left.len() ==> ranked_before(scores@, merged[k], left[i as int]),
            forall|k: int| 0 <= k < merged.len() && j < right.len() ==> ranked_before(scores@, merged[k], right[j as int]),
            forall|x: usize|
                merged@.contains(x) <==> left@.take(i as int).contains(x) || right@.take(j as int).contains(x),
        decreases left.len() - i + right.len() - j,
    {
        let ghost before = merged@;
        let take_left = if i >= left.len() {
            false
        } else if j >= right.len() {
            true
        } else {
            ranks_before(scores, left[i], right[j])
        };
        if take_left {
            let x = left[i];
            merged.push(x);
            proof {
                assert forall|k: int| 0 <= k < merged.len() && i + 1 < left.len() implies ranked_before(
                    scores@,
                    merged[k],
                    left[i + 1],
                ) by {
                    assert(ranked_before(scores@, left[i as int], left[i + 1]));
                }
                assert(left@.take(i + 1) =~= left@.take(i as int).push(x));
                assert forall|y: usize|
                    merged@.contains(y) <==> left@.take(i + 1).contains(y) || right@.take(j as int).contains(
                        y,
                    ) by {
                    lemma_contains_push(before, x, y);
                    lemma_contains_push(left@.take(i as int), x, y);
                }
            }
            i = i + 1;
        } else {
            let x = right[j];
            merged.push(x);
            proof {
                assert(i < left.len() ==> ranked_before(scores@, x, left[i as int]));
                assert forall|k: int| 0 <= k < merged.len() && j + 1 < right.len() implies ranked_before(
                    scores@,
                    merged[k],
                    right[j + 1],
                ) by {
                    assert(ranked_before(scores@, right[j as int], right[j + 1]));
                }
                assert(right@.take(j + 1) =~= right@.take(j as int).push(x));
                assert forall|y: usize|
                    merged@.contains(y) <==> left@.take(i as int).contains(y) || right@.take(j + 1).contains(
                        y,
                    ) by {
                    lemma_contains_push(before, x, y);
                    lemma_contains_push(right@.take(j as int), x, y);
                }
            }
            j = j + 1;
        }
    }
    proof {
        assert(left@.take(i as int) =~= left@);
        assert(right@.take(j as int) =~= right@);
    }
    merged
}

/// What a list holds after one more item is appended.
proof fn lemma_contains_push(s: Seq<usize>, x: usize, y: usize)
    ensures
        s.push(x).contains(y) <==> s.contains(y) || y == x,
{
    if s.contains(y) {
        let i = choose|i: int| 0 <= i < s.len() && s[i] == y;
        assert(s.push(x)[i] == y);
    }
    if y == x {
        assert(s.push(x)[s.len() as int] == y);
    }
}

/// Puts the documents `ids[lo..hi]` in rank order.
fn sort_range(scores: &Vec<u64>, ids: &Vec<usize>, lo: usize, hi: usize) -> (sorted: Vec<usize>)
    requires
        lo <= hi <= ids.len(),
        ascending_ids(ids@),
        forall|i: int| 0 <= i < ids.len() ==> ids[i] < scores.len(),
    ensures
        in_rank_order(scores@, sorted@),
        sorted.len() == hi - lo,
        forall|x: usize| sorted@.contains(x) <==> ids@.subrange(lo as int, hi as int).contains(x),
    decreases hi - lo,
{
    if hi - lo == 0 {
        let sorted: Vec<usize> = Vec::new();
        assert(ids@.subrange(lo as int, hi as int) =~= sorted@);
        sorted
    } else if hi - lo == 1 {
        let mut sorted: Vec<usize> = Vec::new();
        sorted.push(ids[lo]);
        assert(ids@.subrange(lo as int, hi as int) =~= sorted@);
        sorted
    } else {
        let mid = lo + (hi - lo) / 2;
        let left = sort_range(scores, ids, lo, mid);
        let right = sort_range(scores, ids, mid, hi);
        let ghost low = ids@.subrange(lo as int, mid as int);
        let ghost high = ids@.subrange(mid as int, hi as int);
        proof {
            assert forall|i: int| 0 <= i < left.len() implies left[i] < scores.len() by {
                assert(left@.contains(left[i]));
                let k = choose|k: int| 0 <= k < low.len() && low[k] == left[i];
                assert(ids[lo + k] == left[i]);
            }
            assert forall|i: int| 0 <= i < right.len() implies right[i] < scores.len() by {
                assert(right@.contains(right[i]));
                let k = choose|k: int| 0 <= k < high.len() && high[k] == right[i];
                assert(ids[mid + k] == right[i]);
            }
            assert forall|i: int, j: int| 0 <= i < left.len() && 0 <= j < right.len() implies left[i]
                != right[j] by {
                assert(left@.contains(left[i]));
                assert(right@.contains(right[j]));
                let k = choose|k: int| 0 <= k < low.len() && low[k] == left[i];
                let l = choose|l: int| 0 <= l < high.len() && high[l] == right[j];
                assert(ids[lo + k] < ids[mid + l]);
            }
        }
        let sorted = merge(scores, &left, &right);
        proof {
            let whole = ids@.subrange(lo as int, hi as int);
            assert(whole =~= low + high);
            assert forall|x: usize| sorted@.contains(x) <==> whole.contains(x) by {
                if low.contains(x) {
                    let k = choose|k: int| 0 <= k < low.len() && low[k] == x;
                    assert(whole[k] == x);
                }
                if high.contains(x) {
                    let k = choose|k: int| 0 <= k < high.len() && high[k] == x;
                    assert(whole[low.len() + k] == x);
                }
                if whole.contains(x) {
                    let k = choose|k: int| 0 <= k < whole.len() && whole[k] == x;
                    if k < low.len() {
                        assert(low[k] == x);
                    } else {
                        assert(high[k - low.len()] == x);
                    }
                }
            }
        }
        sorted
    }
}

/// Ranks the documents that scored: the greatest score first, and documents
/// with equal scores in ascending order of their ids.
pub fn rank(scores: &Vec<u64>) -> (ranked: Vec<usize>)
    ensures
        is_ranking(scores@, ranked@),
{
    let mut ids: Vec<usize> = Vec::new();
    let mut doc: usize = 0;
    while doc < scores.len()
        invariant
            doc <= scores.len(),
            ids.len() <= doc,
            ascending_ids(ids@),
            forall|i: int| 0 <= i < ids.len() ==> ids[i] < doc && scores[ids[i] as int] > 0,
            forall|d: usize| d < doc && scores[d as int] > 0 ==> ids@.contains(d),
        decreases scores.len() - doc,
    {
        if scores[doc] > 0 {
            let ghost before = ids@;
            ids.push(doc);
            proof {
                assert forall|d: usize| d < doc + 1 && scores[d as int] > 0 implies ids@.contains(d) by {
                    lemma_contains_push(before, doc, d);
                }
            }
        }
        doc = doc + 1;
    }
    let ranked = sort_range(scores, &ids, 0, ids.len());
    proof {
        assert(ids@.subrange(0, ids.len() as int) =~= ids@);
        assert forall|i: int| 0 <= i < ranked.len() implies (#[trigger] ranked[i]) < scores.len()
            && scores[ranked[i] as int] > 0 by {
            assert(ranked@.contains(ranked[i]));
            let k = choose|k: int| 0 <= k < ids.len() && ids[k] == ranked[i];
        }
    }
    ranked
}

/// The running scores of one query, one for each document.
pub struct ScoreAccumulator {
    scores: Vec<u64>,
    totals: Ghost<Seq<nat>>,
}

impl ScoreAccumulator {
    /// The total that each document has collected.
    pub closed spec fn view(&self) -> Seq<nat> {
        self.totals@
    }

    /// The stored score of each document is its total, capped.
    pub closed spec fn wf(&self) -> bool {
        &&& self.scores.len() == self.totals@.len()
        &&& forall|doc: int| 0 <= doc < self.scores.len() ==> self.scores[doc] == capped(self.totals@[doc])
    }

    /// The scores as stored: each document's total, capped.
    pub open spec fn stored(&self) -> Seq<u64> {
        Seq::new(self@.len(), |doc: int| capped(self@[doc]))
    }

    /// Makes an accumulator for `doc_count` documents, none of which has
    /// scored.
    pub fn new(doc_count: usize) -> (acc: ScoreAccumulator)
        ensures
            acc.wf(),
            acc@ == Seq::new(doc_count as nat, |doc: int| 0nat),
    {
        let mut scores: Vec<u64> = Vec::new();
        while scores.len() < doc_count
            invariant
                scores.len() <= doc_count,
                forall|doc: int| 0 <= doc < scores.len() ==> scores[doc] == 0,
            decreases doc_count - scores.len(),
        {
            scores.push(0);
        }
        ScoreAccumulator { scores, totals: Ghost(Seq::new(doc_count as nat, |doc: int| 0nat)) }
    }

    /// The number of documents.
    pub fn len(&self) -> (n: usize)
        requires
            self.wf(),
        ensures
            n == self@.len(),
    {
        self.scores.len()
    }

    /// The stored score of document `doc`.
    pub fn score(&self, doc: usize) -> (s: u64)
        requires
            self.wf(),
            doc < self@.len(),
        ensures
            s == capped(self@[doc as int]),
    {
        self.scores[doc]
    }

    /// Adds `weight` to the total of document `doc`.
    pub fn add(&mut self, doc: usize, weight: u64)
        requires
            old(self).wf(),
            doc < old(self)@.len(),
        ensures
            final(self).wf(),
            final(self)@ == old(self)@.update(doc as int, old(self)@[doc as int] + weight as nat),
    {
        let sum = self.scores[doc].saturating_add(weight);
        self.scores.set(doc, sum);
        self.totals = Ghost(self.totals@.update(doc as int, self.totals@[doc as int] + weight as nat));
    }

    /// Adds `weight` to the total of each document of `docs`, which names no
    /// document twice.
    pub fn add_all(&mut self, docs: &Vec<usize>, weight: u64)
        requires
            old(self).wf(),
            docs@.no_duplicates(),
            forall|i: int| 0 <= i < docs.len() ==> docs[i] < old(self)@.len(),
        ensures
            final(self).wf(),
            final(self)@.len() == old(self)@.len(),
            forall|doc: int|
                0 <= doc < old(self)@.len() ==> final(self)@[doc] == old(self)@[doc] + if docs@.contains(
                    doc as usize,
                ) {
                    weight as nat
                } else {
                    0
                },
    {
        let mut i: usize = 0;
        while i < docs.len()
            invariant
                i <= docs.len(),
                self.wf(),
                docs@.no_duplicates(),
                self@.len() == old(self)@.len(),
                forall|k: int| 0 <= k < docs.len() ==> docs[k] < old(self)@.len(),
                forall|doc: int|
                    0 <= doc < old(self)@.len() ==> self@[doc] == old(self)@[doc] + if docs@.take(
                        i as int,
                    ).contains(doc as usize) {
                        weight as nat
                    } else {
                        0
                    },
            decreases docs.len() - i,
        {
            let ghost seen = docs@.take(i as int);
            let id = docs[i];
            proof {
                if seen.contains(id) {
                    let k = choose|k: int| 0 <= k < seen.len() && seen[k] == id;
                    assert(docs@[k] == docs@[i as int]);
                }
            }
            self.add(id, weight);
            proof {
                assert(docs@.take(i + 1) =~= seen.push(id));
                assert forall|doc: int| 0 <= doc < old(self)@.len() implies self@[doc] == old(self)@[doc]
                    + if docs@.take(i + 1).contains(doc as usize) {
                    weight as nat
                } else {
                    0
                } by {
                    lemma_contains_push(seen, id, doc as usize);
                }
            }
            i = i + 1;
        }
        proof {
            assert(docs@.take(i as int) =~= docs@);
        }
    }

    /// The documents that scored, the best first.
    pub fn ranking(&self) -> (ranked: Vec<usize>)
        requires
            self.wf(),
        ensures
            is_ranking(self.stored(), ranked@),
    {
        proof {
            assert(self.scores@ =~= self.stored());
        }
        rank(&self.scores)
    }
}

} // verus!
