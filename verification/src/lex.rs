//! Lexicographic order on byte strings, the order in which the dictionary
//! holds its words.

use vstd::prelude::*;

verus! {

/// How one byte string stands to another in lexicographic order.
#[derive(Clone, Copy, PartialEq, Eq, Debug, Structural)]
pub enum Order {
    Less,
    Equal,
    Greater,
}

/// `a` and `b` hold the same bytes at every position below `i`.
pub open spec fn agree_upto(a: Seq<u8>, b: Seq<u8>, i: int) -> bool {
    &&& 0 <= i <= a.len()
    &&& i <= b.len()
    &&& forall|j: int| 0 <= j < i ==> #[trigger] a[j] == b[j]
}

/// Position `i` is where `a` first falls below `b`: either `a` ends there and
/// `b` goes on, or `a` holds the smaller byte.
pub open spec fn less_at(a: Seq<u8>, b: Seq<u8>, i: int) -> bool {
    &&& agree_upto(a, b, i)
    &&& i < b.len()
    &&& (i == a.len() || a[i] < b[i])
}

/// `a` comes strictly before `b` in lexicographic byte order.
pub open spec fn bytes_lt(a: Seq<u8>, b: Seq<u8>) -> bool {
    exists|i: int| less_at(a, b, i)
}

/// Every word of `words` comes strictly before each later one.
pub open spec fn strictly_ascending(words: Seq<Seq<u8>>) -> bool {
    forall|i: int, j: int| 0 <= i < j < words.len() ==> bytes_lt(#[trigger] words[i], #[trigger] words[j])
}

/// `key` may be appended to the ascending sequence `words`.
pub open spec fn extends(words: Seq<Seq<u8>>, key: Seq<u8>) -> bool {
    words.len() == 0 || bytes_lt(words.last(), key)
}

/// No byte string comes before itself.
pub proof fn lemma_lt_irreflexive(a: Seq<u8>)
    ensures
        !bytes_lt(a, a),
{
}

/// The order is transitive.
pub proof fn lemma_lt_transitive(a: Seq<u8>, b: Seq<u8>, c: Seq<u8>)
    requires
        bytes_lt(a, b),
        bytes_lt(b, c),
    ensures
        bytes_lt(a, c),
{
    let i = choose|i: int| less_at(a, b, i);
    let j = choose|j: int| less_at(b, c, j);
    let k = if i < j { i } else { j };
    assert(less_at(a, c, k));
}

/// Of two byte strings at most one comes before the other.
pub proof fn lemma_lt_asymmetric(a: Seq<u8>, b: Seq<u8>)
    requires
        bytes_lt(a, b),
    ensures
        !bytes_lt(b, a),
        a != b,
{
    if bytes_lt(b, a) {
        lemma_lt_transitive(a, b, a);
    }
    lemma_lt_irreflexive(a);
}

/// An ascending sequence stays ascending when a key above its last word is
/// appended.
pub proof fn lemma_push_ascending(words: Seq<Seq<u8>>, key: Seq<u8>)
    requires
        strictly_ascending(words),
        extends(words, key),
    ensures
        strictly_ascending(words.push(key)),
{
    let grown = words.push(key);
    assert forall|i: int, j: int| 0 <= i < j < grown.len() implies bytes_lt(
        #[trigger] grown[i],
        #[trigger] grown[j],
    ) by {
        if j == words.len() && i < words.len() - 1 {
            assert(bytes_lt(words[i], words[words.len() - 1]));
            lemma_lt_transitive(words[i], words.last(), key);
        }
    }
}

/// Compares two byte strings lexicographically.
pub fn compare_bytes(a: &[u8], b: &[u8]) -> (r: Order)
    ensures
        r == Order::Less <==> bytes_lt(a@, b@),
        r == Order::Equal <==> a@ == b@,
        r == Order::Greater <==> bytes_lt(b@, a@),
{
    let mut i: usize = 0;
    while i < a.len() && i < b.len()
        invariant
            agree_upto(a@, b@, i as int),
        decreases a.len() - i,
    {
        if a[i] < b[i] {
            proof {
                assert(less_at(a@, b@, i as int));
                lemma_lt_asymmetric(a@, b@);
            }
            return Order::Less;
        }
        if a[i] > b[i] {
            proof {
                assert(less_at(b@, a@, i as int));
                lemma_lt_asymmetric(b@, a@);
            }
            return Order::Greater;
        }
        i += 1;
    }
    if i < b.len() {
        proof {
            assert(less_at(a@, b@, i as int));
            lemma_lt_asymmetric(a@, b@);
        }
        Order::Less
    } else if i < a.len() {
        proof {
            assert(less_at(b@, a@, i as int));
            lemma_lt_asymmetric(b@, a@);
        }
        Order::Greater
    } else {
        proof {
            assert(a@ =~= b@);
            lemma_lt_irreflexive(a@);
        }
        Order::Equal
    }
}

} // verus!
