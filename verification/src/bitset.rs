//! A growable bit set over `usize` indices, used as the component set of an
//! archetype: bit `i` is set when component id `i` belongs to the set.

use vstd::prelude::*;
use vstd::slice::slice_subrange;

verus! {

/// Whether bit `b` (counted from the least significant one) of `w` is set.
pub open spec fn bit_of(w: u64, b: u64) -> bool {
    (w >> b) & 1 == 1
}

/// Whether the word sequence `words` has bit `i` set, 64 bits to the word.
pub open spec fn words_have(words: Seq<u64>, i: usize) -> bool {
    i / 64 < words.len() && bit_of(words[(i / 64) as int], (i % 64) as u64)
}

/// A set of small unsigned integers, stored as a vector of 64-bit words.
///
/// Its view is the mathematical set of the indices whose bit is set. Words
/// beyond the end of the vector count as zero, so two bit sets of different
/// length may stand for the same set.
pub struct BitSet {
    words: Vec<u64>,
}

impl View for BitSet {
    type V = Set<usize>;

    closed spec fn view(&self) -> Set<usize> {
        Set::new(|i: usize| words_have(self.words@, i))
    }
}

proof fn lemma_bit_zero(c: u64)
    requires
        c < 64,
    ensures
        !bit_of(0, c),
{
    assert((0u64 >> c) & 1 != 1) by (bit_vector)
        requires
            c < 64,
    ;
}

proof fn lemma_bit_set(w: u64, b: u64, c: u64)
    requires
        b < 64,
        c < 64,
    ensures
        bit_of(w | (1u64 << b), c) == (c == b || bit_of(w, c)),
{
    assert((((w | (1u64 << b)) >> c) & 1 == 1) == (c == b || (w >> c) & 1 == 1)) by (bit_vector)
        requires
            b < 64,
            c < 64,
    ;
}

proof fn lemma_bit_clear(w: u64, b: u64, c: u64)
    requires
        b < 64,
        c < 64,
    ensures
        bit_of(w & !(1u64 << b), c) == (c != b && bit_of(w, c)),
{
    assert((((w & !(1u64 << b)) >> c) & 1 == 1) == (c != b && (w >> c) & 1 == 1)) by (bit_vector)
        requires
            b < 64,
            c < 64,
    ;
}

proof fn lemma_bit_and(a: u64, b: u64, c: u64)
    requires
        c < 64,
    ensures
        bit_of(a & b, c) == (bit_of(a, c) && bit_of(b, c)),
{
    assert((((a & b) >> c) & 1 == 1) == ((a >> c) & 1 == 1 && (b >> c) & 1 == 1)) by (bit_vector)
        requires
            c < 64,
    ;
}

proof fn lemma_bit_xor(a: u64, b: u64, c: u64)
    requires
        c < 64,
    ensures
        bit_of(a ^ b, c) == (bit_of(a, c) != bit_of(b, c)),
{
    assert((((a ^ b) >> c) & 1 == 1) == (((a >> c) & 1 == 1) != ((b >> c) & 1 == 1))) by (bit_vector)
        requires
            c < 64,
    ;
}

/// A word whose bits from `n` upwards are all clear, and which is not zero,
/// has a set bit below `n`.
proof fn lemma_some_bit(x: u64, n: u64) -> (c: u64)
    requires
        n <= 64,
        x != 0,
        n < 64 ==> x >> n == 0,
    ensures
        c < 64,
        bit_of(x, c),
    decreases n,
{
    if n == 0 {
        assert(x >> 0 == x) by (bit_vector);
        0
    } else if bit_of(x, (n - 1) as u64) {
        (n - 1) as u64
    } else {
        let m = (n - 1) as u64;
        assert(x >> m == 0) by (bit_vector)
            requires
                m < 64,
                m < 63 ==> x >> ((m + 1) as u64) == 0,
                (x >> m) & 1 != 1,
        ;
        lemma_some_bit(x, m)
    }
}

/// Two words are equal exactly when they agree on every bit.
proof fn lemma_word_eq(a: u64, b: u64)
    ensures
        (a == b) <==> (forall|c: u64| c < 64 ==> bit_of(a, c) == bit_of(b, c)),
{
    if a != b {
        assert(a ^ b != 0) by (bit_vector)
            requires
                a != b,
        ;
        let c = lemma_some_bit(a ^ b, 64);
        lemma_bit_xor(a, b, c);
    }
}

/// `a & b == b` exactly when every bit of `b` is a bit of `a`.
proof fn lemma_word_superset(a: u64, b: u64)
    ensures
        (a & b == b) <==> (forall|c: u64| c < 64 && bit_of(b, c) ==> bit_of(a, c)),
{
    if a & b == b {
        assert forall|c: u64| c < 64 && bit_of(b, c) implies bit_of(a, c) by {
            lemma_bit_and(a, b, c);
        }
    } else {
        lemma_word_eq(a & b, b);
        let c = choose|c: u64| c < 64 && bit_of(a & b, c) != bit_of(b, c);
        lemma_bit_and(a, b, c);
    }
}

/// `a & b == 0` exactly when no bit is set in both words.
proof fn lemma_word_disjoint(a: u64, b: u64)
    ensures
        (a & b == 0) <==> (forall|c: u64| c < 64 ==> !(bit_of(a, c) && bit_of(b, c))),
{
    if a & b == 0 {
        assert forall|c: u64| c < 64 implies !(bit_of(a, c) && bit_of(b, c)) by {
            lemma_bit_and(a, b, c);
            lemma_bit_zero(c);
        }
    } else {
        let c = lemma_some_bit(a & b, 64);
        lemma_bit_and(a, b, c);
    }
}

/// The index that word `k`, bit `c` stands for.
proof fn lemma_index_of(k: int, c: u64) -> (i: usize)
    requires
        0 <= k,
        c < 64,
        k * 64 + c <= usize::MAX,
    ensures
        i == k * 64 + c,
        i / 64 == k,
        i % 64 == c,
{
    (k * 64 + c) as usize
}

impl BitSet {
    /// The empty set.
    pub fn new() -> (r: Self)
        ensures
            r@ == Set::<usize>::empty(),
    {
        let r = BitSet { words: Vec::new() };
        assert(r@ =~= Set::<usize>::empty());
        r
    }

    /// Whether `i` is in the set.
    pub fn test(&self, i: usize) -> (r: bool)
        ensures
            r == self@.contains(i),
    {
        let k = i / 64;
        if k < self.words.len() {
            let b = (i % 64) as u64;
            (self.words[k] >> b) & 1 == 1
        } else {
            false
        }
    }

    /// Adds `i` to the set.
    pub fn set(&mut self, i: usize)
        ensures
            final(self)@ == old(self)@.insert(i),
    {
        let k = i / 64;
        while self.words.len() <= k
            invariant
                self@ == old(self)@,
            decreases k + 1 - self.words.len(),
        {
            let ghost before = self.words@;
            self.words.push(0);
            proof {
                assert forall|j: usize| words_have(self.words@, j) == words_have(before, j) by {
                    if j / 64 == before.len() {
                        lemma_bit_zero((j % 64) as u64);
                    }
                }
                assert(self@ =~= old(self)@);
            }
        }
        let b = (i % 64) as u64;
        let ghost before = self.words@;
        let w = self.words[k];
        self.words[k] = w | (1u64 << b);
        proof {
            assert forall|j: usize| words_have(self.words@, j) == (j == i || words_have(before, j)) by {
                if j / 64 == k {
                    lemma_bit_set(w, b, (j % 64) as u64);
                }
            }
            assert forall|j: usize| self@.contains(j) == old(self)@.insert(i).contains(j) by {
                assert(self@.contains(j) == words_have(self.words@, j));
                assert(old(self)@.contains(j) == words_have(before, j));
            }
            assert(self@ =~= old(self)@.insert(i));
        }
    }

    /// Removes `i` from the set.
    pub fn clear(&mut self, i: usize)
        ensures
            final(self)@ == old(self)@.remove(i),
    {
        let k = i / 64;
        if k < self.words.len() {
            let b = (i % 64) as u64;
            let ghost before = self.words@;
            let w = self.words[k];
            self.words[k] = w & !(1u64 << b);
            proof {
                assert forall|j: usize| words_have(self.words@, j) == (j != i && words_have(before, j)) by {
                    if j / 64 == k {
                        lemma_bit_clear(w, b, (j % 64) as u64);
                    }
                }
            }
        }
        assert(self@ =~= old(self)@.remove(i));
    }

    /// The number of words that hold bits of representable indices.
    fn span(&self) -> (n: usize)
        ensures
            n <= self.words.len(),
            n * 64 <= usize::MAX + 1,
            forall|j: usize| words_have(self.words@, j) ==> j / 64 < n,
    {
        let limit: usize = usize::MAX / 64 + 1;
        if self.words.len() < limit {
            self.words.len()
        } else {
            limit
        }
    }

    /// The word at position `k`, zero beyond the end.
    fn word(&self, k: usize) -> (w: u64)
        ensures
            w == (if k < self.words.len() { self.words[k as int] } else { 0 }),
    {
        if k < self.words.len() {
            self.words[k]
        } else {
            0
        }
    }

    /// Whether `other` is a subset of this set.
    pub fn contains(&self, other: &BitSet) -> (r: bool)
        ensures
            r == other@.subset_of(self@),
    {
        let n = other.span();
        let mut k: usize = 0;
        while k < n
            invariant
                k <= n <= other.words.len(),
                n * 64 <= usize::MAX + 1,
                forall|j: usize| j / 64 < k && words_have(other.words@, j) ==> words_have(self.words@, j),
            decreases n - k,
        {
            let a = self.word(k);
            let b = other.words[k];
            proof {
                lemma_word_superset(a, b);
            }
            if a & b != b {
                proof {
                    let c = choose|c: u64| c < 64 && bit_of(b, c) && !bit_of(a, c);
                    let i = lemma_index_of(k as int, c);
                    assert(words_have(other.words@, i));
                    assert(!words_have(self.words@, i)) by {
                        if k >= self.words.len() {
                        }
                    }
                    assert(other@.contains(i) && !self@.contains(i));
                }
                return false;
            }
            proof {
                assert forall|j: usize| j / 64 < k + 1 && words_have(other.words@, j) implies words_have(
                    self.words@,
                    j,
                ) by {
                    if j / 64 == k {
                        let c = (j % 64) as u64;
                        assert(bit_of(b, c));
                        assert(bit_of(a, c));
                        if k >= self.words.len() {
                            lemma_bit_zero(c);
                        }
                    }
                }
            }
            k = k + 1;
        }
        assert forall|j: usize| other@.contains(j) implies self@.contains(j) by {
            assert(words_have(other.words@, j));
        }
        true
    }

    /// Whether this set and `other` have no element in common.
    pub fn contains_none(&self, other: &BitSet) -> (r: bool)
        ensures
            r == self@.disjoint(other@),
    {
        let n = other.span();
        let mut k: usize = 0;
        while k < n
            invariant
                k <= n <= other.words.len(),
                n * 64 <= usize::MAX + 1,
                forall|j: usize| j / 64 < k ==> !(words_have(other.words@, j) && words_have(self.words@, j)),
            decreases n - k,
        {
            let a = self.word(k);
            let b = other.words[k];
            proof {
                lemma_word_disjoint(a, b);
            }
            if a & b != 0 {
                proof {
                    let c = choose|c: u64| c < 64 && bit_of(a, c) && bit_of(b, c);
                    let i = lemma_index_of(k as int, c);
                    if k >= self.words.len() {
                        lemma_bit_zero(c);
                    }
                    assert(words_have(other.words@, i) && words_have(self.words@, i));
                    assert(other@.contains(i) && self@.contains(i));
                }
                return false;
            }
            proof {
                assert forall|j: usize| j / 64 < k + 1 implies !(words_have(other.words@, j) && words_have(
                    self.words@,
                    j,
                )) by {
                    if j / 64 == k && k < self.words.len() {
                        let c = (j % 64) as u64;
                        assert(!(bit_of(a, c) && bit_of(b, c)));
                    }
                }
            }
            k = k + 1;
        }
        assert forall|j: usize| !(self@.contains(j) && other@.contains(j)) by {
            if other@.contains(j) {
                assert(words_have(other.words@, j));
            }
        }
        true
    }

    /// Whether this set and `other` hold the same indices.
    pub fn equals(&self, other: &BitSet) -> (r: bool)
        ensures
            r == (self@ == other@),
    {
        let mine = self.span();
        let theirs = other.span();
        let n = if mine < theirs {
            theirs
        } else {
            mine
        };
        let mut k: usize = 0;
        while k < n
            invariant
                k <= n,
                n * 64 <= usize::MAX + 1,
                forall|j: usize| words_have(self.words@, j) ==> j / 64 < n,
                forall|j: usize| words_have(other.words@, j) ==> j / 64 < n,
                forall|j: usize| j / 64 < k ==> words_have(other.words@, j) == words_have(self.words@, j),
            decreases n - k,
        {
            let a = self.word(k);
            let b = other.word(k);
            proof {
                lemma_word_eq(a, b);
            }
            if a != b {
                proof {
                    let c = choose|c: u64| c < 64 && bit_of(a, c) != bit_of(b, c);
                    let i = lemma_index_of(k as int, c);
                    lemma_bit_zero(c);
                    assert(words_have(other.words@, i) != words_have(self.words@, i));
                    assert(other@.contains(i) != self@.contains(i));
                }
                return false;
            }
            proof {
                assert forall|j: usize| j / 64 < k + 1 implies words_have(other.words@, j) == words_have(
                    self.words@,
                    j,
                ) by {
                    if j / 64 == k {
                        lemma_bit_zero((j % 64) as u64);
                    }
                }
            }
            k = k + 1;
        }
        assert(self@ =~= other@);
        true
    }

    /// A copy of this set.
    pub fn duplicate(&self) -> (r: Self)
        ensures
            r@ == self@,
    {
        let mut words: Vec<u64> = Vec::new();
        let mut k: usize = 0;
        while k < self.words.len()
            invariant
                k <= self.words.len(),
                words@ == self.words@.subrange(0, k as int),
            decreases self.words.len() - k,
        {
            words.push(self.words[k]);
            assert(words@ =~= self.words@.subrange(0, k + 1));
            k = k + 1;
        }
        assert(words@ =~= self.words@);
        BitSet { words }
    }

    /// The words of the set, least significant first, up to the last one
    /// that is not zero: two bit sets that stand for the same set have the
    /// same significant words.
    pub fn significant_words(&self) -> (r: &[u64])
        ensures
            r@.len() == 0 || r@.last() != 0,
            forall|i: usize| words_have(r@, i) == self@.contains(i),
    {
        let mut n: usize = self.span();
        while n > 0 && self.words[n - 1] == 0
            invariant
                n <= self.words.len(),
                forall|j: usize| words_have(self.words@, j) ==> j / 64 < n,
            decreases n,
        {
            proof {
                assert forall|j: usize| words_have(self.words@, j) implies j / 64 < n - 1 by {
                    if j / 64 == n - 1 {
                        lemma_bit_zero((j % 64) as u64);
                    }
                }
            }
            n = n - 1;
        }
        slice_subrange(self.words.as_slice(), 0, n)
    }
}

} // verus!
