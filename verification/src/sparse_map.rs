//! A map from small `usize` keys to values, stored as a sparse index over
//! two dense, parallel vectors of keys and values.

use vstd::prelude::*;

verus! {

/// A sparse-set map keyed by `usize`.
///
/// Lookups cost one index into `sparse`; keys and values lie densely, in the
/// order in which the keys were first inserted. Entries are never removed.
pub struct SparseMap<T> {
    /// For each key below its length, the position of the key in `keys`, or
    /// `usize::MAX` where the key is absent.
    sparse: Vec<usize>,
    keys: Vec<usize>,
    values: Vec<T>,
}

impl<T> View for SparseMap<T> {
    type V = Map<usize, T>;

    closed spec fn view(&self) -> Map<usize, T> {
        Map::new(
            |k: usize| k < self.sparse.len() && self.sparse[k as int] != usize::MAX,
            |k: usize| self.values[self.sparse[k as int] as int],
        )
    }
}

impl<T> SparseMap<T> {
    /// The representation invariant: `sparse` and `keys` index each other.
    pub closed spec fn wf(&self) -> bool {
        &&& self.keys.len() == self.values.len()
        &&& forall|i: int|
            0 <= i < self.keys.len() ==> #[trigger] self.keys[i] < self.sparse.len()
                && self.sparse[self.keys[i] as int] == i
        &&& forall|k: int|
            0 <= k < self.sparse.len() && #[trigger] self.sparse[k] != usize::MAX ==> self.sparse[k]
                < self.keys.len() && self.keys[self.sparse[k] as int] == k
    }

    /// The keys in insertion order.
    pub closed spec fn key_seq(&self) -> Seq<usize> {
        self.keys@
    }

    /// The values, in the order of `key_seq`.
    pub closed spec fn value_seq(&self) -> Seq<T> {
        self.values@
    }

    /// The dense sequences and the map describe the same entries.
    pub proof fn lemma_dense(&self)
        requires
            self.wf(),
        ensures
            self.key_seq().len() == self.value_seq().len(),
            self.key_seq().no_duplicates(),
            forall|i: int|
                0 <= i < self.key_seq().len() ==> self@.contains_key(#[trigger] self.key_seq()[i])
                    && self@[self.key_seq()[i]] == self.value_seq()[i],
            forall|k: usize| #[trigger]
                self@.contains_key(k) ==> exists|i: int|
                    0 <= i < self.key_seq().len() && self.key_seq()[i] == k,
    {
        assert forall|i: int, j: int|
            0 <= i < self.keys.len() && 0 <= j < self.keys.len() && i != j implies self.keys[i]
            != self.keys[j] by {
            let _ = self.keys[i];
            let _ = self.keys[j];
        }
        assert forall|i: int| 0 <= i < self.key_seq().len() implies self@.contains_key(
            #[trigger] self.key_seq()[i],
        ) && self@[self.key_seq()[i]] == self.value_seq()[i] by {
            let _ = self.keys[i];
        }
        assert forall|k: usize| #[trigger] self@.contains_key(k) implies exists|i: int|
            0 <= i < self.key_seq().len() && self.key_seq()[i] == k by {
            let i = self.sparse[k as int] as int;
            assert(self.key_seq()[i] == k);
        }
    }

    /// An empty map.
    pub fn new() -> (r: Self)
        ensures
            r.wf(),
            r@ == Map::<usize, T>::empty(),
            r.key_seq() == Seq::<usize>::empty(),
    {
        let r = SparseMap { sparse: Vec::new(), keys: Vec::new(), values: Vec::new() };
        assert(r@ =~= Map::<usize, T>::empty());
        r
    }

    /// An empty map with room for `capacity` entries.
    pub fn with_capacity(capacity: usize) -> (r: Self)
        ensures
            r.wf(),
            r@ == Map::<usize, T>::empty(),
            r.key_seq() == Seq::<usize>::empty(),
    {
        let r = SparseMap {
            sparse: Vec::new(),
            keys: Vec::with_capacity(capacity),
            values: Vec::with_capacity(capacity),
        };
        assert(r@ =~= Map::<usize, T>::empty());
        r
    }

    /// The number of entries.
    pub fn len(&self) -> (n: usize)
        requires
            self.wf(),
        ensures
            n == self.key_seq().len(),
    {
        self.keys.len()
    }

    /// Whether `key` has a value.
    pub fn contains_key(&self, key: usize) -> (r: bool)
        requires
            self.wf(),
        ensures
            r == self@.contains_key(key),
    {
        key < self.sparse.len() && self.sparse[key] != usize::MAX
    }

    /// The value of `key`, if it has one.
    pub fn get(&self, key: usize) -> (r: Option<&T>)
        requires
            self.wf(),
        ensures
            r == (if self@.contains_key(key) {
                Some(&self@[key])
            } else {
                None
            }),
    {
        if key < self.sparse.len() && self.sparse[key] != usize::MAX {
            Some(&self.values[self.sparse[key]])
        } else {
            None
        }
    }

    /// The value of a key that is present.
    pub fn get_unchecked(&self, key: usize) -> (r: &T)
        requires
            self.wf(),
            self@.contains_key(key),
        ensures
            *r == self@[key],
    {
        &self.values[self.sparse[key]]
    }

    /// Mutable access to the value of a key that is present. Whatever the
    /// caller leaves there becomes the key's value; nothing else changes.
    pub fn get_mut_unchecked(&mut self, key: usize) -> (r: &mut T)
        requires
            old(self).wf(),
            old(self)@.contains_key(key),
        ensures
            *r == old(self)@[key],
            final(self).wf(),
            final(self)@ == old(self)@.insert(key, *final(r)),
            final(self).key_seq() == old(self).key_seq(),
    {
        let i = self.sparse[key];
        &mut self.values[i]
    }

    /// Sets the value of `key`, adding the key at the end of the dense order
    /// if it is new.
    pub fn insert(&mut self, key: usize, value: T)
        requires
            old(self).wf(),
            key < usize::MAX,
        ensures
            final(self).wf(),
            final(self)@ == old(self)@.insert(key, value),
            final(self).key_seq() == (if old(self)@.contains_key(key) {
                old(self).key_seq()
            } else {
                old(self).key_seq().push(key)
            }),
    {
        if key < self.sparse.len() && self.sparse[key] != usize::MAX {
            let i = self.sparse[key];
            self.values[i] = value;
            assert(self@ =~= old(self)@.insert(key, value));
            return ;
        }
        while self.sparse.len() <= key
            invariant
                self.wf(),
                self@ == old(self)@,
                self.keys == old(self).keys,
                self.values == old(self).values,
                !self@.contains_key(key),
                key < usize::MAX,
            decreases key + 1 - self.sparse.len(),
        {
            self.sparse.push(usize::MAX);
            assert(self@ =~= old(self)@);
        }
        let ghost mid = *self;
        let i = self.keys.len();
        self.sparse[key] = i;
        self.keys.push(key);
        self.values.push(value);
        proof {
            assert forall|j: int| 0 <= j < self.keys.len() implies #[trigger] self.keys[j]
                < self.sparse.len() && self.sparse[self.keys[j] as int] == j by {
                if j < i {
                    let _ = mid.keys[j];
                }
            }
            assert(self.keys.len() <= usize::MAX);
            assert forall|k: usize| #[trigger]
                self@.contains_key(k) == mid@.insert(key, value).contains_key(k) by {
                if k != key && k < mid.sparse.len() {
                    let _ = mid.sparse[k as int];
                }
            }
            assert forall|k: usize| #[trigger] self@.contains_key(k) implies self@[k] == mid@.insert(
                key,
                value,
            )[k] by {
                if k != key {
                    let _ = mid.sparse[k as int];
                }
            }
            assert(self@ =~= mid@.insert(key, value));
        }
    }

    /// The keys in insertion order.
    pub fn keys(&self) -> (r: &Vec<usize>)
        ensures
            r@ == self.key_seq(),
    {
        &self.keys
    }

    /// The key at dense position `i`.
    pub fn key_at(&self, i: usize) -> (k: usize)
        requires
            self.wf(),
            i < self.key_seq().len(),
        ensures
            k == self.key_seq()[i as int],
            self@.contains_key(k),
    {
        proof {
            self.lemma_dense();
        }
        self.keys[i]
    }
}

} // verus!
