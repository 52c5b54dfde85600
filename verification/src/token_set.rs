//! Sets of terminal ids over a dense id space `[0, capacity)`.

use vstd::prelude::*;

verus! {

/// A set of terminal ids, stored as one flag per id.
#[derive(Debug)]
pub struct TokenSet {
    bits: Vec<bool>,
}

impl View for TokenSet {
    type V = Set<usize>;

    closed spec fn view(&self) -> Set<usize> {
        Set::new(|t: usize| t < self.bits@.len() && self.bits@[t as int])
    }
}

impl TokenSet {
    /// Number of ids that the set ranges over.
    pub closed spec fn capacity(&self) -> nat {
        self.bits@.len()
    }

    /// The empty set over `capacity` ids.
    pub fn new(capacity: usize) -> (s: Self)
        ensures
            s@ == Set::<usize>::empty(),
            s.capacity() == capacity,
    {
        let mut bits: Vec<bool> = Vec::new();
        let mut i: usize = 0;
        while i < capacity
            invariant
                i <= capacity,
                bits@.len() == i,
                forall|j: int| 0 <= j < i ==> !bits@[j],
            decreases capacity - i,
        {
            bits.push(false);
            i += 1;
        }
        let s = TokenSet { bits };
        assert(s@ =~= Set::<usize>::empty());
        s
    }

    pub fn size(&self) -> (n: usize)
        ensures
            n == self.capacity(),
    {
        self.bits.len()
    }

    pub fn contains(&self, token: usize) -> (b: bool)
        ensures
            b == self@.contains(token),
    {
        token < self.bits.len() && self.bits[token]
    }

    pub fn insert(&mut self, token: usize)
        requires
            token < old(self).capacity(),
        ensures
            final(self)@ == old(self)@.insert(token),
            final(self).capacity() == old(self).capacity(),
    {
        self.bits[token] = true;
        assert(self@ =~= old(self)@.insert(token));
    }

    /// Adds every member of `other`.
    pub fn extend(&mut self, other: &TokenSet)
        requires
            other.capacity() <= old(self).capacity(),
        ensures
            final(self)@ == old(self)@.union(other@),
            final(self).capacity() == old(self).capacity(),
    {
        let n = other.bits.len();
        let mut i: usize = 0;
        while i < n
            invariant
                i <= n,
                n == other.bits@.len(),
                self.bits@.len() == old(self).bits@.len(),
                n <= self.bits@.len(),
                forall|j: int|
                    0 <= j < i ==> #[trigger] self.bits@[j] == (old(self).bits@[j]
                        || other.bits@[j]),
                forall|j: int|
                    i <= j < self.bits@.len() ==> #[trigger] self.bits@[j] == old(self).bits@[j],
            decreases n - i,
        {
            if other.bits[i] {
                self.bits[i] = true;
            }
            i += 1;
        }
        assert(self@ =~= old(self)@.union(other@));
    }

    pub fn is_empty(&self) -> (b: bool)
        ensures
            b == (self@ == Set::<usize>::empty()),
    {
        let mut i: usize = 0;
        while i < self.bits.len()
            invariant
                i <= self.bits@.len(),
                forall|j: int| 0 <= j < i ==> !self.bits@[j],
            decreases self.bits@.len() - i,
        {
            if self.bits[i] {
                assert(self@.contains(i));
                return false;
            }
            i += 1;
        }
        assert(self@ =~= Set::<usize>::empty());
        true
    }

    /// The members in increasing order.
    pub fn to_vec(&self) -> (v: Vec<usize>)
        ensures
            forall|t: usize| self@.contains(t) <==> v@.contains(t),
            forall|i: int, j: int| 0 <= i < j < v@.len() ==> v@[i] < v@[j],
    {
        let mut v: Vec<usize> = Vec::new();
        let mut i: usize = 0;
        while i < self.bits.len()
            invariant
                i <= self.bits@.len(),
                forall|t: usize| (t < i && self@.contains(t)) <==> v@.contains(t),
                forall|a: int, b: int| 0 <= a < b < v@.len() ==> v@[a] < v@[b],
                forall|a: int| 0 <= a < v@.len() ==> v@[a] < i,
            decreases self.bits@.len() - i,
        {
            if self.bits[i] {
                let ghost before = v@;
                v.push(i);
                assert forall|t: usize| (t < i + 1 && self@.contains(t)) <==> v@.contains(t) by {
                    if v@.contains(t) {
                        let k = choose|k: int| 0 <= k < v@.len() && v@[k] == t;
                        if k < before.len() {
                            assert(before.contains(t));
                        }
                    }
                    if t < i + 1 && self@.contains(t) {
                        if t < i {
                            let k = choose|k: int| 0 <= k < before.len() && before[k] == t;
                            assert(v@[k] == t);
                        } else {
                            assert(v@[before.len() as int] == t);
                        }
                    }
                }
            }
            i += 1;
        }
        v
    }
}

impl Clone for TokenSet {
    fn clone(&self) -> (s: Self)
        ensures
            s@ == self@,
            s.capacity() == self.capacity(),
    {
        let mut s = TokenSet::new(self.bits.len());
        s.extend(self);
        assert(s@ =~= self@);
        s
    }
}

} // verus!
