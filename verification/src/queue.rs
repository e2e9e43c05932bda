//! A priority queue that hands out the entry of the greatest rank; among
//! entries of equal rank the one that was pushed first.

use vstd::prelude::*;

verus! {

/// Entries that a [`Frontier`] can order.
pub trait Ranked: Sized {
    /// The rank of the entry.
    spec fn rank(&self) -> int;

    /// Whether the rank of `self` is greater than that of `other`.
    fn outranks(&self, other: &Self) -> (b: bool)
        ensures
            b == (self.rank() > other.rank()),
    ;
}

/// `k` is the first index of `s` at which the rank is the greatest.
pub open spec fn is_best<T: Ranked>(s: Seq<T>, k: int) -> bool {
    &&& 0 <= k < s.len()
    &&& forall|j: int| 0 <= j < s.len() ==> (#[trigger] s[j]).rank() <= s[k].rank()
    &&& forall|j: int| 0 <= j < k ==> (#[trigger] s[j]).rank() < s[k].rank()
}

/// At most one index is the best.
pub proof fn lemma_best_is_unique<T: Ranked>(s: Seq<T>, k: int, l: int)
    requires
        is_best(s, k),
        is_best(s, l),
    ensures
        k == l,
{
    if k < l {
        assert(s[k].rank() < s[l].rank());
    } else if l < k {
        assert(s[l].rank() < s[k].rank());
    }
}

/// The entries that wait, in the order in which they were pushed.
pub struct Frontier<T> {
    entries: Vec<T>,
}

impl<T> View for Frontier<T> {
    type V = Seq<T>;

    closed spec fn view(&self) -> Seq<T> {
        self.entries@
    }
}

impl<T: Ranked> Frontier<T> {
    pub fn new() -> (q: Self)
        ensures
            q@ == Seq::<T>::empty(),
    {
        Frontier { entries: Vec::new() }
    }

    pub fn push(&mut self, entry: T)
        ensures
            final(self)@ == old(self)@.push(entry),
    {
        self.entries.push(entry);
    }

    pub fn len(&self) -> (n: usize)
        ensures
            n == self@.len(),
    {
        self.entries.len()
    }

    /// Takes out the entry of the greatest rank, the first of them where
    /// several have it.
    pub fn pop(&mut self) -> (r: Option<T>)
        ensures
            old(self)@.len() == 0 ==> r is None && final(self)@ == old(self)@,
            old(self)@.len() > 0 ==> exists|k: int| #[trigger]
                is_best(old(self)@, k) && r == Some(old(self)@[k]) && final(self)@ == old(
                    self,
                )@.remove(k),
    {
        let n = self.entries.len();
        if n == 0 {
            return None;
        }
        let mut best: usize = 0;
        let mut i: usize = 1;
        while i < n
            invariant
                1 <= i <= n,
                n == self.entries.len(),
                best < i,
                forall|j: int| 0 <= j < i ==> (#[trigger] self.entries@[j]).rank() <= self.entries@[best as int].rank(),
                forall|j: int| 0 <= j < best ==> (#[trigger] self.entries@[j]).rank() < self.entries@[best as int].rank(),
            decreases n - i,
        {
            if self.entries[i].outranks(&self.entries[best]) {
                best = i;
            }
            i += 1;
        }
        assert(is_best(self@, best as int));
        Some(self.entries.remove(best))
    }
}

} // verus!
