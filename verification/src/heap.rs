//! A binary min-heap over a vector, ordered by an integer rank.

use vstd::multiset::*;
use vstd::prelude::*;
use vstd::seq_lib::*;

verus! {

/// An item that a [`MinHeap`] can order: it carries an integer rank, and the
/// heap hands out items of the lowest rank first.
pub trait Ranked: Copy {
    /// The rank by which the heap orders this item.
    spec fn rank(&self) -> int;

    /// Whether `self` has a strictly lower rank than `other`.
    fn outranks(&self, other: &Self) -> (b: bool)
        ensures
            b == (self.rank() < other.rank()),
    ;
}

/// Every item but the root ranks no lower than its parent.
pub open spec fn heap_ordered<T: Ranked>(s: Seq<T>) -> bool {
    forall|i: int| 0 < i < s.len() ==> s[(i - 1) / 2].rank() <= #[trigger] s[i].rank()
}

/// Heap order everywhere but between position `hole` and its parent, while
/// every child of `hole` ranks no lower than `hole`'s parent.
pub open spec fn ordered_but_above<T: Ranked>(s: Seq<T>, hole: int) -> bool {
    &&& forall|i: int|
        0 < i < s.len() && i != hole ==> s[(i - 1) / 2].rank() <= #[trigger] s[i].rank()
    &&& forall|i: int|
        0 < i < s.len() && (i - 1) / 2 == hole && hole > 0 ==> s[(hole - 1) / 2].rank()
            <= #[trigger] s[i].rank()
}

/// Heap order everywhere but between position `hole` and its children, while
/// every child of `hole` ranks no lower than `hole`'s parent.
pub open spec fn ordered_but_below<T: Ranked>(s: Seq<T>, hole: int) -> bool {
    &&& forall|i: int|
        0 < i < s.len() && (i - 1) / 2 != hole ==> s[(i - 1) / 2].rank() <= #[trigger] s[i].rank()
    &&& forall|i: int|
        0 < i < s.len() && (i - 1) / 2 == hole && hole > 0 ==> s[(hole - 1) / 2].rank()
            <= #[trigger] s[i].rank()
}

/// In a heap-ordered sequence the root has the lowest rank.
pub proof fn lemma_root_is_least<T: Ranked>(s: Seq<T>, i: int)
    requires
        heap_ordered(s),
        0 <= i < s.len(),
    ensures
        s[0].rank() <= s[i].rank(),
    decreases i,
{
    if i > 0 {
        lemma_root_is_least(s, (i - 1) / 2);
    }
}

/// The ranks of the items added up.
pub open spec fn total_rank<T: Ranked>(s: Seq<T>) -> int
    decreases s.len(),
{
    if s.len() == 0 {
        0
    } else {
        total_rank(s.drop_last()) + s.last().rank()
    }
}

/// Replacing an item changes the total by the difference of the ranks.
pub proof fn lemma_total_update<T: Ranked>(s: Seq<T>, i: int, x: T)
    requires
        0 <= i < s.len(),
    ensures
        total_rank(s.update(i, x)) == total_rank(s) - s[i].rank() + x.rank(),
    decreases s.len(),
{
    let t = s.update(i, x);
    if i == s.len() - 1 {
        assert(t.drop_last() =~= s.drop_last());
    } else {
        assert(t.drop_last() =~= s.drop_last().update(i, x));
        lemma_total_update(s.drop_last(), i, x);
    }
}

/// The total is at least as many times `low` as there are items, where no
/// item ranks below `low`.
pub proof fn lemma_total_low<T: Ranked>(s: Seq<T>, low: int)
    requires
        forall|i: int| 0 <= i < s.len() ==> (#[trigger] s[i]).rank() >= low,
    ensures
        total_rank(s) >= low * s.len(),
    decreases s.len(),
{
    if s.len() > 0 {
        let r = s.drop_last();
        assert forall|i: int| 0 <= i < r.len() implies (#[trigger] r[i]).rank() >= low by {
            assert(r[i] == s[i]);
        }
        lemma_total_low(r, low);
        assert(low * s.len() == low * r.len() + low) by (nonlinear_arith)
            requires
                s.len() == r.len() + 1,
        ;
    }
}

/// The total is at most as many times `high` as there are items, where no
/// item ranks above `high`.
pub proof fn lemma_total_high<T: Ranked>(s: Seq<T>, high: int)
    requires
        forall|i: int| 0 <= i < s.len() ==> (#[trigger] s[i]).rank() <= high,
    ensures
        total_rank(s) <= high * s.len(),
    decreases s.len(),
{
    if s.len() > 0 {
        let r = s.drop_last();
        assert forall|i: int| 0 <= i < r.len() implies (#[trigger] r[i]).rank() <= high by {
            assert(r[i] == s[i]);
        }
        lemma_total_high(r, high);
        assert(high * s.len() == high * r.len() + high) by (nonlinear_arith)
            requires
                s.len() == r.len() + 1,
        ;
    }
}

/// Exchanging two items of a sequence keeps its multiset.
pub proof fn lemma_exchange_keeps_multiset<T>(s: Seq<T>, i: int, j: int)
    requires
        0 <= i < s.len(),
        0 <= j < s.len(),
    ensures
        s.update(i, s[j]).update(j, s[i]).to_multiset() == s.to_multiset(),
{
    broadcast use group_to_multiset_ensures;

    let s1 = s.update(i, s[j]);
    to_multiset_update(s, i, s[j]);
    to_multiset_update(s1, j, s[i]);
    s.to_multiset_ensures();
    assert(s.update(i, s[j]).update(j, s[i]).to_multiset() =~= s.to_multiset());
}

/// A priority queue that hands out the item of lowest rank first.
pub struct MinHeap<T> {
    items: Vec<T>,
}

impl<T: Ranked> MinHeap<T> {
    /// The items in the heap, with their multiplicities.
    pub closed spec fn view(&self) -> Multiset<T> {
        self.items@.to_multiset()
    }

    /// The heap order holds.
    pub closed spec fn wf(&self) -> bool {
        heap_ordered(self.items@)
    }

    /// The ranks of the items in the heap added up.
    pub closed spec fn weight(&self) -> int {
        total_rank(self.items@)
    }

    /// The weight is at least as many times `low` as there are items, where
    /// no item ranks below `low`.
    pub proof fn lemma_weight_low(&self, low: int)
        requires
            forall|x: T| self@.contains(x) ==> #[trigger] x.rank() >= low,
        ensures
            self.weight() >= low * self@.len(),
    {
        broadcast use group_to_multiset_ensures;

        assert forall|i: int| 0 <= i < self.items@.len() implies (
        #[trigger] self.items@[i]).rank() >= low by {
            assert(self@.contains(self.items@[i]));
        }
        lemma_total_low(self.items@, low);
    }

    /// The weight is at most as many times `high` as there are items, where
    /// no item ranks above `high`.
    pub proof fn lemma_weight_high(&self, high: int)
        requires
            forall|x: T| self@.contains(x) ==> #[trigger] x.rank() <= high,
        ensures
            self.weight() <= high * self@.len(),
    {
        broadcast use group_to_multiset_ensures;

        assert forall|i: int| 0 <= i < self.items@.len() implies (
        #[trigger] self.items@[i]).rank() <= high by {
            assert(self@.contains(self.items@[i]));
        }
        lemma_total_high(self.items@, high);
    }

    /// A heap without items.
    pub fn new() -> (h: Self)
        ensures
            h.wf(),
            h@ == Multiset::<T>::empty(),
            h.weight() == 0,
    {
        let h = MinHeap { items: Vec::new() };
        proof {
            broadcast use group_to_multiset_ensures;

            assert(h.items@ =~= Seq::<T>::empty());
            assert(h@ =~= Multiset::<T>::empty());
        }
        h
    }

    /// The number of items.
    pub fn len(&self) -> (n: usize)
        ensures
            n == self@.len(),
    {
        proof {
            broadcast use group_to_multiset_ensures;

        }
        self.items.len()
    }

    /// Whether the heap holds no item.
    pub fn is_empty(&self) -> (b: bool)
        ensures
            b == (self@.len() == 0),
    {
        proof {
            broadcast use group_to_multiset_ensures;

        }
        self.items.len() == 0
    }

    /// Removes every item.
    pub fn clear(&mut self)
        ensures
            final(self).wf(),
            final(self)@ == Multiset::<T>::empty(),
            final(self).weight() == 0,
    {
        self.items.clear();
        proof {
            broadcast use group_to_multiset_ensures;

            assert(self@ =~= Multiset::<T>::empty());
        }
    }

    /// Adds `item`.
    pub fn push(&mut self, item: T)
        requires
            old(self).wf(),
        ensures
            final(self).wf(),
            final(self)@ == old(self)@.insert(item),
            final(self).weight() == old(self).weight() + item.rank(),
    {
        self.items.push(item);
        proof {
            broadcast use group_to_multiset_ensures;

            assert(self.items@ == old(self).items@.push(item));
            assert(self.items@.drop_last() =~= old(self).items@);
        }
        let n = self.items.len();
        let mut i: usize = n - 1;
        while i > 0
            invariant_except_break
                ordered_but_above(self.items@, i as int),
            invariant
                n == self.items.len(),
                0 <= i < n,
                self.items@.to_multiset() == old(self)@.insert(item),
                total_rank(self.items@) == old(self).weight() + item.rank(),
            ensures
                heap_ordered(self.items@),
            decreases i,
        {
            let p: usize = (i - 1) / 2;
            let child = self.items[i];
            let parent = self.items[p];
            if child.outranks(&parent) {
                proof {
                    lemma_exchange_keeps_multiset(self.items@, i as int, p as int);
                    lemma_total_update(self.items@, i as int, parent);
                    lemma_total_update(self.items@.update(i as int, parent), p as int, child);
                }
                self.items.set(i, parent);
                self.items.set(p, child);
                i = p;
            } else {
                assert(heap_ordered(self.items@));
                break ;
            }
        }
    }

    /// Takes out an item of the lowest rank, if the heap holds any.
    pub fn pop(&mut self) -> (r: Option<T>)
        requires
            old(self).wf(),
        ensures
            final(self).wf(),
            match r {
                None => old(self)@.len() == 0 && final(self)@ == old(self)@,
                Some(x) => {
                    &&& old(self)@.contains(x)
                    &&& final(self)@ == old(self)@.remove(x)
                    &&& forall|y: T| old(self)@.contains(y) ==> x.rank() <= y.rank()
                    &&& final(self).weight() == old(self).weight() - x.rank()
                },
            },
    {
        proof {
            broadcast use group_to_multiset_ensures;

        }
        let n0 = self.items.len();
        if n0 == 0 {
            return None;
        }
        let root = self.items[0];
        proof {
            assert forall|y: T| old(self)@.contains(y) implies root.rank() <= y.rank() by {
                let k = choose|k: int| 0 <= k < old(self).items@.len() && old(self).items@[k] == y;
                lemma_root_is_least(old(self).items@, k);
            }
        }
        let last = self.items.pop().unwrap();
        let n = self.items.len();
        if n == 0 {
            proof {
                assert(old(self).items@ =~= seq![root]);
                assert(self.items@.to_multiset() =~= old(self)@.remove(root));
                assert(old(self).items@.drop_last() =~= self.items@);
            }
            return Some(root);
        }
        assert(old(self).items@ == self.items@.push(last));
        proof {
            assert(old(self).items@.drop_last() =~= self.items@);
            lemma_total_update(self.items@, 0, last);
        }
        self.items.set(0, last);
        proof {
            let a = old(self).items@;
            lemma_exchange_keeps_multiset(a, 0, n as int);
            let b = a.update(0, a[n as int]).update(n as int, a[0]);
            assert(b.drop_last() =~= self.items@);
            assert(b =~= self.items@.push(root));
            assert(self.items@.to_multiset() =~= old(self)@.remove(root));
        }
        let mut i: usize = 0;
        while i < n / 2
            invariant
                n == self.items.len(),
                n > 0,
                0 <= i < n,
                self.items@.to_multiset() == old(self)@.remove(root),
                total_rank(self.items@) == old(self).weight() - root.rank(),
                old(self)@.contains(root),
                forall|y: T| old(self)@.contains(y) ==> root.rank() <= y.rank(),
                ordered_but_below(self.items@, i as int),
            decreases n - i,
        {
            let left: usize = 2 * i + 1;
            let right: usize = left + 1;
            let mut least: usize = left;
            if right < n {
                let a = self.items[left];
                let b = self.items[right];
                if b.outranks(&a) {
                    least = right;
                }
            }
            let child = self.items[least];
            let parent = self.items[i];
            if child.outranks(&parent) {
                proof {
                    lemma_exchange_keeps_multiset(self.items@, i as int, least as int);
                    lemma_total_update(self.items@, i as int, child);
                    lemma_total_update(self.items@.update(i as int, child), least as int, parent);
                }
                self.items.set(i, child);
                self.items.set(least, parent);
                i = least;
            } else {
                assert(heap_ordered(self.items@));
                return Some(root);
            }
        }
        assert(heap_ordered(self.items@));
        Some(root)
    }
}

} // verus!
