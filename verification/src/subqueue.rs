//! One shard of the MultiQueue: a small max-extraction priority queue.
//!
//! The shard keeps its items in a plain vector and extracts a greatest item
//! by a linear scan.  Its view is the sequence of stored items; contracts of
//! the queue above it speak of the corresponding multiset.

use vstd::prelude::*;
use vstd::multiset::Multiset;
use crate::order::Priority;

verus! {

broadcast use vstd::seq_lib::group_to_multiset_ensures;

/// One lockable sub-queue unit of the MultiQueue.
pub struct SubQueue<T> {
    pub items: Vec<T>,
}

impl<T> SubQueue<T> {
    /// The stored items, in storage order.
    pub open spec fn view(&self) -> Seq<T> {
        self.items@
    }

    /// The stored items as a multiset.
    pub open spec fn contents(&self) -> Multiset<T> {
        self.items@.to_multiset()
    }
}

impl<T: Priority + Copy> SubQueue<T> {
    /// An empty shard.
    pub fn new() -> (q: Self)
        ensures
            q@ == Seq::<T>::empty(),
    {
        SubQueue { items: Vec::new() }
    }

    /// How many items the shard holds.
    pub fn len(&self) -> (n: usize)
        ensures
            n == self@.len(),
    {
        self.items.len()
    }

    /// Whether the shard holds no item.
    pub fn is_empty(&self) -> (r: bool)
        ensures
            r == (self@.len() == 0),
    {
        self.items.len() == 0
    }

    /// Insert an item.
    pub fn push_item(&mut self, elem: T)
        ensures
            final(self)@ == old(self)@.push(elem),
            final(self).contents() == old(self).contents().insert(elem),
    {
        self.items.push(elem);
        proof {
            assert(self@.to_multiset() =~= old(self)@.to_multiset().insert(elem));
        }
    }

    /// The position of a greatest stored item, or `None` on an empty shard.
    fn index_of_max(&self) -> (r: Option<usize>)
        ensures
            r is None <==> self@.len() == 0,
            r is Some ==> {
                let i = r->Some_0;
                &&& i < self@.len()
                &&& forall|k: int| 0 <= k < self@.len() ==> (#[trigger] self@[k]).le_spec(self@[i as int])
            },
    {
        if self.items.len() == 0 {
            return None;
        }
        let mut best: usize = 0;
        let mut j: usize = 1;
        proof {
            T::le_total(self@[0], self@[0]);
        }
        while j < self.items.len()
            invariant
                best < j <= self@.len(),
                forall|k: int| 0 <= k < j ==> (#[trigger] self@[k]).le_spec(self@[best as int]),
            decreases self@.len() - j,
        {
            let cur = self.items[j];
            let b = self.items[best];
            if b.le(&cur) {
                proof {
                    assert forall|k: int| 0 <= k < j + 1 implies (#[trigger] self@[k]).le_spec(
                        self@[j as int],
                    ) by {
                        if k < j {
                            T::le_trans(self@[k], self@[best as int], self@[j as int]);
                        } else {
                            T::le_total(self@[j as int], self@[j as int]);
                        }
                    }
                }
                best = j;
            } else {
                proof {
                    T::le_total(b, cur);
                }
            }
            j = j + 1;
        }
        Some(best)
    }

    /// A greatest stored item, without removing it; `None` on an empty shard.
    pub fn peek_max(&self) -> (r: Option<T>)
        ensures
            r is None <==> self@.len() == 0,
            r is Some ==> {
                let x = r->Some_0;
                &&& self.contents().count(x) > 0
                &&& forall|y: T| self.contents().count(y) > 0 ==> y.le_spec(x)
            },
    {
        match self.index_of_max() {
            None => None,
            Some(i) => {
                let x = self.items[i];
                proof {
                    assert(self@.contains(x));
                    assert forall|y: T| self.contents().count(y) > 0 implies y.le_spec(x) by {
                        let k = choose|k: int| 0 <= k < self@.len() && self@[k] == y;
                        assert(self@[k].le_spec(self@[i as int]));
                    }
                }
                Some(x)
            },
        }
    }

    /// Remove and return a greatest stored item; `None` on an empty shard.
    pub fn pop_max(&mut self) -> (r: Option<T>)
        ensures
            r is None <==> old(self)@.len() == 0,
            r is None ==> final(self)@ == old(self)@,
            r is Some ==> {
                let x = r->Some_0;
                &&& old(self).contents().count(x) > 0
                &&& final(self).contents() == old(self).contents().remove(x)
                &&& final(self)@.len() == old(self)@.len() - 1
                &&& forall|y: T| old(self).contents().count(y) > 0 ==> y.le_spec(x)
            },
    {
        match self.index_of_max() {
            None => None,
            Some(i) => {
                proof {
                    assert(old(self)@.contains(old(self)@[i as int]));
                    assert forall|y: T| old(self).contents().count(y) > 0 implies y.le_spec(
                        old(self)@[i as int],
                    ) by {
                        let k = choose|k: int| 0 <= k < old(self)@.len() && old(self)@[k] == y;
                        assert(old(self)@[k].le_spec(old(self)@[i as int]));
                    }
                }
                let x = self.items.remove(i);
                proof {
                    assert(self@.to_multiset() =~= old(self)@.to_multiset().remove(x));
                }
                Some(x)
            },
        }
    }
}

} // verus!
