//! The MultiQueue: an array of `FAN_OUT * num_threads` shards with a
//! randomized two-choice push/pop and a best-effort empty-shard counter.
//!
//! `push` inserts into a randomly sampled shard.  `pop` peeks the maxima of
//! two distinct random shards, commits to the better one, and falls back to a
//! deterministic sweep of the shards when both samples come up empty while
//! items remain.  The empty-shard counter is exact here, so `pop` returns
//! `None` exactly when the queue holds nothing.

use vstd::prelude::*;
use vstd::multiset::Multiset;
use rand::Rng;
use crate::order::Priority;
use crate::subqueue::SubQueue;

verus! {

broadcast use vstd::seq_lib::group_to_multiset_ensures;

/// Shards per participating thread.  A fan-out of one keeps the queue of a
/// single-threaded phase a single shard, whose pop order is therefore exact.
pub const FAN_OUT: usize = 1;

/// Relies on `rand::Rng::gen_range` over the thread-local `rand::thread_rng`:
/// it returns a uniformly distributed value of the given range, and panics
/// only on an empty range, which the precondition rules out.
#[verifier::external_body]
fn random_index(bound: usize) -> (r: usize)
    requires
        1 <= bound,
    ensures
        r < bound,
{
    rand::thread_rng().gen_range(0..bound)
}

/// A uniformly random shard index other than `except`.
fn choose_other_shard(size: usize, except: usize) -> (r: usize)
    requires
        2 <= size,
        except < size,
    ensures
        r < size,
        r != except,
{
    let j = random_index(size - 1);
    if j >= except {
        j + 1
    } else {
        j
    }
}

/// Everything the given shards hold, as one multiset.
pub open spec fn sum_items<T>(qs: Seq<SubQueue<T>>) -> Multiset<T>
    decreases qs.len(),
{
    if qs.len() == 0 {
        Multiset::empty()
    } else {
        sum_items(qs.drop_last()).add(qs.last().contents())
    }
}

/// One when the shard is empty, zero otherwise.
pub open spec fn emp<T>(q: SubQueue<T>) -> int {
    if q@.len() == 0 {
        1
    } else {
        0
    }
}

/// How many of the given shards are empty.
pub open spec fn count_empty<T>(qs: Seq<SubQueue<T>>) -> int
    decreases qs.len(),
{
    if qs.len() == 0 {
        0
    } else {
        count_empty(qs.drop_last()) + emp(qs.last())
    }
}

proof fn lemma_sum_items_update<T>(qs: Seq<SubQueue<T>>, i: int, q: SubQueue<T>)
    requires
        0 <= i < qs.len(),
    ensures
        sum_items(qs.update(i, q)).add(qs[i].contents()) == sum_items(qs).add(q.contents()),
    decreases qs.len(),
{
    let qs2 = qs.update(i, q);
    assert(sum_items(qs2) == sum_items(qs2.drop_last()).add(qs2.last().contents()));
    assert(sum_items(qs) == sum_items(qs.drop_last()).add(qs.last().contents()));
    if i == qs.len() - 1 {
        assert(qs2.drop_last() =~= qs.drop_last());
        assert(qs2.last() == q);
        assert(sum_items(qs2).add(qs[i].contents()) =~= sum_items(qs).add(q.contents()));
    } else {
        assert(qs2.drop_last() =~= qs.drop_last().update(i, q));
        lemma_sum_items_update(qs.drop_last(), i, q);
        assert(qs2.last() == qs.last());
        assert(qs.drop_last()[i] == qs[i]);
        assert forall|y: T|
            sum_items(qs2).add(qs[i].contents()).count(y) == sum_items(qs).add(
                q.contents(),
            ).count(y) by {
            assert(sum_items(qs.drop_last().update(i, q)).add(
                qs.drop_last()[i].contents(),
            ).count(y) == sum_items(qs.drop_last()).add(q.contents()).count(y));
        }
        assert(sum_items(qs2).add(qs[i].contents()) =~= sum_items(qs).add(q.contents()));
    }
}

proof fn lemma_sum_items_insert<T>(qs: Seq<SubQueue<T>>, i: int, q: SubQueue<T>, x: T)
    requires
        0 <= i < qs.len(),
        q.contents() == qs[i].contents().insert(x),
    ensures
        sum_items(qs.update(i, q)) == sum_items(qs).insert(x),
{
    lemma_sum_items_update(qs, i, q);
    assert forall|y: T| sum_items(qs.update(i, q)).count(y) == sum_items(qs).insert(x).count(
        y,
    ) by {
        assert(sum_items(qs.update(i, q)).add(qs[i].contents()).count(y) == sum_items(qs).add(
            q.contents(),
        ).count(y));
    }
    assert(sum_items(qs.update(i, q)) =~= sum_items(qs).insert(x));
}

proof fn lemma_sum_items_remove<T>(qs: Seq<SubQueue<T>>, i: int, q: SubQueue<T>, x: T)
    requires
        0 <= i < qs.len(),
        qs[i].contents().count(x) > 0,
        q.contents() == qs[i].contents().remove(x),
    ensures
        sum_items(qs.update(i, q)) == sum_items(qs).remove(x),
        sum_items(qs).count(x) > 0,
{
    lemma_sum_items_update(qs, i, q);
    lemma_sum_items_bound(qs, i);
    assert forall|y: T| sum_items(qs.update(i, q)).count(y) == sum_items(qs).remove(x).count(
        y,
    ) by {
        assert(sum_items(qs.update(i, q)).add(qs[i].contents()).count(y) == sum_items(qs).add(
            q.contents(),
        ).count(y));
    }
    assert(sum_items(qs.update(i, q)) =~= sum_items(qs).remove(x));
}

/// A shard's items are part of the whole.
proof fn lemma_sum_items_bound<T>(qs: Seq<SubQueue<T>>, i: int)
    requires
        0 <= i < qs.len(),
    ensures
        forall|y: T| sum_items(qs).count(y) >= qs[i].contents().count(y),
    decreases qs.len(),
{
    assert(sum_items(qs) == sum_items(qs.drop_last()).add(qs.last().contents()));
    if i == qs.len() - 1 {
        assert(qs.last() == qs[i]);
        assert forall|y: T| sum_items(qs).count(y) >= qs[i].contents().count(y) by {
            assert(sum_items(qs).count(y) == sum_items(qs.drop_last()).count(y)
                + qs.last().contents().count(y));
        }
    } else {
        lemma_sum_items_bound(qs.drop_last(), i);
        assert(qs.drop_last()[i] == qs[i]);
        assert forall|y: T| sum_items(qs).count(y) >= qs[i].contents().count(y) by {
            assert(sum_items(qs.drop_last()).count(y) >= qs.drop_last()[i].contents().count(y));
            assert(sum_items(qs).count(y) == sum_items(qs.drop_last()).count(y)
                + qs.last().contents().count(y));
        }
    }
}

/// With a single shard the whole is that shard.
proof fn lemma_sum_items_single<T>(qs: Seq<SubQueue<T>>)
    requires
        qs.len() == 1,
    ensures
        sum_items(qs) == qs[0].contents(),
{
    assert(qs.drop_last().len() == 0);
    assert(sum_items(qs) == sum_items(qs.drop_last()).add(qs.last().contents()));
    assert(sum_items(qs.drop_last()) == Multiset::<T>::empty());
    assert(qs.last() == qs[0]);
    assert(sum_items(qs) =~= qs[0].contents());
}

proof fn lemma_count_empty_update<T>(qs: Seq<SubQueue<T>>, i: int, q: SubQueue<T>)
    requires
        0 <= i < qs.len(),
    ensures
        count_empty(qs.update(i, q)) == count_empty(qs) - emp(qs[i]) + emp(q),
    decreases qs.len(),
{
    let qs2 = qs.update(i, q);
    if i == qs.len() - 1 {
        assert(qs2.drop_last() =~= qs.drop_last());
    } else {
        assert(qs2.drop_last() =~= qs.drop_last().update(i, q));
        lemma_count_empty_update(qs.drop_last(), i, q);
        assert(qs.drop_last()[i] == qs[i]);
        assert(qs2.last() == qs.last());
    }
}

proof fn lemma_count_empty_bounds<T>(qs: Seq<SubQueue<T>>)
    ensures
        0 <= count_empty(qs) <= qs.len(),
    decreases qs.len(),
{
    if qs.len() > 0 {
        lemma_count_empty_bounds(qs.drop_last());
    }
}

/// An empty shard contributes to the counter; a nonempty one leaves room.
proof fn lemma_count_empty_member<T>(qs: Seq<SubQueue<T>>, i: int)
    requires
        0 <= i < qs.len(),
    ensures
        qs[i]@.len() == 0 ==> count_empty(qs) >= 1,
        qs[i]@.len() != 0 ==> count_empty(qs) <= qs.len() - 1,
    decreases qs.len(),
{
    lemma_count_empty_bounds(qs.drop_last());
    if i == qs.len() - 1 {
        assert(qs.last() == qs[i]);
    } else {
        lemma_count_empty_member(qs.drop_last(), i);
        assert(qs.drop_last()[i] == qs[i]);
    }
}

/// The counter saturates exactly when nothing is held.
proof fn lemma_count_empty_all<T>(qs: Seq<SubQueue<T>>)
    ensures
        (count_empty(qs) == qs.len()) <==> (sum_items(qs).len() == 0),
    decreases qs.len(),
{
    if qs.len() > 0 {
        lemma_count_empty_all(qs.drop_last());
        lemma_count_empty_bounds(qs.drop_last());
        assert(qs.last()@.to_multiset().len() == qs.last()@.len()) by {
            broadcast use vstd::seq_lib::group_to_multiset_ensures;

        }
    }
}

/// An array of shards with randomized two-choice access and an exact count
/// of its empty shards.
pub struct MultiQueue<T> {
    pub pq_list: Vec<SubQueue<T>>,
    pub pq_list_size: usize,
    pub num_empty: u32,
}

impl<T> MultiQueue<T> {
    /// Structural well-formedness: the recorded size and the empty-shard
    /// counter agree with the shard array.
    pub open spec fn wf(&self) -> bool {
        &&& self.pq_list@.len() == self.pq_list_size
        &&& 1 <= self.pq_list_size
        &&& self.pq_list_size <= u32::MAX as usize
        &&& self.num_empty as int == count_empty(self.pq_list@)
    }

    /// Everything the queue holds.
    pub open spec fn contents(&self) -> Multiset<T> {
        sum_items(self.pq_list@)
    }

    /// How many shards the queue has.
    pub open spec fn shard_count(&self) -> int {
        self.pq_list_size as int
    }

    /// What shard `i` holds.
    pub open spec fn shard(&self, i: int) -> Multiset<T> {
        self.pq_list@[i].contents()
    }
}

impl<T: Priority + Copy> MultiQueue<T> {
    /// An empty queue with `FAN_OUT` shards per participating thread.
    pub fn new(num_threads: usize) -> (q: Self)
        requires
            1 <= num_threads,
            num_threads * FAN_OUT <= u32::MAX as usize,
        ensures
            q.wf(),
            q.contents().len() == 0,
            q.shard_count() == num_threads * FAN_OUT,
    {
        let pq_list_size = num_threads * FAN_OUT;
        let mut pq_list: Vec<SubQueue<T>> = Vec::new();
        let mut i: usize = 0;
        while i < pq_list_size
            invariant
                i <= pq_list_size,
                pq_list@.len() == i,
                count_empty(pq_list@) == i as int,
                sum_items(pq_list@).len() == 0,
            decreases pq_list_size - i,
        {
            let ghost prev = pq_list@;
            pq_list.push(SubQueue::new());
            proof {
                assert(pq_list@.drop_last() =~= prev);
                assert(pq_list@.last()@.len() == 0);
                assert(pq_list@.last()@.to_multiset().len() == 0) by {
                    broadcast use vstd::seq_lib::group_to_multiset_ensures;

                }
            }
            i = i + 1;
        }
        MultiQueue { pq_list, pq_list_size, num_empty: pq_list_size as u32 }
    }

    /// Insert an item into a uniformly random shard, maintaining the
    /// empty-shard counter.  Always succeeds.
    pub fn push(&mut self, elem: T)
        requires
            old(self).wf(),
        ensures
            final(self).wf(),
            final(self).shard_count() == old(self).shard_count(),
            final(self).contents() == old(self).contents().insert(elem),
    {
        let idx = random_index(self.pq_list_size);
        let ghost qs0 = self.pq_list@;
        let q = &mut self.pq_list[idx];
        let was_empty = q.is_empty();
        q.push_item(elem);
        if was_empty {
            proof {
                lemma_count_empty_member(qs0, idx as int);
            }
            self.num_empty = self.num_empty - 1;
        }
        proof {
            assert(self.pq_list@ =~= qs0.update(idx as int, self.pq_list@[idx as int]));
            lemma_sum_items_insert(qs0, idx as int, self.pq_list@[idx as int], elem);
            lemma_count_empty_update(qs0, idx as int, self.pq_list@[idx as int]);
        }
    }

    /// Remove and return the maximum of the committed shard; the counter is
    /// raised when the shard ran dry.
    fn commit_pop(&mut self, selected: usize) -> (r: Option<T>)
        requires
            old(self).wf(),
            selected < old(self).pq_list_size,
            old(self).shard(selected as int).len() > 0,
        ensures
            final(self).wf(),
            final(self).shard_count() == old(self).shard_count(),
            r is Some,
            ({
                let x = r->Some_0;
                &&& old(self).contents().count(x) > 0
                &&& old(self).shard(selected as int).count(x) > 0
                &&& (forall|y: T|
                    old(self).shard(selected as int).count(y) > 0 ==> y.le_spec(x))
                &&& final(self).contents() == old(self).contents().remove(x)
                &&& final(self).shard(selected as int) == old(self).shard(
                    selected as int,
                ).remove(x)
                &&& (forall|j: int|
                    0 <= j < old(self).shard_count() && j != selected ==> final(self).shard(j)
                        == old(self).shard(j))
            }),
            old(self).shard_count() == 1 ==> (forall|y: T|
                old(self).contents().count(y) > 0 ==> y.le_spec(r->Some_0)),
    {
        let ghost qs0 = self.pq_list@;
        let q = &mut self.pq_list[selected];
        let res = q.pop_max();
        match res {
            Some(x) => {
                let now_empty = q.is_empty();
                if now_empty {
                    proof {
                        lemma_count_empty_member(qs0, selected as int);
                    }
                    self.num_empty = self.num_empty + 1;
                }
                proof {
                    assert(self.pq_list@ =~= qs0.update(
                        selected as int,
                        self.pq_list@[selected as int],
                    ));
                    lemma_sum_items_remove(qs0, selected as int, self.pq_list@[selected as int], x);
                    lemma_count_empty_update(qs0, selected as int, self.pq_list@[selected as int]);
                    assert forall|j: int|
                        0 <= j < old(self).shard_count() && j != selected implies self.shard(j)
                        == old(self).shard(j) by {
                        assert(self.pq_list@[j] == qs0[j]);
                    }
                    if old(self).shard_count() == 1 {
                        lemma_sum_items_single(qs0);
                    }
                }
                Some(x)
            },
            None => {
                proof {
                    assert(qs0[selected as int]@.to_multiset().len() == 0) by {
                        broadcast use vstd::seq_lib::group_to_multiset_ensures;

                    }
                    assert(false);
                }
                None
            },
        }
    }

    /// Deterministic fallback: pop the maximum of the first nonempty shard.
    fn pop_any(&mut self) -> (r: Option<T>)
        requires
            old(self).wf(),
            old(self).contents().len() > 0,
        ensures
            final(self).wf(),
            final(self).shard_count() == old(self).shard_count(),
            r is Some,
            ({
                let x = r->Some_0;
                &&& old(self).contents().count(x) > 0
                &&& final(self).contents() == old(self).contents().remove(x)
                &&& exists|i: int|
                    {
                        &&& 0 <= i < old(self).shard_count()
                        &&& old(self).shard(i).count(x) > 0
                        &&& (forall|y: T| old(self).shard(i).count(y) > 0 ==> y.le_spec(x))
                        &&& final(self).shard(i) == old(self).shard(i).remove(x)
                        &&& (forall|j: int|
                            0 <= j < old(self).shard_count() && j != i ==> final(self).shard(j)
                                == old(self).shard(j))
                    }
            }),
            old(self).shard_count() == 1 ==> (forall|y: T|
                old(self).contents().count(y) > 0 ==> y.le_spec(r->Some_0)),
    {
        let mut i: usize = 0;
        while i < self.pq_list_size
            invariant
                self == old(self),
                old(self).wf(),
                i <= old(self).pq_list_size,
                forall|k: int| 0 <= k < i ==> old(self).pq_list@[k]@.len() == 0,
            decreases old(self).pq_list_size - i,
        {
            if !(self.pq_list[i].is_empty()) {
                let ghost sel = i as int;
                let r = self.commit_pop(i);
                proof {
                    let x = r->Some_0;
                    assert({
                        &&& 0 <= sel < old(self).shard_count()
                        &&& old(self).shard(sel).count(x) > 0
                        &&& (forall|y: T| old(self).shard(sel).count(y) > 0 ==> y.le_spec(x))
                        &&& self.shard(sel) == old(self).shard(sel).remove(x)
                        &&& (forall|j: int|
                            0 <= j < old(self).shard_count() && j != sel ==> self.shard(j)
                                == old(self).shard(j))
                    });
                }
                return r;
            }
            i = i + 1;
        }
        proof {
            lemma_count_empty_saturated(self.pq_list@);
            lemma_count_empty_all(self.pq_list@);
            assert(false);
        }
        None
    }

    /// Pop an approximate maximum, or `None` when the queue holds nothing.
    ///
    /// Two distinct random shards are peeked and the one with the greater
    /// maximum is committed; when both samples are empty, either every shard
    /// is empty (the counter says so and the pop fails definitively) or a
    /// deterministic sweep finds a nonempty shard.  The returned item is
    /// always the maximum of the shard it left, so with a single shard the
    /// pop order is the exact descending order of the queue.
    pub fn pop(&mut self) -> (r: Option<T>)
        requires
            old(self).wf(),
        ensures
            final(self).wf(),
            final(self).shard_count() == old(self).shard_count(),
            r is None <==> old(self).contents().len() == 0,
            r is None ==> *final(self) == *old(self),
            r is Some ==> ({
                let x = r->Some_0;
                &&& old(self).contents().count(x) > 0
                &&& final(self).contents() == old(self).contents().remove(x)
                &&& exists|i: int|
                    {
                        &&& 0 <= i < old(self).shard_count()
                        &&& old(self).shard(i).count(x) > 0
                        &&& (forall|y: T| old(self).shard(i).count(y) > 0 ==> y.le_spec(x))
                        &&& final(self).shard(i) == old(self).shard(i).remove(x)
                        &&& (forall|j: int|
                            0 <= j < old(self).shard_count() && j != i ==> final(self).shard(j)
                                == old(self).shard(j))
                    }
            }),
            old(self).shard_count() == 1 && r is Some ==> (forall|y: T|
                old(self).contents().count(y) > 0 ==> y.le_spec(r->Some_0)),
    {
        if self.pq_list_size >= 2 {
            let idx1 = random_index(self.pq_list_size);
            let o1 = self.pq_list[idx1].peek_max();
            let idx2 = choose_other_shard(self.pq_list_size, idx1);
            let o2 = self.pq_list[idx2].peek_max();
            match (o1, o2) {
                (Some(v1), Some(v2)) => {
                    let selected = if v1.le(&v2) {
                        idx2
                    } else {
                        idx1
                    };
                    let r = self.commit_pop(selected);
                    proof {
                        lemma_pop_witness(*old(self), *self, selected as int, r->Some_0);
                    }
                    r
                },
                (Some(_), None) => {
                    let r = self.commit_pop(idx1);
                    proof {
                        lemma_pop_witness(*old(self), *self, idx1 as int, r->Some_0);
                    }
                    r
                },
                (None, Some(_)) => {
                    let r = self.commit_pop(idx2);
                    proof {
                        lemma_pop_witness(*old(self), *self, idx2 as int, r->Some_0);
                    }
                    r
                },
                (None, None) => {
                    if self.num_empty == self.pq_list_size as u32 {
                        proof {
                            lemma_count_empty_all(self.pq_list@);
                        }
                        return None;
                    }
                    proof {
                        lemma_count_empty_all(self.pq_list@);
                    }
                    self.pop_any()
                },
            }
        } else {
            if self.num_empty == self.pq_list_size as u32 {
                proof {
                    lemma_count_empty_all(self.pq_list@);
                }
                return None;
            }
            proof {
                lemma_count_empty_all(self.pq_list@);
            }
            self.pop_any()
        }
    }
}

/// Removing one occurrence of a held item shortens a multiset by one.
pub proof fn lemma_remove_len<T>(m: Multiset<T>, x: T)
    requires
        m.count(x) > 0,
    ensures
        m.remove(x).len() + 1 == m.len(),
{
    assert(m.remove(x).insert(x) =~= m);
    assert(m.remove(x).insert(x).len() == m.remove(x).len() + 1);
}

/// Introduces the popped-from-shard witness that `pop` promises.
proof fn lemma_pop_witness<T: Priority + Copy>(pre: MultiQueue<T>, post: MultiQueue<T>, i: int, x: T)
    requires
        0 <= i < pre.shard_count(),
        pre.shard(i).count(x) > 0,
        forall|y: T| pre.shard(i).count(y) > 0 ==> y.le_spec(x),
        post.shard(i) == pre.shard(i).remove(x),
        forall|j: int| 0 <= j < pre.shard_count() && j != i ==> post.shard(j) == pre.shard(j),
    ensures
        exists|k: int|
            {
                &&& 0 <= k < pre.shard_count()
                &&& pre.shard(k).count(x) > 0
                &&& (forall|y: T| pre.shard(k).count(y) > 0 ==> y.le_spec(x))
                &&& post.shard(k) == pre.shard(k).remove(x)
                &&& (forall|j: int|
                    0 <= j < pre.shard_count() && j != k ==> post.shard(j) == pre.shard(j))
            },
{
    assert({
        &&& 0 <= i < pre.shard_count()
        &&& pre.shard(i).count(x) > 0
        &&& (forall|y: T| pre.shard(i).count(y) > 0 ==> y.le_spec(x))
        &&& post.shard(i) == pre.shard(i).remove(x)
        &&& (forall|j: int|
            0 <= j < pre.shard_count() && j != i ==> post.shard(j) == pre.shard(j))
    });
}

/// When every shard is empty, the counter is saturated.
proof fn lemma_count_empty_saturated<T>(qs: Seq<SubQueue<T>>)
    requires
        forall|k: int| 0 <= k < qs.len() ==> qs[k]@.len() == 0,
    ensures
        count_empty(qs) == qs.len(),
    decreases qs.len(),
{
    if qs.len() > 0 {
        lemma_count_empty_saturated(qs.drop_last());
    }
}

} // verus!
