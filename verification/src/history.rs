//! The operation-history model of a work queue, and the conservation law it
//! obeys.
//!
//! A phase's threads interleave pushes and pops in some order; here that
//! order is a sequence of observed operations.  An operation is *enabled*
//! exactly under the conditions that the contracts of [`MultiQueue::push`]
//! and [`MultiQueue::pop`] state, and its effect below is the effect those
//! contracts promise — so any run of the real queue gives a valid history.
//!
//! [`MultiQueue::push`]: crate::multiqueue::MultiQueue::push
//! [`MultiQueue::pop`]: crate::multiqueue::MultiQueue::pop

use vstd::prelude::*;
use vstd::multiset::Multiset;

verus! {

/// One observed queue operation: a push of an item, or a pop and what it
/// returned.
pub enum QueueOp<T> {
    Push(T),
    Pop(Option<T>),
}

/// Whether the operation could be observed on a queue holding `pre`: a push
/// always succeeds, a successful pop returns a held item, and a failed pop
/// happens only on an empty queue.
pub open spec fn op_enabled<T>(pre: Multiset<T>, op: QueueOp<T>) -> bool {
    match op {
        QueueOp::Push(_) => true,
        QueueOp::Pop(r) => match r {
            Some(x) => pre.count(x) > 0,
            None => pre.len() == 0,
        },
    }
}

/// What the operation leaves in the queue.
pub open spec fn op_apply<T>(pre: Multiset<T>, op: QueueOp<T>) -> Multiset<T> {
    match op {
        QueueOp::Push(x) => pre.insert(x),
        QueueOp::Pop(r) => match r {
            Some(x) => pre.remove(x),
            None => pre,
        },
    }
}

/// What a history of operations leaves in a queue that held `init`.
pub open spec fn run_ops<T>(init: Multiset<T>, ops: Seq<QueueOp<T>>) -> Multiset<T>
    decreases ops.len(),
{
    if ops.len() == 0 {
        init
    } else {
        op_apply(run_ops(init, ops.drop_last()), ops.last())
    }
}

/// Whether every operation of the history was enabled when it ran.
pub open spec fn ops_valid<T>(init: Multiset<T>, ops: Seq<QueueOp<T>>) -> bool
    decreases ops.len(),
{
    ops.len() == 0 || (ops_valid(init, ops.drop_last()) && op_enabled(
        run_ops(init, ops.drop_last()),
        ops.last(),
    ))
}

/// Everything the history pushed.
pub open spec fn pushed_of<T>(ops: Seq<QueueOp<T>>) -> Multiset<T>
    decreases ops.len(),
{
    if ops.len() == 0 {
        Multiset::empty()
    } else {
        match ops.last() {
            QueueOp::Push(x) => pushed_of(ops.drop_last()).insert(x),
            QueueOp::Pop(_) => pushed_of(ops.drop_last()),
        }
    }
}

/// Everything the history popped.
pub open spec fn popped_of<T>(ops: Seq<QueueOp<T>>) -> Multiset<T>
    decreases ops.len(),
{
    if ops.len() == 0 {
        Multiset::empty()
    } else {
        match ops.last() {
            QueueOp::Pop(r) => match r {
                Some(x) => popped_of(ops.drop_last()).insert(x),
                None => popped_of(ops.drop_last()),
            },
            QueueOp::Push(_) => popped_of(ops.drop_last()),
        }
    }
}

/// Multiset conservation: over any history of queue operations, each enabled
/// when it ran, what the queue holds plus everything popped equals what it
/// held at the start plus everything pushed — no item is lost and none is
/// duplicated, however the threads' pushes and pops were interleaved.
pub proof fn lemma_multiset_conservation<T>(init: Multiset<T>, ops: Seq<QueueOp<T>>)
    requires
        ops_valid(init, ops),
    ensures
        run_ops(init, ops).add(popped_of(ops)) == init.add(pushed_of(ops)),
    decreases ops.len(),
{
    if ops.len() > 0 {
        lemma_multiset_conservation(init, ops.drop_last());
        let mid = run_ops(init, ops.drop_last());
        let pu = pushed_of(ops.drop_last());
        let po = popped_of(ops.drop_last());
        assert(mid.add(po) == init.add(pu));
        match ops.last() {
            QueueOp::Push(x) => {
                assert forall|y: T|
                    run_ops(init, ops).add(popped_of(ops)).count(y) == init.add(
                        pushed_of(ops),
                    ).count(y) by {
                    assert(mid.add(po).count(y) == init.add(pu).count(y));
                }
                assert(run_ops(init, ops).add(popped_of(ops)) =~= init.add(pushed_of(ops)));
            },
            QueueOp::Pop(r) => {
                match r {
                    Some(x) => {
                        assert(mid.count(x) > 0);
                        assert forall|y: T|
                            run_ops(init, ops).add(popped_of(ops)).count(y) == init.add(
                                pushed_of(ops),
                            ).count(y) by {
                            assert(mid.add(po).count(y) == init.add(pu).count(y));
                        }
                        assert(run_ops(init, ops).add(popped_of(ops)) =~= init.add(
                            pushed_of(ops),
                        ));
                    },
                    None => {
                        assert(run_ops(init, ops).add(popped_of(ops)) =~= init.add(
                            pushed_of(ops),
                        ));
                    },
                }
            },
        }
    } else {
        assert(run_ops(init, ops).add(popped_of(ops)) =~= init.add(pushed_of(ops)));
    }
}

/// A queue that began empty and has drained popped exactly the multiset that
/// was pushed.
pub proof fn lemma_drained_history<T>(ops: Seq<QueueOp<T>>)
    requires
        ops_valid(Multiset::empty(), ops),
        run_ops(Multiset::empty(), ops).len() == 0,
    ensures
        popped_of(ops) == pushed_of(ops),
{
    lemma_multiset_conservation(Multiset::empty(), ops);
    assert forall|y: T| popped_of(ops).count(y) == pushed_of(ops).count(y) by {
        assert(run_ops(Multiset::empty(), ops).count(y) == 0);
        assert(Multiset::<T>::empty().count(y) == 0);
        assert(run_ops(Multiset::empty(), ops).add(popped_of(ops)).count(y) == Multiset::<
            T,
        >::empty().add(pushed_of(ops)).count(y));
    }
    assert(popped_of(ops) =~= pushed_of(ops));
}

} // verus!
