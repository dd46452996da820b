//! Distributed termination detection over two shared counters.
//!
//! Each of the `num_threads` participants is conceptually SCANNING (looking
//! for work), NO-WORK (it failed to find any and said so), or IDLE (it agrees
//! with its peers that nothing remains).  The states are not stored per
//! thread; they are inferred from the two counters.  Global termination may
//! be declared only when every participant reports no work
//! (`no_work_count == num_threads`) and every participant has also reached
//! the idle rendezvous (`idle_count == num_threads`).
//!
//! Each counter transition below is one atomic step of the protocol; a
//! driver runs them for its thread, spinning on [`poll_idle`] while it waits
//! for the rendezvous.  [`try_do`] composes the steps into one full round for
//! the last thread still running, the only participant whose wait never has
//! to block.

use vstd::prelude::*;
use vstd::pervasive::unreached;
use crate::multiqueue::MultiQueue;
use crate::order::Priority;

verus! {

/// The shared state of the protocol: two counters bounded by the fixed
/// participant count.
pub struct TerminationData {
    pub idle_count: u32,
    pub no_work_count: u32,
    pub num_threads: usize,
}

/// What one round of the idle busy-wait decided.
pub enum IdlePoll {
    /// Every participant is idle: unanimous termination.
    Terminate,
    /// A peer broke consensus by finding or producing work; the caller left
    /// the idle state and must scan again.
    Abort,
    /// Nothing changed; the caller stays idle and polls again.
    Wait,
}

impl TerminationData {
    /// The participant count, as a number.
    pub open spec fn threads(&self) -> int {
        self.num_threads as int
    }

    /// The idle counter, as a number.
    pub open spec fn idle(&self) -> int {
        self.idle_count as int
    }

    /// The no-work counter, as a number.
    pub open spec fn no_work(&self) -> int {
        self.no_work_count as int
    }

    /// The counters never exceed the participant count.
    pub open spec fn wf(&self) -> bool {
        &&& 1 <= self.threads()
        &&& self.threads() <= u32::MAX as int
        &&& self.idle() <= self.threads()
        &&& self.no_work() <= self.threads()
    }

    /// Unanimous termination: every participant reports no work and has
    /// reached the idle rendezvous.
    pub open spec fn consensus(&self) -> bool {
        &&& self.idle() == self.threads()
        &&& self.no_work() == self.threads()
    }

    /// Every participant but one reports no work and is idle: the state in
    /// which the one remaining active thread runs its rounds.  With
    /// `num_threads == 1` this is the initial state.
    pub open spec fn others_settled(&self) -> bool {
        &&& self.idle() == self.threads() - 1
        &&& self.no_work() == self.threads() - 1
    }

    /// Fresh counters for a phase of exactly `num_threads` participants.
    pub fn new(num_threads: usize) -> (d: Self)
        requires
            1 <= num_threads,
            num_threads <= u32::MAX as usize,
        ensures
            d.wf(),
            d.idle() == 0,
            d.no_work() == 0,
            d.num_threads == num_threads,
    {
        TerminationData { idle_count: 0, no_work_count: 0, num_threads }
    }

    /// This thread failed to find work and says so.
    pub fn report_no_work(&mut self)
        requires
            old(self).wf(),
            old(self).no_work() < old(self).threads(),
        ensures
            final(self).wf(),
            final(self).no_work() == old(self).no_work() + 1,
            final(self).idle() == old(self).idle(),
            final(self).num_threads == old(self).num_threads,
    {
        self.no_work_count = self.no_work_count + 1;
    }

    /// This thread found work after all and takes its report back.
    pub fn withdraw_no_work(&mut self)
        requires
            old(self).wf(),
            old(self).no_work() >= 1,
        ensures
            final(self).wf(),
            final(self).no_work() == old(self).no_work() - 1,
            final(self).idle() == old(self).idle(),
            final(self).num_threads == old(self).num_threads,
    {
        self.no_work_count = self.no_work_count - 1;
    }

    /// This thread enters the idle rendezvous.
    pub fn enter_idle(&mut self)
        requires
            old(self).wf(),
            old(self).idle() < old(self).threads(),
        ensures
            final(self).wf(),
            final(self).idle() == old(self).idle() + 1,
            final(self).no_work() == old(self).no_work(),
            final(self).num_threads == old(self).num_threads,
    {
        self.idle_count = self.idle_count + 1;
    }

    /// This thread leaves the idle rendezvous.
    pub fn leave_idle(&mut self)
        requires
            old(self).wf(),
            old(self).idle() >= 1,
        ensures
            final(self).wf(),
            final(self).idle() == old(self).idle() - 1,
            final(self).no_work() == old(self).no_work(),
            final(self).num_threads == old(self).num_threads,
    {
        self.idle_count = self.idle_count - 1;
    }

    /// Whether every participant currently reports no work.
    pub fn all_no_work(&self) -> (r: bool)
        requires
            self.wf(),
        ensures
            r == (self.no_work() == self.threads()),
    {
        self.no_work_count as usize == self.num_threads
    }

    /// Whether every participant has reached the idle rendezvous.
    pub fn all_idle(&self) -> (r: bool)
        requires
            self.wf(),
        ensures
            r == (self.idle() == self.threads()),
    {
        self.idle_count as usize == self.num_threads
    }
}

/// One round of the idle busy-wait, for a thread that has entered the idle
/// rendezvous.  Termination is declared only once every participant is idle;
/// while peers are missing, the round aborts as soon as any participant
/// withdraws its no-work report, and otherwise asks the caller to poll again.
pub fn poll_idle(data: &mut TerminationData) -> (r: IdlePoll)
    requires
        old(data).wf(),
        old(data).idle() >= 1,
    ensures
        final(data).wf(),
        final(data).num_threads == old(data).num_threads,
        final(data).no_work() == old(data).no_work(),
        match r {
            IdlePoll::Terminate => *final(data) == *old(data) && final(data).idle() == final(data).threads(),
            IdlePoll::Abort => old(data).idle() < old(data).threads() && old(data).no_work() < old(data).threads() && final(data).idle() == old(data).idle() - 1,
            IdlePoll::Wait => *final(data) == *old(data) && old(data).idle() < old(data).threads()
                && old(data).no_work() == old(data).threads(),
        },
{
    if data.all_idle() {
        IdlePoll::Terminate
    } else if !data.all_no_work() {
        data.leave_idle();
        IdlePoll::Abort
    } else {
        IdlePoll::Wait
    }
}

/// The idle rendezvous for a thread whose wait resolves at once: either it is
/// the last participant to go idle, in which case the rendezvous completes
/// and termination is unanimous, or consensus is already broken and it backs
/// out immediately.  A thread that would have to keep polling drives
/// [`poll_idle`] instead.
pub fn wait_to_terminate(data: &mut TerminationData) -> (r: bool)
    requires
        old(data).wf(),
        old(data).idle() < old(data).threads(),
        old(data).idle() + 1 == old(data).threads() || old(data).no_work() < old(data).threads(),
    ensures
        final(data).wf(),
        final(data).num_threads == old(data).num_threads,
        final(data).no_work() == old(data).no_work(),
        r == (old(data).idle() + 1 == old(data).threads()),
        r ==> final(data).idle() == final(data).threads(),
        !r ==> final(data).idle() == old(data).idle() && final(data).no_work() < final(data).threads(),
{
    data.enter_idle();
    match poll_idle(data) {
        IdlePoll::Terminate => true,
        IdlePoll::Abort => false,
        IdlePoll::Wait => unreached(),
    }
}

/// One full round of the work loop for the last thread still running: try to
/// pop, and when the queue is definitively empty walk the termination
/// handshake to unanimity.  `Err` reports global termination: it comes
/// exactly when the queue held nothing, so no pushed item is ever abandoned
/// by it.
pub fn try_do<T: Priority + Copy>(pq: &mut MultiQueue<T>, data: &mut TerminationData) -> (r: Result<
    T,
    (),
>)
    requires
        old(pq).wf(),
        old(data).wf(),
        old(data).others_settled(),
    ensures
        final(pq).wf(),
        final(pq).shard_count() == old(pq).shard_count(),
        final(data).wf(),
        final(data).num_threads == old(data).num_threads,
        r is Err <==> old(pq).contents().len() == 0,
        r is Err ==> final(data).consensus() && *final(pq) == *old(pq),
        r is Ok ==> *final(data) == *old(data),
        r is Ok ==> ({
            let x = r->Ok_0;
            &&& old(pq).contents().count(x) > 0
            &&& final(pq).contents() == old(pq).contents().remove(x)
            &&& exists|i: int|
                {
                    &&& 0 <= i < old(pq).shard_count()
                    &&& old(pq).shard(i).count(x) > 0
                    &&& (forall|y: T| old(pq).shard(i).count(y) > 0 ==> y.le_spec(x))
                    &&& final(pq).shard(i) == old(pq).shard(i).remove(x)
                    &&& (forall|j: int|
                        0 <= j < old(pq).shard_count() && j != i ==> final(pq).shard(j) == old(pq).shard(j))
                }
        }),
        old(pq).shard_count() == 1 && r is Ok ==> (forall|y: T|
            old(pq).contents().count(y) > 0 ==> y.le_spec(r->Ok_0)),
{
    match pq.pop() {
        Some(v) => Ok(v),
        None => {
            data.report_no_work();
            // One more attempt before the rendezvous, as the protocol asks;
            // the queue is known empty, so it cannot succeed here.
            match pq.pop() {
                Some(v) => {
                    data.withdraw_no_work();
                    Ok(v)
                },
                None => {
                    if data.all_no_work() {
                        if wait_to_terminate(data) {
                            Err(())
                        } else {
                            unreached()
                        }
                    } else {
                        unreached()
                    }
                },
            }
        },
    }
}

} // verus!
