use multiqueue::multiqueue::MultiQueue;
use multiqueue::termination_detection::{IdlePoll, TerminationData, poll_idle, try_do, wait_to_terminate};

#[test]
fn fresh_counters_are_zero() {
    let d = TerminationData::new(3);
    assert_eq!(d.idle_count, 0);
    assert_eq!(d.no_work_count, 0);
    assert_eq!(d.num_threads, 3);
}

#[test]
fn counter_transitions() {
    let mut d = TerminationData::new(3);
    d.report_no_work();
    d.report_no_work();
    assert_eq!(d.no_work_count, 2);
    assert!(!d.all_no_work());
    d.report_no_work();
    assert!(d.all_no_work());
    d.withdraw_no_work();
    assert_eq!(d.no_work_count, 2);
    d.enter_idle();
    assert_eq!(d.idle_count, 1);
    assert!(!d.all_idle());
    d.leave_idle();
    assert_eq!(d.idle_count, 0);
}

#[test]
fn solo_wait_terminates() {
    // a single participant is the last to go idle: the rendezvous completes
    let mut d = TerminationData::new(1);
    d.report_no_work();
    assert!(wait_to_terminate(&mut d));
    assert_eq!(d.idle_count, 1);
    assert_eq!(d.no_work_count, 1);
}

#[test]
fn idle_poll_aborts_when_consensus_breaks() {
    // two participants, one idle, but nobody reports no work: the wait aborts
    let mut d = TerminationData::new(2);
    d.enter_idle();
    assert!(matches!(poll_idle(&mut d), IdlePoll::Abort));
    assert_eq!(d.idle_count, 0);
}

#[test]
fn idle_poll_waits_for_peers() {
    // two participants report no work but only one is idle: keep polling
    let mut d = TerminationData::new(2);
    d.report_no_work();
    d.report_no_work();
    d.enter_idle();
    assert!(matches!(poll_idle(&mut d), IdlePoll::Wait));
    assert_eq!(d.idle_count, 1);
}

#[test]
fn idle_poll_terminates_when_all_idle() {
    let mut d = TerminationData::new(2);
    d.report_no_work();
    d.report_no_work();
    d.enter_idle();
    d.enter_idle();
    assert!(matches!(poll_idle(&mut d), IdlePoll::Terminate));
    assert_eq!(d.idle_count, 2);
    assert_eq!(d.no_work_count, 2);
}

#[test]
fn try_do_finds_queued_work() {
    let mut pq = MultiQueue::<u32>::new(1);
    let mut d = TerminationData::new(1);
    pq.push(5);
    assert_eq!(try_do(&mut pq, &mut d), Ok(5));
    // the counters are untouched by a successful round
    assert_eq!(d.no_work_count, 0);
    assert_eq!(d.idle_count, 0);
}

#[test]
fn try_do_terminates_on_empty_queue() {
    // termination is declared only on a definitively empty queue, and the
    // round returns promptly rather than hanging
    let mut pq = MultiQueue::<u32>::new(1);
    let mut d = TerminationData::new(1);
    assert_eq!(try_do(&mut pq, &mut d), Err(()));
    assert_eq!(d.no_work_count, 1);
    assert_eq!(d.idle_count, 1);
}

#[test]
fn try_do_never_drops_a_pending_push() {
    // a push that happened before the round is found, not abandoned
    let mut pq = MultiQueue::<u32>::new(1);
    let mut d = TerminationData::new(1);
    pq.push(1);
    pq.push(2);
    assert_eq!(try_do(&mut pq, &mut d), Ok(2));
    assert_eq!(try_do(&mut pq, &mut d), Ok(1));
    assert_eq!(try_do(&mut pq, &mut d), Err(()));
}
