use login_core::dispatch::Pool;
use login_core::dispatch::SlotState;

#[test]
fn new_pool_is_all_idle() {
    let p = Pool::new(3);
    assert_eq!(p.slot_count(), 3);
    for i in 0..3 {
        assert_eq!(p.state_of(i), Some(SlotState::Idle));
    }
    assert_eq!(p.state_of(3), None);
}

#[test]
fn dispatch_scans_in_fixed_order() {
    let mut p = Pool::new(2);
    assert_eq!(p.first_idle(), Some(0));
    let c0 = p.hand_off(0).unwrap();
    assert!(p.acknowledge(0));
    // Slot zero is busy: the scan favors the next free slot.
    assert_eq!(p.first_idle(), Some(1));
    let c1 = p.hand_off(1).unwrap();
    assert!(p.acknowledge(1));
    // No double assignment: the two connections are distinct and each slot
    // holds its own.
    assert_ne!(c0, c1);
    assert_eq!(p.state_of(0), Some(SlotState::Busy { conn: c0 }));
    assert_eq!(p.state_of(1), Some(SlotState::Busy { conn: c1 }));
}

#[test]
fn backpressure_when_all_workers_busy() {
    let n = 4;
    let mut p = Pool::new(n);
    for i in 0..n {
        let i = i as usize;
        assert_eq!(p.first_idle(), Some(i));
        p.hand_off(i).unwrap();
        assert!(p.acknowledge(i));
    }
    // All workers held busy: the dispatcher finds nobody, so its accept loop
    // makes no forward progress.
    assert_eq!(p.first_idle(), None);
    assert_eq!(p.hand_off(0), None);
    assert_eq!(p.hand_off(n - 1), None);
    // One worker returns to idle: dispatch resumes with exactly that slot.
    assert!(p.finish(2));
    assert_eq!(p.first_idle(), Some(2));
    let c = p.hand_off(2).unwrap();
    assert_eq!(p.state_of(2), Some(SlotState::Handed { conn: c }));
}

#[test]
fn handoff_needs_the_previous_ack() {
    let mut p = Pool::new(3);
    let c0 = p.hand_off(0).unwrap();
    // The first handoff has not been acknowledged: no further handoff is
    // possible, not even to a different idle worker.
    assert_eq!(p.hand_off(1), None);
    assert_eq!(p.hand_off(0), None);
    assert_eq!(p.state_of(0), Some(SlotState::Handed { conn: c0 }));
    assert_eq!(p.state_of(1), Some(SlotState::Idle));
    // After the ack the dispatcher may hand off again.
    assert!(p.acknowledge(0));
    assert!(p.hand_off(1).is_some());
}

#[test]
fn each_connection_is_processed_by_exactly_one_worker() {
    // A burst of connections through a pool of two workers: every connection
    // id is assigned exactly once, and never to a worker that has not
    // acknowledged its previous one.
    let mut p = Pool::new(2);
    let mut seen = Vec::new();
    for _round in 0..10 {
        let i = p.first_idle().unwrap();
        let c = p.hand_off(i).unwrap();
        assert!(p.acknowledge(i));
        assert!(!seen.contains(&c), "connection {c} assigned twice");
        seen.push(c);
        assert!(p.finish(i));
        assert_eq!(p.state_of(i), Some(SlotState::Idle));
    }
    assert_eq!(seen.len(), 10);
}

#[test]
fn worker_lifecycle_transitions_are_guarded() {
    let mut p = Pool::new(1);
    // Nothing to acknowledge or finish on an idle slot.
    assert!(!p.acknowledge(0));
    assert!(!p.finish(0));
    let c = p.hand_off(0).unwrap();
    // A handed slot cannot finish before the ack, nor be closed.
    assert!(!p.finish(0));
    assert!(!p.close(0));
    assert!(p.acknowledge(0));
    assert!(!p.acknowledge(0));
    assert_eq!(p.state_of(0), Some(SlotState::Busy { conn: c }));
    // After the timeout or error path the worker releases the connection and
    // returns to idle.
    assert!(p.finish(0));
    assert_eq!(p.state_of(0), Some(SlotState::Idle));
    // Graceful shutdown stops an idle worker for good.
    assert!(p.close(0));
    assert_eq!(p.state_of(0), Some(SlotState::Stopped));
    assert_eq!(p.first_idle(), None);
    assert_eq!(p.hand_off(0), None);
    // Out-of-range slots are refused.
    assert_eq!(p.hand_off(1), None);
    assert!(!p.acknowledge(9));
}
