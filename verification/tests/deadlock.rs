use rcore_os::deadlock::{DeadlockDetectStruct, DeadlockDetector};

/// Two threads, two resources of `units0` and `units1` units; thread 0 holds
/// resource 0 and waits for resource 1, thread 1 holds resource 1 and waits
/// for resource 0.
fn crossed(units0: usize, units1: usize) -> DeadlockDetectStruct {
    let mut d = DeadlockDetectStruct::new();
    d.create_resource(0, units0);
    d.create_resource(1, units1);
    d.add_thread(1);
    d.request(0, 0);
    d.allocate(0, 0);
    d.request(1, 1);
    d.allocate(1, 1);
    d.request(0, 1);
    d.request(1, 0);
    d
}

#[test]
fn fresh_detector_has_one_thread_and_no_deadlock() {
    let d = DeadlockDetectStruct::new();
    assert_eq!(d.num_threads(), 1);
    assert_eq!(d.num_resources(), 0);
    assert!(!d.detect_deadlock());
}

#[test]
fn create_resource_grows_and_sets_units() {
    let mut d = DeadlockDetectStruct::new();
    d.create_resource(2, 5);
    assert_eq!(d.num_resources(), 3);
    assert_eq!(d.available(0), 0);
    assert_eq!(d.available(1), 0);
    assert_eq!(d.available(2), 5);
    assert_eq!(d.allocation(0, 2), 0);
    assert_eq!(d.need(0, 2), 0);
    d.create_resource(1, 7);
    assert_eq!(d.num_resources(), 3);
    assert_eq!(d.available(1), 7);
    d.create_resource(2, 1);
    assert_eq!(d.available(2), 1);
}

#[test]
fn add_thread_grows_and_clears_rows() {
    let mut d = DeadlockDetectStruct::new();
    d.create_resource(0, 3);
    d.add_thread(2);
    assert_eq!(d.num_threads(), 3);
    assert_eq!(d.allocation(2, 0), 0);
    d.request(2, 0);
    d.allocate(2, 0);
    d.request(2, 0);
    assert_eq!(d.allocation(2, 0), 1);
    assert_eq!(d.need(2, 0), 1);
    d.add_thread(2);
    assert_eq!(d.num_threads(), 3);
    assert_eq!(d.allocation(2, 0), 0);
    assert_eq!(d.need(2, 0), 0);
    // the unit is not given back by clearing the row
    assert_eq!(d.available(0), 2);
}

#[test]
fn request_then_revoke_restores_need() {
    let mut d = DeadlockDetectStruct::new();
    d.create_resource(0, 1);
    d.request(0, 0);
    assert_eq!(d.need(0, 0), 1);
    d.revoke_request(0, 0);
    assert_eq!(d.need(0, 0), 0);
    assert_eq!(d.available(0), 1);
}

#[test]
fn allocate_then_dealloc_conserves_units() {
    let mut d = DeadlockDetectStruct::new();
    d.create_resource(0, 2);
    d.request(0, 0);
    d.allocate(0, 0);
    assert_eq!(d.need(0, 0), 0);
    assert_eq!(d.allocation(0, 0), 1);
    assert_eq!(d.available(0), 1);
    assert_eq!(d.available(0) + d.allocation(0, 0), 2);
    d.dealloc(0, 0);
    assert_eq!(d.allocation(0, 0), 0);
    assert_eq!(d.available(0), 2);
    assert_eq!(d.need(0, 0), 0);
}

#[test]
fn crossed_waits_deadlock() {
    let d = crossed(1, 1);
    assert!(d.detect_deadlock());
}

#[test]
fn crossed_waits_with_spare_unit_is_safe() {
    let d = crossed(1, 2);
    assert!(!d.detect_deadlock());
}

#[test]
fn waiting_for_held_unit_without_cycle_is_safe() {
    let mut d = DeadlockDetectStruct::new();
    d.create_resource(0, 1);
    d.add_thread(1);
    d.request(0, 0);
    d.allocate(0, 0);
    d.request(1, 0);
    assert!(!d.detect_deadlock());
}

#[test]
fn releasing_breaks_the_deadlock() {
    let mut d = crossed(1, 1);
    assert!(d.detect_deadlock());
    d.revoke_request(1, 0);
    assert!(!d.detect_deadlock());
}

#[test]
fn detector_reports_either_kind() {
    let mut det = DeadlockDetector::new();
    assert!(!det.enabled);
    det.add_thread(1);
    assert!(!det.detect_deadlock());
    det.semaphore_detector = Some(crossed(1, 1));
    assert!(det.detect_deadlock());
    det.semaphore_detector = None;
    assert!(!det.detect_deadlock());
    det.mutex_detector = Some(crossed(1, 1));
    assert!(det.detect_deadlock());
}

#[test]
fn detector_add_thread_reaches_both() {
    let mut det = DeadlockDetector::new();
    det.add_thread(3);
    assert_eq!(det.mutex_detector.as_ref().unwrap().num_threads(), 4);
    assert_eq!(det.semaphore_detector.as_ref().unwrap().num_threads(), 4);
    det.mutex_detector = None;
    det.add_thread(5);
    assert!(det.mutex_detector.is_none());
    assert_eq!(det.semaphore_detector.as_ref().unwrap().num_threads(), 6);
}

#[test]
fn dealloc_keeps_a_safe_state_safe() {
    let mut d = crossed(1, 2);
    assert!(!d.detect_deadlock());
    d.dealloc(0, 0);
    assert!(!d.detect_deadlock());
    assert_eq!(d.available(0), 1);
}

#[test]
fn sums_fit_detects_overflowing_sums() {
    let mut d = DeadlockDetectStruct::new();
    d.create_resource(0, 2);
    d.request(0, 0);
    d.allocate(0, 0);
    assert!(d.sums_fit());
    d.create_resource(0, usize::MAX);
    assert!(!d.sums_fit());
}

#[test]
fn sums_fit_ignores_threads_that_never_finish() {
    let mut d = DeadlockDetectStruct::new();
    d.create_resource(0, 1);
    d.create_resource(1, 0);
    d.request(0, 0);
    d.allocate(0, 0);
    d.request(0, 1);
    d.create_resource(0, usize::MAX);
    assert!(d.sums_fit());
    assert!(d.detect_deadlock());
}

#[test]
fn three_threads_finish_in_some_order() {
    // thread 2 holds what thread 1 needs, thread 1 holds what thread 0 needs
    let mut d = DeadlockDetectStruct::new();
    d.create_resource(0, 1);
    d.create_resource(1, 1);
    d.add_thread(2);
    d.request(1, 0);
    d.allocate(1, 0);
    d.request(2, 1);
    d.allocate(2, 1);
    d.request(0, 0);
    d.request(1, 1);
    assert!(!d.detect_deadlock());
    // closing the cycle deadlocks all three
    d.request(2, 0);
    assert!(d.detect_deadlock());
}
