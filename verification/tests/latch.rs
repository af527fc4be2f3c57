use acoustic_drone::latch::{
    firmware_drone_phase, firmware_log_event, AlertLatch, EarlyStop, EpochAction, LogEvent,
    FRAMES_PER_PERIOD,
};

#[test]
fn latch_after_hold_then_clears() {
    let mut latch = AlertLatch::new(3);
    assert!(!latch.update(true));
    assert!(!latch.update(true));
    assert!(latch.update(true));
    assert!(latch.is_alerting());
    assert!(!latch.update(false));
    assert!(!latch.is_alerting());
    assert_eq!(latch.over_count(), 0);
}

#[test]
fn latch_reset_clears_state() {
    let mut latch = AlertLatch::new(3);
    for _ in 0..5 {
        latch.update(true);
    }
    assert!(latch.is_alerting());
    latch.reset();
    assert!(!latch.is_alerting());
    assert_eq!(latch.over_count(), 0);
    assert!(!latch.update(true));
}

#[test]
fn zero_hold_acts_as_one() {
    let mut latch = AlertLatch::new(0);
    assert!(latch.update(true));
}

#[test]
fn latch_counts_trailing_run() {
    let mut latch = AlertLatch::new(4);
    for over in [true, true, false, true, true, true] {
        latch.update(over);
    }
    assert_eq!(latch.over_count(), 3);
    assert!(!latch.is_alerting());
    assert!(latch.update(true));
    assert_eq!(latch.over_count(), 4);
}

#[test]
fn early_stop_patience() {
    let mut es = EarlyStop::new(2);
    assert_eq!(es.end_epoch(0, true), EpochAction::Checkpoint);
    assert_eq!(es.best_epoch(), 1);
    assert_eq!(es.end_epoch(1, false), EpochAction::Continue);
    assert_eq!(es.since_improve(), 1);
    assert_eq!(es.end_epoch(2, true), EpochAction::Checkpoint);
    assert_eq!(es.best_epoch(), 3);
    assert_eq!(es.since_improve(), 0);
    assert_eq!(es.end_epoch(3, false), EpochAction::Continue);
    assert_eq!(es.end_epoch(4, false), EpochAction::Stop);
    assert_eq!(es.best_epoch(), 3);
}

#[test]
fn early_stop_never_improved() {
    let mut es = EarlyStop::new(1);
    assert_eq!(es.end_epoch(0, false), EpochAction::Stop);
    assert_eq!(es.best_epoch(), 0);
}

#[test]
fn firmware_logs_edges_then_status() {
    assert_eq!(firmware_log_event(true, false, 3), LogEvent::Alert);
    assert_eq!(firmware_log_event(false, true, 3), LogEvent::Clear);
    assert_eq!(firmware_log_event(true, true, 32), LogEvent::Status);
    assert_eq!(firmware_log_event(false, false, 0), LogEvent::Status);
    assert_eq!(firmware_log_event(false, false, 17), LogEvent::Quiet);
}

#[test]
fn firmware_phases_alternate() {
    assert_eq!(FRAMES_PER_PERIOD, 16);
    assert!(firmware_drone_phase(0));
    assert!(firmware_drone_phase(15));
    assert!(!firmware_drone_phase(16));
    assert!(!firmware_drone_phase(31));
    assert!(firmware_drone_phase(32));
}
