use std::time::{Duration, Instant};
use stellar_archivist::checkpoint::{Checkpointer, RunStatus};

#[test]
fn maybe_flush_triggers_on_interval_and_flush_now_writes_interrupted() {
    let mut calls = 0;
    let mut cp = Checkpointer::new(
        /*interval*/ 5,
        /*backstop*/ Duration::from_secs(3600).as_nanos(),
        /*total*/ 10,
    );

    for completed in [1, 4] {
        // below interval, no write
        if let Some(flush) = cp.maybe_flush(completed) {
            calls += 1;
            cp.flushed(flush, true);
        }
    }
    assert_eq!(calls, 0);

    // crosses interval -> one write
    let flush = cp.maybe_flush(5).unwrap();
    calls += 1;
    assert_eq!(calls, 1);
    // periodic flushes use Interrupted (run isn't complete until finalize)
    assert_eq!(flush.status, RunStatus::Interrupted);
    assert_eq!(flush.progress.total_checkpoints, 10);
    assert_eq!(flush.progress.processed_checkpoints, 5);
    cp.flushed(flush, true);

    let flush = cp.flush_now(RunStatus::Interrupted);
    assert_eq!(flush.status, RunStatus::Interrupted);
    assert_eq!(flush.progress.processed_checkpoints, 5);
}

#[test]
fn a_report_is_due_once_the_backstop_has_passed() {
    let cp = Checkpointer::new(100, 30_000_000_000, 7);
    assert!(cp.decide(1, 29_999_999_999).is_none());
    let flush = cp.decide(1, 30_000_000_000).unwrap();
    assert_eq!(flush.status, RunStatus::Interrupted);
    assert_eq!(flush.progress.processed_checkpoints, 1);
    assert_eq!(flush.progress.total_checkpoints, 7);
}

#[test]
fn an_interval_of_zero_leaves_only_signals() {
    let mut cp = Checkpointer::new(0, 0, 10);
    assert!(cp.maybe_flush(1).is_none());
    assert!(cp.decide(1_000_000, u128::MAX).is_none());
    let flush = cp.flush_now(RunStatus::Interrupted);
    assert_eq!(flush.progress.processed_checkpoints, 1);
    assert_eq!(flush.progress.total_checkpoints, 10);
}

#[test]
fn the_clock_makes_a_report_due() {
    let mut cp = Checkpointer::new(1_000, 1, 7);
    let start = Instant::now();
    while start.elapsed() < Duration::from_millis(2) {}
    assert!(cp.maybe_flush(0).is_some());
}

#[test]
fn a_signal_tells_the_count_last_seen() {
    let mut cp = Checkpointer::new(5, Duration::from_secs(3600).as_nanos(), 10);
    let flush = cp.maybe_flush(5).unwrap();
    cp.flushed(flush, true);
    assert!(cp.maybe_flush(7).is_none());
    let flush = cp.flush_now(RunStatus::Interrupted);
    assert_eq!(flush.progress.processed_checkpoints, 7);
    assert_eq!(flush.progress.total_checkpoints, 10);
    // The interval still counts from the last report that was written.
    assert!(cp.maybe_flush(9).is_none());
    assert!(cp.maybe_flush(10).is_some());
}

#[test]
fn a_write_starts_the_backstop_anew() {
    let begin = Instant::now();
    let mut cp = Checkpointer::starting_at(1_000, 30, 7, begin);
    let flush = cp.decide(3, 30).unwrap();
    let later = begin + Duration::from_secs(40);
    cp.flushed_at(flush, false, later);
    assert_eq!((cp.last_flush_at, cp.last_completed), (begin, 0));
    cp.flushed_at(flush, true, later);
    assert_eq!((cp.last_flush_at, cp.last_completed), (later, 3));
    let before = Instant::now();
    cp.flushed(flush, true);
    assert!(cp.last_flush_at >= before && cp.last_flush_at <= Instant::now());
}

#[test]
fn a_failed_write_is_tried_again() {
    let mut cp = Checkpointer::new(5, u128::MAX, 10);
    let flush = cp.decide(5, 0).unwrap();
    cp.flushed(flush, false);
    assert_eq!(cp.last_completed, 0);
    let again = cp.decide(6, 0).unwrap();
    assert_eq!(again.progress.processed_checkpoints, 6);
    cp.flushed(again, true);
    assert_eq!(cp.last_completed, 6);
    assert!(cp.decide(10, 0).is_none());
    assert!(cp.decide(11, 0).is_some());
}

#[test]
fn reports_are_written_at_multiples_of_the_interval() {
    let mut cp = Checkpointer::new(4, u128::MAX, 10);
    let mut at = Vec::new();
    for completed in 1..=10 {
        if let Some(flush) = cp.decide(completed, 0) {
            at.push(completed);
            cp.flushed(flush, true);
        }
    }
    assert_eq!(at, vec![4, 8]);
}

#[test]
fn the_total_can_be_set_later() {
    let mut cp = Checkpointer::new(1, u128::MAX, 0);
    assert_eq!(cp.flush_now(RunStatus::Complete).progress.total_checkpoints, 0);
    cp.set_total(42);
    let flush = cp.flush_now(RunStatus::Complete);
    assert_eq!(flush.status, RunStatus::Complete);
    assert_eq!(flush.progress.total_checkpoints, 42);
    assert_eq!(flush.progress.processed_checkpoints, 0);
}

#[test]
fn a_count_near_the_greatest_is_compared_exactly() {
    let mut cp = Checkpointer::new(usize::MAX, u128::MAX, 0);
    let flush = cp.decide(usize::MAX, 0).unwrap();
    cp.flushed(flush, true);
    assert!(cp.decide(usize::MAX, 0).is_none());
}

#[test]
fn a_run_is_complete_by_default() {
    assert_eq!(RunStatus::default(), RunStatus::Complete);
}
