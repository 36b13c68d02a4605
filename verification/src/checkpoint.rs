//! Periodic and on-signal checkpointing of an operation's report.
//!
//! A [`Checkpointer`] decides when a report is due and what it says. Rendering
//! and writing it are the caller's, who tells how the write went.

use crate::clock::{nanos_since, now};
use std::time::Instant;
use vstd::arithmetic::div_mod;
use vstd::prelude::*;

verus! {

/// How a run ended, as its report tells.
#[derive(Clone, Copy, Debug, PartialEq, Eq, Structural)]
pub enum RunStatus {
    /// The run went through to its end.
    Complete,
    /// The run was still going on.
    Interrupted,
}

impl Default for RunStatus {
    fn default() -> (r: Self)
        ensures
            r == RunStatus::Complete,
    {
        RunStatus::Complete
    }
}

/// How far a run has come.
#[derive(Clone, Copy, Debug, PartialEq, Eq, Structural)]
pub struct Progress {
    pub processed_checkpoints: u64,
    pub total_checkpoints: u64,
}

/// A report to write.
#[derive(Clone, Copy, Debug, PartialEq, Eq, Structural)]
pub struct Flush {
    pub status: RunStatus,
    pub progress: Progress,
}

/// Decides when the report of a run is written.
pub struct Checkpointer {
    /// A report is due every so many completed checkpoints; with 0, none is due but
    /// on a signal.
    pub interval: usize,
    /// A report is due, too, once this many nanoseconds have passed since the last.
    pub backstop: u128,
    /// How many checkpoints there are in all.
    pub total: u64,
    /// How many checkpoints were completed when the last report was written.
    pub last_completed: u64,
    /// How many checkpoints were completed when a report was last asked for.
    pub last_seen: u64,
    /// When the last report was written, or the run began.
    pub last_flush_at: Instant,
}

#[verifier::ext_equal]
pub struct CheckpointView {
    pub interval: nat,
    pub backstop: nat,
    pub total: u64,
    pub last_completed: u64,
    pub last_seen: u64,
    pub last_flush_at: Instant,
}

impl View for Checkpointer {
    type V = CheckpointView;

    open spec fn view(&self) -> CheckpointView {
        CheckpointView {
            interval: self.interval as nat,
            backstop: self.backstop as nat,
            total: self.total,
            last_completed: self.last_completed,
            last_seen: self.last_seen,
            last_flush_at: self.last_flush_at,
        }
    }
}

impl CheckpointView {
    /// The interval was crossed.
    pub open spec fn due_by_count(self, completed: nat) -> bool {
        self.interval > 0 && completed >= self.last_completed + self.interval
    }

    /// The time backstop has passed.
    pub open spec fn due_by_time(self, elapsed: nat) -> bool {
        elapsed >= self.backstop
    }

    /// A report is due with `completed` checkpoints done and `elapsed` nanoseconds
    /// gone since the last. An interval of 0 turns periodic reports off.
    pub open spec fn due(self, completed: nat, elapsed: nat) -> bool {
        self.interval > 0 && (self.due_by_count(completed) || self.due_by_time(elapsed))
    }

    /// The report with this status and count.
    pub open spec fn report(self, status: RunStatus, completed: u64) -> Flush {
        Flush {
            status,
            progress: Progress {
                processed_checkpoints: completed,
                total_checkpoints: self.total,
            },
        }
    }

    /// The report that is due, if one is.
    pub open spec fn decision(self, completed: u64, elapsed: nat) -> Option<Flush> {
        if self.due(completed as nat, elapsed) {
            Some(self.report(RunStatus::Interrupted, completed))
        } else {
            None
        }
    }

    /// Once `completed` checkpoints were seen done.
    pub open spec fn seen(self, completed: u64) -> CheckpointView {
        CheckpointView { last_seen: completed, ..self }
    }

    /// Once `flush` was written, at the time `at`.
    pub open spec fn flushed(self, flush: Flush, at: Instant) -> CheckpointView {
        CheckpointView {
            last_completed: flush.progress.processed_checkpoints,
            last_flush_at: at,
            ..self
        }
    }
}

/// A checkpointer of a run that begins at the time `at`.
pub open spec fn begun(interval: usize, backstop: u128, total: u64, at: Instant) -> CheckpointView {
    CheckpointView {
        interval: interval as nat,
        backstop: backstop as nat,
        total,
        last_completed: 0,
        last_seen: 0,
        last_flush_at: at,
    }
}

impl Checkpointer {
    /// A checkpointer of a run that begins at the time `at`.
    pub fn starting_at(interval: usize, backstop: u128, total: u64, at: Instant) -> (r: Self)
        ensures
            r@ == begun(interval, backstop, total, at),
            r.interval == interval,
            r.backstop == backstop,
            r.total == total,
            r.last_completed == 0,
            r.last_seen == 0,
            r.last_flush_at == at,
    {
        Checkpointer {
            interval,
            backstop,
            total,
            last_completed: 0,
            last_seen: 0,
            last_flush_at: at,
        }
    }

    /// A checkpointer of a run that begins now.
    pub fn new(interval: usize, backstop: u128, total: u64) -> (r: Self)
        ensures
            r@ == begun(interval, backstop, total, r@.last_flush_at),
            r.interval == interval,
            r.backstop == backstop,
            r.total == total,
            r.last_completed == 0,
            r.last_seen == 0,
    {
        Checkpointer::starting_at(interval, backstop, total, now())
    }

    /// Sets how many checkpoints there are in all.
    pub fn set_total(&mut self, total: u64)
        ensures
            final(self)@ == (CheckpointView { total, ..old(self)@ }),
            final(self).total == total,
            final(self).interval == old(self).interval,
            final(self).backstop == old(self).backstop,
            final(self).last_completed == old(self).last_completed,
            final(self).last_seen == old(self).last_seen,
            final(self).last_flush_at == old(self).last_flush_at,
    {
        self.total = total;
    }

    /// The report that is due with `completed` checkpoints done and `elapsed`
    /// nanoseconds gone since the last. The run goes on, so it says interrupted.
    pub fn decide(&self, completed: usize, elapsed: u128) -> (r: Option<Flush>)
        ensures
            r == self@.decision(completed as u64, elapsed as nat),
            r is Some <==> self.interval > 0 && (completed >= self.last_completed + self.interval
                || elapsed >= self.backstop),
            r matches Some(flush) ==> flush.status == RunStatus::Interrupted
                && flush.progress.processed_checkpoints == completed
                && flush.progress.total_checkpoints == self.total,
    {
        assert(completed as u64 == completed);
        let done: u64 = completed as u64;
        let due_by_count: bool = done >= self.last_completed && done - self.last_completed
            >= self.interval as u64;
        let due_by_time: bool = elapsed >= self.backstop;
        if self.interval > 0 && (due_by_count || due_by_time) {
            Some(self.flush(RunStatus::Interrupted, done))
        } else {
            None
        }
    }

    /// Takes note that `completed` checkpoints are done, and gives the report that is
    /// due now: unless the interval is 0, one is if the interval was crossed or the
    /// time backstop has passed.
    pub fn maybe_flush(&mut self, completed: usize) -> (r: Option<Flush>)
        ensures
            final(self)@ == old(self)@.seen(completed as u64),
            exists|elapsed: nat| r == #[trigger] old(self)@.decision(completed as u64, elapsed),
            old(self)@.due_by_count(completed as nat) ==> r == Some(
                old(self)@.report(RunStatus::Interrupted, completed as u64),
            ),
            old(self)@.interval == 0 ==> r is None,
            old(self).interval > 0 && completed >= old(self).last_completed + old(self).interval
                ==> r is Some,
            old(self).interval > 0 && old(self).backstop == 0 ==> r is Some,
            old(self).interval == 0 ==> r is None,
            r matches Some(flush) ==> flush.status == RunStatus::Interrupted
                && flush.progress.processed_checkpoints == completed
                && flush.progress.total_checkpoints == old(self).total,
            final(self).last_seen == completed,
            final(self).interval == old(self).interval,
            final(self).backstop == old(self).backstop,
            final(self).total == old(self).total,
            final(self).last_completed == old(self).last_completed,
            final(self).last_flush_at == old(self).last_flush_at,
    {
        let elapsed: u128 = nanos_since(&self.last_flush_at);
        assert(completed as u64 == completed);
        let r: Option<Flush> = self.decide(completed, elapsed);
        assert(r == old(self)@.decision(completed as u64, elapsed as nat));
        self.last_seen = completed as u64;
        r
    }

    /// The report to write on a signal, with the count that was last seen.
    pub fn flush_now(&self, status: RunStatus) -> (r: Flush)
        ensures
            r == self@.report(status, self@.last_seen),
            r.status == status,
            r.progress.processed_checkpoints == self.last_seen,
            r.progress.total_checkpoints == self.total,
    {
        self.flush(status, self.last_seen)
    }

    fn flush(&self, status: RunStatus, completed: u64) -> (r: Flush)
        ensures
            r == self@.report(status, completed),
    {
        Flush {
            status,
            progress: Progress {
                processed_checkpoints: completed,
                total_checkpoints: self.total,
            },
        }
    }

    /// Takes note of how the write of `flush` went that ended at the time `at`. One
    /// that failed changes nothing.
    pub fn flushed_at(&mut self, flush: Flush, written: bool, at: Instant)
        ensures
            written ==> final(self)@ == old(self)@.flushed(flush, at),
            !written ==> *final(self) == *old(self),
            written ==> final(self).last_completed == flush.progress.processed_checkpoints,
            written ==> final(self).last_flush_at == at,
            final(self).interval == old(self).interval,
            final(self).backstop == old(self).backstop,
            final(self).total == old(self).total,
            final(self).last_seen == old(self).last_seen,
    {
        if written {
            self.last_flush_at = at;
            self.last_completed = flush.progress.processed_checkpoints;
        }
    }

    /// Takes note of how the write of `flush` went that has just ended. One that
    /// failed changes nothing.
    pub fn flushed(&mut self, flush: Flush, written: bool)
        ensures
            written ==> final(self)@ == old(self)@.flushed(flush, final(self)@.last_flush_at),
            !written ==> *final(self) == *old(self),
            written ==> final(self).last_completed == flush.progress.processed_checkpoints,
            final(self).interval == old(self).interval,
            final(self).backstop == old(self).backstop,
            final(self).total == old(self).total,
            final(self).last_seen == old(self).last_seen,
    {
        self.flushed_at(flush, written, now());
    }
}

//=============================================================================
// Laws
//=============================================================================

/// A report that is due stays due until it is written: later, and with more
/// checkpoints done, it still is. So a write that failed is tried again.
pub proof fn law_due_stays_due(
    view: CheckpointView,
    completed: nat,
    later: nat,
    elapsed: nat,
    more: nat,
)
    requires
        view.due(completed, elapsed),
        completed <= later,
        elapsed <= more,
    ensures
        view.due(later, more),
{
}

/// While the run goes on a report is written if, and only if, the interval has been crossed
/// since the last or the backstop has passed, whichever reports were written before; and it
/// tells the count, the total, and that the run goes on.
pub proof fn law_report_when_due(view: CheckpointView, completed: u64, elapsed: nat)
    requires
        view.interval > 0,
    ensures
        view.decision(completed, elapsed) is Some <==> completed >= view.last_completed
            + view.interval || elapsed >= view.backstop,
        view.decision(completed, elapsed) matches Some(flush) ==> flush.status
            == RunStatus::Interrupted && flush.progress.processed_checkpoints == completed
            && flush.progress.total_checkpoints == view.total,
{
}

/// The time since the last report is all that the time decides by: with a backstop that
/// much longer, a report comes that much later, and one that is due by time is due for
/// every count.
pub proof fn law_backstop_counts_from_last_report(
    view: CheckpointView,
    flush: Flush,
    at: Instant,
    completed: u64,
    other: u64,
    elapsed: nat,
    more: nat,
)
    requires
        view.interval > 0,
    ensures
        elapsed >= view.backstop ==> view.flushed(flush, at).decision(completed, elapsed) is Some
            && view.flushed(flush, at).decision(other, elapsed) is Some,
        elapsed < view.backstop && completed < flush.progress.processed_checkpoints + view.interval
            ==> view.flushed(flush, at).decision(completed, elapsed) is None,
        (CheckpointView { backstop: view.backstop + more, ..view }).decision(
            completed,
            elapsed + more,
        ) == view.decision(completed, elapsed),
{
}

/// A checkpointer is seen as what its fields hold.
pub proof fn law_checkpointer_view(cp: Checkpointer)
    ensures
        cp@.interval == cp.interval,
        cp@.backstop == cp.backstop,
        cp@.total == cp.total,
        cp@.last_completed == cp.last_completed,
        cp@.last_seen == cp.last_seen,
        cp@.last_flush_at == cp.last_flush_at,
{
}

/// A write takes the count of the report and its time for the last ones, and nothing else;
/// seeing a count takes it for the one last seen, and nothing else.
pub proof fn law_write_and_sight(view: CheckpointView, flush: Flush, at: Instant, completed: u64)
    ensures
        view.flushed(flush, at).last_completed == flush.progress.processed_checkpoints,
        view.flushed(flush, at).last_flush_at == at,
        view.flushed(flush, at).last_seen == view.last_seen,
        view.flushed(flush, at).interval == view.interval,
        view.flushed(flush, at).backstop == view.backstop,
        view.flushed(flush, at).total == view.total,
        view.seen(completed).last_seen == completed,
        view.seen(completed).last_completed == view.last_completed,
        view.seen(completed).last_flush_at == view.last_flush_at,
        view.seen(completed).interval == view.interval,
        view.seen(completed).backstop == view.backstop,
        view.seen(completed).total == view.total,
{
}

/// An interval of 0 turns periodic reports off, whatever the time: only a signal
/// writes one.
pub proof fn law_interval_zero_is_signal_only(view: CheckpointView, completed: u64, elapsed: nat)
    requires
        view.interval == 0,
    ensures
        view.decision(completed, elapsed) is None,
{
}

/// After a report was written, the next is due exactly one interval later, or once
/// the backstop has passed since that write.
pub proof fn law_next_report(
    view: CheckpointView,
    flush: Flush,
    at: Instant,
    completed: nat,
    elapsed: nat,
)
    requires
        view.interval > 0,
    ensures
        view.flushed(flush, at).last_flush_at == at,
        view.flushed(flush, at).due(completed, elapsed) <==> completed
            >= flush.progress.processed_checkpoints + view.interval || elapsed >= view.backstop,
{
}

/// The report written on a signal says the count that was last seen, written or not,
/// and the total.
pub proof fn law_signal_tells_last_seen(
    view: CheckpointView,
    completed: u64,
    flush: Flush,
    at: Instant,
    status: RunStatus,
)
    ensures
        ({
            let seen = view.seen(completed);
            &&& seen.report(status, seen.last_seen).progress.processed_checkpoints == completed
            &&& seen.flushed(flush, at).last_seen == completed
            &&& seen.report(status, seen.last_seen).progress.total_checkpoints == view.total
            &&& seen.report(status, seen.last_seen).status == status
        }),
{
}

/// A report written while the run goes on says interrupted.
pub proof fn law_periodic_is_interrupted(view: CheckpointView, completed: u64, elapsed: nat)
    ensures
        view.decision(completed, elapsed) matches Some(flush) ==> flush.status
            == RunStatus::Interrupted,
{
}

/// The checkpointer once `n` checkpoints were completed one by one, each report
/// that was due by count being written at the time `at`.
pub open spec fn after_completions(view: CheckpointView, n: nat, at: Instant) -> CheckpointView
    decreases n,
{
    if n == 0 {
        view
    } else {
        let before = after_completions(view, (n - 1) as nat, at).seen(n as u64);
        if before.due_by_count(n) {
            before.flushed(before.report(RunStatus::Interrupted, n as u64), at)
        } else {
            before
        }
    }
}

/// With an interval of `k`, and checkpoints completed one by one, the reports are
/// written at `k`, `2 k`, `3 k` and so on: the last was at the greatest multiple of
/// `k` so far.
pub proof fn law_reports_at_multiples(view: CheckpointView, n: nat, at: Instant)
    requires
        view.interval > 0,
        view.last_completed == 0,
        view.last_seen == 0,
        n <= u64::MAX,
    ensures
        after_completions(view, n, at) == (CheckpointView {
            last_completed: (n - n % view.interval) as u64,
            last_seen: n as u64,
            last_flush_at: if n >= view.interval {
                at
            } else {
                view.last_flush_at
            },
            ..view
        }),
    decreases n,
{
    let k = view.interval as int;
    if n > 0 {
        let m = n - 1;
        law_reports_at_multiples(view, m as nat, at);
        div_mod::lemma_fundamental_div_mod(m, k);
        div_mod::lemma_mod_division_less_than_divisor(m, k);
        div_mod::lemma_mod_decreases(m as nat, view.interval);
        let q = m / k;
        let r = m % k;
        if r + 1 == k {
            assert(n as int == (q + 1) * k + 0) by (nonlinear_arith)
                requires
                    n as int == k * q + r + 1,
                    r + 1 == k,
            ;
            div_mod::lemma_fundamental_div_mod_converse(n as int, k, q + 1, 0);
        } else {
            assert(n as int == q * k + (r + 1)) by (nonlinear_arith)
                requires
                    n as int == k * q + r + 1,
            ;
            div_mod::lemma_fundamental_div_mod_converse(n as int, k, q, r + 1);
            if n <= view.interval {
                div_mod::lemma_small_mod(m as nat, view.interval);
            }
        }
    } else {
        div_mod::lemma_small_mod(0, view.interval);
    }
}

} // verus!
