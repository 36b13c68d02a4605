//! Lightweight performance instrumentation.
//!
//! Nothing is counted unless [`Metrics::recording`] is on. Phase timers add up
//! elapsed time over concurrent tasks, so phase times can overlap: their shares
//! are a profiler-style breakdown rather than a wall-clock critical path.

use crate::clock::{nanos_since, now};
use std::time::Instant;
use vstd::arithmetic::div_mod;
use vstd::prelude::*;

verus! {

//=============================================================================
// Phases
//=============================================================================

/// A phase of the work.
#[derive(Clone, Copy, Debug, PartialEq, Eq, Structural)]
pub enum Phase {
    HistoryFetch,
    HistoryParse,
    BucketStream,
    XdrDecompress,
    XdrParseLedger,
    XdrParseTx,
    XdrParseResult,
    XdrParseScp,
    CrossFileVerify,
    ChainVerify,
    Copy,
}

/// The names of the phases, in order.
pub const NAMES: [&'static str; 11] = [
    "history_fetch",
    "history_parse",
    "bucket_stream",
    "xdr_decompress",
    "xdr_parse_ledger",
    "xdr_parse_tx",
    "xdr_parse_result",
    "xdr_parse_scp",
    "cross_file_verify",
    "chain_verify",
    "copy",
];

impl Phase {
    pub const COUNT: usize = 11;

    /// The position of a phase among all.
    pub open spec fn position(self) -> int {
        match self {
            Phase::HistoryFetch => 0,
            Phase::HistoryParse => 1,
            Phase::BucketStream => 2,
            Phase::XdrDecompress => 3,
            Phase::XdrParseLedger => 4,
            Phase::XdrParseTx => 5,
            Phase::XdrParseResult => 6,
            Phase::XdrParseScp => 7,
            Phase::CrossFileVerify => 8,
            Phase::ChainVerify => 9,
            Phase::Copy => 10,
        }
    }

    /// The position of a phase among all.
    pub fn index(self) -> (r: usize)
        ensures
            r == self.position(),
            r < Phase::COUNT,
            self == Phase::HistoryFetch <==> r == 0,
            self == Phase::HistoryParse <==> r == 1,
            self == Phase::BucketStream <==> r == 2,
            self == Phase::XdrDecompress <==> r == 3,
            self == Phase::XdrParseLedger <==> r == 4,
            self == Phase::XdrParseTx <==> r == 5,
            self == Phase::XdrParseResult <==> r == 6,
            self == Phase::XdrParseScp <==> r == 7,
            self == Phase::CrossFileVerify <==> r == 8,
            self == Phase::ChainVerify <==> r == 9,
            self == Phase::Copy <==> r == 10,
    {
        match self {
            Phase::HistoryFetch => 0,
            Phase::HistoryParse => 1,
            Phase::BucketStream => 2,
            Phase::XdrDecompress => 3,
            Phase::XdrParseLedger => 4,
            Phase::XdrParseTx => 5,
            Phase::XdrParseResult => 6,
            Phase::XdrParseScp => 7,
            Phase::CrossFileVerify => 8,
            Phase::ChainVerify => 9,
            Phase::Copy => 10,
        }
    }
}

//=============================================================================
// Counters
//=============================================================================

/// What was counted of one phase.
#[derive(Clone, Copy, Debug, PartialEq, Eq, Structural)]
pub struct Stat {
    /// Elapsed time, summed over concurrent calls.
    pub nanos: u64,
    pub calls: u64,
    pub bytes: u64,
}

/// How promptly the runtime woke a task that was ready: a beat's lag is how much
/// later than the tick it woke.
#[derive(Clone, Copy, Debug, PartialEq, Eq, Structural)]
pub struct Heartbeats {
    pub beats: u64,
    pub sum_ns: u64,
    pub max_ns: u64,
    pub over_1ms: u64,
    pub over_10ms: u64,
    pub over_100ms: u64,
}

/// The length of a heartbeat's tick.
pub const HEARTBEAT_TICK_MS: u64 = 10;

/// All counters. They wrap around at the greatest value.
pub struct Metrics {
    /// Whether anything is counted.
    pub recording: bool,
    /// Whether decode tasks are counted, too.
    pub counting_decodes: bool,
    pub stats: [Stat; 11],
    /// How many files were completed.
    pub files: u64,
    /// How many bytes these had. What a byte is depends on the phase: copying
    /// counts compressed bytes, verifying counts decompressed ones.
    pub bytes: u64,
    pub heartbeats: Heartbeats,
    /// How many decode tasks are alive.
    pub active_decodes: u64,
}

#[verifier::ext_equal]
pub struct MetricsView {
    pub recording: bool,
    pub counting_decodes: bool,
    pub stats: Seq<Stat>,
    pub files: u64,
    pub bytes: u64,
    pub heartbeats: Heartbeats,
    pub active_decodes: u64,
}

impl View for Metrics {
    type V = MetricsView;

    open spec fn view(&self) -> MetricsView {
        MetricsView {
            recording: self.recording,
            counting_decodes: self.counting_decodes,
            stats: self.stats@,
            files: self.files,
            bytes: self.bytes,
            heartbeats: self.heartbeats,
            active_decodes: self.active_decodes,
        }
    }
}

/// `n` in a counter that wraps around.
pub open spec fn wrapped(n: int) -> u64 {
    (n % 0x1_0000_0000_0000_0000) as u64
}

impl Stat {
    /// One more call, that took `nanos`.
    pub open spec fn timed(self, nanos: int) -> Stat {
        Stat {
            nanos: wrapped(self.nanos + nanos),
            calls: wrapped(self.calls + 1),
            ..self
        }
    }

    /// `n` more bytes.
    pub open spec fn with_bytes(self, n: int) -> Stat {
        Stat { bytes: wrapped(self.bytes + n), ..self }
    }

    /// Nothing was counted.
    pub fn new() -> (r: Self)
        ensures
            r == (Stat { nanos: 0, calls: 0, bytes: 0 }),
    {
        Stat { nanos: 0, calls: 0, bytes: 0 }
    }
}

impl Heartbeats {
    /// No beat was recorded.
    pub open spec fn none() -> Heartbeats {
        Heartbeats { beats: 0, sum_ns: 0, max_ns: 0, over_1ms: 0, over_10ms: 0, over_100ms: 0 }
    }

    /// One more beat, with the lag `ns`.
    pub open spec fn beat(self, ns: u64) -> Heartbeats {
        Heartbeats {
            beats: wrapped(self.beats + 1),
            sum_ns: wrapped(self.sum_ns + ns),
            max_ns: if ns > self.max_ns {
                ns
            } else {
                self.max_ns
            },
            over_1ms: counted_from(self.over_1ms, ns, 1_000_000),
            over_10ms: counted_from(self.over_10ms, ns, 10_000_000),
            over_100ms: counted_from(self.over_100ms, ns, 100_000_000),
        }
    }
}

/// `count`, one more where `ns` is at least `threshold`.
pub open spec fn counted_from(count: u64, ns: u64, threshold: int) -> u64 {
    if ns >= threshold {
        wrapped(count + 1)
    } else {
        count
    }
}

impl MetricsView {
    /// One more call of `phase`, that took `nanos`.
    pub open spec fn timed(self, phase: Phase, nanos: int) -> MetricsView {
        if self.recording {
            let i = phase.position();
            MetricsView { stats: self.stats.update(i, self.stats[i].timed(nanos)), ..self }
        } else {
            self
        }
    }

    /// `n` more bytes in `phase`.
    pub open spec fn with_bytes(self, phase: Phase, n: int) -> MetricsView {
        if self.recording {
            let i = phase.position();
            MetricsView { stats: self.stats.update(i, self.stats[i].with_bytes(n)), ..self }
        } else {
            self
        }
    }

    /// One more file, of `bytes`.
    pub open spec fn with_file(self, bytes: int) -> MetricsView {
        if self.recording {
            MetricsView {
                files: wrapped(self.files + 1),
                bytes: wrapped(self.bytes + bytes),
                ..self
            }
        } else {
            self
        }
    }

    /// One more heartbeat, that came `lag` nanoseconds late.
    pub open spec fn with_heartbeat(self, lag: int) -> MetricsView {
        if self.recording {
            MetricsView { heartbeats: self.heartbeats.beat(wrapped(lag)), ..self }
        } else {
            self
        }
    }

    /// `n` more decode tasks alive.
    pub open spec fn with_decodes(self, n: int) -> MetricsView {
        if self.recording && self.counting_decodes {
            MetricsView { active_decodes: wrapped(self.active_decodes + n), ..self }
        } else {
            self
        }
    }
}

impl Metrics {
    /// Counters at zero.
    pub fn new(recording: bool, counting_decodes: bool) -> (r: Self)
        ensures
            r@ == (MetricsView {
                recording,
                counting_decodes,
                stats: Seq::new(
                    Phase::COUNT as nat,
                    |i: int| Stat { nanos: 0, calls: 0, bytes: 0 },
                ),
                files: 0,
                bytes: 0,
                heartbeats: Heartbeats::none(),
                active_decodes: 0,
            }),
            r.recording == recording,
            r.counting_decodes == counting_decodes,
            forall|i: int|
                0 <= i < 11 ==> (#[trigger] r.stats@[i]).nanos == 0 && r.stats@[i].calls == 0
                    && r.stats@[i].bytes == 0,
            r.files == 0,
            r.bytes == 0,
            r.active_decodes == 0,
            r.heartbeats == (Heartbeats {
                beats: 0,
                sum_ns: 0,
                max_ns: 0,
                over_1ms: 0,
                over_10ms: 0,
                over_100ms: 0,
            }),
    {
        let zero: Stat = Stat::new();
        let r = Metrics {
            recording,
            counting_decodes,
            stats: [zero;11],
            files: 0,
            bytes: 0,
            heartbeats: Heartbeats {
                beats: 0,
                sum_ns: 0,
                max_ns: 0,
                over_1ms: 0,
                over_10ms: 0,
                over_100ms: 0,
            },
            active_decodes: 0,
        };
        assert(r.stats@ =~= Seq::new(
            Phase::COUNT as nat,
            |i: int| Stat { nanos: 0, calls: 0, bytes: 0 },
        ));
        r
    }
}

/// `n` as far as a counter holds it.
fn low_bits(n: u128) -> (r: u64)
    ensures
        r == wrapped(n as int),
{
    assert(n as u64 == n % 0x1_0000_0000_0000_0000) by (bit_vector);
    n as u64
}

/// A counter that goes up by `n`.
fn raised(counter: u64, n: u64) -> (r: u64)
    ensures
        r == wrapped(counter + n),
{
    low_bits(counter as u128 + n as u128)
}

/// Records a call of `phase` that took `nanos`.
pub fn record_phase(metrics: &mut Metrics, phase: Phase, nanos: u128)
    ensures
        final(metrics)@ == old(metrics)@.timed(phase, nanos as int),
{
    if metrics.recording {
        let i: usize = phase.index();
        let stat: Stat = metrics.stats[i];
        metrics.stats[i] =
        Stat {
            nanos: low_bits(stat.nanos as u128 + low_bits(nanos) as u128),
            calls: raised(stat.calls, 1),
            bytes: stat.bytes,
        };
    }
}

/// Records `n` bytes of `phase`.
pub fn add_bytes(metrics: &mut Metrics, phase: Phase, n: u64)
    ensures
        final(metrics)@ == old(metrics)@.with_bytes(phase, n as int),
{
    if metrics.recording {
        let i: usize = phase.index();
        let stat: Stat = metrics.stats[i];
        metrics.stats[i] =
        Stat { nanos: stat.nanos, calls: stat.calls, bytes: raised(stat.bytes, n) };
    }
}

/// Records a completed file of `bytes`.
pub fn record_file(metrics: &mut Metrics, bytes: u64)
    ensures
        final(metrics)@ == old(metrics)@.with_file(bytes as int),
{
    if metrics.recording {
        metrics.files = raised(metrics.files, 1);
        metrics.bytes = raised(metrics.bytes, bytes);
    }
}

/// Records one heartbeat that came `lag` nanoseconds after its tick.
pub fn record_heartbeat(metrics: &mut Metrics, lag: u128)
    ensures
        final(metrics)@ == old(metrics)@.with_heartbeat(lag as int),
{
    if metrics.recording {
        let ns: u64 = low_bits(lag);
        let hb: Heartbeats = metrics.heartbeats;
        metrics.heartbeats =
        Heartbeats {
            beats: raised(hb.beats, 1),
            sum_ns: raised(hb.sum_ns, ns),
            max_ns: if ns > hb.max_ns {
                ns
            } else {
                hb.max_ns
            },
            over_1ms: if ns >= 1_000_000 {
                raised(hb.over_1ms, 1)
            } else {
                hb.over_1ms
            },
            over_10ms: if ns >= 10_000_000 {
                raised(hb.over_10ms, 1)
            } else {
                hb.over_10ms
            },
            over_100ms: if ns >= 100_000_000 {
                raised(hb.over_100ms, 1)
            } else {
                hb.over_100ms
            },
        };
    }
}

/// The heartbeats so far: how many, the sum and the greatest of their lags in
/// nanoseconds, and how many were late by 1 ms, 10 ms and 100 ms or more.
pub fn heartbeat_snapshot(metrics: &Metrics) -> (r: (u64, u64, u64, u64, u64, u64))
    ensures
        r.0 == metrics.heartbeats.beats,
        r.1 == metrics.heartbeats.sum_ns,
        r.2 == metrics.heartbeats.max_ns,
        r.3 == metrics.heartbeats.over_1ms,
        r.4 == metrics.heartbeats.over_10ms,
        r.5 == metrics.heartbeats.over_100ms,
        ({
            let hb = metrics@.heartbeats;
            r == (
                hb.beats,
                hb.sum_ns,
                hb.max_ns,
                hb.over_1ms,
                hb.over_10ms,
                hb.over_100ms,
            )
        }),
{
    let hb: Heartbeats = metrics.heartbeats;
    (hb.beats, hb.sum_ns, hb.max_ns, hb.over_1ms, hb.over_10ms, hb.over_100ms)
}

/// How late a heartbeat came that woke `elapsed` nanoseconds after it went to sleep.
pub fn heartbeat_lag(elapsed: u128) -> (r: u128)
    ensures
        r == if elapsed > HEARTBEAT_TICK_MS * 1_000_000 {
            elapsed - HEARTBEAT_TICK_MS * 1_000_000
        } else {
            0
        },
        elapsed <= 10_000_000 ==> r == 0,
        elapsed > 10_000_000 ==> r == elapsed - 10_000_000,
{
    elapsed.saturating_sub(HEARTBEAT_TICK_MS as u128 * 1_000_000)
}

//=============================================================================
// Guards
//=============================================================================

/// A running timer of a phase.
pub struct Guard {
    pub phase: Phase,
    pub start: Instant,
}

impl Guard {
    /// Starts the timer.
    pub fn new(p: Phase) -> (r: Self)
        ensures
            r.phase == p,
    {
        Guard { phase: p, start: now() }
    }

    /// Stops the timer: records a call and the time that it took.
    pub fn stop(self, metrics: &mut Metrics)
        ensures
            exists|nanos: u128| final(metrics)@ == #[trigger] old(metrics)@.timed(
                self.phase,
                nanos as int,
            ),
    {
        let nanos: u128 = nanos_since(&self.start);
        record_phase(metrics, self.phase, nanos);
    }
}

/// A decode task that is alive.
pub struct DecodeGuard;

impl DecodeGuard {
    /// A decode task starts.
    pub fn enter(metrics: &mut Metrics) -> (r: Self)
        ensures
            final(metrics)@ == old(metrics)@.with_decodes(1),
    {
        if metrics.recording && metrics.counting_decodes {
            metrics.active_decodes = raised(metrics.active_decodes, 1);
        }
        DecodeGuard
    }

    /// The decode task ends.
    pub fn leave(self, metrics: &mut Metrics)
        ensures
            final(metrics)@ == old(metrics)@.with_decodes(-1),
    {
        if metrics.recording && metrics.counting_decodes {
            metrics.active_decodes = raised(metrics.active_decodes, u64::MAX);
        }
    }
}

//=============================================================================
// Resource usage of the process
//=============================================================================

/// A time as the system gives it.
#[derive(Clone, Copy, Debug, PartialEq, Eq, Structural)]
pub struct TimeVal {
    pub sec: i64,
    pub usec: i64,
}

/// What the system says a process has used.
#[derive(Clone, Copy, Debug, PartialEq, Eq, Structural)]
pub struct Rusage {
    /// The CPU time spent in user mode.
    pub user: TimeVal,
    /// The CPU time spent in the system.
    pub system: TimeVal,
    /// The peak resident set size, in the unit of the system.
    pub max_rss: i64,
}

impl TimeVal {
    /// The time in nanoseconds.
    pub open spec fn nanos(self) -> int {
        self.sec * 1_000_000_000 + self.usec * 1000
    }
}

/// `a + b` in a counter that wraps around is what it is of `a` and `b` as far as
/// counters hold them.
proof fn lemma_wrapped_sum(a: int, b: int)
    ensures
        wrapped(wrapped(a) + wrapped(b)) == wrapped(a + b),
{
    div_mod::lemma_add_mod_noop(a, b, 0x1_0000_0000_0000_0000);
    div_mod::lemma_mod_division_less_than_divisor(a, 0x1_0000_0000_0000_0000);
    div_mod::lemma_mod_division_less_than_divisor(b, 0x1_0000_0000_0000_0000);
}

/// The same of a product.
proof fn lemma_wrapped_product(a: int, b: int)
    ensures
        wrapped(wrapped(a) * b) == wrapped(a * b),
{
    div_mod::lemma_mul_mod_noop_left(a, b, 0x1_0000_0000_0000_0000);
    div_mod::lemma_mod_division_less_than_divisor(a, 0x1_0000_0000_0000_0000);
}

/// A counter holds the remainder.
proof fn lemma_wrapped_is_remainder(n: int)
    ensures
        wrapped(n) == n % 0x1_0000_0000_0000_0000,
{
    div_mod::lemma_mod_division_less_than_divisor(n, 0x1_0000_0000_0000_0000);
}

/// `n` in a counter, which wraps around below zero.
fn counter_of(n: i64) -> (r: u64)
    ensures
        r == wrapped(n as int),
{
    let r: u64 = n as u64;
    if n >= 0 {
        assert(n >= 0 ==> n as u64 == n) by (bit_vector);
    } else {
        assert(n < 0 ==> n as u64 == n + 0x1_0000_0000_0000_0000) by (bit_vector);
        proof {
            div_mod::lemma_fundamental_div_mod_converse(
                n as int,
                0x1_0000_0000_0000_0000,
                -1,
                n + 0x1_0000_0000_0000_0000,
            );
        }
    }
    r
}

/// A time in nanoseconds, as far as a counter holds it.
fn to_nanos(time: TimeVal) -> (r: u64)
    ensures
        r == wrapped(time.nanos()),
{
    let sec: u64 = counter_of(time.sec);
    let usec: u64 = counter_of(time.usec);
    let sec_ns: u64 = low_bits(sec as u128 * 1_000_000_000);
    let usec_ns: u64 = low_bits(usec as u128 * 1000);
    proof {
        lemma_wrapped_product(time.sec as int, 1_000_000_000);
        lemma_wrapped_product(time.usec as int, 1000);
        lemma_wrapped_sum(time.sec * 1_000_000_000, time.usec * 1000);
    }
    raised(sec_ns, usec_ns)
}

/// The CPU time that the process has used, in user mode and in the system, over
/// all threads, in nanoseconds. It is 0 where the system did not say.
pub fn process_cpu_nanos(usage: Option<Rusage>) -> (r: u64)
    ensures
        r == match usage {
            Some(ru) => wrapped(ru.user.nanos() + ru.system.nanos()),
            None => 0,
        },
        usage matches Some(ru) ==> r == ((ru.user.sec + ru.system.sec) * 1_000_000_000 + (
        ru.user.usec + ru.system.usec) * 1000) % 0x1_0000_0000_0000_0000,
        usage is None ==> r == 0,
{
    match usage {
        Some(ru) => {
            proof {
                lemma_wrapped_sum(ru.user.nanos(), ru.system.nanos());
                assert(ru.user.nanos() + ru.system.nanos() == (ru.user.sec + ru.system.sec)
                    * 1_000_000_000 + (ru.user.usec + ru.system.usec) * 1000);
                lemma_wrapped_is_remainder(ru.user.nanos() + ru.system.nanos());
            }
            raised(to_nanos(ru.user), to_nanos(ru.system))
        },
        None => 0,
    }
}

/// The peak resident set size in bytes. The system gives it in bytes on macOS, and
/// in KiB elsewhere. It is 0 where the system did not say.
pub fn peak_rss_bytes(usage: Option<Rusage>, macos: bool) -> (r: u64)
    ensures
        r == match usage {
            Some(ru) => {
                let max = wrapped(ru.max_rss as int);
                if macos {
                    max as int
                } else if max * 1024 <= u64::MAX {
                    max * 1024
                } else {
                    u64::MAX as int
                }
            },
            None => 0,
        },
        usage is None ==> r == 0,
        usage matches Some(ru) ==> ru.max_rss >= 0 ==> {
            &&& macos ==> r == ru.max_rss
            &&& !macos && ru.max_rss * 1024 <= u64::MAX ==> r == ru.max_rss * 1024
            &&& !macos && ru.max_rss * 1024 > u64::MAX ==> r == u64::MAX
        },
        usage matches Some(ru) ==> ru.max_rss < 0 ==> {
            &&& macos ==> r == ru.max_rss + 0x1_0000_0000_0000_0000
            &&& !macos ==> r == u64::MAX
        },
{
    match usage {
        Some(ru) => {
            proof {
                lemma_wrapped_is_remainder(ru.max_rss as int);
                if ru.max_rss >= 0 {
                    div_mod::lemma_small_mod(ru.max_rss as nat, 0x1_0000_0000_0000_0000);
                } else {
                    div_mod::lemma_fundamental_div_mod_converse(
                        ru.max_rss as int,
                        0x1_0000_0000_0000_0000,
                        -1,
                        ru.max_rss + 0x1_0000_0000_0000_0000,
                    );
                }
            }
            let max: u64 = counter_of(ru.max_rss);
            if macos {
                max
            } else if max <= u64::MAX / 1024 {
                max * 1024
            } else {
                u64::MAX
            }
        },
        None => 0,
    }
}

//=============================================================================
// The report
//=============================================================================

/// One line of the report: a phase and what was counted of it.
pub struct PhaseRow {
    pub name: &'static str,
    pub stat: Stat,
}

/// What the report tells of the counters.
pub struct Summary {
    pub files: u64,
    pub bytes: u64,
    pub heartbeats: Heartbeats,
    /// The time of all phases together, in nanoseconds.
    pub total_ns: u128,
    /// One row for each phase, in order.
    pub rows: Vec<PhaseRow>,
}

/// The time of all phases in `stats` together.
pub open spec fn total_nanos(stats: Seq<Stat>) -> int
    decreases stats.len(),
{
    if stats.len() == 0 {
        0
    } else {
        total_nanos(stats.drop_last()) + stats.last().nanos
    }
}

/// The time of eleven phases, written out.
proof fn lemma_total_of_eleven(stats: Seq<Stat>)
    requires
        stats.len() == 11,
    ensures
        total_nanos(stats) == stats[0].nanos + stats[1].nanos + stats[2].nanos + stats[3].nanos
            + stats[4].nanos + stats[5].nanos + stats[6].nanos + stats[7].nanos + stats[8].nanos
            + stats[9].nanos + stats[10].nanos,
{
    lemma_total_step(stats, 0);
    lemma_total_step(stats, 1);
    lemma_total_step(stats, 2);
    lemma_total_step(stats, 3);
    lemma_total_step(stats, 4);
    lemma_total_step(stats, 5);
    lemma_total_step(stats, 6);
    lemma_total_step(stats, 7);
    lemma_total_step(stats, 8);
    lemma_total_step(stats, 9);
    lemma_total_step(stats, 10);
    assert(stats.take(0) =~= Seq::<Stat>::empty());
    assert(stats.take(11) =~= stats);
}

/// One phase more adds its time.
proof fn lemma_total_step(stats: Seq<Stat>, n: int)
    requires
        0 <= n < stats.len(),
    ensures
        total_nanos(stats.take(n + 1)) == total_nanos(stats.take(n)) + stats[n].nanos,
{
    assert(stats.take(n + 1).drop_last() =~= stats.take(n));
}

/// What the report tells of the counters.
pub fn report(metrics: &Metrics) -> (r: Summary)
    ensures
        r.files == metrics@.files,
        r.bytes == metrics@.bytes,
        r.heartbeats == metrics@.heartbeats,
        r.total_ns == total_nanos(metrics@.stats),
        r.files == metrics.files,
        r.bytes == metrics.bytes,
        r.heartbeats == metrics.heartbeats,
        r.total_ns == metrics.stats@[0].nanos + metrics.stats@[1].nanos + metrics.stats@[2].nanos
            + metrics.stats@[3].nanos + metrics.stats@[4].nanos + metrics.stats@[5].nanos
            + metrics.stats@[6].nanos + metrics.stats@[7].nanos + metrics.stats@[8].nanos
            + metrics.stats@[9].nanos + metrics.stats@[10].nanos,
        r.rows@.len() == Phase::COUNT,
        forall|i: int|
            0 <= i < Phase::COUNT ==> (#[trigger] r.rows@[i]).name@ == NAMES[i]@ && r.rows@[i].stat
                == metrics@.stats[i],
{
    let mut rows: Vec<PhaseRow> = Vec::new();
    let mut total_ns: u128 = 0;
    let mut i: usize = 0;
    let ghost stats = metrics.stats@;
    assert(stats.take(0) =~= Seq::<Stat>::empty());
    while i < 11
        invariant
            i <= 11,
            stats == metrics.stats@,
            stats.len() == 11,
            rows@.len() == i,
            total_ns == total_nanos(stats.take(i as int)),
            total_ns <= i * u64::MAX,
            forall|k: int|
                0 <= k < i ==> (#[trigger] rows@[k]).name@ == NAMES[k]@ && rows@[k].stat
                    == stats[k],
        decreases 11 - i,
    {
        let stat: Stat = metrics.stats[i];
        assert(stats.take(i + 1).drop_last() =~= stats.take(i as int));
        total_ns = total_ns + stat.nanos as u128;
        rows.push(PhaseRow { name: NAMES[i], stat });
        i = i + 1;
    }
    assert(stats.take(11) =~= stats);
    proof {
        lemma_total_of_eleven(stats);
    }
    Summary {
        files: metrics.files,
        bytes: metrics.bytes,
        heartbeats: metrics.heartbeats,
        total_ns,
        rows,
    }
}

//=============================================================================
// Laws
//=============================================================================

/// With recording off nothing is counted.
pub proof fn law_off_counts_nothing(view: MetricsView, phase: Phase, n: int)
    requires
        !view.recording,
    ensures
        view.timed(phase, n) == view,
        view.with_bytes(phase, n) == view,
        view.with_file(n) == view,
        view.with_heartbeat(n) == view,
        view.with_decodes(n) == view,
{
}

/// Something to count.
pub enum Note {
    Call(Phase, int),
    Bytes(Phase, int),
    File(int),
    Heartbeat(int),
    Decodes(int),
}

/// The counters after all of `notes`.
pub open spec fn after_notes(view: MetricsView, notes: Seq<Note>) -> MetricsView
    decreases notes.len(),
{
    if notes.len() == 0 {
        view
    } else {
        let before = after_notes(view, notes.drop_last());
        match notes.last() {
            Note::Call(phase, nanos) => before.timed(phase, nanos),
            Note::Bytes(phase, n) => before.with_bytes(phase, n),
            Note::File(bytes) => before.with_file(bytes),
            Note::Heartbeat(lag) => before.with_heartbeat(lag),
            Note::Decodes(n) => before.with_decodes(n),
        }
    }
}

/// With recording off nothing is counted, however much is noted and in whatever order.
pub proof fn law_off_stays_off(view: MetricsView, notes: Seq<Note>)
    requires
        !view.recording,
    ensures
        after_notes(view, notes) == view,
    decreases notes.len(),
{
    if notes.len() > 0 {
        law_off_stays_off(view, notes.drop_last());
    }
}

/// A decode task that has ended leaves the gauge as it was before it started,
/// whatever was counted in between of the others.
pub proof fn law_gauge_returns(view: MetricsView, others: int)
    ensures
        view.with_decodes(1).with_decodes(others).with_decodes(-1) == view.with_decodes(others),
        view.with_decodes(1).with_decodes(-1) == view,
{
    let n = view.active_decodes as int;
    let m: int = 0x1_0000_0000_0000_0000;
    assert(wrapped(n) == n) by {
        div_mod::lemma_small_mod(n as nat, m as nat);
    }
    lemma_wrapped_twice(n, 1, others);
    lemma_wrapped_twice(n + 1, others, -1);
    lemma_wrapped_twice(n, 1, -1);
}

/// Raising a counter twice is raising it once by both.
proof fn lemma_wrapped_twice(n: int, a: int, b: int)
    ensures
        wrapped(wrapped(n + a) + b) == wrapped(n + a + b),
{
    let m: int = 0x1_0000_0000_0000_0000;
    div_mod::lemma_mod_division_less_than_divisor(n + a, m);
    div_mod::lemma_add_mod_noop(n + a, b, m);
    div_mod::lemma_add_mod_noop((n + a) % m, b, m);
    div_mod::lemma_mod_twice(n + a, m);
}

/// Phases are told apart: what is recorded of one leaves the others as they were.
pub proof fn law_phases_are_apart(view: MetricsView, phase: Phase, other: Phase, n: int)
    requires
        phase != other,
        view.stats.len() == Phase::COUNT,
    ensures
        view.timed(phase, n).stats[other.position()] == view.stats[other.position()],
        view.with_bytes(phase, n).stats[other.position()] == view.stats[other.position()],
{
}

/// Concurrent tasks may record in any order: two calls of one phase, and two
/// heartbeats, count the same either way round.
pub proof fn law_order_does_not_matter(stat: Stat, hb: Heartbeats, a: int, b: int, x: u64, y: u64)
    ensures
        stat.timed(a).timed(b) == stat.timed(b).timed(a),
        hb.beat(x).beat(y) == hb.beat(y).beat(x),
{
    lemma_wrapped_twice(stat.nanos as int, a, b);
    lemma_wrapped_twice(stat.nanos as int, b, a);
    lemma_wrapped_twice(hb.sum_ns as int, x as int, y as int);
    lemma_wrapped_twice(hb.sum_ns as int, y as int, x as int);
}

/// The heartbeats with these lags.
pub open spec fn beats_of(lags: Seq<u64>) -> Heartbeats
    decreases lags.len(),
{
    if lags.len() == 0 {
        Heartbeats::none()
    } else {
        beats_of(lags.drop_last()).beat(lags.last())
    }
}

/// How many of `lags` are at least `threshold`.
pub open spec fn count_from(lags: Seq<u64>, threshold: int) -> nat
    decreases lags.len(),
{
    if lags.len() == 0 {
        0
    } else {
        count_from(lags.drop_last(), threshold) + if lags.last() >= threshold {
            1nat
        } else {
            0nat
        }
    }
}

/// The sum of `lags`.
pub open spec fn sum_of(lags: Seq<u64>) -> nat
    decreases lags.len(),
{
    if lags.len() == 0 {
        0
    } else {
        sum_of(lags.drop_last()) + lags.last() as nat
    }
}

/// The counters of the heartbeats are what they are named for: the number of lags,
/// their sum as far as a counter holds it, the greatest, and those of at least
/// 1 ms, 10 ms and 100 ms. A beat that is late by more is among those late by less.
pub proof fn law_heartbeat_counters(lags: Seq<u64>)
    requires
        lags.len() <= u64::MAX,
    ensures
        ({
            let hb = beats_of(lags);
            &&& hb.beats == lags.len()
            &&& hb.sum_ns == wrapped(sum_of(lags) as int)
            &&& hb.over_1ms == count_from(lags, 1_000_000)
            &&& hb.over_10ms == count_from(lags, 10_000_000)
            &&& hb.over_100ms == count_from(lags, 100_000_000)
            &&& hb.over_100ms <= hb.over_10ms <= hb.over_1ms <= hb.beats
            &&& forall|i: int| 0 <= i < lags.len() ==> #[trigger] lags[i] <= hb.max_ns
            &&& lags.len() > 0 ==> lags.contains(hb.max_ns)
        }),
    decreases lags.len(),
{
    if lags.len() > 0 {
        let init = lags.drop_last();
        law_heartbeat_counters(init);
        let before = beats_of(init);
        let hb = beats_of(lags);
        lemma_wrapped_twice(0, sum_of(init) as int, lags.last() as int);
        assert forall|i: int| 0 <= i < lags.len() implies #[trigger] lags[i] <= hb.max_ns by {
            if i < init.len() {
                assert(init[i] == lags[i]);
            }
        }
        if hb.max_ns == lags.last() {
            assert(lags[lags.len() - 1] == hb.max_ns);
        } else {
            let i = init.index_of(before.max_ns);
            assert(lags[i] == hb.max_ns);
        }
    }
}

/// Each phase stands in the report under its own name, and no two in one row.
pub proof fn law_phase_has_its_name(phase: Phase, other: Phase)
    ensures
        0 <= phase.position() < 11,
        phase.position() == other.position() ==> phase == other,
        NAMES[phase.position()]@ == match phase {
            Phase::HistoryFetch => "history_fetch"@,
            Phase::HistoryParse => "history_parse"@,
            Phase::BucketStream => "bucket_stream"@,
            Phase::XdrDecompress => "xdr_decompress"@,
            Phase::XdrParseLedger => "xdr_parse_ledger"@,
            Phase::XdrParseTx => "xdr_parse_tx"@,
            Phase::XdrParseResult => "xdr_parse_result"@,
            Phase::XdrParseScp => "xdr_parse_scp"@,
            Phase::CrossFileVerify => "cross_file_verify"@,
            Phase::ChainVerify => "chain_verify"@,
            Phase::Copy => "copy"@,
        },
{
}

/// The counters are seen as what they hold.
pub proof fn law_metrics_view(metrics: Metrics)
    ensures
        metrics@.recording == metrics.recording,
        metrics@.counting_decodes == metrics.counting_decodes,
        metrics@.stats == metrics.stats@,
        metrics@.files == metrics.files,
        metrics@.bytes == metrics.bytes,
        metrics@.heartbeats == metrics.heartbeats,
        metrics@.active_decodes == metrics.active_decodes,
{
}

/// While recording is on, a call of a phase adds its time and one call to that phase, bytes
/// add to the bytes of their phase, and a file adds one file and its bytes; counters go
/// round at their end, and nothing else is counted.
pub proof fn law_what_is_counted(view: MetricsView, phase: Phase, n: int)
    requires
        view.recording,
        view.stats.len() == 11,
        0 <= n,
    ensures
        ({
            let i = phase.position();
            let m = 0x1_0000_0000_0000_0000int;
            let timed = view.timed(phase, n);
            let loaded = view.with_bytes(phase, n);
            let filed = view.with_file(n);
            &&& timed.stats.len() == 11
            &&& timed.stats[i].nanos == (view.stats[i].nanos + n) % m
            &&& timed.stats[i].calls == (view.stats[i].calls + 1) % m
            &&& timed.stats[i].bytes == view.stats[i].bytes
            &&& timed == (MetricsView { stats: timed.stats, ..view })
            &&& loaded.stats.len() == 11
            &&& loaded.stats[i].bytes == (view.stats[i].bytes + n) % m
            &&& loaded.stats[i].nanos == view.stats[i].nanos
            &&& loaded.stats[i].calls == view.stats[i].calls
            &&& loaded == (MetricsView { stats: loaded.stats, ..view })
            &&& filed.files == (view.files + 1) % m
            &&& filed.bytes == (view.bytes + n) % m
            &&& filed == (MetricsView { files: filed.files, bytes: filed.bytes, ..view })
        }),
{
    let i = phase.position();
    lemma_wrapped_is_remainder(view.stats[i].nanos + n);
    lemma_wrapped_is_remainder(view.stats[i].calls + 1);
    lemma_wrapped_is_remainder(view.stats[i].bytes + n);
    lemma_wrapped_is_remainder(view.files + 1);
    lemma_wrapped_is_remainder(view.bytes + n);
}

/// A heartbeat adds one beat and its lag, raises the greatest lag to its own where that is
/// less, and counts among those late by 1, 10 and 100 ms if, and only if, it was; and
/// nothing else is counted.
pub proof fn law_what_a_heartbeat_counts(view: MetricsView, lag: int)
    requires
        view.recording,
        0 <= lag < 0x1_0000_0000_0000_0000,
    ensures
        ({
            let m = 0x1_0000_0000_0000_0000int;
            let before = view.heartbeats;
            let after = view.with_heartbeat(lag).heartbeats;
            &&& after.beats == (before.beats + 1) % m
            &&& after.sum_ns == (before.sum_ns + lag) % m
            &&& after.max_ns >= before.max_ns && after.max_ns >= lag
            &&& after.max_ns == before.max_ns || after.max_ns == lag
            &&& after.over_1ms == if lag >= 1_000_000 {
                (before.over_1ms + 1) % m
            } else {
                before.over_1ms as int
            }
            &&& after.over_10ms == if lag >= 10_000_000 {
                (before.over_10ms + 1) % m
            } else {
                before.over_10ms as int
            }
            &&& after.over_100ms == if lag >= 100_000_000 {
                (before.over_100ms + 1) % m
            } else {
                before.over_100ms as int
            }
            &&& view.with_heartbeat(lag) == (MetricsView { heartbeats: after, ..view })
        }),
{
    div_mod::lemma_small_mod(lag as nat, 0x1_0000_0000_0000_0000);
    lemma_wrapped_is_remainder(lag);
    lemma_wrapped_is_remainder(view.heartbeats.beats + 1);
    lemma_wrapped_is_remainder(view.heartbeats.sum_ns + lag);
    lemma_wrapped_is_remainder(view.heartbeats.over_1ms + 1);
    lemma_wrapped_is_remainder(view.heartbeats.over_10ms + 1);
    lemma_wrapped_is_remainder(view.heartbeats.over_100ms + 1);
}

/// A lag beyond what a counter holds counts as what is left of it there.
pub proof fn law_long_lag(view: MetricsView, lag: int)
    ensures
        view.with_heartbeat(lag) == view.with_heartbeat(lag % 0x1_0000_0000_0000_0000),
{
    div_mod::lemma_mod_twice(lag, 0x1_0000_0000_0000_0000);
}

/// The gauge of decode tasks goes up by one with each that starts and down by one with each
/// that ends, where they are counted; and nothing else is counted.
pub proof fn law_what_the_gauge_counts(view: MetricsView, n: int)
    requires
        view.recording,
        view.counting_decodes,
    ensures
        view.with_decodes(n).active_decodes == (view.active_decodes + n)
            % 0x1_0000_0000_0000_0000,
        view.with_decodes(n) == (MetricsView {
            active_decodes: view.with_decodes(n).active_decodes,
            ..view
        }),
{
    lemma_wrapped_is_remainder(view.active_decodes + n);
}

/// The gauge is not counted where it is not asked for, whatever else is.
pub proof fn law_gauge_may_be_off(view: MetricsView, n: int)
    requires
        !view.counting_decodes,
    ensures
        view.with_decodes(n) == view,
{
}

/// The time of all phases is the sum of their times.
pub proof fn law_total_is_the_sum(a: Seq<Stat>, b: Seq<Stat>, stat: Stat)
    ensures
        total_nanos(Seq::<Stat>::empty()) == 0,
        total_nanos(seq![stat]) == stat.nanos,
        total_nanos(a + b) == total_nanos(a) + total_nanos(b),
    decreases b.len(),
{
    reveal_with_fuel(total_nanos, 2);
    assert(seq![stat].drop_last() =~= Seq::<Stat>::empty());
    if b.len() == 0 {
        assert(a + b =~= a);
    } else {
        law_total_is_the_sum(a, b.drop_last(), stat);
        assert((a + b).drop_last() =~= a + b.drop_last());
    }
}

} // verus!
