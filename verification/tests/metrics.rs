use std::time::Duration;
use stellar_archivist::metrics::{
    add_bytes, heartbeat_lag, heartbeat_snapshot, peak_rss_bytes, process_cpu_nanos, record_file,
    record_heartbeat, record_phase, report, DecodeGuard, Guard, Metrics, Phase, Rusage, TimeVal,
    HEARTBEAT_TICK_MS, NAMES,
};

/// A made-up usage, such as the system tells of a live process: its peak resident set
/// is 24 MiB, in KiB.
fn live_usage() -> Rusage {
    Rusage {
        user: TimeVal { sec: 0, usec: 12_345 },
        system: TimeVal { sec: 0, usec: 6_789 },
        max_rss: 24_576,
    }
}

#[test]
fn guard_records_and_rss_is_sane() {
    let mut m = Metrics::new(true, false);
    {
        let g = Guard::new(Phase::BucketStream);
        add_bytes(&mut m, Phase::BucketStream, 4096);
        record_file(&mut m, 4096);
        g.stop(&mut m);
    }
    // A live process must have a positive peak RSS, and it should be a
    // plausible magnitude (between 1 MB and 100 GB) — catches unit mistakes.
    let rss = peak_rss_bytes(Some(live_usage()), false);
    assert!(rss > 1_000_000, "peak RSS too small ({rss} bytes) — unit bug?");
    assert!(
        rss < 100_000_000_000,
        "peak RSS implausibly large ({rss} bytes) — unit bug?"
    );
    println!("peak_rss_bytes() = {rss} ({:.1} MB)", rss as f64 / 1e6);

    let i = Phase::BucketStream.index();
    assert_eq!(m.stats[i].calls, 1);
    assert_eq!(m.stats[i].bytes, 4096);
    assert_eq!((m.files, m.bytes), (1, 4096));
}

#[test]
fn heartbeat_records_lags_and_buckets() {
    let mut m = Metrics::new(true, false);
    let (b0, _, _, _, o10_0, o100_0) = heartbeat_snapshot(&m);
    record_heartbeat(&mut m, Duration::from_micros(200).as_nanos()); // < 1ms
    record_heartbeat(&mut m, Duration::from_millis(5).as_nanos()); //   >= 1ms
    record_heartbeat(&mut m, Duration::from_millis(50).as_nanos()); //  >= 10ms
    record_heartbeat(&mut m, Duration::from_millis(500).as_nanos()); // >= 100ms
    let (b1, sum_ns, max_ns, o1, o10_1, o100_1) = heartbeat_snapshot(&m);
    assert_eq!(b1 - b0, 4);
    assert!(o10_1 - o10_0 >= 2, "the 50ms and 500ms beats exceed 10ms");
    assert!(o100_1 - o100_0 >= 1, "the 500ms beat exceeds 100ms");
    assert!(max_ns >= 500_000_000, "max captures the 500ms beat");

    assert_eq!(sum_ns, 555_200_000);
    assert_eq!(max_ns, 500_000_000);
    assert_eq!((o1, o10_1, o100_1), (3, 2, 1));
}

#[test]
fn heartbeat_thresholds_are_inclusive() {
    let mut m = Metrics::new(true, false);
    record_heartbeat(&mut m, 999_999);
    record_heartbeat(&mut m, 1_000_000);
    record_heartbeat(&mut m, 10_000_000);
    record_heartbeat(&mut m, 100_000_000);
    let (beats, _, max_ns, o1, o10, o100) = heartbeat_snapshot(&m);
    assert_eq!((beats, max_ns, o1, o10, o100), (4, 100_000_000, 3, 2, 1));
}

#[test]
fn a_lag_is_counted_modulo_64_bits() {
    let mut m = Metrics::new(true, false);
    record_heartbeat(&mut m, (1u128 << 64) + 7);
    assert_eq!(heartbeat_snapshot(&m), (1, 7, 7, 0, 0, 0));
}

#[test]
fn heartbeats_count_the_same_in_any_order() {
    let mut a = Metrics::new(true, false);
    let mut b = Metrics::new(true, false);
    for lag in [3_000_000u128, 200, 40_000_000] {
        record_heartbeat(&mut a, lag);
    }
    for lag in [40_000_000u128, 3_000_000, 200] {
        record_heartbeat(&mut b, lag);
    }
    assert_eq!(heartbeat_snapshot(&a), heartbeat_snapshot(&b));
    assert_eq!(heartbeat_snapshot(&a), (3, 43_000_200, 40_000_000, 2, 1, 0));
}

#[test]
fn lag_is_the_time_beyond_the_tick() {
    assert_eq!(HEARTBEAT_TICK_MS, 10);
    assert_eq!(heartbeat_lag(12_500_000), 2_500_000);
    assert_eq!(heartbeat_lag(10_000_000), 0);
    assert_eq!(heartbeat_lag(9_000_000), 0);
}

#[test]
fn nothing_is_counted_while_recording_is_off() {
    let mut m = Metrics::new(false, true);
    add_bytes(&mut m, Phase::Copy, 5);
    record_file(&mut m, 5);
    record_heartbeat(&mut m, 5_000_000);
    record_phase(&mut m, Phase::Copy, 5);
    Guard::new(Phase::Copy).stop(&mut m);
    let g = DecodeGuard::enter(&mut m);
    assert_eq!(m.active_decodes, 0);
    g.leave(&mut m);
    assert_eq!((m.files, m.bytes, m.active_decodes), (0, 0, 0));
    assert_eq!(heartbeat_snapshot(&m), (0, 0, 0, 0, 0, 0));
    for stat in m.stats {
        assert_eq!((stat.nanos, stat.calls, stat.bytes), (0, 0, 0));
    }
}

#[test]
fn decode_gauge_goes_up_and_down() {
    let mut m = Metrics::new(true, true);
    let a = DecodeGuard::enter(&mut m);
    let b = DecodeGuard::enter(&mut m);
    assert_eq!(m.active_decodes, 2);
    a.leave(&mut m);
    assert_eq!(m.active_decodes, 1);
    b.leave(&mut m);
    assert_eq!(m.active_decodes, 0);

    let mut off = Metrics::new(true, false);
    let c = DecodeGuard::enter(&mut off);
    assert_eq!(off.active_decodes, 0);
    c.leave(&mut off);
    assert_eq!(off.active_decodes, 0);
}

#[test]
fn a_phase_is_recorded_apart_from_the_others() {
    let mut m = Metrics::new(true, false);
    record_phase(&mut m, Phase::ChainVerify, 100);
    record_phase(&mut m, Phase::ChainVerify, 250);
    add_bytes(&mut m, Phase::XdrParseTx, 9);
    let chain = m.stats[Phase::ChainVerify.index()];
    assert_eq!((chain.nanos, chain.calls, chain.bytes), (350, 2, 0));
    let tx = m.stats[Phase::XdrParseTx.index()];
    assert_eq!((tx.nanos, tx.calls, tx.bytes), (0, 0, 9));
    let copy = m.stats[Phase::Copy.index()];
    assert_eq!((copy.nanos, copy.calls, copy.bytes), (0, 0, 0));
}

#[test]
fn a_guard_measures_time() {
    let mut m = Metrics::new(true, false);
    let g = Guard::new(Phase::HistoryFetch);
    let before = std::time::Instant::now();
    while before.elapsed() < Duration::from_millis(2) {}
    g.stop(&mut m);
    let stat = m.stats[Phase::HistoryFetch.index()];
    assert_eq!(stat.calls, 1);
    assert!(stat.nanos >= 2_000_000);
}

#[test]
fn counters_wrap_around() {
    let mut m = Metrics::new(true, false);
    add_bytes(&mut m, Phase::Copy, u64::MAX);
    add_bytes(&mut m, Phase::Copy, 3);
    assert_eq!(m.stats[Phase::Copy.index()].bytes, 2);
}

#[test]
fn cpu_time_is_user_and_system_time() {
    let usage = Rusage {
        user: TimeVal { sec: 1, usec: 500_000 },
        system: TimeVal { sec: 0, usec: 250_001 },
        max_rss: 0,
    };
    assert_eq!(process_cpu_nanos(Some(usage)), 1_750_001_000);
    assert_eq!(process_cpu_nanos(None), 0);
    let odd = Rusage {
        user: TimeVal { sec: -1, usec: 0 },
        system: TimeVal { sec: 0, usec: 0 },
        max_rss: 0,
    };
    assert_eq!(process_cpu_nanos(Some(odd)), (-1_000_000_000i64) as u64);
}

#[test]
fn peak_rss_is_in_bytes() {
    let zero = TimeVal { sec: 0, usec: 0 };
    let usage = Rusage { user: zero, system: zero, max_rss: 2048 };
    assert_eq!(peak_rss_bytes(Some(usage), true), 2048);
    assert_eq!(peak_rss_bytes(Some(usage), false), 2_097_152);
    assert_eq!(peak_rss_bytes(None, false), 0);
    let odd = Rusage { user: zero, system: zero, max_rss: -1 };
    assert_eq!(peak_rss_bytes(Some(odd), false), u64::MAX);
}

#[test]
fn the_report_has_a_row_for_each_phase() {
    let mut m = Metrics::new(true, false);
    record_phase(&mut m, Phase::HistoryFetch, 30);
    record_phase(&mut m, Phase::Copy, 12);
    record_file(&mut m, 77);
    record_heartbeat(&mut m, 20_000_000);
    let r = report(&m);
    assert_eq!(r.rows.len(), Phase::COUNT);
    assert_eq!(r.total_ns, 42);
    assert_eq!((r.files, r.bytes), (1, 77));
    assert_eq!(r.heartbeats.over_10ms, 1);
    assert_eq!(r.rows[0].name, "history_fetch");
    assert_eq!(r.rows[0].stat.nanos, 30);
    assert_eq!(r.rows[10].name, "copy");
    assert_eq!(r.rows[10].stat.calls, 1);
    for i in 0..Phase::COUNT {
        assert_eq!(r.rows[i].name, NAMES[i]);
    }
}
