use stellar_archivist::runtime::RuntimeLog;

#[test]
fn a_sample_tells_what_happened_since_the_last() {
    let mut log = RuntimeLog::new(2);
    let first = log.sample(vec![100, 50], &vec![3, 4], &vec![12, 7], 5);
    assert_eq!(first.busy, vec![100, 50]);
    assert_eq!(first.local, 7);
    assert_eq!(first.runnable, 12);
    assert_eq!(first.max_poll_us, 12);

    // A clock that went back counts as no time.
    let second = log.sample(vec![130, 40], &vec![0, 0], &vec![1, 9], 0);
    assert_eq!(second.busy, vec![30, 0]);
    assert_eq!(second.runnable, 0);
    assert_eq!(second.max_poll_us, 9);

    let third = log.sample(vec![130, 45], &vec![1, 0], &vec![0, 0], 2);
    assert_eq!(third.busy, vec![0, 5]);
    assert_eq!(third.runnable, 3);
    assert_eq!(third.max_poll_us, 0);
}

#[test]
fn without_workers_there_is_nothing_to_tell() {
    let mut log = RuntimeLog::new(0);
    let sample = log.sample(Vec::new(), &Vec::new(), &Vec::new(), 4);
    assert!(sample.busy.is_empty());
    assert_eq!((sample.local, sample.runnable, sample.max_poll_us), (0, 4, 0));
}

#[test]
fn a_poll_time_is_cut_to_64_bits() {
    let mut log = RuntimeLog::new(1);
    let sample = log.sample(vec![0], &vec![0], &vec![(1u128 << 64) + 3], 0);
    assert_eq!(sample.max_poll_us, 3);
}
