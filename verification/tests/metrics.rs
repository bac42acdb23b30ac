use l7dstat::metrics::{Metrics, SecondBucket, CHART_SECONDS, HISTORY_SECONDS, SHARDS_PER_WORKER};

fn metrics_at(workers: usize, max_conns: usize, now: i64) -> Metrics {
    let mut m = Metrics::new(workers, max_conns);
    m.current_sec = now;
    for (k, b) in m.rps_shards.iter_mut().enumerate() {
        *b = SecondBucket { sec: now - (HISTORY_SECONDS - k % HISTORY_SECONDS) as i64, count: 0 };
    }
    m
}

#[test]
fn new_metrics_are_empty() {
    let m = Metrics::new(2, 10);
    assert_eq!(m.worker_count, 2);
    assert_eq!(m.max_conns, 10);
    assert_eq!(m.total_shards.len(), 2 * SHARDS_PER_WORKER);
    assert_eq!(m.rps_shards.len(), 2 * SHARDS_PER_WORKER * HISTORY_SECONDS);
    assert_eq!(m.total(), 0);
    assert_eq!(m.active_conns, 0);
    assert_eq!(m.accepted_conns, 0);
    assert!(m.rps_shards.iter().all(|b| b.count == 0));
    assert_eq!(m.rps_shards[0].sec, m.current_sec - HISTORY_SECONDS as i64);
    assert_eq!(m.rps_shards[HISTORY_SECONDS - 1].sec, m.current_sec - 1);
}

#[test]
fn zero_workers_means_one() {
    let m = Metrics::new(0, 0);
    assert_eq!(m.worker_count, 1);
    assert_eq!(m.total_shards.len(), SHARDS_PER_WORKER);
}

#[test]
fn add_counts_in_total_and_second() {
    let mut m = metrics_at(1, 0, 1_000_000);
    m.add(3, 999_999, 5);
    m.add(3 + SHARDS_PER_WORKER, 999_999, 2);
    m.add(7, 999_999, 1);
    assert_eq!(m.total(), 8);
    assert_eq!(m.total_shards[3], 7);
    assert_eq!(m.second_count(999_999), 8);
    assert_eq!(m.second_count(999_998), 0);
}

#[test]
fn add_zero_changes_nothing() {
    let mut m = metrics_at(1, 0, 1_000_000);
    m.add(0, 999_999, 0);
    assert_eq!(m.total(), 0);
    assert_eq!(m.second_count(999_999), 0);
}

#[test]
fn later_second_takes_over_bucket() {
    let mut m = metrics_at(1, 0, 1_000_000);
    m.add(0, 1_000_000, 4);
    m.add(0, 1_000_000 + HISTORY_SECONDS as i64, 1);
    assert_eq!(m.second_count(1_000_000), 0);
    assert_eq!(m.second_count(1_000_000 + HISTORY_SECONDS as i64), 1);
    assert_eq!(m.total(), 5);
}

#[test]
fn counts_wrap() {
    let mut m = metrics_at(1, 0, 1_000_000);
    m.add(0, 1_000_000, u64::MAX);
    m.add(1, 1_000_000, 2);
    assert_eq!(m.total(), 1);
    assert_eq!(m.second_count(1_000_000), 1);
}

#[test]
fn snapshot_timeline_and_window() {
    let mut m = metrics_at(1, 7, 2_000_000);
    m.add(0, 1_999_999, 10);
    m.add(5, 1_999_999, 5);
    m.add(1, 1_999_950, 3);
    m.add(2, 1_999_900, 100);
    m.request_lines = 9;
    m.parse_errors = 2;
    m.accepted_conns = 4;
    m.active_conns = 1;
    let s = m.snapshot();
    assert_eq!(s.total, 118);
    assert_eq!(s.current_rps, 15);
    assert_eq!(s.window_total, 18);
    assert_eq!(s.timeline.len(), CHART_SECONDS as usize);
    assert_eq!(s.timeline[0].timestamp, 2_000_000 - CHART_SECONDS);
    assert_eq!(s.timeline[CHART_SECONDS as usize - 1].timestamp, 1_999_999);
    assert_eq!(s.timeline[CHART_SECONDS as usize - 1].rps, 15);
    let at = |sec: i64| s.timeline.iter().find(|p| p.timestamp == sec).unwrap().rps;
    assert_eq!(at(1_999_950), 3);
    assert_eq!(at(1_999_900), 100);
    assert_eq!(at(1_999_901), 0);
    assert!(s.uptime_seconds >= 1);
    assert!(s.cpu >= 1);
    assert_eq!(s.workers, 1);
    assert_eq!(s.max_conns, 7);
    assert_eq!(s.request_lines, 9);
    assert_eq!(s.parse_errors, 2);
    assert_eq!(s.accepted_conns, 4);
    assert_eq!(s.active_conns, 1);
}

#[test]
fn connection_cap() {
    let mut m = metrics_at(1, 1, 3_000_000);
    assert!(m.accept_connection(0));
    m.open_connection();
    assert_eq!(m.active_conns, 1);
    assert!(!m.accept_connection(4));
    assert_eq!(m.accepted_conns, 2);
    assert_eq!(m.total(), 1);
    assert_eq!(m.second_count(3_000_000), 1);
    assert_eq!(m.total_shards[4], 1);
    m.close_connection();
    assert_eq!(m.active_conns, 0);
    assert!(m.accept_connection(0));
}

#[test]
fn zero_cap_disables_limit() {
    let mut m = metrics_at(1, 0, 3_000_000);
    for _ in 0..100 {
        assert!(m.accept_connection(0));
        m.open_connection();
    }
    assert_eq!(m.active_conns, 100);
    assert_eq!(m.total(), 0);
}

#[test]
fn tick_reads_clock() {
    let mut m = Metrics::new(1, 0);
    m.current_sec = 0;
    m.tick();
    assert!(m.current_sec > 1_600_000_000);
}

#[test]
fn new_at_uses_given_second() {
    let started = std::time::Instant::now();
    let m = Metrics::new_at(1, 5, 1_000_000, started);
    assert_eq!(m.current_sec, 1_000_000);
    assert_eq!(m.started, started);
    assert_eq!(m.rps_shards[0].sec, 1_000_000 - HISTORY_SECONDS as i64);
    assert_eq!(m.rps_shards[HISTORY_SECONDS + 7].sec, 1_000_000 - (HISTORY_SECONDS - 7) as i64);
    assert_eq!(m.max_conns, 5);
}

#[test]
fn set_second_stores_the_second() {
    let mut m = metrics_at(1, 0, 10_000);
    m.add(0, 10_000, 2);
    m.set_second(20_000);
    assert_eq!(m.current_sec, 20_000);
    assert_eq!(m.total(), 2);
}

#[test]
fn total_is_the_sum_of_all_adds() {
    let mut m = metrics_at(2, 0, 5_000_000);
    let mut expected = 0u64;
    for i in 0..2000u64 {
        let shard = (i * 7) as usize;
        let sec = 5_000_000 - (i % 700) as i64;
        let amount = i % 5;
        m.add(shard, sec, amount);
        expected += amount;
    }
    assert_eq!(m.total(), expected);
}

#[test]
fn buckets_of_counters_started_late_enough_are_free() {
    let m = metrics_at(1, 0, 1_000_000);
    assert!(m.bucket_free_at(0, 1_000_000));
    assert!(m.bucket_free_at(SHARDS_PER_WORKER + 9, 1_000_123));
}

#[test]
fn counters_started_early_hold_negative_seconds() {
    let m = metrics_at(1, 0, 100);
    // Slot 100 still holds second -100, which no other second may take over.
    assert!(!m.bucket_free_at(0, 100));
    assert!(m.bucket_free_at(0, -100));
    // Slot 250 holds second 50.
    assert!(m.bucket_free_at(0, 250));
}

#[test]
fn counted_second_frees_its_bucket() {
    let mut m = metrics_at(1, 0, 1_000_000);
    m.add(2, 1_000_000 + HISTORY_SECONDS as i64, 1);
    assert!(m.bucket_free_at(2, 1_000_000));
    assert!(m.bucket_free_at(2, 1_000_000 + HISTORY_SECONDS as i64));
}
