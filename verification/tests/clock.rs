use l7dstat::clock::{epoch_seconds, unix_sec, uptime_from_secs, uptime_secs};

#[test]
fn epoch_seconds_of_clock_result() {
    assert_eq!(epoch_seconds(Some(1_700_000_000)), 1_700_000_000);
    assert_eq!(epoch_seconds(None), 0);
    assert_eq!(epoch_seconds(Some(u64::MAX)), -1);
}

#[test]
fn unix_sec_is_after_2020() {
    assert!(unix_sec() > 1_577_836_800);
}

#[test]
fn uptime_is_at_least_one() {
    assert_eq!(uptime_secs(&std::time::Instant::now()), 1);
}

#[test]
fn uptime_counts_at_least_one_second() {
    assert_eq!(uptime_from_secs(0), 1);
    assert_eq!(uptime_from_secs(1), 1);
    assert_eq!(uptime_from_secs(3600), 3600);
}
