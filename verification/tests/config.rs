use l7dstat::config::{
    bool_setting, flag_word, listener_count, next_shard, next_token, normalize_addr, parse_unsigned,
    pending_flush_due, trim_str, u64_setting, usize_setting, worker_count,
};

#[test]
fn bare_port_binds_all_interfaces() {
    assert_eq!(normalize_addr(":5000"), "0.0.0.0:5000");
    assert_eq!(normalize_addr("127.0.0.1:8080"), "127.0.0.1:8080");
    assert_eq!(normalize_addr(""), "");
    assert_eq!(normalize_addr(":"), "0.0.0.0:");
}

#[test]
fn listeners() {
    assert_eq!(listener_count(8, true), 8);
    assert_eq!(listener_count(0, true), 1);
    assert_eq!(listener_count(8, false), 1);
}

#[test]
fn zero_workers_means_all_cpus() {
    assert_eq!(worker_count(0, 12), 12);
    assert_eq!(worker_count(3, 12), 3);
}

#[test]
fn tokens_skip_zero() {
    assert_eq!(next_token(1), 2);
    assert_eq!(next_token(usize::MAX), 1);
}

#[test]
fn shards_go_round() {
    assert_eq!(next_shard(1, 4, 1, 2048), 5);
    assert_eq!(next_shard(2045, 4, 1, 2048), 1);
    assert_eq!(next_shard(2043, 4, 3, 2048), 2047);
}

#[test]
fn flag_words() {
    for w in ["1", "true", "YES", "On", "TRUE"] {
        assert_eq!(flag_word(w.as_bytes()), Some(true));
    }
    for w in ["0", "false", "No", "OFF"] {
        assert_eq!(flag_word(w.as_bytes()), Some(false));
    }
    for w in ["", "2", "yess", "of", " on"] {
        assert_eq!(flag_word(w.as_bytes()), None);
    }
}

#[test]
fn unsigned_numbers() {
    assert_eq!(parse_unsigned(b"0", u64::MAX), Some(0));
    assert_eq!(parse_unsigned(b"200000", u64::MAX), Some(200000));
    assert_eq!(parse_unsigned(b"+7", u64::MAX), Some(7));
    assert_eq!(parse_unsigned(b"18446744073709551615", u64::MAX), Some(u64::MAX));
    assert_eq!(parse_unsigned(b"18446744073709551616", u64::MAX), None);
    assert_eq!(parse_unsigned(b"256", 255), None);
    assert_eq!(parse_unsigned(b"255", 255), Some(255));
    assert_eq!(parse_unsigned(b"", u64::MAX), None);
    assert_eq!(parse_unsigned(b"+", u64::MAX), None);
    assert_eq!(parse_unsigned(b"-1", u64::MAX), None);
    assert_eq!(parse_unsigned(b"1x", u64::MAX), None);
    assert_eq!(parse_unsigned(b" 1", u64::MAX), None);
}

#[test]
fn settings_are_trimmed() {
    assert!(bool_setting(Some(" yes\n"), false));
    assert!(!bool_setting(Some("\toff "), true));
    assert!(bool_setting(Some("maybe"), true));
    assert!(!bool_setting(None, false));
    assert_eq!(u64_setting(Some(" 5 "), 1), 5);
    assert_eq!(u64_setting(Some("x"), 1), 1);
    assert_eq!(u64_setting(None, 100), 100);
    assert_eq!(usize_setting(Some("  200000"), 0), 200000);
    assert_eq!(usize_setting(Some("-3"), 9), 9);
    assert_eq!(usize_setting(None, 9), 9);
}

#[test]
fn settings_trim_unicode_whitespace() {
    assert!(bool_setting(Some("\u{3000}on\u{a0}"), false));
    assert_eq!(usize_setting(Some("\u{2003}42\u{85}"), 0), 42);
    // A zero-width space is not whitespace, so the value is unreadable.
    assert_eq!(usize_setting(Some("\u{200b}42"), 7), 7);
}

#[test]
fn trim_like_std() {
    for s in ["", "  ", " a b ", "\u{3000}x\u{a0}", "\t\n42\r\n", "\u{200b} y", "no"] {
        assert_eq!(trim_str(s), s.trim());
    }
}

#[test]
fn pending_flush_timing() {
    assert!(pending_flush_due(2, 100, 100));
    assert!(!pending_flush_due(2, 99, 100));
    assert!(!pending_flush_due(1, 1000, 100));
}

#[test]
fn worker_keeps_its_shards() {
    let workers = 3;
    let shards = workers * 512;
    for id in 0..workers {
        let mut shard = id;
        for _ in 0..5000 {
            assert!(shard < shards);
            assert_eq!(shard % workers, id);
            shard = next_shard(shard, workers, id, shards);
        }
    }
}

#[test]
fn worker_tokens_count_up_from_one() {
    let mut token = 1usize;
    for i in 0..5000usize {
        assert_eq!(token, i + 1);
        assert_ne!(token, 0);
        token = next_token(token);
    }
    assert_eq!(next_token(usize::MAX - 1), usize::MAX);
    assert_eq!(next_token(next_token(usize::MAX - 1)), 1);
}
