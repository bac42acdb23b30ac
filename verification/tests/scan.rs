use l7dstat::scan::{find_header_end, find_lf, find_pattern, memchr};

#[test]
fn memchr_finds_first_match() {
    assert_eq!(memchr(b"abcabc", b'c'), Some(2));
    assert_eq!(memchr(b"abc", b'z'), None);
    assert_eq!(memchr(b"", b'a'), None);
    assert_eq!(memchr(b"a", b'a'), Some(0));
}

#[test]
fn find_lf_returns_end_of_first_line() {
    assert_eq!(find_lf(b"GET / HTTP/1.1\r\nHost: x\r\n"), Some(16));
    assert_eq!(find_lf(b"\n"), Some(1));
    assert_eq!(find_lf(b"GET / HTTP/1.1"), None);
}

#[test]
fn find_pattern_first_occurrence() {
    assert_eq!(find_pattern(b"xxabab", b"ab"), Some(2));
    assert_eq!(find_pattern(b"ab", b"abc"), None);
    assert_eq!(find_pattern(b"aaa", b"aa"), Some(0));
}

#[test]
fn header_end_crlf() {
    assert_eq!(find_header_end(b"GET / HTTP/1.1\r\nHost: a\r\n\r\nrest"), Some(27));
    assert_eq!(find_header_end(b"GET / HTTP/1.1\r\nHost: a\r\n"), None);
}

#[test]
fn header_end_lf_only() {
    assert_eq!(find_header_end(b"GET / HTTP/1.1\nHost: a\n\nrest"), Some(24));
}

#[test]
fn header_end_prefers_crlf_anywhere() {
    // A blank line of `\r\n\r\n` wins even when a `\n\n` comes before it.
    assert_eq!(find_header_end(b"a\n\nb\r\n\r\n"), Some(8));
}
