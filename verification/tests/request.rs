use l7dstat::request::{
    ascii_starts_with, bytes_equal, header_has_connection_close, is_control_path, parse_path, route,
    to_lower, Route,
};

#[test]
fn parse_path_of_request_line() {
    assert_eq!(parse_path(b"GET /hit HTTP/1.1\r\n"), Some(&b"/hit"[..]));
    assert_eq!(parse_path(b"GET / HTTP/1.1\r\n"), Some(&b"/"[..]));
    assert_eq!(parse_path(b"GET  HTTP/1.1"), Some(&b""[..]));
}

#[test]
fn parse_path_needs_two_spaces() {
    assert_eq!(parse_path(b"GET /hit\r\n"), None);
    assert_eq!(parse_path(b"garbage\r\n"), None);
    assert_eq!(parse_path(b""), None);
}

#[test]
fn lower_case_of_bytes() {
    assert_eq!(to_lower(b'A'), b'a');
    assert_eq!(to_lower(b'Z'), b'z');
    assert_eq!(to_lower(b'a'), b'a');
    assert_eq!(to_lower(b'@'), b'@');
    assert_eq!(to_lower(b'['), b'[');
}

#[test]
fn ascii_starts_with_ignores_case_of_line() {
    assert!(ascii_starts_with(b"Connection: Close\r\n", b"connection: close"));
    assert!(ascii_starts_with(b"CONNECTION: CLOSE", b"connection: close"));
    assert!(!ascii_starts_with(b"Connection: keep-alive", b"connection: close"));
    assert!(!ascii_starts_with(b"Conn", b"connection"));
    assert!(ascii_starts_with(b"anything", b""));
}

#[test]
fn connection_close_in_any_header_line() {
    assert!(header_has_connection_close(b"GET / HTTP/1.1\r\nHost: a\r\nConnection: close\r\n\r\n"));
    assert!(header_has_connection_close(b"GET / HTTP/1.1\nconnection: CLOSE\n\n"));
    assert!(!header_has_connection_close(b"GET / HTTP/1.1\r\nConnection: keep-alive\r\n\r\n"));
    assert!(!header_has_connection_close(b"GET / HTTP/1.1\r\nX-Connection: close\r\n\r\n"));
    assert!(header_has_connection_close(b"connection: close"));
    assert!(!header_has_connection_close(b""));
}

#[test]
fn connection_close_split_over_lines_does_not_count() {
    assert!(!header_has_connection_close(b"GET / HTTP/1.1\r\nconnection:\n close\r\n\r\n"));
}

#[test]
fn control_paths() {
    for p in [&b"/dashboard"[..], b"/dashboard/metrics", b"/metrics", b"/static/app.js", b"/static/styles.css"] {
        assert!(is_control_path(p));
    }
    for p in [&b"/"[..], b"/hit", b"/other", b"", b"/dashboard/"] {
        assert!(!is_control_path(p));
    }
}

#[test]
fn routes_of_paths() {
    assert_eq!(route(b"/"), Route::Hit);
    assert_eq!(route(b"/hit"), Route::Hit);
    assert_eq!(route(b"/anything"), Route::Hit);
    assert_eq!(route(b"/dashboard"), Route::Dashboard);
    assert_eq!(route(b"/dashboard/metrics"), Route::Metrics);
    assert_eq!(route(b"/metrics"), Route::Metrics);
    assert_eq!(route(b"/static/app.js"), Route::Script);
    assert_eq!(route(b"/static/styles.css"), Route::Styles);
}

#[test]
fn byte_equality() {
    assert!(bytes_equal(b"abc", b"abc"));
    assert!(!bytes_equal(b"abc", b"abd"));
    assert!(!bytes_equal(b"abc", b"ab"));
    assert!(bytes_equal(b"", b""));
}

#[test]
fn path_holds_no_space() {
    let p = parse_path(b"GET /a%20b HTTP/1.1 extra words\r\n").unwrap();
    assert_eq!(p, b"/a%20b");
    assert!(!p.contains(&b' '));
}
