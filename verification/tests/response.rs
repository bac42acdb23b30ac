use l7dstat::response::{
    load_assets, make_response, push_decimal, BAD_REQUEST_RESPONSE, HIT_CLOSE_RESPONSE, HIT_RESPONSE,
};

#[test]
fn decimal_digits() {
    let mut out = Vec::new();
    push_decimal(&mut out, 0);
    assert_eq!(out, b"0");
    let mut out = b"x".to_vec();
    push_decimal(&mut out, 1234567890);
    assert_eq!(out, b"x1234567890");
    let mut out = Vec::new();
    push_decimal(&mut out, usize::MAX);
    assert_eq!(out, usize::MAX.to_string().into_bytes());
}

#[test]
fn response_has_type_length_and_body() {
    let r = make_response("text/plain", b"hello");
    assert_eq!(
        r,
        b"HTTP/1.1 200 OK\r\nContent-Type: text/plain\r\nContent-Length: 5\r\nCache-Control: no-store\r\nConnection: keep-alive\r\n\r\nhello"
    );
}

#[test]
fn empty_body_has_zero_length() {
    let r = make_response("application/json", b"");
    assert_eq!(
        r,
        b"HTTP/1.1 200 OK\r\nContent-Type: application/json\r\nContent-Length: 0\r\nCache-Control: no-store\r\nConnection: keep-alive\r\n\r\n"
    );
}

#[test]
fn assets_are_framed() {
    let a = load_assets(b"<html></html>", b"js", b"css!");
    assert_eq!(a.index, make_response("text/html; charset=utf-8", b"<html></html>"));
    assert_eq!(a.js, make_response("application/javascript; charset=utf-8", b"js"));
    assert_eq!(a.css, make_response("text/css; charset=utf-8", b"css!"));
    assert!(String::from_utf8(a.css).unwrap().contains("Content-Length: 4\r\n"));
}

#[test]
fn fixed_replies() {
    assert!(HIT_RESPONSE.starts_with("HTTP/1.1 200 OK\r\n"));
    assert!(HIT_RESPONSE.ends_with("\r\n\r\nOK\n"));
    assert!(HIT_RESPONSE.contains("Connection: keep-alive"));
    assert!(HIT_CLOSE_RESPONSE.contains("Connection: close"));
    assert!(BAD_REQUEST_RESPONSE.starts_with("HTTP/1.1 400 Bad Request\r\n"));
    assert!(BAD_REQUEST_RESPONSE.ends_with("Bad Request\n"));
}
