use l7dstat::conn::{finish_metrics_request, process_requests, queue, queue_metrics, read_request, Conn, Parsed, Progress};
use l7dstat::metrics::{Metrics, SecondBucket, HISTORY_SECONDS};
use l7dstat::request::Route;
use l7dstat::response::{load_assets, make_response, Assets, BAD_REQUEST_RESPONSE, HIT_CLOSE_RESPONSE, HIT_RESPONSE};

const NOW: i64 = 1_700_000_000;

fn metrics() -> Metrics {
    let mut m = Metrics::new(1, 0);
    m.current_sec = NOW;
    for (k, b) in m.rps_shards.iter_mut().enumerate() {
        *b = SecondBucket { sec: NOW - (HISTORY_SECONDS - k % HISTORY_SECONDS) as i64, count: 0 };
    }
    m
}

fn assets() -> Assets {
    load_assets(b"<h1>dash</h1>", b"app()", b"body{}")
}

fn conn_with(input: &[u8]) -> Conn {
    let mut c = Conn::new(0);
    c.receive(input);
    c
}

#[test]
fn root_counts_one_hit_and_answers_ok() {
    let mut m = metrics();
    let a = assets();
    let mut c = conn_with(b"GET / HTTP/1.1\r\nHost: x\r\n\r\n");
    assert_eq!(process_requests(&mut c, &mut m, &a, false, 1), Progress::Done);
    assert_eq!(c.output, HIT_RESPONSE.as_bytes());
    assert!(c.input.is_empty());
    assert!(!c.close_after_write);
    assert_eq!(m.total(), 1);
    assert_eq!(m.second_count(NOW), 1);
    assert_eq!(m.request_lines, 1);
}

#[test]
fn hit_path_does_the_same_as_root() {
    let mut m = metrics();
    let a = assets();
    let mut c = conn_with(b"GET /hit HTTP/1.1\r\n\r\n");
    assert_eq!(process_requests(&mut c, &mut m, &a, false, 1), Progress::Done);
    assert_eq!(c.output, HIT_RESPONSE.as_bytes());
    assert_eq!(m.total(), 1);
}

#[test]
fn unknown_path_is_a_hit() {
    let mut m = metrics();
    let a = assets();
    let mut c = conn_with(b"POST /whatever?x=1 HTTP/1.1\r\n\r\n");
    process_requests(&mut c, &mut m, &a, false, 1);
    assert_eq!(c.output, HIT_RESPONSE.as_bytes());
    assert_eq!(m.total(), 1);
}

#[test]
fn dashboard_files_are_served_without_counting() {
    let mut m = metrics();
    let a = assets();
    let mut c = conn_with(b"GET /dashboard HTTP/1.1\r\n\r\nGET /static/app.js HTTP/1.1\r\n\r\nGET /static/styles.css HTTP/1.1\r\n\r\n");
    assert_eq!(process_requests(&mut c, &mut m, &a, false, 1), Progress::Done);
    let mut expected = a.index.clone();
    expected.extend_from_slice(&a.js);
    expected.extend_from_slice(&a.css);
    assert_eq!(c.output, expected);
    assert_eq!(m.total(), 0);
    assert_eq!(m.request_lines, 3);
}

#[test]
fn pipelined_requests_answered_in_order() {
    let mut m = metrics();
    let a = assets();
    let mut c = conn_with(b"GET / HTTP/1.1\r\n\r\nGET /dashboard HTTP/1.1\r\n\r\nGET /hit HTTP/1.1\r\n\r\nGET /partial HT");
    assert_eq!(process_requests(&mut c, &mut m, &a, false, 1), Progress::Done);
    let mut expected = HIT_RESPONSE.as_bytes().to_vec();
    expected.extend_from_slice(&a.index);
    expected.extend_from_slice(HIT_RESPONSE.as_bytes());
    assert_eq!(c.output, expected);
    assert_eq!(c.input, b"GET /partial HT");
    assert_eq!(m.total(), 2);
    assert_eq!(m.request_lines, 3);
}

#[test]
fn metrics_paths_ask_for_the_document() {
    for path in ["/metrics", "/dashboard/metrics"] {
        let mut m = metrics();
        let a = assets();
        let req = format!("GET {} HTTP/1.1\r\n\r\nGET / HTTP/1.1\r\n\r\n", path);
        let mut c = conn_with(req.as_bytes());
        let p = process_requests(&mut c, &mut m, &a, false, 1);
        assert_eq!(p, Progress::MetricsRequested { close_requested: false });
        assert!(c.output.is_empty());
        assert_eq!(c.input, b"GET / HTTP/1.1\r\n\r\n");
        assert!(finish_metrics_request(&mut c, b"{}", false));
        assert_eq!(c.output, make_response("application/json", b"{}"));
        assert_eq!(process_requests(&mut c, &mut m, &a, false, 1), Progress::Done);
        assert_eq!(m.total(), 1);
    }
}

#[test]
fn metrics_with_close() {
    let mut m = metrics();
    let a = assets();
    let mut c = conn_with(b"GET /metrics HTTP/1.1\r\nConnection: close\r\n\r\nGET / HTTP/1.1\r\n\r\n");
    let p = process_requests(&mut c, &mut m, &a, false, 1);
    assert_eq!(p, Progress::MetricsRequested { close_requested: true });
    assert!(!finish_metrics_request(&mut c, b"[1]", true));
    assert!(c.close_after_write);
    assert!(c.input.is_empty());
    assert_eq!(c.output, make_response("application/json", b"[1]"));
}

#[test]
fn bad_request_closes() {
    let mut m = metrics();
    let a = assets();
    let mut c = conn_with(b"NONSENSE\r\n\r\nGET / HTTP/1.1\r\n\r\n");
    assert_eq!(process_requests(&mut c, &mut m, &a, false, 1), Progress::Done);
    assert_eq!(c.output, BAD_REQUEST_RESPONSE.as_bytes());
    assert!(c.close_after_write);
    assert!(c.input.is_empty());
    assert_eq!(m.parse_errors, 1);
    assert_eq!(m.request_lines, 0);
    assert_eq!(m.total(), 0);
}

#[test]
fn connection_close_header_closes_after_reply() {
    let mut m = metrics();
    let a = assets();
    let mut c = conn_with(b"GET / HTTP/1.1\r\nConnection: Close\r\n\r\nGET / HTTP/1.1\r\n\r\n");
    assert_eq!(process_requests(&mut c, &mut m, &a, false, 1), Progress::Done);
    assert_eq!(c.output, HIT_RESPONSE.as_bytes());
    assert!(c.close_after_write);
    assert!(c.input.is_empty());
    assert_eq!(m.total(), 1);
}

#[test]
fn close_after_hit_answers_without_headers() {
    let mut m = metrics();
    let a = assets();
    let mut c = conn_with(b"GET / HTTP/1.1\r\nHost: no end");
    assert_eq!(process_requests(&mut c, &mut m, &a, true, 1), Progress::Done);
    assert_eq!(c.output, HIT_CLOSE_RESPONSE.as_bytes());
    assert!(c.close_after_write);
    assert!(c.input.is_empty());
    assert_eq!(m.total(), 1);
    assert_eq!(m.request_lines, 1);
}

#[test]
fn close_after_hit_still_serves_dashboard() {
    let mut m = metrics();
    let a = assets();
    let mut c = conn_with(b"GET /dashboard HTTP/1.1\r\n\r\n");
    assert_eq!(process_requests(&mut c, &mut m, &a, true, 1), Progress::Done);
    assert_eq!(c.output, a.index);
    assert!(!c.close_after_write);
}

#[test]
fn incomplete_request_waits() {
    let mut m = metrics();
    let a = assets();
    let mut c = conn_with(b"GET / HTTP/1.1\r\nHost");
    assert_eq!(process_requests(&mut c, &mut m, &a, false, 1), Progress::Done);
    assert!(c.output.is_empty());
    assert_eq!(c.input, b"GET / HTTP/1.1\r\nHost");
    // The request line is counted each time it is read.
    assert_eq!(m.request_lines, 1);
    c.receive(b": x\r\n\r\n");
    process_requests(&mut c, &mut m, &a, false, 1);
    assert_eq!(c.output, HIT_RESPONSE.as_bytes());
    assert_eq!(m.request_lines, 2);
    assert_eq!(m.total(), 1);
}

#[test]
fn read_request_steps() {
    assert_eq!(read_request(b"GET / HT", false), Parsed::NeedMore { line_read: false });
    assert_eq!(read_request(b"GET / HTTP/1.1\r\n", false), Parsed::NeedMore { line_read: true });
    assert_eq!(read_request(b"GET / HTTP/1.1\r\n", true), Parsed::ClosedHit);
    assert_eq!(read_request(b"BAD\n", false), Parsed::BadRequest);
    assert_eq!(
        read_request(b"GET /metrics HTTP/1.1\r\n\r\nmore", false),
        Parsed::Request { target: Route::Metrics, close_requested: false, head_len: 25 }
    );
}

#[test]
fn batched_hits_flush_by_count() {
    let mut m = metrics();
    let mut c = Conn::new(2);
    c.count_hit(&mut m, 3);
    c.count_hit(&mut m, 3);
    assert_eq!(c.local_hits, 2);
    assert_eq!(c.local_sec, NOW);
    assert_eq!(m.total(), 0);
    c.count_hit(&mut m, 3);
    assert_eq!(c.local_hits, 0);
    assert_eq!(m.total(), 3);
    assert_eq!(m.total_shards[2], 3);
    assert_eq!(m.second_count(NOW), 3);
}

#[test]
fn batched_hits_flush_on_new_second() {
    let mut m = metrics();
    let mut c = Conn::new(0);
    c.count_hit(&mut m, 10);
    c.count_hit(&mut m, 10);
    m.current_sec = NOW + 1;
    c.count_hit(&mut m, 10);
    assert_eq!(m.second_count(NOW), 2);
    assert_eq!(c.local_hits, 1);
    assert_eq!(c.local_sec, NOW + 1);
    c.flush(&mut m);
    assert_eq!(c.local_hits, 0);
    assert_eq!(m.second_count(NOW + 1), 1);
    assert_eq!(m.total(), 3);
}

#[test]
fn dashboard_flushes_pending_hits() {
    let mut m = metrics();
    let a = assets();
    let mut c = conn_with(b"GET / HTTP/1.1\r\n\r\nGET / HTTP/1.1\r\n\r\nGET /dashboard HTTP/1.1\r\n\r\n");
    process_requests(&mut c, &mut m, &a, false, 100);
    assert_eq!(c.local_hits, 0);
    assert_eq!(m.total(), 2);
}

#[test]
fn output_bookkeeping() {
    let mut c = Conn::new(0);
    assert_eq!(c.interest_change(), None);
    queue(&mut c, b"abcdef");
    assert_eq!(c.interest_change(), Some(true));
    c.wants_write = true;
    assert_eq!(c.interest_change(), None);
    c.consume_output(4);
    assert_eq!(c.output, b"ef");
    assert!(!c.finished());
    c.close_after_write = true;
    assert!(!c.finished());
    c.consume_output(2);
    assert!(c.finished());
    assert_eq!(c.interest_change(), Some(false));
}

#[test]
fn queue_metrics_frames_json() {
    let mut c = Conn::new(0);
    queue_metrics(&mut c, b"{\"total\":1}");
    assert_eq!(c.output, make_response("application/json", b"{\"total\":1}"));
    assert!(String::from_utf8(c.output.clone()).unwrap().contains("Content-Length: 11\r\n"));
}

#[test]
fn unnamed_path_acts_like_root() {
    let mut m = metrics();
    let a = assets();
    let mut c = conn_with(b"GET /favicon.ico HTTP/1.1\r\n\r\n");
    assert_eq!(process_requests(&mut c, &mut m, &a, false, 1), Progress::Done);
    assert_eq!(c.output, HIT_RESPONSE.as_bytes());
    assert!(c.input.is_empty());
    assert_eq!(m.total(), 1);
}

#[test]
fn every_hit_counted_once_exactly() {
    let mut m = metrics();
    let mut c = Conn::new(5);
    for i in 0..1000u64 {
        m.current_sec = NOW + (i / 37) as i64;
        c.count_hit(&mut m, 8);
        assert_eq!(m.total() + c.local_hits, i + 1);
    }
    c.flush(&mut m);
    assert_eq!(m.total(), 1000);
}

#[test]
fn retire_hands_over_held_hits_and_closes() {
    let mut m = metrics();
    m.open_connection();
    m.open_connection();
    let mut c = Conn::new(4);
    c.count_hit(&mut m, 10);
    c.count_hit(&mut m, 10);
    assert_eq!(m.total(), 0);
    c.retire(&mut m);
    assert_eq!(c.local_hits, 0);
    assert_eq!(m.total(), 2);
    assert_eq!(m.total_shards[4], 2);
    assert_eq!(m.second_count(NOW), 2);
    assert_eq!(m.active_conns, 1);
}

#[test]
fn retire_without_held_hits_only_closes() {
    let mut m = metrics();
    m.open_connection();
    let mut c = Conn::new(0);
    c.retire(&mut m);
    assert_eq!(m.total(), 0);
    assert_eq!(m.active_conns, 0);
}
