//! Reading a request: the path of its request line, its routing, and whether its head
//! asks for the connection to be closed.
use vstd::prelude::*;
use vstd::string::StringSliceAdditionalSpecFns;
use crate::scan::{first_byte_at, memchr, position_of};

verus! {

/// The byte of a space.
pub const SPACE: u8 = 32;

/// The path of a request line `GET /path HTTP/1.1`: the bytes between its first space and
/// the next space after it.
pub open spec fn request_path(line: Seq<u8>) -> Option<Seq<u8>> {
    match position_of(line, SPACE) {
        None => None,
        Some(first) => {
            let rest = line.subrange(first + 1, line.len() as int);
            match position_of(rest, SPACE) {
                None => None,
                Some(second) => Some(rest.subrange(0, second)),
            }
        },
    }
}

/// ASCII lower case of one byte; other bytes are left as they are.
pub open spec fn lower(b: u8) -> u8 {
    if 65 <= b <= 90 {
        (b + 32) as u8
    } else {
        b
    }
}

/// `line` begins with `prefix` once its bytes are taken in ASCII lower case.
pub open spec fn starts_with_lowered(line: Seq<u8>, prefix: Seq<u8>) -> bool {
    &&& prefix.len() <= line.len()
    &&& forall|i: int| 0 <= i < prefix.len() ==> lower(line[i]) == prefix[i]
}

/// `k` is where a line of `s` begins: the start of `s`, or just after a `\n`.
pub open spec fn line_start(s: Seq<u8>, k: int) -> bool {
    &&& 0 <= k < s.len()
    &&& (k == 0 || s[k - 1] == 10u8)
}

/// The header line that closes the connection, in lower case.
pub open spec fn connection_close() -> Seq<u8> {
    "connection: close".spec_bytes()
}

/// Some line of `head` begins, ignoring ASCII case, with `connection: close`.
pub open spec fn asks_close(head: Seq<u8>) -> bool {
    exists|k: int| #[trigger] line_start(head, k) && starts_with_lowered(head.subrange(k, head.len() as int), connection_close())
}

/// Where a request is sent, by its path.
#[derive(PartialEq, Eq, Structural, Clone, Copy, Debug)]
pub enum Route {
    /// `/`, `/hit` and every path not named below: one counted hit.
    Hit,
    /// `/dashboard`: the dashboard page.
    Dashboard,
    /// `/dashboard/metrics` and `/metrics`: the metrics as JSON.
    Metrics,
    /// `/static/app.js`.
    Script,
    /// `/static/styles.css`.
    Styles,
}

pub open spec fn route_of(path: Seq<u8>) -> Route {
    if path == "/dashboard".spec_bytes() {
        Route::Dashboard
    } else if path == "/dashboard/metrics".spec_bytes() || path == "/metrics".spec_bytes() {
        Route::Metrics
    } else if path == "/static/app.js".spec_bytes() {
        Route::Script
    } else if path == "/static/styles.css".spec_bytes() {
        Route::Styles
    } else {
        Route::Hit
    }
}

/// Whether two byte strings are equal.
pub fn bytes_equal(a: &[u8], b: &[u8]) -> (r: bool)
    ensures
        r == (a@ == b@),
{
    if a.len() != b.len() {
        return false;
    }
    let mut i: usize = 0;
    while i < a.len()
        invariant
            a@.len() == b@.len(),
            i <= a@.len(),
            forall|j: int| 0 <= j < i ==> a@[j] == b@[j],
        decreases a@.len() - i,
    {
        if a[i] != b[i] {
            return false;
        }
        i = i + 1;
    }
    assert(a@ =~= b@);
    true
}

/// The path of a request line.
pub fn parse_path(line: &[u8]) -> (r: Option<&[u8]>)
    ensures
        match r {
            Some(p) => request_path(line@) == Some(p@),
            None => request_path(line@) is None,
        },
{
    let n = line.len();
    let first = match memchr(line, SPACE) {
        Some(i) => i,
        None => return None,
    };
    let rest = &line[first + 1..n];
    let second = match memchr(rest, SPACE) {
        Some(i) => i,
        None => return None,
    };
    Some(&rest[0..second])
}

/// ASCII lower case of one byte.
pub fn to_lower(b: u8) -> (r: u8)
    ensures
        r == lower(b),
{
    if 65 <= b && b <= 90 {
        b + 32
    } else {
        b
    }
}

/// Whether `line` begins with `prefix`, ignoring the ASCII case of `line`.
pub fn ascii_starts_with(line: &[u8], prefix: &[u8]) -> (r: bool)
    ensures
        r == starts_with_lowered(line@, prefix@),
{
    if line.len() < prefix.len() {
        return false;
    }
    let mut i: usize = 0;
    while i < prefix.len()
        invariant
            prefix@.len() <= line@.len(),
            i <= prefix@.len(),
            forall|j: int| 0 <= j < i ==> lower(line@[j]) == prefix@[j],
        decreases prefix@.len() - i,
    {
        if to_lower(line[i]) != prefix[i] {
            return false;
        }
        i = i + 1;
    }
    true
}

/// Whether some header line of `buf` is `Connection: close`, in any ASCII case.
pub fn header_has_connection_close(buf: &[u8]) -> (r: bool)
    ensures
        r == asks_close(buf@),
{
    let prefix = "connection: close".as_bytes();
    let n = buf.len();
    let mut start: usize = 0;
    while start < n
        invariant
            n == buf@.len(),
            prefix@ == connection_close(),
            start <= n,
            start == 0 || start == n || buf@[start - 1] == 10u8,
            forall|k: int|
                0 <= k < start && #[trigger] line_start(buf@, k) ==> !starts_with_lowered(
                    buf@.subrange(k, n as int),
                    connection_close(),
                ),
        decreases n - start,
    {
        let tail = &buf[start..n];
        let end = match memchr(tail, 10u8) {
            Some(pos) => {
                assert(tail@[pos as int] == buf@[start + pos]);
                start + pos + 1
            },
            None => n,
        };
        let line = &buf[start..end];
        if ascii_starts_with(line, prefix) {
            proof {
                assert(line_start(buf@, start as int));
                let whole = buf@.subrange(start as int, n as int);
                assert forall|i: int| 0 <= i < prefix@.len() implies lower(whole[i]) == prefix@[i] by {
                    assert(whole[i] == line@[i]);
                }
            }
            return true;
        }
        proof {
            // No other line begins between `start` and `end`.
            assert forall|k: int| start < k < end && #[trigger] line_start(buf@, k) implies false by {
                assert(tail@[k - 1 - start] == buf@[k - 1]);
            }
            // The line at `start` does not begin with the prefix.
            let whole = buf@.subrange(start as int, n as int);
            if starts_with_lowered(whole, connection_close()) {
                if line@.len() >= prefix@.len() {
                    assert forall|i: int| 0 <= i < prefix@.len() implies lower(line@[i]) == prefix@[i] by {
                        assert(whole[i] == line@[i]);
                    }
                } else {
                    // The line ends at a `\n` within the prefix's length, where the prefix has none.
                    let j = line@.len() - 1;
                    assert(whole[j] == 10u8);
                    assert(prefix@[j] != 10u8) by {
                        reveal_strlit("connection: close");
                        vstd::string::is_ascii_spec_bytes("connection: close");
                    }
                }
            }
        }
        start = end;
    }
    proof {
        if asks_close(buf@) {
            let k = choose|k: int| #[trigger] line_start(buf@, k) && starts_with_lowered(buf@.subrange(k, buf@.len() as int), connection_close());
        }
    }
    false
}

/// Whether `path` names one of the dashboard's own resources rather than a hit.
pub fn is_control_path(path: &[u8]) -> (r: bool)
    ensures
        r == (route_of(path@) != Route::Hit),
{
    !matches!(route(path), Route::Hit)
}

/// Where the request for `path` is sent.
pub fn route(path: &[u8]) -> (r: Route)
    ensures
        r == route_of(path@),
{
    if bytes_equal(path, "/dashboard".as_bytes()) {
        Route::Dashboard
    } else if bytes_equal(path, "/dashboard/metrics".as_bytes()) || bytes_equal(path, "/metrics".as_bytes()) {
        Route::Metrics
    } else if bytes_equal(path, "/static/app.js".as_bytes()) {
        Route::Script
    } else if bytes_equal(path, "/static/styles.css".as_bytes()) {
        Route::Styles
    } else {
        Route::Hit
    }
}

/// The path read from a request line holds no space.
pub proof fn law_path_has_no_space(line: Seq<u8>)
    ensures
        request_path(line) matches Some(p) ==> forall|i: int| 0 <= i < p.len() ==> p[i] != SPACE,
{
    crate::scan::lemma_position_of(line, SPACE);
    if let Some(first) = position_of(line, SPACE) {
        let rest = line.subrange(first + 1, line.len() as int);
        crate::scan::lemma_position_of(rest, SPACE);
    }
}

/// `/hit` is served as `/` is, and any path the dashboard does not own is a hit; `/metrics`
/// serves the same document as `/dashboard/metrics`.
pub proof fn law_route_aliases(other: Seq<u8>)
    ensures
        route_of("/".spec_bytes()) == Route::Hit,
        route_of("/hit".spec_bytes()) == Route::Hit,
        route_of("/metrics".spec_bytes()) == Route::Metrics,
        route_of("/dashboard/metrics".spec_bytes()) == Route::Metrics,
        route_of("/dashboard".spec_bytes()) == Route::Dashboard,
        other != "/dashboard".spec_bytes() && other != "/dashboard/metrics".spec_bytes() && other
            != "/metrics".spec_bytes() && other != "/static/app.js".spec_bytes() && other
            != "/static/styles.css".spec_bytes() ==> route_of(other) == Route::Hit,
{
    reveal_strlit("/");
    reveal_strlit("/hit");
    reveal_strlit("/metrics");
    reveal_strlit("/dashboard");
    reveal_strlit("/dashboard/metrics");
    reveal_strlit("/static/app.js");
    reveal_strlit("/static/styles.css");
    vstd::string::is_ascii_spec_bytes("/");
    vstd::string::is_ascii_spec_bytes("/hit");
    vstd::string::is_ascii_spec_bytes("/metrics");
    vstd::string::is_ascii_spec_bytes("/dashboard");
    vstd::string::is_ascii_spec_bytes("/dashboard/metrics");
    vstd::string::is_ascii_spec_bytes("/static/app.js");
    vstd::string::is_ascii_spec_bytes("/static/styles.css");
    assert("/hit".spec_bytes()[1] != "/metrics".spec_bytes()[1]);
}

} // verus!
