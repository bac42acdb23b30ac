//! One client connection: the bytes it has sent and not yet been answered, the replies
//! waiting to be written, and the hits it counts before handing them to the shared counters.
use vstd::prelude::*;
use vstd::string::StringSliceAdditionalSpecFns;
use crate::metrics::{
    counted, lemma_counted, lemma_counted_exact, lemma_sum_nonneg, lemma_wrapping_add,
    modulus, Metrics,
    Tally,
};
use crate::request::{
    asks_close, header_has_connection_close, is_control_path, parse_path, request_path, route,
    route_of, Route,
};
use crate::response::{
    make_response, ok_response, Assets, BAD_REQUEST_RESPONSE, HIT_CLOSE_RESPONSE, HIT_RESPONSE,
    JSON_CONTENT_TYPE,
};
use crate::scan::{
    crlf_crlf, find_header_end, find_lf, find_seq, head_end, lemma_head_end_bounds, line_end,
};

verus! {

/// A client connection's state, apart from its socket.
pub struct Conn {
    /// Received bytes not yet consumed by a request.
    pub input: Vec<u8>,
    /// Reply bytes not yet written.
    pub output: Vec<u8>,
    /// The second that the hits in `local_hits` belong to; zero before the first.
    pub local_sec: i64,
    /// Hits counted here and not yet added to the shared counters.
    pub local_hits: u64,
    /// The counter shard this connection counts into.
    pub shard: usize,
    /// Whether the socket is registered for writability.
    pub wants_write: bool,
    /// Whether the connection is closed once its replies are written.
    pub close_after_write: bool,
}

/// How a run of request processing stopped.
pub enum Ending {
    /// The input holds no complete request head yet.
    Waiting,
    /// The first line held no path: `400 Bad Request`, then close.
    BadRequest,
    /// A hit answered at once with `Connection: close`, headers unread.
    ClosedHit,
    /// A request asked for `Connection: close`.
    Closed,
    /// A metrics request waits for its document.
    MetricsDue { close: bool },
}

/// What a run of request processing does with the input it is given: the routes of the
/// requests it answers in order, the request lines it counts, how it stops, and the input
/// left over.
pub struct Run {
    pub routes: Seq<Route>,
    pub lines: nat,
    pub ending: Ending,
    pub rest: Seq<u8>,
}

/// What the caller does after `process_requests`.
#[derive(PartialEq, Eq, Structural, Clone, Copy, Debug)]
pub enum Progress {
    /// Nothing more to do until more input arrives or the replies are written.
    Done,
    /// The metrics document is due: frame it with `finish_metrics_request`.
    MetricsRequested { close_requested: bool },
}

/// What the front of a connection's input holds.
#[derive(PartialEq, Eq, Structural, Clone, Copy, Debug)]
pub enum Parsed {
    /// No complete request yet; `line_read` tells whether a request line was read.
    NeedMore { line_read: bool },
    /// The first line holds no path.
    BadRequest,
    /// A hit to be answered at once and closed, its head unread.
    ClosedHit,
    /// A complete request head of `head_len` bytes.
    Request { target: Route, close_requested: bool, head_len: usize },
}

/// What the front of `input` holds: the first line gives the path, and unless a hit is to be
/// answered at once the request waits for the blank line that ends its head.
pub open spec fn request_step(input: Seq<u8>, close_after_hit: bool) -> Parsed {
    match line_end(input) {
        None => Parsed::NeedMore { line_read: false },
        Some(le) => match request_path(input.subrange(0, le)) {
            None => Parsed::BadRequest,
            Some(path) => if close_after_hit && route_of(path) == Route::Hit {
                Parsed::ClosedHit
            } else {
                match head_end(input) {
                    None => Parsed::NeedMore { line_read: true },
                    Some(he) => Parsed::Request {
                        target: route_of(path),
                        close_requested: asks_close(input.subrange(0, he)),
                        head_len: he as usize,
                    },
                }
            },
        },
    }
}

pub proof fn lemma_request_step_bounds(input: Seq<u8>, close_after_hit: bool)
    requires
        input.len() <= usize::MAX,
    ensures
        request_step(input, close_after_hit) matches Parsed::Request { head_len, .. } ==> 2
            <= head_len <= input.len(),
{
    lemma_head_end_bounds(input);
}

/// The requests that the server answers from `input`, in order, until it must wait for more
/// input, close the connection, or produce the metrics document.
#[verifier::opaque]
pub open spec fn run(input: Seq<u8>, close_after_hit: bool) -> Run
    decreases input.len() when input.len() <= usize::MAX
{
    match request_step(input, close_after_hit) {
        Parsed::NeedMore { line_read } => Run {
            routes: seq![],
            lines: if line_read {
                1nat
            } else {
                0nat
            },
            ending: Ending::Waiting,
            rest: input,
        },
        Parsed::BadRequest => Run { routes: seq![], lines: 0, ending: Ending::BadRequest, rest: seq![] },
        Parsed::ClosedHit => Run { routes: seq![], lines: 1, ending: Ending::ClosedHit, rest: seq![] },
        Parsed::Request { target, close_requested, head_len } => {
            proof {
                lemma_request_step_bounds(input, close_after_hit);
            }
            let after = input.subrange(head_len as int, input.len() as int);
            if target == Route::Metrics {
                Run {
                    routes: seq![target],
                    lines: 1,
                    ending: Ending::MetricsDue { close: close_requested },
                    rest: after,
                }
            } else if close_requested {
                Run { routes: seq![target], lines: 1, ending: Ending::Closed, rest: seq![] }
            } else {
                let tail = run(after, close_after_hit);
                Run {
                    routes: seq![target] + tail.routes,
                    lines: 1 + tail.lines,
                    ending: tail.ending,
                    rest: tail.rest,
                }
            }
        },
    }
}

/// One step of `run` when the input holds no complete request.
proof fn lemma_run_stop(input: Seq<u8>, close_after_hit: bool)
    requires
        input.len() <= usize::MAX,
        !(request_step(input, close_after_hit) is Request),
    ensures
        run(input, close_after_hit) == match request_step(input, close_after_hit) {
            Parsed::NeedMore { line_read } => Run {
                routes: seq![],
                lines: if line_read {
                    1nat
                } else {
                    0nat
                },
                ending: Ending::Waiting,
                rest: input,
            },
            Parsed::BadRequest => Run { routes: seq![], lines: 0, ending: Ending::BadRequest, rest: seq![] },
            _ => Run { routes: seq![], lines: 1, ending: Ending::ClosedHit, rest: seq![] },
        },
{
    reveal(run);
}

/// One step of `run` when the input starts with a complete request head.
proof fn lemma_run_request(input: Seq<u8>, close_after_hit: bool)
    requires
        input.len() <= usize::MAX,
        request_step(input, close_after_hit) is Request,
    ensures
        ({
            let step = request_step(input, close_after_hit);
            let target = step->target;
            let close = step->close_requested;
            let after = input.subrange(step->head_len as int, input.len() as int);
            let r = run(input, close_after_hit);
            &&& 2 <= step->head_len <= input.len()
            &&& r.lines == 1 + if target == Route::Metrics || close {
                0nat
            } else {
                run(after, close_after_hit).lines
            }
            &&& target == Route::Metrics ==> r == Run {
                routes: seq![target],
                lines: 1,
                ending: Ending::MetricsDue { close },
                rest: after,
            }
            &&& target != Route::Metrics && close ==> r == Run {
                routes: seq![target],
                lines: 1,
                ending: Ending::Closed,
                rest: seq![],
            }
            &&& target != Route::Metrics && !close ==> {
                &&& r.routes == seq![target] + run(after, close_after_hit).routes
                &&& r.ending == run(after, close_after_hit).ending
                &&& r.rest == run(after, close_after_hit).rest
            }
        }),
{
    reveal(run);
    lemma_request_step_bounds(input, close_after_hit);
}

/// The reply to a request of route `r`; the metrics document is framed apart.
pub open spec fn route_reply(r: Route, assets: &Assets) -> Seq<u8> {
    match r {
        Route::Hit => HIT_RESPONSE.spec_bytes(),
        Route::Dashboard => assets.index@,
        Route::Metrics => seq![],
        Route::Script => assets.js@,
        Route::Styles => assets.css@,
    }
}

/// The replies to requests of routes `routes`, in order.
pub open spec fn replies(routes: Seq<Route>, assets: &Assets) -> Seq<u8>
    decreases routes.len(),
{
    if routes.len() == 0 {
        seq![]
    } else {
        replies(routes.drop_last(), assets) + route_reply(routes.last(), assets)
    }
}

/// The reply that a run's ending adds.
pub open spec fn ending_reply(e: Ending) -> Seq<u8> {
    match e {
        Ending::BadRequest => BAD_REQUEST_RESPONSE.spec_bytes(),
        Ending::ClosedHit => HIT_CLOSE_RESPONSE.spec_bytes(),
        _ => seq![],
    }
}

/// Whether a run's ending closes the connection once the replies are written.
pub open spec fn ending_closes(e: Ending) -> bool {
    match e {
        Ending::BadRequest | Ending::ClosedHit | Ending::Closed => true,
        _ => false,
    }
}

/// The number of counted hits among `routes`.
pub open spec fn hit_count(routes: Seq<Route>) -> nat
    decreases routes.len(),
{
    if routes.len() == 0 {
        0
    } else {
        hit_count(routes.drop_last()) + if routes.last() == Route::Hit {
            1nat
        } else {
            0nat
        }
    }
}

/// The hits counted by a run: one per hit answered, and the hit answered at once.
pub open spec fn run_hits(r: Run) -> nat {
    hit_count(r.routes) + if r.ending is ClosedHit {
        1nat
    } else {
        0nat
    }
}

proof fn lemma_replies_push(routes: Seq<Route>, r: Route, assets: &Assets)
    ensures
        replies(routes.push(r), assets) == replies(routes, assets) + route_reply(r, assets),
        hit_count(routes.push(r)) == hit_count(routes) + if r == Route::Hit {
            1nat
        } else {
            0nat
        },
{
    assert(routes.push(r).drop_last() =~= routes);
}

/// The counts that a connection's hits go to: the shared counts, and the hits it holds with
/// their second.
pub struct Counts {
    pub tally: Tally,
    pub sec: i64,
    pub hits: u64,
}

pub open spec fn counts(m: &Metrics, c: &Conn) -> Counts {
    Counts { tally: m.tally(), sec: c.local_sec, hits: c.local_hits }
}

/// The second that the held hits of `c` belong to, when a hit comes in second `now`.
pub open spec fn held_second(c: Counts, now: i64) -> i64 {
    if c.sec == 0 {
        now
    } else {
        c.sec
    }
}

/// The held hits that must first be handed over to their own, earlier second.
pub open spec fn stale_hits(c: Counts, now: i64) -> u64 {
    if held_second(c, now) != now {
        c.hits
    } else {
        0u64
    }
}

/// The held hits of the current second, the new one included.
pub open spec fn fresh_hits(c: Counts, now: i64) -> int {
    if held_second(c, now) != now {
        1
    } else {
        c.hits + 1
    }
}

/// `post` follows from `pre` by one hit of `shard` in second `now`, counted in batches of
/// `flush_every`: hits held for an earlier second are first handed over in that second; the
/// new hit joins the held ones of the current second, and all of them are handed over once
/// `flush_every` have gathered.
pub open spec fn batched_hit(pre: Counts, post: Counts, shard: int, now: i64, flush_every: u64) -> bool {
    &&& post.sec == now
    &&& if fresh_hits(pre, now) >= flush_every {
        &&& post.hits == 0
        &&& exists|mid: Tally|
            #[trigger] counted(pre.tally, mid, shard, held_second(pre, now), stale_hits(pre, now))
                && counted(mid, post.tally, shard, now, fresh_hits(pre, now) as u64)
    } else {
        &&& post.hits == fresh_hits(pre, now)
        &&& counted(pre.tally, post.tally, shard, held_second(pre, now), stale_hits(pre, now))
    }
}

/// Room for one more held hit where hits are held (`flush_every` above one).
pub open spec fn hits_room(c: &Conn, flush_every: u64) -> bool {
    flush_every <= 1 || c.local_hits < u64::MAX
}

/// The counters can take every hit that answering requests on `c` counts: neither the current
/// second nor that of the held hits is negative, and the buckets of `c`'s shard for them are
/// free.
pub open spec fn ready(m: &Metrics, c: &Conn) -> bool {
    &&& m.current_sec >= 0
    &&& c.local_sec >= 0
    &&& m.bucket_free(c.shard as int, m.current_sec)
    &&& c.local_hits > 0 ==> m.bucket_free(c.shard as int, c.local_sec)
}

impl Conn {
    /// A fresh connection counting into `shard`.
    pub fn new(shard: usize) -> (r: Conn)
        ensures
            r.input@ == Seq::<u8>::empty(),
            r.output@ == Seq::<u8>::empty(),
            r.local_sec == 0,
            r.local_hits == 0,
            r.shard == shard,
            !r.wants_write,
            !r.close_after_write,
    {
        Conn {
            input: Vec::new(),
            output: Vec::new(),
            local_sec: 0,
            local_hits: 0,
            shard,
            wants_write: false,
            close_after_write: false,
        }
    }

    /// The connection's state apart from its pending hits is that of `other`.
    pub open spec fn same_io(&self, other: &Conn) -> bool {
        &&& self.input@ == other.input@
        &&& self.output@ == other.output@
        &&& self.shard == other.shard
        &&& self.wants_write == other.wants_write
        &&& self.close_after_write == other.close_after_write
    }

    /// Hands the pending hits to the shared counters, in their own second.
    pub fn flush(&mut self, metrics: &mut Metrics)
        requires
            old(metrics).wf(),
            old(self).local_hits > 0 ==> old(metrics).bucket_free(
                old(self).shard as int,
                old(self).local_sec,
            ),
        ensures
            final(metrics).wf(),
            old(self).local_sec >= 0 ==> final(metrics).keeps_free(old(metrics)),
            final(metrics).same_gauges(old(metrics)),
            final(self).same_io(old(self)),
            final(self).local_sec == old(self).local_sec,
            final(self).local_hits == 0,
            counted(
                old(metrics).tally(),
                final(metrics).tally(),
                old(self).shard as int,
                old(self).local_sec,
                old(self).local_hits,
            ),
            // No pending hit is lost or counted twice ...
            (final(metrics).total_hits() + final(self).local_hits) % modulus() == (
            old(metrics).total_hits() + old(self).local_hits) % modulus(),
            // ... and while the total stays below 2^64 none wraps.
            old(metrics).total_hits() + old(self).local_hits < modulus()
                ==> final(metrics).total_hits() == old(metrics).total_hits() + old(self).local_hits,
    {
        if self.local_hits > 0 {
            metrics.add(self.shard, self.local_sec, self.local_hits);
            proof {
                if old(metrics).total_hits() + old(self).local_hits < modulus() {
                    lemma_counted_exact(
                        old(metrics).tally(),
                        metrics.tally(),
                        self.shard as int,
                        self.local_sec,
                        self.local_hits,
                    );
                }
            }
            self.local_hits = 0;
        } else {
            proof {
                lemma_counted(old(metrics), metrics, self.shard as int, self.local_sec, 0);
                assert(metrics.tally() == old(metrics).tally());
            }
        }
    }

    /// Takes leave of the connection: its held hits go to the shared counters in their own
    /// second, and it no longer counts as open.
    pub fn retire(&mut self, metrics: &mut Metrics)
        requires
            old(metrics).wf(),
            old(self).local_hits > 0 ==> old(metrics).bucket_free(
                old(self).shard as int,
                old(self).local_sec,
            ),
        ensures
            final(metrics).wf(),
            old(self).local_sec >= 0 ==> final(metrics).keeps_free(old(metrics)),
            final(self).same_io(old(self)),
            final(self).local_sec == old(self).local_sec,
            final(self).local_hits == 0,
            final(metrics).active_conns == old(metrics).active_conns.wrapping_sub(1),
            final(metrics).started == old(metrics).started,
            final(metrics).current_sec == old(metrics).current_sec,
            final(metrics).accepted_conns == old(metrics).accepted_conns,
            final(metrics).request_lines == old(metrics).request_lines,
            final(metrics).parse_errors == old(metrics).parse_errors,
            final(metrics).max_conns == old(metrics).max_conns,
            final(metrics).worker_count == old(metrics).worker_count,
            counted(
                old(metrics).tally(),
                final(metrics).tally(),
                old(self).shard as int,
                old(self).local_sec,
                old(self).local_hits,
            ),
            // The held hits are counted, none lost or counted twice.
            final(metrics).total_hits() % modulus() == (old(metrics).total_hits()
                + old(self).local_hits) % modulus(),
    {
        self.flush(metrics);
        metrics.close_connection();
    }

    /// Counts one hit. With `flush_every` at most one it goes straight to the shared
    /// counters in the current second; otherwise it is held here, and the held hits are
    /// handed over when the second changes or when `flush_every` of them have gathered.
    #[verifier::spinoff_prover]
    #[verifier::rlimit(40)]
    pub fn count_hit(&mut self, metrics: &mut Metrics, flush_every: u64)
        requires
            old(metrics).wf(),
            ready(old(metrics), old(self)),
            hits_room(old(self), flush_every),
        ensures
            final(metrics).wf(),
            ready(final(metrics), final(self)),
            hits_room(final(self), flush_every),
            final(metrics).same_gauges(old(metrics)),
            final(self).same_io(old(self)),
            // Every hit is counted exactly once, here or in the shared counters ...
            (final(metrics).total_hits() + final(self).local_hits) % modulus() == (
            old(metrics).total_hits() + old(self).local_hits + 1) % modulus(),
            // ... and while the total stays below 2^64 no count wraps.
            old(metrics).total_hits() + old(self).local_hits + 1 < modulus()
                ==> final(metrics).total_hits() + final(self).local_hits
                == old(metrics).total_hits() + old(self).local_hits + 1,
            flush_every <= 1 ==> final(self).local_hits == old(self).local_hits
                && final(self).local_sec == old(self).local_sec && counted(
                old(metrics).tally(),
                final(metrics).tally(),
                old(self).shard as int,
                old(metrics).current_sec,
                1,
            ),
            flush_every > 1 ==> final(self).local_hits < flush_every && batched_hit(
                counts(old(metrics), old(self)),
                counts(final(metrics), final(self)),
                old(self).shard as int,
                old(metrics).current_sec,
                flush_every,
            ),
    {
        if flush_every <= 1 {
            let now = metrics.current_sec;
            metrics.add(self.shard, now, 1);
            proof {
                if old(metrics).total_hits() + old(self).local_hits + 1 < modulus() {
                    lemma_sum_nonneg(old(metrics).total_shards@);
                    lemma_counted_exact(old(metrics).tally(), metrics.tally(), self.shard as int, now, 1);
                }
                vstd::arithmetic::div_mod::lemma_add_mod_noop_right(
                    old(metrics).total_hits() + old(self).local_hits,
                    0,
                    modulus(),
                );
                vstd::arithmetic::div_mod::lemma_add_mod_noop(
                    old(metrics).total_hits(),
                    1,
                    modulus(),
                );
                vstd::arithmetic::div_mod::lemma_add_mod_noop(
                    metrics.total_hits(),
                    self.local_hits as int,
                    modulus(),
                );
                vstd::arithmetic::div_mod::lemma_add_mod_noop(
                    old(metrics).total_hits() + 1,
                    self.local_hits as int,
                    modulus(),
                );
            }
            return;
        }
        let ghost start = counts(metrics, self);
        let sec = metrics.current_sec;
        if self.local_sec == 0 {
            self.local_sec = sec;
        }
        if sec != self.local_sec {
            self.flush(metrics);
            self.local_sec = sec;
        }
        let ghost mid = metrics.tally();
        assert(counted(start.tally, mid, self.shard as int, held_second(start, sec), stale_hits(start, sec)));
        self.local_hits = self.local_hits + 1;
        assert(self.local_hits == fresh_hits(start, sec));
        if self.local_hits >= flush_every {
            self.flush(metrics);
            assert(counted(mid, metrics.tally(), self.shard as int, sec, fresh_hits(start, sec) as u64));
        }
    }
}

/// Appends `bytes` to the replies waiting to be written.
pub fn queue(conn: &mut Conn, bytes: &[u8])
    ensures
        final(conn).output@ == old(conn).output@ + bytes@,
        final(conn).input@ == old(conn).input@,
        final(conn).local_sec == old(conn).local_sec,
        final(conn).local_hits == old(conn).local_hits,
        final(conn).shard == old(conn).shard,
        final(conn).wants_write == old(conn).wants_write,
        final(conn).close_after_write == old(conn).close_after_write,
{
    conn.output.extend_from_slice(bytes);
    assert(conn.output@ =~= old(conn).output@ + bytes@);
}

/// Reads what the front of `input` holds.
pub fn read_request(input: &[u8], close_after_hit: bool) -> (p: Parsed)
    ensures
        p == request_step(input@, close_after_hit),
{
    let line_end = match find_lf(input) {
        Some(e) => e,
        None => return Parsed::NeedMore { line_read: false },
    };
    let (control, target) = match parse_path(&input[0..line_end]) {
        Some(path) => (is_control_path(path), route(path)),
        None => return Parsed::BadRequest,
    };
    if close_after_hit && !control {
        return Parsed::ClosedHit;
    }
    let head_len = match find_header_end(input) {
        Some(h) => h,
        None => return Parsed::NeedMore { line_read: true },
    };
    let close_requested = header_has_connection_close(&input[0..head_len]);
    Parsed::Request { target, close_requested, head_len }
}

/// The reply to a request of route `r` that is not the metrics document.
fn reply_for<'a>(r: Route, assets: &'a Assets) -> (b: &'a [u8])
    requires
        r != Route::Metrics,
    ensures
        b@ == route_reply(r, assets),
{
    match r {
        Route::Hit => HIT_RESPONSE.as_bytes(),
        Route::Dashboard => assets.index.as_slice(),
        Route::Script => assets.js.as_slice(),
        Route::Styles => assets.css.as_slice(),
        Route::Metrics => HIT_RESPONSE.as_bytes(),
    }
}

/// What answering a request of route `r` on a connection of shard `shard` in second `now`
/// does to its counts: a hit is counted (at once with `flush_every` at most one, else in
/// batches); the dashboard page and the metrics document first hand the held hits over to
/// their second; the other files change nothing.
pub open spec fn route_effect(pre: Counts, post: Counts, shard: int, now: i64, r: Route, flush_every: u64) -> bool {
    match r {
        Route::Hit => if flush_every <= 1 {
            &&& post.hits == pre.hits
            &&& post.sec == pre.sec
            &&& counted(pre.tally, post.tally, shard, now, 1)
        } else {
            batched_hit(pre, post, shard, now, flush_every)
        },
        Route::Dashboard | Route::Metrics => {
            &&& post.hits == 0
            &&& post.sec == pre.sec
            &&& counted(pre.tally, post.tally, shard, pre.sec, pre.hits)
        },
        _ => post == pre,
    }
}

/// `trace` follows the counts through answering requests of routes `routes` in turn: each
/// request takes its counts from the one point of `trace` to the next.
pub open spec fn effect_trace(trace: Seq<Counts>, shard: int, now: i64, routes: Seq<Route>, flush_every: u64) -> bool {
    &&& trace.len() == routes.len() + 1
    &&& forall|i: int|
        #![trigger routes[i]]
        0 <= i < routes.len() ==> route_effect(trace[i], trace[i + 1], shard, now, routes[i], flush_every)
}

/// What a run's ending does to the counts: a hit answered at once is counted at once.
pub open spec fn ending_effect(pre: Counts, post: Counts, shard: int, now: i64, e: Ending) -> bool {
    &&& post.hits == pre.hits
    &&& post.sec == pre.sec
    &&& if e is ClosedHit {
        counted(pre.tally, post.tally, shard, now, 1)
    } else {
        post.tally == pre.tally
    }
}

/// Answers a request of route `target` other than the metrics document: a hit is counted,
/// the dashboard page first hands over the pending hits, and the reply is queued.
fn answer(conn: &mut Conn, metrics: &mut Metrics, assets: &Assets, target: Route, flush_every: u64)
    requires
        old(metrics).wf(),
        ready(old(metrics), old(conn)),
        hits_room(old(conn), flush_every),
        target != Route::Metrics,
    ensures
        final(metrics).wf(),
        ready(final(metrics), final(conn)),
        final(metrics).same_gauges(old(metrics)),
        final(conn).output@ == old(conn).output@ + route_reply(target, assets),
        final(conn).input@ == old(conn).input@,
        final(conn).shard == old(conn).shard,
        final(conn).wants_write == old(conn).wants_write,
        final(conn).close_after_write == old(conn).close_after_write,
        hits_room(final(conn), flush_every),
        (final(metrics).total_hits() + final(conn).local_hits) % modulus() == (old(metrics).total_hits()
            + old(conn).local_hits + if target == Route::Hit {
            1int
        } else {
            0int
        }) % modulus(),
        route_effect(
            counts(old(metrics), old(conn)),
            counts(final(metrics), final(conn)),
            old(conn).shard as int,
            old(metrics).current_sec,
            target,
            flush_every,
        ),
{
    match target {
        Route::Hit => {
            conn.count_hit(metrics, flush_every);
        },
        Route::Dashboard => {
            conn.flush(metrics);
        },
        _ => {
            proof {
                vstd::arithmetic::div_mod::lemma_mod_twice(0, modulus());
            }
        },
    }
    queue(conn, reply_for(target, assets));
}

/// `post_m` and `post_c` keep what processing a request leaves alone in `pre_m` and `pre_c`.
pub open spec fn keeps_frame(pre_m: &Metrics, post_m: &Metrics, pre_c: &Conn, post_c: &Conn) -> bool {
    &&& post_m.wf()
    &&& post_m.started == pre_m.started
    &&& post_m.current_sec == pre_m.current_sec
    &&& post_m.active_conns == pre_m.active_conns
    &&& post_m.accepted_conns == pre_m.accepted_conns
    &&& post_m.max_conns == pre_m.max_conns
    &&& post_m.worker_count == pre_m.worker_count
    &&& post_c.shard == pre_c.shard
    &&& post_c.wants_write == pre_c.wants_write
}

/// The counts after one step: request lines grow by `lines`, parse errors by `errors`, and
/// the hits (shared and pending) by `hits`, all modulo 2^64.
pub open spec fn counts_step(
    pre_m: &Metrics,
    post_m: &Metrics,
    pre_c: &Conn,
    post_c: &Conn,
    lines: int,
    errors: int,
    hits: int,
) -> bool {
    &&& post_m.request_lines as int == (pre_m.request_lines + lines) % modulus()
    &&& post_m.parse_errors as int == (pre_m.parse_errors + errors) % modulus()
    &&& (post_m.total_hits() + post_c.local_hits) % modulus() == (pre_m.total_hits()
        + pre_c.local_hits + hits) % modulus()
}

/// Counting two steps in turn counts their sums.
proof fn lemma_counts_compose(
    m0: &Metrics,
    m1: &Metrics,
    m2: &Metrics,
    c0: &Conn,
    c1: &Conn,
    c2: &Conn,
    l1: int,
    e1: int,
    h1: int,
    l2: int,
    e2: int,
    h2: int,
)
    requires
        counts_step(m0, m1, c0, c1, l1, e1, h1),
        counts_step(m1, m2, c1, c2, l2, e2, h2),
    ensures
        counts_step(m0, m2, c0, c2, l1 + l2, e1 + e2, h1 + h2),
{
    let m = modulus();
    vstd::arithmetic::div_mod::lemma_add_mod_noop(m0.request_lines + l1, l2, m);
    vstd::arithmetic::div_mod::lemma_mod_twice(m0.request_lines + l1, m);
    vstd::arithmetic::div_mod::lemma_add_mod_noop(m0.parse_errors + e1, e2, m);
    vstd::arithmetic::div_mod::lemma_mod_twice(m0.parse_errors + e1, m);
    vstd::arithmetic::div_mod::lemma_add_mod_noop(m1.total_hits() + c1.local_hits, h2, m);
    vstd::arithmetic::div_mod::lemma_add_mod_noop(m0.total_hits() + c0.local_hits + h1, h2, m);
    vstd::arithmetic::div_mod::lemma_mod_twice(h2, m);
}

/// Deals with what the front of the connection's input holds, as `request_step` reads it.
/// Returns `None` where the next request may follow at once.
#[verifier::rlimit(80)]
fn serve_front(
    conn: &mut Conn,
    metrics: &mut Metrics,
    assets: &Assets,
    close_after_hit: bool,
    flush_every: u64,
) -> (o: Option<Progress>)
    requires
        old(metrics).wf(),
        ready(old(metrics), old(conn)),
        hits_room(old(conn), flush_every),
    ensures
        keeps_frame(old(metrics), final(metrics), old(conn), final(conn)),
        ready(final(metrics), final(conn)),
        hits_room(final(conn), flush_every),
        match request_step(old(conn).input@, close_after_hit) {
            Parsed::NeedMore { line_read } => {
                &&& o == Some(Progress::Done)
                &&& ending_effect(counts(old(metrics), old(conn)), counts(final(metrics), final(conn)), old(conn).shard as int, old(metrics).current_sec, Ending::Waiting)
                &&& counts_step(old(metrics), final(metrics), old(conn), final(conn),
                    if line_read { 1int } else { 0int }, 0, 0)
                &&& final(conn).input@ == old(conn).input@
                &&& final(conn).output@ == old(conn).output@
                &&& final(conn).close_after_write == old(conn).close_after_write
            },
            Parsed::BadRequest => {
                &&& o == Some(Progress::Done)
                &&& ending_effect(counts(old(metrics), old(conn)), counts(final(metrics), final(conn)), old(conn).shard as int, old(metrics).current_sec, Ending::BadRequest)
                &&& counts_step(old(metrics), final(metrics), old(conn), final(conn), 0, 1, 0)
                &&& final(conn).input@ == Seq::<u8>::empty()
                &&& final(conn).output@ == old(conn).output@ + BAD_REQUEST_RESPONSE.spec_bytes()
                &&& final(conn).close_after_write
            },
            Parsed::ClosedHit => {
                &&& o == Some(Progress::Done)
                &&& ending_effect(counts(old(metrics), old(conn)), counts(final(metrics), final(conn)), old(conn).shard as int, old(metrics).current_sec, Ending::ClosedHit)
                &&& counts_step(old(metrics), final(metrics), old(conn), final(conn), 1, 0, 1)
                &&& final(conn).input@ == Seq::<u8>::empty()
                &&& final(conn).output@ == old(conn).output@ + HIT_CLOSE_RESPONSE.spec_bytes()
                &&& final(conn).close_after_write
            },
            Parsed::Request { target, close_requested, head_len } => {
                &&& route_effect(counts(old(metrics), old(conn)), counts(final(metrics), final(conn)), old(conn).shard as int, old(metrics).current_sec, target, flush_every)
                &&& counts_step(old(metrics), final(metrics), old(conn), final(conn), 1, 0,
                    if target == Route::Hit { 1int } else { 0int })
                &&& final(conn).output@ == old(conn).output@ + route_reply(target, assets)
                &&& if target == Route::Metrics {
                    &&& o == Some(Progress::MetricsRequested { close_requested })
                    &&& final(conn).input@ == old(conn).input@.subrange(head_len as int, old(conn).input@.len() as int)
                    &&& final(conn).close_after_write == old(conn).close_after_write
                } else if close_requested {
                    &&& o == Some(Progress::Done)
                    &&& final(conn).input@ == Seq::<u8>::empty()
                    &&& final(conn).close_after_write
                } else {
                    &&& o is None
                    &&& final(conn).input@ == old(conn).input@.subrange(head_len as int, old(conn).input@.len() as int)
                    &&& final(conn).close_after_write == old(conn).close_after_write
                }
            },
        },
{
    let _ = conn.input.len();
    proof {
        lemma_request_step_bounds(conn.input@, close_after_hit);
        vstd::arithmetic::div_mod::lemma_mod_twice(0, modulus());
        lemma_wrapping_add(metrics.request_lines, 1);
        lemma_wrapping_add(metrics.parse_errors, 1);
        vstd::arithmetic::div_mod::lemma_small_mod(metrics.request_lines as nat, modulus() as nat);
        vstd::arithmetic::div_mod::lemma_small_mod(metrics.parse_errors as nat, modulus() as nat);
        vstd::arithmetic::div_mod::lemma_add_mod_noop(metrics.total_hits(), conn.local_hits as int, modulus());
    }
    match read_request(conn.input.as_slice(), close_after_hit) {
        Parsed::NeedMore { line_read } => {
            if line_read {
                metrics.request_lines = metrics.request_lines.wrapping_add(1);
            }
            Some(Progress::Done)
        },
        Parsed::BadRequest => {
            metrics.parse_errors = metrics.parse_errors.wrapping_add(1);
            queue(conn, BAD_REQUEST_RESPONSE.as_bytes());
            conn.close_after_write = true;
            conn.input.clear();
            Some(Progress::Done)
        },
        Parsed::ClosedHit => {
            metrics.request_lines = metrics.request_lines.wrapping_add(1);
            let now = metrics.current_sec;
            let ghost m0 = *metrics;
            metrics.add(conn.shard, now, 1);
            proof {
                vstd::arithmetic::div_mod::lemma_add_mod_noop(metrics.total_hits(), conn.local_hits as int, modulus());
                vstd::arithmetic::div_mod::lemma_add_mod_noop(m0.total_hits() + 1, conn.local_hits as int, modulus());
            }
            queue(conn, HIT_CLOSE_RESPONSE.as_bytes());
            conn.close_after_write = true;
            conn.input.clear();
            Some(Progress::Done)
        },
        Parsed::Request { target, close_requested, head_len } => {
            metrics.request_lines = metrics.request_lines.wrapping_add(1);
            let rest = conn.input.split_off(head_len);
            conn.input = rest;
            if target == Route::Metrics {
                conn.flush(metrics);
                return Some(Progress::MetricsRequested { close_requested });
            }
            answer(conn, metrics, assets, target, flush_every);
            if close_requested {
                conn.close_after_write = true;
                conn.input.clear();
                return Some(Progress::Done);
            }
            None
        },
    }
}

/// Answers the complete requests at the front of the connection's input, in order.
///
/// A request line without a path is answered `400 Bad Request` and the connection is closed.
/// With `close_after_hit`, a hit is answered as soon as its request line is complete, and the
/// connection closed. Otherwise each request is answered once its head is complete: a hit is
/// counted, the dashboard's files are served, and for the metrics document the pending hits
/// are handed over and the caller is asked for the document. A head with
/// `Connection: close` closes the connection after its reply. Every complete request line is
/// counted, once per call that reads it.
pub fn process_requests(
    conn: &mut Conn,
    metrics: &mut Metrics,
    assets: &Assets,
    close_after_hit: bool,
    flush_every: u64,
) -> (r: Progress)
    requires
        old(metrics).wf(),
        ready(old(metrics), old(conn)),
        hits_room(old(conn), flush_every),
    ensures
        ({
            let run = run(old(conn).input@, close_after_hit);
            &&& final(conn).output@ == old(conn).output@ + replies(run.routes, assets)
                + ending_reply(run.ending)
            &&& final(conn).input@ == run.rest
            &&& final(conn).close_after_write == (old(conn).close_after_write || ending_closes(
                run.ending,
            ))
            &&& counts_step(old(metrics), final(metrics), old(conn), final(conn), run.lines as int,
                if run.ending is BadRequest { 1int } else { 0int }, run_hits(run) as int)
            &&& r == match run.ending {
                Ending::MetricsDue { close } => Progress::MetricsRequested { close_requested: close },
                _ => Progress::Done,
            }
            // Where each hit goes: the requests' effects in turn, then the ending's.
            &&& exists|trace: Seq<Counts>|
                #[trigger] effect_trace(trace, old(conn).shard as int, old(metrics).current_sec, run.routes, flush_every)
                && trace[0] == counts(old(metrics), old(conn))
                && ending_effect(
                    trace.last(),
                    counts(final(metrics), final(conn)),
                    old(conn).shard as int,
                    old(metrics).current_sec,
                    run.ending,
                )
        }),
        keeps_frame(old(metrics), final(metrics), old(conn), final(conn)),
        ready(final(metrics), final(conn)),
        hits_room(final(conn), flush_every),
{
    let _ = conn.input.len();
    let ghost run0 = run(old(conn).input@, close_after_hit);
    let ghost mut done_routes: Seq<Route> = seq![];
    let ghost mut done_lines: nat = 0;
    let ghost mut trace: Seq<Counts> = seq![counts(metrics, conn)];
    proof {
        vstd::arithmetic::div_mod::lemma_small_mod(metrics.request_lines as nat, modulus() as nat);
        vstd::arithmetic::div_mod::lemma_small_mod(metrics.parse_errors as nat, modulus() as nat);
    }
    loop
        invariant
            keeps_frame(old(metrics), metrics, old(conn), conn),
            ready(metrics, conn),
            hits_room(conn, flush_every),
            conn.close_after_write == old(conn).close_after_write,
            run0 == run(old(conn).input@, close_after_hit),
            ({
                let cur = run(conn.input@, close_after_hit);
                &&& run0.routes == done_routes + cur.routes
                &&& run0.lines == done_lines + cur.lines
                &&& run0.ending == cur.ending
                &&& run0.rest == cur.rest
            }),
            conn.output@ == old(conn).output@ + replies(done_routes, assets),
            counts_step(old(metrics), metrics, old(conn), conn, done_lines as int, 0, hit_count(done_routes) as int),
            effect_trace(trace, old(conn).shard as int, old(metrics).current_sec, done_routes, flush_every),
            trace[0] == counts(old(metrics), old(conn)),
            trace.last() == counts(metrics, conn),
        decreases conn.input@.len(),
    {
        let _ = conn.input.len();
        let ghost input = conn.input@;
        let ghost m0 = *metrics;
        let ghost c0 = *conn;
        proof {
            if request_step(input, close_after_hit) is Request {
                lemma_run_request(input, close_after_hit);
            } else {
                lemma_run_stop(input, close_after_hit);
            }
        }
        let o = serve_front(conn, metrics, assets, close_after_hit, flush_every);
        proof {
            let step = request_step(input, close_after_hit);
            let (l, e, h) = match step {
                Parsed::NeedMore { line_read } => (if line_read { 1int } else { 0int }, 0int, 0int),
                Parsed::BadRequest => (0int, 1int, 0int),
                Parsed::ClosedHit => (1int, 0int, 1int),
                Parsed::Request { target, .. } => (1int, 0int, if target == Route::Hit { 1int } else { 0int }),
            };
            lemma_counts_compose(
                old(metrics), &m0, metrics, old(conn), &c0, conn,
                done_lines as int, 0, hit_count(done_routes) as int, l, e, h,
            );
            let start = counts(old(metrics), old(conn));
            let before = counts(&m0, &c0);
            let after = counts(metrics, conn);
            let shard = old(conn).shard as int;
            let now = old(metrics).current_sec;
            if let Parsed::Request { target, .. } = step {
                lemma_replies_push(done_routes, target, assets);
                assert(route_effect(before, after, shard, now, target, flush_every));
                let longer = done_routes.push(target);
                let next = trace.push(after);
                assert forall|i: int| #![trigger longer[i]] 0 <= i < longer.len() implies route_effect(
                    next[i],
                    next[i + 1],
                    shard,
                    now,
                    longer[i],
                    flush_every,
                ) by {
                    if i < done_routes.len() {
                        assert(longer[i] == done_routes[i]);
                        assert(route_effect(trace[i], trace[i + 1], shard, now, done_routes[i], flush_every));
                    }
                }
                trace = next;
                done_routes = longer;
                done_lines = done_lines + 1;
                if o is Some {
                    assert(ending_effect(after, after, shard, now, run0.ending));
                    assert(effect_trace(trace, shard, now, done_routes, flush_every));
                }
            } else {
                assert(ending_effect(before, after, shard, now, run0.ending));
                assert(effect_trace(trace, shard, now, done_routes, flush_every));
            }
        }
        match o {
            Some(p) => {
                proof {
                    assert(run0.routes =~= done_routes);
                }
                return p;
            },
            None => {},
        }
    }
}

/// Frames `body` as the metrics document's response and queues it. Where the request asked
/// for `Connection: close`, the connection is closed after it and the rest of its input is
/// dropped. Returns whether to go on with the requests that follow.
pub fn finish_metrics_request(conn: &mut Conn, body: &[u8], close_requested: bool) -> (go_on: bool)
    ensures
        final(conn).output@ == old(conn).output@ + ok_response(JSON_CONTENT_TYPE.spec_bytes(), body@),
        final(conn).input@ == if close_requested {
            Seq::<u8>::empty()
        } else {
            old(conn).input@
        },
        final(conn).close_after_write == (old(conn).close_after_write || close_requested),
        final(conn).local_sec == old(conn).local_sec,
        final(conn).local_hits == old(conn).local_hits,
        final(conn).shard == old(conn).shard,
        final(conn).wants_write == old(conn).wants_write,
        go_on == !close_requested,
{
    queue_metrics(conn, body);
    if close_requested {
        conn.close_after_write = true;
        conn.input.clear();
        return false;
    }
    true
}

/// Queues the metrics document `body` as a JSON response.
pub fn queue_metrics(conn: &mut Conn, body: &[u8])
    ensures
        final(conn).output@ == old(conn).output@ + ok_response(JSON_CONTENT_TYPE.spec_bytes(), body@),
        final(conn).input@ == old(conn).input@,
        final(conn).local_sec == old(conn).local_sec,
        final(conn).local_hits == old(conn).local_hits,
        final(conn).shard == old(conn).shard,
        final(conn).wants_write == old(conn).wants_write,
        final(conn).close_after_write == old(conn).close_after_write,
{
    let response = make_response(JSON_CONTENT_TYPE, body);
    queue(conn, response.as_slice());
}

impl Conn {
    /// Takes in bytes read from the socket.
    pub fn receive(&mut self, data: &[u8])
        ensures
            final(self).input@ == old(self).input@ + data@,
            final(self).output@ == old(self).output@,
            final(self).local_sec == old(self).local_sec,
            final(self).local_hits == old(self).local_hits,
            final(self).shard == old(self).shard,
            final(self).wants_write == old(self).wants_write,
            final(self).close_after_write == old(self).close_after_write,
    {
        self.input.extend_from_slice(data);
        assert(self.input@ =~= old(self).input@ + data@);
    }

    /// Drops the first `written` reply bytes, which the socket has taken.
    pub fn consume_output(&mut self, written: usize)
        requires
            written <= old(self).output@.len(),
        ensures
            final(self).output@ == old(self).output@.subrange(written as int, old(self).output@.len() as int),
            final(self).input@ == old(self).input@,
            final(self).local_sec == old(self).local_sec,
            final(self).local_hits == old(self).local_hits,
            final(self).shard == old(self).shard,
            final(self).wants_write == old(self).wants_write,
            final(self).close_after_write == old(self).close_after_write,
    {
        let rest = self.output.split_off(written);
        self.output = rest;
    }

    /// The interest to register the socket with when it differs from the current one:
    /// writability is wanted exactly while replies wait to be written.
    pub fn interest_change(&self) -> (r: Option<bool>)
        ensures
            r == if (self.output@.len() > 0) == self.wants_write {
                None::<bool>
            } else {
                Some(self.output@.len() > 0)
            },
    {
        let wants_write = self.output.len() > 0;
        if wants_write == self.wants_write {
            None
        } else {
            Some(wants_write)
        }
    }

    /// Whether the connection is done: it is to be closed and all its replies are written.
    pub fn finished(&self) -> (r: bool)
        ensures
            r == (self.close_after_write && self.output@.len() == 0),
    {
        self.close_after_write && self.output.len() == 0
    }
}

/// What the front of the input holds does not change when more bytes arrive after a complete
/// request line, except that a head not yet complete may complete.
proof fn lemma_request_step_extend(a: Seq<u8>, b: Seq<u8>, close_after_hit: bool)
    requires
        line_end(a) is Some,
    ensures
        !(request_step(a, close_after_hit) is NeedMore) && (request_step(a, close_after_hit) !is Request
            || find_seq(a, crlf_crlf()) is Some) ==> request_step(a + b, close_after_hit)
            == request_step(a, close_after_hit),
{
    let ab = a + b;
    crate::scan::lemma_position_of_prefix(a, b, 10u8);
    let le = line_end(a).unwrap();
    crate::scan::lemma_position_of(a, 10u8);
    assert(ab.subrange(0, le) =~= a.subrange(0, le));
    crate::scan::lemma_find_seq_prefix(a, b, crlf_crlf());
    if let Some(he) = head_end(a) {
        if find_seq(a, crlf_crlf()) is Some {
            lemma_head_end_bounds(a);
            assert(ab.subrange(0, he) =~= a.subrange(0, he));
        }
    }
}

/// With `close_after_hit`, a hit is answered and the connection closed as soon as its
/// request line is complete, whatever follows it.
pub proof fn law_close_after_hit(line: Seq<u8>, more: Seq<u8>)
    requires
        line.len() + more.len() <= usize::MAX,
        line_end(line) is Some,
        request_path(line.subrange(0, line_end(line).unwrap())) matches Some(p) && route_of(p)
            == Route::Hit,
    ensures
        run(line + more, true) == (Run {
            routes: seq![],
            lines: 1,
            ending: Ending::ClosedHit,
            rest: seq![],
        }),
{
    lemma_request_step_extend(line, more, true);
    lemma_run_stop(line + more, true);
}

/// Requests sent back to back are answered in order: after a complete request that keeps
/// the connection open, the server goes on with the bytes that follow it exactly as if they
/// had come alone. (The request's head must end in `\r\n\r\n`: a head ending in `\n\n` is
/// taken to run on to a `\r\n\r\n` that comes later.)
pub proof fn law_pipelined(first: Seq<u8>, more: Seq<u8>, close_after_hit: bool)
    requires
        first.len() + more.len() <= usize::MAX,
        request_step(first, close_after_hit) matches Parsed::Request { target, close_requested, head_len }
            && target != Route::Metrics && !close_requested && head_len == first.len(),
        find_seq(first, crlf_crlf()) is Some,
    ensures
        ({
            let whole = run(first + more, close_after_hit);
            let tail = run(more, close_after_hit);
            &&& whole.routes == seq![request_step(first, close_after_hit)->target] + tail.routes
            &&& whole.lines == 1 + tail.lines
            &&& whole.ending == tail.ending
            &&& whole.rest == tail.rest
        }),
{
    crate::scan::lemma_position_of(first, 10u8);
    lemma_head_end_bounds(first);
    assert(line_end(first) is Some) by {
        if line_end(first) is None {
            assert(request_step(first, close_after_hit) is NeedMore);
        }
    }
    lemma_request_step_extend(first, more, close_after_hit);
    lemma_run_request(first + more, close_after_hit);
    assert((first + more).subrange(first.len() as int, (first + more).len() as int) =~= more);
}


/// A request `GET <path> HTTP/1.1` whose head ends at once.
pub open spec fn get_request(path: Seq<u8>) -> Seq<u8> {
    seq![71u8, 69u8, 84u8, 32u8] + path + seq![
        32u8,
        72u8,
        84u8,
        84u8,
        80u8,
        47u8,
        49u8,
        46u8,
        49u8,
        13u8,
        10u8,
        13u8,
        10u8,
    ]
}

/// What the front of a single request `GET <path> HTTP/1.1` with an empty head reads as.
proof fn lemma_get_request_step(path: Seq<u8>)
    requires
        path.len() + 17 <= usize::MAX,
        forall|i: int| 0 <= i < path.len() ==> path[i] != 32u8 && path[i] != 10u8,
    ensures
        request_step(get_request(path), false) == (Parsed::Request {
            target: route_of(path),
            close_requested: false,
            head_len: (path.len() + 17) as usize,
        }),
        request_step(get_request(path), true) == if route_of(path) == Route::Hit {
            Parsed::ClosedHit
        } else {
            Parsed::Request {
                target: route_of(path),
                close_requested: false,
                head_len: (path.len() + 17) as usize,
            }
        },
{
    let input = get_request(path);
    let n = path.len() as int;
    let len = n + 17;
    assert(input.len() == len);
    assert forall|i: int| 0 <= i < n implies input[4 + i] == path[i] by {}
    assert(input[0] == 71u8 && input[1] == 69u8 && input[2] == 84u8 && input[3] == 32u8);
    assert(input[4 + n] == 32u8 && input[4 + n + 9] == 13u8 && input[4 + n + 10] == 10u8);
    assert(input[4 + n + 11] == 13u8 && input[4 + n + 12] == 10u8);
    // Only two bytes of the request are line feeds.
    assert forall|j: int| 0 <= j < len && input[j] == 10u8 implies j == 4 + n + 10 || j == 4 + n
        + 12 by {
        if 4 <= j < 4 + n {
            assert(input[j] == path[j - 4]);
        }
    }
    lemma_request_line_path(input, path, 4 + n + 10);
    // The head ends with the first blank line.
    let stop = 4 + n + 9;
    assert(input.subrange(stop, stop + 4) =~= crlf_crlf());
    assert forall|j: int| 0 <= j < stop implies !crate::scan::occurs_at(input, crlf_crlf(), j) by {
        if crate::scan::occurs_at(input, crlf_crlf(), j) {
            assert(input.subrange(j, j + 4)[1] == crlf_crlf()[1]);
            assert(input[j + 1] == 10u8);
        }
    }
    assert(crate::scan::first_occurrence_at(input, crlf_crlf(), stop));
    crate::scan::lemma_find_at(input, crlf_crlf(), stop);
    assert(head_end(input) == Some(len));
    // No line of the head asks for the connection to be closed.
    reveal_strlit("connection: close");
    vstd::string::is_ascii_spec_bytes("connection: close");
    assert(crate::request::connection_close().len() == 17);
    assert(crate::request::connection_close()[0] == 99u8);
    assert(input.subrange(0, len) =~= input);
    assert forall|k: int| #[trigger] crate::request::line_start(input, k) implies !crate::request::starts_with_lowered(
        input.subrange(k, len),
        crate::request::connection_close(),
    ) by {
        if k == 0 {
            assert(input.subrange(k, len)[0] == 71u8);
            assert(crate::request::lower(71u8) == 103u8);
        } else {
            assert(input[k - 1] == 10u8);
        }
    }
    assert(!asks_close(input.subrange(0, len)));
}

/// The request line of `input` ends with its first line feed, at `lf`, and names `path`
/// after `GET `.
proof fn lemma_request_line_path(input: Seq<u8>, path: Seq<u8>, lf: int)
    requires
        lf == 4 + path.len() + 10,
        lf < input.len(),
        input[0] == 71u8 && input[1] == 69u8 && input[2] == 84u8 && input[3] == 32u8,
        forall|i: int| 0 <= i < path.len() ==> input[4 + i] == path[i],
        forall|i: int| 0 <= i < path.len() ==> path[i] != 32u8 && path[i] != 10u8,
        input[4 + path.len() as int] == 32u8,
        forall|j: int| 4 + path.len() < j < lf ==> input[j] != 10u8,
        input[lf] == 10u8,
    ensures
        line_end(input) == Some(lf + 1),
        request_path(input.subrange(0, lf + 1)) == Some(path),
{
    let n = path.len() as int;
    assert forall|j: int| 0 <= j < lf implies input[j] != 10u8 by {
        if 4 <= j < 4 + n {
            assert(input[j] == path[j - 4]);
        }
    }
    assert(crate::scan::first_byte_at(input, 10u8, lf));
    crate::scan::lemma_position_at(input, 10u8, lf);
    let line = input.subrange(0, lf + 1);
    assert(crate::scan::first_byte_at(line, 32u8, 3));
    crate::scan::lemma_position_at(line, 32u8, 3);
    let rest = line.subrange(4, line.len() as int);
    assert forall|j: int| 0 <= j < n implies rest[j] == path[j] && rest[j] != 32u8 by {
        assert(rest[j] == input[4 + j]);
    }
    assert(rest[n] == 32u8);
    assert(crate::scan::first_byte_at(rest, 32u8, n));
    crate::scan::lemma_position_at(rest, 32u8, n);
    assert(rest.subrange(0, n) =~= path);
}

/// What a run does once a request has taken all of `input`: the request is answered, and
/// the connection then waits for more, closes, or produces the metrics document.
proof fn lemma_run_whole_request(input: Seq<u8>, close_after_hit: bool, target: Route, close: bool)
    requires
        input.len() <= usize::MAX,
        request_step(input, close_after_hit) == (Parsed::Request {
            target,
            close_requested: close,
            head_len: input.len() as usize,
        }),
    ensures
        run(input, close_after_hit) == if target == Route::Metrics {
            Run { routes: seq![target], lines: 1, ending: Ending::MetricsDue { close }, rest: seq![] }
        } else if close {
            Run { routes: seq![target], lines: 1, ending: Ending::Closed, rest: seq![] }
        } else {
            Run { routes: seq![target], lines: 1, ending: Ending::Waiting, rest: seq![] }
        },
{
    let after = input.subrange(input.len() as int, input.len() as int);
    assert(after =~= Seq::<u8>::empty());
    assert(request_step(after, close_after_hit) == Parsed::NeedMore { line_read: false });
    reveal_with_fuel(run, 2);
    assert(seq![target] + Seq::<Route>::empty() =~= seq![target]);
}

/// A request for a path that the dashboard does not own, `/favicon.ico` say, is answered as a
/// request for `/` is: one hit, then the connection waits for more; or, with
/// `close_after_hit`, the hit is answered at once and the connection closed.
pub proof fn law_unnamed_path_is_hit(path: Seq<u8>)
    requires
        path.len() + 17 <= usize::MAX,
        forall|i: int| 0 <= i < path.len() ==> path[i] != 32u8 && path[i] != 10u8,
        route_of(path) == Route::Hit,
    ensures
        run(get_request(path), false) == (Run {
            routes: seq![Route::Hit],
            lines: 1,
            ending: Ending::Waiting,
            rest: seq![],
        }),
        run(get_request(path), true) == (Run {
            routes: seq![],
            lines: 1,
            ending: Ending::ClosedHit,
            rest: seq![],
        }),
{
    lemma_get_request_step(path);
    lemma_run_whole_request(get_request(path), false, Route::Hit, false);
    reveal_with_fuel(run, 1);
}

/// `close_after_hit` closes at once only on a counted hit: a request is answered as a closed
/// hit exactly when its request line is complete and its path is one of the hit paths, and
/// every other request reads as it does without `close_after_hit`.
pub proof fn law_close_after_hit_only_for_hits(input: Seq<u8>)
    ensures
        request_step(input, true) is ClosedHit <==> (line_end(input) matches Some(le) && request_path(
            input.subrange(0, le),
        ) matches Some(p) && route_of(p) == Route::Hit),
        !(request_step(input, true) is ClosedHit) ==> request_step(input, true) == request_step(
            input,
            false,
        ),
        !(request_step(input, false) is ClosedHit),
{
}

/// With `close_after_hit`, the dashboard's own paths (its page, the metrics document and its
/// two files) are served as without it: the reply, and the connection kept open; the metrics
/// document is left for the caller to produce.
pub proof fn law_dashboard_paths_ignore_close_after_hit(path: Seq<u8>)
    requires
        path.len() + 17 <= usize::MAX,
        forall|i: int| 0 <= i < path.len() ==> path[i] != 32u8 && path[i] != 10u8,
        route_of(path) != Route::Hit,
    ensures
        run(get_request(path), true) == run(get_request(path), false),
        run(get_request(path), true) == if route_of(path) == Route::Metrics {
            Run {
                routes: seq![Route::Metrics],
                lines: 1,
                ending: Ending::MetricsDue { close: false },
                rest: seq![],
            }
        } else {
            Run { routes: seq![route_of(path)], lines: 1, ending: Ending::Waiting, rest: seq![] }
        },
{
    lemma_get_request_step(path);
    lemma_run_whole_request(get_request(path), false, route_of(path), false);
    lemma_run_whole_request(get_request(path), true, route_of(path), false);
}

/// A complete request head asks to close the connection exactly when one of its lines is
/// `Connection: close` (in any case), whatever the path it asks for.
pub proof fn law_close_flag_follows_head(input: Seq<u8>, close_after_hit: bool)
    requires
        input.len() <= usize::MAX,
    ensures
        request_step(input, close_after_hit) matches Parsed::Request { close_requested, head_len, .. }
            ==> close_requested == asks_close(input.subrange(0, head_len as int)),
{
    lemma_head_end_bounds(input);
}

/// The header line `Connection: close`, as a client capitalises it.
pub open spec fn close_header() -> Seq<u8> {
    seq![
        67u8,
        111u8,
        110u8,
        110u8,
        101u8,
        99u8,
        116u8,
        105u8,
        111u8,
        110u8,
        58u8,
        32u8,
        99u8,
        108u8,
        111u8,
        115u8,
        101u8,
    ]
}

/// A request `GET <path> HTTP/1.1` whose head holds `Connection: close`.
pub open spec fn get_close_request(path: Seq<u8>) -> Seq<u8> {
    seq![71u8, 69u8, 84u8, 32u8] + path + seq![
        32u8,
        72u8,
        84u8,
        84u8,
        80u8,
        47u8,
        49u8,
        46u8,
        49u8,
        13u8,
        10u8,
    ] + close_header() + seq![13u8, 10u8, 13u8, 10u8]
}

/// `Connection: close` is honoured on every path: the request is answered and the connection
/// closed after the reply, or, for the metrics document, the document is produced and then
/// the connection closed.
pub proof fn law_close_request_closes(path: Seq<u8>)
    requires
        path.len() + 36 <= usize::MAX,
        forall|i: int| 0 <= i < path.len() ==> path[i] != 32u8 && path[i] != 10u8,
        route_of(path) != Route::Hit,
    ensures
        run(get_close_request(path), false) == if route_of(path) == Route::Metrics {
            Run {
                routes: seq![Route::Metrics],
                lines: 1,
                ending: Ending::MetricsDue { close: true },
                rest: seq![],
            }
        } else {
            Run { routes: seq![route_of(path)], lines: 1, ending: Ending::Closed, rest: seq![] }
        },
{
    lemma_close_request_step(path);
    lemma_run_whole_request(get_close_request(path), false, route_of(path), true);
}

/// `Connection: close` on a hit closes the connection after the hit's reply.
pub proof fn law_close_hit_closes(path: Seq<u8>)
    requires
        path.len() + 36 <= usize::MAX,
        forall|i: int| 0 <= i < path.len() ==> path[i] != 32u8 && path[i] != 10u8,
        route_of(path) == Route::Hit,
    ensures
        run(get_close_request(path), false) == (Run {
            routes: seq![Route::Hit],
            lines: 1,
            ending: Ending::Closed,
            rest: seq![],
        }),
{
    lemma_close_request_step(path);
    lemma_run_whole_request(get_close_request(path), false, Route::Hit, true);
}

/// What a request with `Connection: close` in its head reads as without `close_after_hit`.
proof fn lemma_close_request_step(path: Seq<u8>)
    requires
        path.len() + 36 <= usize::MAX,
        forall|i: int| 0 <= i < path.len() ==> path[i] != 32u8 && path[i] != 10u8,
    ensures
        request_step(get_close_request(path), false) == (Parsed::Request {
            target: route_of(path),
            close_requested: true,
            head_len: (path.len() + 36) as usize,
        }),
{
    let input = get_close_request(path);
    let h = close_header();
    let n = path.len() as int;
    let len = n + 36;
    let hs = 4 + n + 11;
    assert(input.len() == len);
    assert forall|i: int| 0 <= i < n implies input[4 + i] == path[i] by {}
    assert forall|i: int| 0 <= i < 17 implies input[hs + i] == h[i] by {}
    assert(input[0] == 71u8 && input[1] == 69u8 && input[2] == 84u8 && input[3] == 32u8);
    assert(input[4 + n] == 32u8 && input[4 + n + 9] == 13u8 && input[4 + n + 10] == 10u8);
    assert(input[hs + 17] == 13u8 && input[hs + 18] == 10u8);
    assert(input[hs + 19] == 13u8 && input[hs + 20] == 10u8);
    lemma_close_header_bytes();
    // The line feeds of the request end its request line, its header line and its head.
    assert forall|j: int| 0 <= j < len && input[j] == 10u8 implies j == 4 + n + 10 || j == hs + 18
        || j == hs + 20 by {
        if 4 <= j < 4 + n {
            assert(input[j] == path[j - 4]);
        } else if hs <= j < hs + 17 {
            assert(input[j] == h[j - hs]);
        }
    }
    lemma_request_line_path(input, path, 4 + n + 10);
    lemma_close_head_end(input, hs);
    lemma_close_head_asks(input, hs);
}

/// The header line holds no line break, and reads `connection: close` in lower case.
proof fn lemma_close_header_bytes()
    ensures
        forall|i: int| 0 <= i < 17 ==> close_header()[i] != 10u8 && close_header()[i] != 13u8,
        forall|i: int|
            0 <= i < 17 ==> crate::request::lower(close_header()[i])
                == crate::request::connection_close()[i],
        crate::request::connection_close().len() == 17,
{
    let h = close_header();
    reveal_strlit("connection: close");
    vstd::string::is_ascii_spec_bytes("connection: close");
    let cc = crate::request::connection_close();
    assert(cc =~= seq![
        99u8,
        111u8,
        110u8,
        110u8,
        101u8,
        99u8,
        116u8,
        105u8,
        111u8,
        110u8,
        58u8,
        32u8,
        99u8,
        108u8,
        111u8,
        115u8,
        101u8,
    ]);
    assert forall|i: int| 0 <= i < 17 implies h[i] != 10u8 && h[i] != 13u8
        && crate::request::lower(h[i]) == cc[i] by {
        assert(i == 0 || i == 1 || i == 2 || i == 3 || i == 4 || i == 5 || i == 6 || i == 7 || i
            == 8 || i == 9 || i == 10 || i == 11 || i == 12 || i == 13 || i == 14 || i == 15 || i
            == 16);
    }
}

/// The head of a request whose header line starts at `hs` ends with the blank line after it.
proof fn lemma_close_head_end(input: Seq<u8>, hs: int)
    requires
        input.len() == hs + 21,
        hs >= 11,
        input[hs - 1] == 10u8,
        input[hs + 17] == 13u8 && input[hs + 18] == 10u8,
        input[hs + 19] == 13u8 && input[hs + 20] == 10u8,
        forall|j: int| 0 <= j < input.len() && input[j] == 10u8 ==> j == hs - 1 || j == hs + 18 || j
            == hs + 20,
    ensures
        head_end(input) == Some(input.len() as int),
{
    let stop = hs + 17;
    assert(input.subrange(stop, stop + 4) =~= crlf_crlf());
    assert forall|j: int| 0 <= j < stop implies !crate::scan::occurs_at(input, crlf_crlf(), j) by {
        if crate::scan::occurs_at(input, crlf_crlf(), j) {
            assert(input.subrange(j, j + 4)[1] == crlf_crlf()[1]);
            assert(input.subrange(j, j + 4)[3] == crlf_crlf()[3]);
            assert(input[j + 1] == 10u8);
            assert(input[j + 3] == 10u8);
        }
    }
    assert(crate::scan::first_occurrence_at(input, crlf_crlf(), stop));
    crate::scan::lemma_find_at(input, crlf_crlf(), stop);
}

/// A head with the header line at `hs` asks for the connection to be closed.
proof fn lemma_close_head_asks(input: Seq<u8>, hs: int)
    requires
        input.len() == hs + 21,
        hs >= 1,
        input[hs - 1] == 10u8,
        forall|i: int| 0 <= i < 17 ==> input[hs + i] == close_header()[i],
    ensures
        asks_close(input.subrange(0, input.len() as int)),
{
    lemma_close_header_bytes();
    let head = input.subrange(0, input.len() as int);
    assert(head =~= input);
    let line = head.subrange(hs, head.len() as int);
    assert forall|i: int| 0 <= i < 17 implies crate::request::lower(line[i])
        == crate::request::connection_close()[i] by {
        assert(line[i] == input[hs + i]);
    }
    assert(crate::request::line_start(head, hs));
    assert(crate::request::starts_with_lowered(line, crate::request::connection_close()));
}

} // verus!
