//! The hit counters: a lifetime total and a ring of per-second buckets for each shard, the
//! connection gauges, and the snapshot the dashboard draws from them.
use vstd::prelude::*;
use std::time::Instant;
use crate::clock::{instant_now, unix_sec, uptime_secs};

verus! {

/// Seconds of history each shard keeps, one bucket per second.
pub const HISTORY_SECONDS: usize = 300;

/// Seconds shown in the dashboard's timeline.
pub const CHART_SECONDS: i64 = 240;

/// Seconds over which the recent request rate is averaged.
pub const WINDOW_SECONDS: i64 = 60;

/// Counter shards per worker.
pub const SHARDS_PER_WORKER: usize = 512;

/// The counters count modulo 2^64.
pub open spec fn modulus() -> int {
    0x1_0000_0000_0000_0000
}

/// The hits of one shard in one second. A bucket belongs to the second in `sec`; it is
/// taken over by any other second that falls in the same slot.
#[derive(Clone, Copy, Debug)]
pub struct SecondBucket {
    pub sec: i64,
    pub count: u64,
}

/// One point of the dashboard's timeline.
#[derive(Clone, Copy, Debug)]
pub struct DataPoint {
    pub timestamp: i64,
    pub rps: u64,
}

/// What the metrics document reports, apart from its two averages, which are computed from
/// `total`, `uptime_seconds` and `window_total`.
pub struct MetricsSnapshot {
    pub total: u64,
    pub current_rps: u64,
    pub window_total: u64,
    pub uptime_seconds: u64,
    pub workers: usize,
    pub cpu: usize,
    pub active_conns: usize,
    pub max_conns: usize,
    pub accepted_conns: u64,
    pub request_lines: u64,
    pub parse_errors: u64,
    pub timeline: Vec<DataPoint>,
}

/// The server's counters.
///
/// `total_shards` holds each shard's lifetime hit count; `rps_shards` holds each shard's
/// `HISTORY_SECONDS` buckets in turn, shard by shard.
pub struct Metrics {
    pub started: Instant,
    pub current_sec: i64,
    pub active_conns: usize,
    pub accepted_conns: u64,
    pub request_lines: u64,
    pub parse_errors: u64,
    pub max_conns: usize,
    pub worker_count: usize,
    pub total_shards: Vec<u64>,
    pub rps_shards: Vec<SecondBucket>,
}

/// The sum of a sequence of counts.
pub open spec fn sum(s: Seq<u64>) -> int
    decreases s.len(),
{
    if s.len() == 0 {
        0
    } else {
        sum(s.drop_last()) + s.last()
    }
}

/// The slot of second `sec` in a shard's ring.
pub open spec fn slot_of(sec: int) -> int {
    sec % (HISTORY_SECONDS as int)
}

/// Where the bucket of `shard` for second `sec` stands in the bucket list.
pub open spec fn bucket_index(shard: int, sec: int) -> int {
    shard * (HISTORY_SECONDS as int) + slot_of(sec)
}

/// The hits that shard `shard` holds for second `sec`.
pub open spec fn shard_hits(b: Seq<SecondBucket>, shard: int, sec: int) -> int {
    let bucket = b[bucket_index(shard, sec)];
    if bucket.sec == sec {
        bucket.count as int
    } else {
        0
    }
}

/// The hits that the first `n` shards hold for second `sec`.
pub open spec fn hits_upto(b: Seq<SecondBucket>, n: int, sec: int) -> int
    decreases n,
{
    if n <= 0 {
        0
    } else {
        hits_upto(b, n - 1, sec) + shard_hits(b, n - 1, sec)
    }
}

/// The sum of `rps` over the seconds `lo` up to but not including `hi`.
pub open spec fn rps_sum(m: &Metrics, lo: int, hi: int) -> int
    decreases hi - lo,
{
    if hi <= lo {
        0
    } else {
        rps_sum(m, lo, hi - 1) + m.rps_at(hi - 1)
    }
}

impl Metrics {
    pub open spec fn shard_count(&self) -> int {
        self.total_shards@.len() as int
    }

    /// The shapes that the counters keep.
    pub open spec fn wf(&self) -> bool {
        &&& self.worker_count >= 1
        &&& self.total_shards@.len() == self.worker_count * SHARDS_PER_WORKER
        &&& self.rps_shards@.len() == self.total_shards@.len() * HISTORY_SECONDS
        &&& self.rps_shards@.len() <= usize::MAX
    }

    /// The hits counted in second `sec`, over all shards, modulo 2^64.
    pub open spec fn rps_at(&self, sec: int) -> int {
        hits_upto(self.rps_shards@, self.shard_count(), sec) % modulus()
    }

    /// All hits ever added, before the counters wrap.
    pub open spec fn total_hits(&self) -> int {
        sum(self.total_shards@)
    }

    /// A count for second `sec` of `shard` (taken modulo the number of shards) can go to its
    /// bucket: the bucket holds that second already, or a second that is not negative. (A
    /// negative second marks a bucket being taken over, and the count waits for it.)
    pub open spec fn bucket_free(&self, shard: int, sec: i64) -> bool {
        let b = self.rps_shards@[bucket_index(shard % self.shard_count(), sec as int)];
        b.sec == sec || b.sec >= 0
    }

    /// Every count that could go to its bucket in `other` can go to it here too.
    pub open spec fn keeps_free(&self, other: &Metrics) -> bool {
        forall|shard: int, sec: i64| other.bucket_free(shard, sec) ==> #[trigger] self.bucket_free(shard, sec)
    }

    /// The fields other than the counters are those of `other`.
    pub open spec fn same_gauges(&self, other: &Metrics) -> bool {
        &&& self.started == other.started
        &&& self.current_sec == other.current_sec
        &&& self.active_conns == other.active_conns
        &&& self.accepted_conns == other.accepted_conns
        &&& self.request_lines == other.request_lines
        &&& self.parse_errors == other.parse_errors
        &&& self.max_conns == other.max_conns
        &&& self.worker_count == other.worker_count
    }
}

pub proof fn lemma_sum_update(s: Seq<u64>, i: int, v: u64)
    requires
        0 <= i < s.len(),
    ensures
        sum(s.update(i, v)) == sum(s) - s[i] + v,
    decreases s.len(),
{
    if i == s.len() - 1 {
        assert(s.update(i, v).drop_last() =~= s.drop_last());
    } else {
        lemma_sum_update(s.drop_last(), i, v);
        assert(s.update(i, v).drop_last() =~= s.drop_last().update(i, v));
    }
}

/// Adding `a` to `x` and reducing what was `h` to `(h + a) mod 2^64` changes `x` by `a`
/// modulo 2^64.
pub proof fn lemma_wrapped_step(x: int, h: int, a: int)
    ensures
        (x - h + (h + a) % modulus()) % modulus() == (x + a) % modulus(),
{
    let m = modulus();
    let q = (h + a) / m;
    vstd::arithmetic::div_mod::lemma_fundamental_div_mod(h + a, m);
    assert((h + a) % m == h + a - m * q);
    vstd::arithmetic::div_mod::lemma_mod_multiples_vanish(-q, x + a, m);
    assert(m * (-q) + (x + a) == x - h + (h + a) % m) by (nonlinear_arith)
        requires
            (h + a) % m == h + a - m * q,
    ;
}

/// The count of one bucket changes only the seconds of its own slot, and the second it now
/// holds gains what its shard gained.
pub proof fn lemma_hits_upto_update(b: Seq<SecondBucket>, n: int, s: int, sec: int, nb: SecondBucket)
    requires
        0 <= s,
        0 <= n,
        n * (HISTORY_SECONDS as int) <= b.len(),
        (s + 1) * (HISTORY_SECONDS as int) <= b.len(),
        nb.sec == sec,
    ensures
        forall|sec2: int| slot_of(sec2) != slot_of(sec) ==> #[trigger] hits_upto(
            b.update(bucket_index(s, sec), nb),
            n,
            sec2,
        ) == hits_upto(b, n, sec2),
        hits_upto(b.update(bucket_index(s, sec), nb), n, sec) == hits_upto(b, n, sec) - (if s
            < n {
            shard_hits(b, s, sec)
        } else {
            0
        }) + (if s < n {
            nb.count as int
        } else {
            0
        }),
    decreases n,
{
    let b2 = b.update(bucket_index(s, sec), nb);
    if n > 0 {
        lemma_hits_upto_update(b, n - 1, s, sec, nb);
        assert(bucket_index(n - 1, sec) < b.len());
        assert forall|sec2: int| slot_of(sec2) != slot_of(sec) implies #[trigger] hits_upto(b2, n, sec2)
            == hits_upto(b, n, sec2) by {
            assert(hits_upto(b2, n - 1, sec2) == hits_upto(b, n - 1, sec2));
            assert(0 <= slot_of(sec2) < HISTORY_SECONDS);
            assert(0 <= slot_of(sec) < HISTORY_SECONDS);
            assert(bucket_index(n - 1, sec2) != bucket_index(s, sec));
            assert(b2[bucket_index(n - 1, sec2)] == b[bucket_index(n - 1, sec2)]);
        }
        assert(0 <= slot_of(sec) < HISTORY_SECONDS);
        if n - 1 != s {
            assert(bucket_index(n - 1, sec) != bucket_index(s, sec));
        }
    }
}

/// The counts held by a `Metrics`: each shard's lifetime total, and all the buckets.
pub struct Tally {
    pub totals: Seq<u64>,
    pub buckets: Seq<SecondBucket>,
}

impl Metrics {
    pub open spec fn tally(&self) -> Tally {
        Tally { totals: self.total_shards@, buckets: self.rps_shards@ }
    }
}

/// `post` holds the counts of `pre` after `amount` hits of `shard` (taken modulo the number
/// of shards) were counted in second `sec`: the shard's total grows by `amount` and its bucket
/// for `sec` grows by `amount`, or starts over from it where the bucket held another second,
/// all modulo 2^64.
pub open spec fn counted(pre: Tally, post: Tally, shard: int, sec: i64, amount: u64) -> bool {
    if amount == 0 {
        post == pre
    } else {
        let s = shard % (pre.totals.len() as int);
        let i = bucket_index(s, sec as int);
        let b = pre.buckets[i];
        &&& post.totals == pre.totals.update(s, ((pre.totals[s] + amount) % modulus()) as u64)
        &&& post.buckets == pre.buckets.update(
            i,
            SecondBucket {
                sec,
                count: if b.sec == sec {
                    ((b.count + amount) % modulus()) as u64
                } else {
                    amount
                },
            },
        )
    }
}

pub proof fn lemma_wrapping_add(x: u64, y: u64)
    ensures
        x.wrapping_add(y) as int == (x + y) % modulus(),
{
    let m = modulus();
    if x + y > u64::MAX {
        vstd::arithmetic::div_mod::lemma_mod_multiples_vanish(-1, x + y, m);
        assert(m * -1 + (x + y) == x + y - m);
        vstd::arithmetic::div_mod::lemma_small_mod((x + y - m) as nat, m as nat);
    } else {
        vstd::arithmetic::div_mod::lemma_small_mod((x + y) as nat, m as nat);
    }
}

/// Counting `amount` hits in second `sec` adds `amount` to the lifetime total and to the
/// count of second `sec`, and leaves the seconds of every other slot as they were; all modulo
/// 2^64.
pub proof fn lemma_counted(pre: &Metrics, post: &Metrics, shard: int, sec: i64, amount: u64)
    requires
        pre.wf(),
        0 <= shard,
        counted(pre.tally(), post.tally(), shard, sec, amount),
    ensures
        post.total_shards@.len() == pre.total_shards@.len(),
        post.rps_shards@.len() == pre.rps_shards@.len(),
        post.total_hits() % modulus() == (pre.total_hits() + amount) % modulus(),
        post.rps_at(sec as int) == (pre.rps_at(sec as int) + amount) % modulus(),
        forall|sec2: int|
            slot_of(sec2) != slot_of(sec as int) ==> #[trigger] post.rps_at(sec2) == pre.rps_at(
                sec2,
            ),
{
    let m = modulus();
    let n = pre.shard_count();
    if amount == 0 {
        vstd::arithmetic::div_mod::lemma_mod_twice(hits_upto(pre.rps_shards@, n, sec as int), m);
        return;
    }
    let s = shard % n;
    let t = pre.total_shards@[s];
    let i = bucket_index(s, sec as int);
    let b = pre.rps_shards@[i];
    assert(0 <= slot_of(sec as int) < HISTORY_SECONDS);
    let nb = post.rps_shards@[i];
    assert(post.rps_shards@ == pre.rps_shards@.update(i, nb));
    lemma_sum_update(pre.total_shards@, s, ((t + amount) % m) as u64);
    lemma_wrapped_step(sum(pre.total_shards@), t as int, amount as int);
    lemma_hits_upto_update(pre.rps_shards@, n, s, sec as int, nb);
    let h = shard_hits(pre.rps_shards@, s, sec as int);
    let x = hits_upto(pre.rps_shards@, n, sec as int);
    if b.sec == sec {
        lemma_wrapped_step(x, h, amount as int);
    } else {
        vstd::arithmetic::div_mod::lemma_small_mod(amount as nat, m as nat);
        lemma_wrapped_step(x, h, amount as int);
    }
    vstd::arithmetic::div_mod::lemma_add_mod_noop(x, amount as int, m);
    vstd::arithmetic::div_mod::lemma_mod_twice(amount as int, m);
    vstd::arithmetic::div_mod::lemma_small_mod(amount as nat, m as nat);
}

/// No count exceeds the sum of the counts.
pub proof fn lemma_count_le_sum(s: Seq<u64>, i: int)
    requires
        0 <= i < s.len(),
    ensures
        s[i] <= sum(s),
    decreases s.len(),
{
    lemma_sum_nonneg(s.drop_last());
    if i < s.len() - 1 {
        lemma_count_le_sum(s.drop_last(), i);
    }
}

pub proof fn lemma_sum_nonneg(s: Seq<u64>)
    ensures
        0 <= sum(s),
    decreases s.len(),
{
    if s.len() > 0 {
        lemma_sum_nonneg(s.drop_last());
    }
}

/// The first `k` counts sum to no more than all of them.
pub proof fn lemma_prefix_sum_le(s: Seq<u64>, k: int)
    requires
        0 <= k <= s.len(),
    ensures
        0 <= sum(s.take(k)) <= sum(s),
    decreases s.len(),
{
    if k == s.len() {
        assert(s.take(k) =~= s);
        lemma_sum_nonneg(s);
    } else {
        assert(s.drop_last().take(k) =~= s.take(k));
        lemma_prefix_sum_le(s.drop_last(), k);
    }
}

/// While the lifetime total stays below 2^64, counting `amount` hits adds exactly `amount`
/// to it: no shard's count wraps.
pub proof fn lemma_counted_exact(pre: Tally, post: Tally, shard: int, sec: i64, amount: u64)
    requires
        pre.totals.len() > 0,
        0 <= shard,
        counted(pre, post, shard, sec, amount),
        sum(pre.totals) + amount < modulus(),
    ensures
        sum(post.totals) == sum(pre.totals) + amount,
        post.totals.len() == pre.totals.len(),
{
    if amount > 0 {
        let s = shard % (pre.totals.len() as int);
        let t = pre.totals[s];
        lemma_count_le_sum(pre.totals, s);
        vstd::arithmetic::div_mod::lemma_small_mod((t + amount) as nat, modulus() as nat);
        lemma_sum_update(pre.totals, s, ((t + amount) % modulus()) as u64);
    }
}

/// Step `i` of a run of counts: `amounts[i]` hits of `shards[i]` in second `secs[i]` take the
/// counts from `tallies[i]` to `tallies[i + 1]`.
pub open spec fn counted_step(tallies: Seq<Tally>, shards: Seq<int>, secs: Seq<i64>, amounts: Seq<u64>, i: int) -> bool {
    &&& 0 <= shards[i]
    &&& counted(tallies[i], tallies[i + 1], shards[i], secs[i], amounts[i])
}

/// Starting from counters all at zero, a run of counts whose amounts sum to less than 2^64
/// leaves a lifetime total of exactly that sum, whatever shards and seconds they went to:
/// a bucket taken over by a new second never lowers the total.
pub proof fn law_total_counts_every_hit(
    tallies: Seq<Tally>,
    shards: Seq<int>,
    secs: Seq<i64>,
    amounts: Seq<u64>,
)
    requires
        tallies.len() == amounts.len() + 1,
        shards.len() == amounts.len(),
        secs.len() == amounts.len(),
        tallies[0].totals.len() > 0,
        forall|j: int| 0 <= j < tallies[0].totals.len() ==> tallies[0].totals[j] == 0,
        forall|i: int| 0 <= i < amounts.len() ==> #[trigger] counted_step(tallies, shards, secs, amounts, i),
        sum(amounts) < modulus(),
    ensures
        sum(tallies.last().totals) == sum(amounts),
        sum(tallies.last().totals) % modulus() == sum(amounts),
{
    lemma_sum_zeros(tallies[0].totals);
    lemma_total_prefix(tallies, shards, secs, amounts, amounts.len() as int);
    assert(amounts.take(amounts.len() as int) =~= amounts);
    lemma_sum_nonneg(amounts);
    vstd::arithmetic::div_mod::lemma_small_mod(sum(amounts) as nat, modulus() as nat);
}

proof fn lemma_sum_zeros(s: Seq<u64>)
    requires
        forall|j: int| 0 <= j < s.len() ==> s[j] == 0,
    ensures
        sum(s) == 0,
    decreases s.len(),
{
    if s.len() > 0 {
        lemma_sum_zeros(s.drop_last());
    }
}

proof fn lemma_total_prefix(tallies: Seq<Tally>, shards: Seq<int>, secs: Seq<i64>, amounts: Seq<u64>, k: int)
    requires
        tallies.len() == amounts.len() + 1,
        shards.len() == amounts.len(),
        secs.len() == amounts.len(),
        tallies[0].totals.len() > 0,
        sum(tallies[0].totals) == 0,
        forall|i: int| 0 <= i < amounts.len() ==> #[trigger] counted_step(tallies, shards, secs, amounts, i),
        sum(amounts) < modulus(),
        0 <= k <= amounts.len(),
    ensures
        sum(tallies[k].totals) == sum(amounts.take(k)),
        tallies[k].totals.len() == tallies[0].totals.len(),
    decreases k,
{
    if k == 0 {
        assert(amounts.take(0) =~= Seq::<u64>::empty());
    } else {
        lemma_total_prefix(tallies, shards, secs, amounts, k - 1);
        let i = k - 1;
        assert(counted_step(tallies, shards, secs, amounts, i));
        assert(amounts.take(k).drop_last() =~= amounts.take(i));
        lemma_prefix_sum_le(amounts, k);
        lemma_counted_exact(tallies[i], tallies[k], shards[i], secs[i], amounts[i]);
    }
}

/// Calls `num_cpus::get`: the number of CPUs this process may use, read from the system;
/// its documentation promises at least one.
#[verifier::external_body]
fn cpu_count() -> (r: usize)
    ensures
        r >= 1,
{
    num_cpus::get()
}

impl Metrics {
    /// Counters for `workers` workers (at least one), each with `SHARDS_PER_WORKER` shards,
    /// started at `started` in second `now`, all at zero. Each shard's buckets are set to the
    /// seconds before `now`.
    pub fn new_at(workers: usize, max_conns: usize, now: i64, started: Instant) -> (r: Metrics)
        requires
            (if workers < 1 {
                1
            } else {
                workers
            }) * SHARDS_PER_WORKER * HISTORY_SECONDS <= usize::MAX,
        ensures
            r.wf(),
            r.current_sec == now,
            r.started == started,
            r.worker_count == (if workers < 1 {
                1
            } else {
                workers
            }),
            r.max_conns == max_conns,
            r.active_conns == 0,
            r.accepted_conns == 0,
            r.request_lines == 0,
            r.parse_errors == 0,
            forall|i: int| 0 <= i < r.shard_count() ==> r.total_shards@[i] == 0,
            forall|k: int|
                0 <= k < r.rps_shards@.len() ==> (#[trigger] r.rps_shards@[k]).count == 0
                    && r.rps_shards@[k].sec == vstd::wrapping::i64_specs::wrapping_sub(
                    r.current_sec,
                    (HISTORY_SECONDS - k % (HISTORY_SECONDS as int)) as i64,
                ),
    {
        let workers = if workers < 1 {
            1
        } else {
            workers
        };
        let shard_count = workers * SHARDS_PER_WORKER;
        let bucket_count = shard_count * HISTORY_SECONDS;
        let mut total_shards: Vec<u64> = Vec::with_capacity(shard_count);
        let mut i: usize = 0;
        while i < shard_count
            invariant
                i <= shard_count,
                total_shards@.len() == i,
                forall|j: int| 0 <= j < i ==> total_shards@[j] == 0,
            decreases shard_count - i,
        {
            total_shards.push(0);
            i = i + 1;
        }
        let mut rps_shards: Vec<SecondBucket> = Vec::with_capacity(bucket_count);
        let mut k: usize = 0;
        while k < bucket_count
            invariant
                k <= bucket_count,
                rps_shards@.len() == k,
                forall|j: int|
                    0 <= j < k ==> (#[trigger] rps_shards@[j]).count == 0 && rps_shards@[j].sec
                        == vstd::wrapping::i64_specs::wrapping_sub(
                        now,
                        (HISTORY_SECONDS - j % (HISTORY_SECONDS as int)) as i64,
                    ),
            decreases bucket_count - k,
        {
            let slot = k % HISTORY_SECONDS;
            let back = (HISTORY_SECONDS - slot) as i64;
            rps_shards.push(SecondBucket { sec: now.wrapping_sub(back), count: 0 });
            k = k + 1;
        }
        Metrics {
            started,
            current_sec: now,
            active_conns: 0,
            accepted_conns: 0,
            request_lines: 0,
            parse_errors: 0,
            max_conns,
            worker_count: workers,
            total_shards,
            rps_shards,
        }
    }

    /// Counters for `workers` workers (at least one), each with `SHARDS_PER_WORKER` shards,
    /// started now, all at zero. Each shard's buckets are set to the seconds before now.
    pub fn new(workers: usize, max_conns: usize) -> (r: Metrics)
        requires
            (if workers < 1 {
                1
            } else {
                workers
            }) * SHARDS_PER_WORKER * HISTORY_SECONDS <= usize::MAX,
        ensures
            r.wf(),
            r.worker_count == (if workers < 1 {
                1
            } else {
                workers
            }),
            r.max_conns == max_conns,
            r.active_conns == 0,
            r.accepted_conns == 0,
            r.request_lines == 0,
            r.parse_errors == 0,
            forall|i: int| 0 <= i < r.shard_count() ==> r.total_shards@[i] == 0,
            forall|k: int|
                0 <= k < r.rps_shards@.len() ==> (#[trigger] r.rps_shards@[k]).count == 0
                    && r.rps_shards@[k].sec == vstd::wrapping::i64_specs::wrapping_sub(
                    r.current_sec,
                    (HISTORY_SECONDS - k % (HISTORY_SECONDS as int)) as i64,
                ),
    {
        let now = unix_sec();
        Metrics::new_at(workers, max_conns, now, instant_now())
    }

    /// Counts `amount` hits for `shard` (taken modulo the number of shards) in second `sec`.
    /// The shard's lifetime total grows by `amount`; its bucket for `sec` grows by `amount`,
    /// or, where it holds another second, starts over from `amount`. Counts wrap
    /// modulo 2^64. Nothing changes when `amount` is zero. A bucket that holds another,
    /// negative second is one being taken over, and a count for it would wait for it forever:
    /// callers first make sure that the bucket is free.
    pub fn add(&mut self, shard: usize, sec: i64, amount: u64)
        requires
            old(self).wf(),
            amount > 0 ==> old(self).bucket_free(shard as int, sec),
        ensures
            final(self).wf(),
            // A second that is not negative, once counted, blocks no later count.
            sec >= 0 ==> final(self).keeps_free(old(self)),
            amount > 0 ==> final(self).bucket_free(shard as int, sec),
            final(self).same_gauges(old(self)),
            counted(old(self).tally(), final(self).tally(), shard as int, sec, amount),
            // Every hit is counted in the total ...
            final(self).total_hits() % modulus() == (old(self).total_hits() + amount) % modulus(),
            // ... and in its own second, while the seconds of other slots keep their counts.
            final(self).rps_at(sec as int) == (old(self).rps_at(sec as int) + amount) % modulus(),
            forall|sec2: int|
                slot_of(sec2) != slot_of(sec as int) ==> #[trigger] final(self).rps_at(sec2)
                    == old(self).rps_at(sec2),
    {
        let ghost before = *self;
        if amount == 0 {
            proof {
                lemma_counted(&before, self, shard as int, sec, amount);
            }
            return;
        }
        let n = self.total_shards.len();
        let s = shard % n;
        let t = self.total_shards[s];
        self.total_shards.set(s, t.wrapping_add(amount));
        let slot: i64 = match sec.checked_rem_euclid(HISTORY_SECONDS as i64) {
            Some(r) => r,
            None => 0,
        };
        assert(slot == slot_of(sec as int));
        let idx = s * HISTORY_SECONDS + slot as usize;
        assert(idx < self.rps_shards@.len());
        let b = self.rps_shards[idx];
        let count = if b.sec == sec {
            b.count.wrapping_add(amount)
        } else {
            amount
        };
        self.rps_shards.set(idx, SecondBucket { sec, count });
        proof {
            lemma_wrapping_add(t, amount);
            lemma_wrapping_add(b.count, amount);
            lemma_counted(&before, self, shard as int, sec, amount);
            assert forall|sh: int, t2: i64| sec >= 0 && before.bucket_free(sh, t2) implies #[trigger] self.bucket_free(
                sh,
                t2,
            ) by {
                let s2 = sh % (n as int);
                let slot2 = slot_of(t2 as int);
                assert(0 <= s2 * (HISTORY_SECONDS as int) + slot2 < (n as int) * (HISTORY_SECONDS as int))
                    by (nonlinear_arith)
                    requires
                        0 <= s2 < n as int,
                        0 <= slot2 < HISTORY_SECONDS as int,
                ;
            }
        }
    }

    /// The lifetime total of all shards, modulo 2^64.
    pub fn total(&self) -> (r: u64)
        requires
            self.wf(),
        ensures
            r == self.total_hits() % modulus(),
    {
        let mut acc: u64 = 0;
        let mut i: usize = 0;
        while i < self.total_shards.len()
            invariant
                i <= self.total_shards@.len(),
                acc == sum(self.total_shards@.subrange(0, i as int)) % modulus(),
            decreases self.total_shards@.len() - i,
        {
            proof {
                let s = self.total_shards@;
                assert(s.subrange(0, i + 1).drop_last() =~= s.subrange(0, i as int));
                vstd::arithmetic::div_mod::lemma_add_mod_noop(
                    sum(s.subrange(0, i as int)),
                    s[i as int] as int,
                    modulus(),
                );
                vstd::arithmetic::div_mod::lemma_small_mod(s[i as int] as nat, modulus() as nat);
                vstd::arithmetic::div_mod::lemma_mod_twice(sum(s.subrange(0, i as int)), modulus());
            }
            acc = acc.wrapping_add(self.total_shards[i]);
            i = i + 1;
        }
        assert(self.total_shards@.subrange(0, i as int) =~= self.total_shards@);
        acc
    }
}

impl Metrics {
    /// The hits of all shards in second `sec`, modulo 2^64.
    pub fn second_count(&self, sec: i64) -> (r: u64)
        requires
            self.wf(),
        ensures
            r == self.rps_at(sec as int),
    {
        let slot: i64 = match sec.checked_rem_euclid(HISTORY_SECONDS as i64) {
            Some(r) => r,
            None => 0,
        };
        assert(slot == slot_of(sec as int));
        let n = self.total_shards.len();
        let mut acc: u64 = 0;
        let mut i: usize = 0;
        while i < n
            invariant
                self.wf(),
                n == self.shard_count(),
                0 <= slot < HISTORY_SECONDS,
                slot == slot_of(sec as int),
                i <= n,
                acc == hits_upto(self.rps_shards@, i as int, sec as int) % modulus(),
            decreases n - i,
        {
            let b = self.rps_shards[i * HISTORY_SECONDS + slot as usize];
            proof {
                let h = hits_upto(self.rps_shards@, i as int, sec as int);
                let c = shard_hits(self.rps_shards@, i as int, sec as int);
                assert(hits_upto(self.rps_shards@, i + 1, sec as int) == h + c);
                lemma_wrapping_add(acc, b.count);
                vstd::arithmetic::div_mod::lemma_add_mod_noop(h, c, modulus());
                vstd::arithmetic::div_mod::lemma_small_mod(c as nat, modulus() as nat);
                vstd::arithmetic::div_mod::lemma_mod_twice(h, modulus());
            }
            if b.sec == sec {
                acc = acc.wrapping_add(b.count);
            }
            i = i + 1;
        }
        acc
    }

    /// What the metrics document reports: the lifetime total, the counts of the
    /// `CHART_SECONDS` seconds that end just before the current second (the last of them the
    /// current rate), the sum of the last `WINDOW_SECONDS` of them, the uptime, the CPUs and
    /// the connection gauges.
    pub fn snapshot(&self) -> (r: MetricsSnapshot)
        requires
            self.wf(),
            self.current_sec >= i64::MIN + CHART_SECONDS,
        ensures
            r.total == self.total_hits() % modulus(),
            r.timeline@.len() == CHART_SECONDS,
            forall|k: int|
                0 <= k < CHART_SECONDS ==> (#[trigger] r.timeline@[k]).timestamp == self.current_sec
                    - CHART_SECONDS + k && r.timeline@[k].rps == self.rps_at(
                    self.current_sec - CHART_SECONDS + k,
                ),
            r.current_rps == self.rps_at(self.current_sec - 1),
            r.window_total == rps_sum(self, self.current_sec - WINDOW_SECONDS, self.current_sec as int)
                % modulus(),
            r.uptime_seconds >= 1,
            r.cpu >= 1,
            r.workers == self.worker_count,
            r.active_conns == self.active_conns,
            r.max_conns == self.max_conns,
            r.accepted_conns == self.accepted_conns,
            r.request_lines == self.request_lines,
            r.parse_errors == self.parse_errors,
    {
        let total = self.total();
        let uptime = uptime_secs(&self.started);
        let end = self.current_sec - 1;
        let start = self.current_sec - CHART_SECONDS;
        let ghost w0 = end - WINDOW_SECONDS + 1;
        let mut timeline: Vec<DataPoint> = Vec::with_capacity(CHART_SECONDS as usize);
        let mut window_total: u64 = 0;
        let mut current: u64 = 0;
        let mut sec: i64 = start;
        while sec <= end
            invariant
                self.wf(),
                end == self.current_sec - 1,
                start == self.current_sec - CHART_SECONDS,
                w0 == self.current_sec - WINDOW_SECONDS,
                start <= sec <= end + 1,
                timeline@.len() == sec - start,
                forall|k: int|
                    0 <= k < timeline@.len() ==> (#[trigger] timeline@[k]).timestamp == start + k
                        && timeline@[k].rps == self.rps_at(start + k),
                window_total == rps_sum(self, w0, sec as int) % modulus(),
                sec == end + 1 ==> current == self.rps_at(end as int),
            decreases end + 1 - sec,
        {
            let rps = self.second_count(sec);
            if sec == end {
                current = rps;
            }
            proof {
                vstd::arithmetic::div_mod::lemma_mod_twice(0, modulus());
                if sec >= w0 {
                    let x = rps_sum(self, w0, sec as int);
                    assert(rps_sum(self, w0, sec + 1) == x + self.rps_at(sec as int));
                    lemma_wrapping_add(window_total, rps);
                    vstd::arithmetic::div_mod::lemma_add_mod_noop(x, rps as int, modulus());
                    vstd::arithmetic::div_mod::lemma_small_mod(rps as nat, modulus() as nat);
                    vstd::arithmetic::div_mod::lemma_mod_twice(x, modulus());
                } else {
                    assert(rps_sum(self, w0, sec + 1) == 0);
                }
            }
            if sec > end - WINDOW_SECONDS {
                window_total = window_total.wrapping_add(rps);
            }
            timeline.push(DataPoint { timestamp: sec, rps });
            sec = sec + 1;
        }
        MetricsSnapshot {
            total,
            current_rps: current,
            window_total,
            uptime_seconds: uptime,
            workers: self.worker_count,
            cpu: cpu_count(),
            active_conns: self.active_conns,
            max_conns: self.max_conns,
            accepted_conns: self.accepted_conns,
            request_lines: self.request_lines,
            parse_errors: self.parse_errors,
            timeline,
        }
    }

    /// Takes note of an accepted connection and decides whether to keep it. Past the cap of
    /// `max_conns` open connections (none when it is zero) the connection is refused, and
    /// the refusal is counted as one hit of `shard` in the current second.
    pub fn accept_connection(&mut self, shard: usize) -> (r: bool)
        requires
            old(self).wf(),
            old(self).max_conns > 0 && old(self).active_conns >= old(self).max_conns
                ==> old(self).bucket_free(shard as int, old(self).current_sec),
        ensures
            final(self).wf(),
            old(self).current_sec >= 0 ==> final(self).keeps_free(old(self)),
            final(self).accepted_conns as int == (old(self).accepted_conns + 1) % modulus(),
            r == !(old(self).max_conns > 0 && old(self).active_conns >= old(self).max_conns),
            old(self).max_conns == 0 ==> r,
            final(self).started == old(self).started,
            final(self).current_sec == old(self).current_sec,
            final(self).active_conns == old(self).active_conns,
            final(self).request_lines == old(self).request_lines,
            final(self).parse_errors == old(self).parse_errors,
            final(self).max_conns == old(self).max_conns,
            final(self).worker_count == old(self).worker_count,
            counted(
                old(self).tally(),
                final(self).tally(),
                shard as int,
                old(self).current_sec,
                if r {
                    0u64
                } else {
                    1u64
                },
            ),
    {
        proof {
            lemma_wrapping_add(self.accepted_conns, 1);
        }
        self.accepted_conns = self.accepted_conns.wrapping_add(1);
        if self.max_conns > 0 && self.active_conns >= self.max_conns {
            let now = self.current_sec;
            self.add(shard, now, 1);
            return false;
        }
        true
    }

    /// Sets the current second to `now`.
    pub fn set_second(&mut self, now: i64)
        requires
            old(self).wf(),
        ensures
            final(self).wf(),
            final(self).current_sec == now,
            final(self).started == old(self).started,
            final(self).active_conns == old(self).active_conns,
            final(self).accepted_conns == old(self).accepted_conns,
            final(self).request_lines == old(self).request_lines,
            final(self).parse_errors == old(self).parse_errors,
            final(self).max_conns == old(self).max_conns,
            final(self).worker_count == old(self).worker_count,
            final(self).total_shards@ == old(self).total_shards@,
            final(self).rps_shards@ == old(self).rps_shards@,
    {
        self.current_sec = now;
    }

    /// Sets the current second from the wall clock.
    pub fn tick(&mut self)
        requires
            old(self).wf(),
        ensures
            final(self).wf(),
            final(self).started == old(self).started,
            final(self).active_conns == old(self).active_conns,
            final(self).accepted_conns == old(self).accepted_conns,
            final(self).request_lines == old(self).request_lines,
            final(self).parse_errors == old(self).parse_errors,
            final(self).max_conns == old(self).max_conns,
            final(self).worker_count == old(self).worker_count,
            final(self).total_shards@ == old(self).total_shards@,
            final(self).rps_shards@ == old(self).rps_shards@,
    {
        let now = unix_sec();
        self.set_second(now);
    }

    /// Takes note of a connection being served.
    pub fn open_connection(&mut self)
        requires
            old(self).wf(),
        ensures
            final(self).wf(),
            final(self).active_conns == old(self).active_conns.wrapping_add(1),
            final(self).started == old(self).started,
            final(self).max_conns == old(self).max_conns,
            final(self).worker_count == old(self).worker_count,
            final(self).accepted_conns == old(self).accepted_conns,
            final(self).request_lines == old(self).request_lines,
            final(self).parse_errors == old(self).parse_errors,
            final(self).current_sec == old(self).current_sec,
            final(self).total_shards@ == old(self).total_shards@,
            final(self).rps_shards@ == old(self).rps_shards@,
    {
        self.active_conns = self.active_conns.wrapping_add(1);
    }

    /// Takes note of a connection that has gone.
    pub fn close_connection(&mut self)
        requires
            old(self).wf(),
        ensures
            final(self).wf(),
            final(self).active_conns == old(self).active_conns.wrapping_sub(1),
            final(self).started == old(self).started,
            final(self).max_conns == old(self).max_conns,
            final(self).worker_count == old(self).worker_count,
            final(self).accepted_conns == old(self).accepted_conns,
            final(self).request_lines == old(self).request_lines,
            final(self).parse_errors == old(self).parse_errors,
            final(self).current_sec == old(self).current_sec,
            final(self).total_shards@ == old(self).total_shards@,
            final(self).rps_shards@ == old(self).rps_shards@,
    {
        self.active_conns = self.active_conns.wrapping_sub(1);
    }

    /// Whether a count for second `sec` of `shard` can go to its bucket now.
    pub fn bucket_free_at(&self, shard: usize, sec: i64) -> (r: bool)
        requires
            self.wf(),
        ensures
            r == self.bucket_free(shard as int, sec),
    {
        let s = shard % self.total_shards.len();
        let slot: i64 = match sec.checked_rem_euclid(HISTORY_SECONDS as i64) {
            Some(r) => r,
            None => 0,
        };
        assert(slot == slot_of(sec as int));
        proof {
            assert(0 <= s * (HISTORY_SECONDS as int) + slot < self.shard_count() * (
            HISTORY_SECONDS as int)) by (nonlinear_arith)
                requires
                    0 <= s < self.shard_count(),
                    0 <= slot < HISTORY_SECONDS as int,
            ;
        }
        let b = self.rps_shards[s * HISTORY_SECONDS + slot as usize];
        b.sec == sec || b.sec >= 0
    }
}

} // verus!
