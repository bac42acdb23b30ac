//! Settings and small decisions of the server: the listen address, the number of workers
//! and listeners, connection tokens and shards, and the values of its settings.
use vstd::prelude::*;
use vstd::string::{StrSliceExecFns, StringExecFns, StringSliceAdditionalSpecFns};
use crate::request::{lower, to_lower};
use crate::response::{decimal_value, is_digit};

verus! {

/// `addr` with a bare `:port` bound to all IPv4 interfaces.
pub open spec fn normalized_addr(addr: Seq<char>) -> Seq<char> {
    if addr.len() > 0 && addr[0] == ':' {
        "0.0.0.0"@ + addr
    } else {
        addr
    }
}

/// The listen address, with `:port` taken as `0.0.0.0:port`.
pub fn normalize_addr(addr: &str) -> (r: String)
    ensures
        r@ == normalized_addr(addr@),
{
    if addr.unicode_len() > 0 && addr.get_char(0) == ':' {
        let mut r = String::from_str("0.0.0.0");
        r.append(addr);
        r
    } else {
        String::from_str(addr)
    }
}

/// The number of listening sockets: one per worker (at least one) where the platform lets
/// several sockets share a port, else one.
pub fn listener_count(workers: usize, port_sharing: bool) -> (r: usize)
    ensures
        r == if port_sharing {
            if workers < 1 {
                1
            } else {
                workers
            }
        } else {
            1
        },
        r >= 1,
{
    if port_sharing {
        if workers < 1 {
            1
        } else {
            workers
        }
    } else {
        1
    }
}

/// The number of workers: the setting, where zero means one per CPU.
pub fn worker_count(setting: usize, cpus: usize) -> (r: usize)
    ensures
        r == if setting == 0 {
            cpus
        } else {
            setting
        },
{
    if setting == 0 {
        cpus
    } else {
        setting
    }
}

/// The token after `token`: one more, and one again after the largest, so that zero, which
/// names the listener, never comes.
pub open spec fn following_token(token: int) -> int {
    if token == usize::MAX {
        1
    } else {
        token + 1
    }
}

/// The token after `token`, skipping zero, which names the listener.
pub fn next_token(token: usize) -> (r: usize)
    ensures
        r == following_token(token as int),
        r != 0,
{
    let t = token.wrapping_add(1);
    if t < 1 {
        1
    } else {
        t
    }
}

/// The shard after `current` for worker `worker_id`.
pub open spec fn rotated_shard(current: int, worker_count: int, worker_id: int, shard_count: int) -> int {
    if current + worker_count >= shard_count {
        worker_id
    } else {
        current + worker_count
    }
}

/// The shard for the next connection of worker `worker_id`: shards go round in steps of the
/// number of workers, and start again from the worker's own once past the last.
pub fn next_shard(current: usize, worker_count: usize, worker_id: usize, shard_count: usize) -> (r: usize)
    requires
        current + worker_count <= usize::MAX,
    ensures
        r == rotated_shard(current as int, worker_count as int, worker_id as int, shard_count as int),
{
    let next = current + worker_count;
    if next >= shard_count {
        worker_id
    } else {
        next
    }
}

/// Each worker keeps to its own shards: starting from its own index, every shard it moves to
/// is a shard that exists and is its own modulo the number of workers, where the shards come
/// in whole rounds of the workers.
pub proof fn law_shard_rotation(current: int, worker_count: int, worker_id: int, shard_count: int)
    requires
        0 <= worker_id < worker_count,
        0 < shard_count,
        shard_count % worker_count == 0,
        0 <= current < shard_count,
        current % worker_count == worker_id,
    ensures
        worker_id < shard_count,
        worker_id % worker_count == worker_id,
        0 <= rotated_shard(current, worker_count, worker_id, shard_count) < shard_count,
        rotated_shard(current, worker_count, worker_id, shard_count) % worker_count == worker_id,
{
    vstd::arithmetic::div_mod::lemma_small_mod(worker_id as nat, worker_count as nat);
    vstd::arithmetic::div_mod::lemma_mod_add_multiples_vanish(current, worker_count);
    vstd::arithmetic::div_mod::lemma_fundamental_div_mod(shard_count, worker_count);
    let q = shard_count / worker_count;
    assert(shard_count == worker_count * q);
    assert(q >= 1) by (nonlinear_arith)
        requires
            shard_count == worker_count * q,
            shard_count > 0,
            worker_count > 0,
    ;
    assert(worker_count <= shard_count) by (nonlinear_arith)
        requires
            shard_count == worker_count * q,
            q >= 1,
            worker_count > 0,
    ;
}

/// The shards a worker hands to its connections in turn: its own index first, then each the
/// rotation of the one before.
pub open spec fn shard_run(shards: Seq<int>, worker_count: int, worker_id: int, shard_count: int) -> bool {
    &&& shards.len() > 0
    &&& shards[0] == worker_id
    &&& forall|i: int|
        0 <= i < shards.len() - 1 ==> #[trigger] shards[i + 1] == rotated_shard(
            shards[i],
            worker_count,
            worker_id,
            shard_count,
        )
}

/// Over a worker's whole run, every shard it hands out, to its connections and to the
/// counting of their hits, exists and is its own modulo the number of workers, where the
/// shards come in whole rounds of the workers.
pub proof fn law_worker_shards(shards: Seq<int>, worker_count: int, worker_id: int, shard_count: int)
    requires
        0 <= worker_id < worker_count,
        0 < shard_count,
        shard_count % worker_count == 0,
        shard_run(shards, worker_count, worker_id, shard_count),
    ensures
        forall|i: int|
            0 <= i < shards.len() ==> 0 <= #[trigger] shards[i] < shard_count && shards[i]
                % worker_count == worker_id,
    decreases shards.len(),
{
    if shards.len() == 1 {
        vstd::arithmetic::div_mod::lemma_small_mod(worker_id as nat, worker_count as nat);
        vstd::arithmetic::div_mod::lemma_fundamental_div_mod(shard_count, worker_count);
        let q = shard_count / worker_count;
        assert(worker_count <= shard_count) by (nonlinear_arith)
            requires
                shard_count == worker_count * q,
                shard_count > 0,
                worker_count > 0,
        ;
    } else {
        let front = shards.drop_last();
        assert forall|i: int| 0 <= i < front.len() - 1 implies #[trigger] front[i + 1] == rotated_shard(
            front[i],
            worker_count,
            worker_id,
            shard_count,
        ) by {
            assert(shards[i + 1] == rotated_shard(shards[i], worker_count, worker_id, shard_count));
        }
        law_worker_shards(front, worker_count, worker_id, shard_count);
        let k = shards.len() - 2;
        assert(front[k] == shards[k]);
        assert(shards[k + 1] == rotated_shard(shards[k], worker_count, worker_id, shard_count));
        law_shard_rotation(shards[k], worker_count, worker_id, shard_count);
        assert forall|i: int| 0 <= i < shards.len() implies 0 <= #[trigger] shards[i] < shard_count
            && shards[i] % worker_count == worker_id by {
            if i < front.len() {
                assert(front[i] == shards[i]);
            }
        }
    }
}

/// The tokens a worker gives its connections in turn: one first, then each the one after the
/// one before.
pub open spec fn token_run(tokens: Seq<int>) -> bool {
    &&& tokens.len() > 0
    &&& tokens[0] == 1
    &&& forall|i: int| 0 <= i < tokens.len() - 1 ==> #[trigger] tokens[i + 1] == following_token(tokens[i])
}

/// Over a worker's whole run, the connections get the tokens one, two, three and so on, and
/// start again from one after the largest: so no connection ever gets zero, the listener's
/// token, and no two connections of fewer than `usize::MAX` in a row share one.
pub proof fn law_worker_tokens(tokens: Seq<int>)
    requires
        token_run(tokens),
    ensures
        forall|i: int| 0 <= i < tokens.len() ==> #[trigger] tokens[i] == i % (usize::MAX as int) + 1,
        forall|i: int| 0 <= i < tokens.len() ==> #[trigger] tokens[i] != 0,
    decreases tokens.len(),
{
    let m = usize::MAX as int;
    if tokens.len() == 1 {
        vstd::arithmetic::div_mod::lemma_small_mod(0, m as nat);
    } else {
        let front = tokens.drop_last();
        assert forall|i: int| 0 <= i < front.len() - 1 implies #[trigger] front[i + 1] == following_token(
            front[i],
        ) by {
            assert(tokens[i + 1] == following_token(tokens[i]));
        }
        law_worker_tokens(front);
        let k = tokens.len() - 2;
        assert(front[k] == tokens[k]);
        assert(tokens[k] == k % m + 1);
        assert(tokens[k + 1] == following_token(tokens[k]));
        vstd::arithmetic::div_mod::lemma_add_mod_noop(k, 1, m);
        vstd::arithmetic::div_mod::lemma_small_mod(1, m as nat);
        assert(0 <= k % m < m) by {
            vstd::arithmetic::div_mod::lemma_mod_bound(k, m);
        }
        if k % m + 1 == m {
            vstd::arithmetic::div_mod::lemma_mod_self_0(m);
        } else {
            vstd::arithmetic::div_mod::lemma_small_mod((k % m + 1) as nat, m as nat);
        }
        assert(tokens[k + 1] == (k + 1) % m + 1);
        assert forall|i: int| 0 <= i < tokens.len() implies #[trigger] tokens[i] == i % m + 1 by {
            if i < front.len() {
                assert(front[i] == tokens[i]);
            }
        }
        assert forall|i: int| 0 <= i < tokens.len() implies #[trigger] tokens[i] != 0 by {
            vstd::arithmetic::div_mod::lemma_mod_bound(i, m);
            assert(tokens[i] == i % m + 1);
        }
    }
}

/// Whether the hits held by connections are due to be handed over: only where hits are held
/// (`flush_every` above one), and once `interval_ms` milliseconds have passed since the last
/// time.
pub fn pending_flush_due(flush_every: u64, elapsed_ms: u64, interval_ms: u64) -> (r: bool)
    ensures
        r == (flush_every > 1 && elapsed_ms >= interval_ms),
{
    flush_every > 1 && elapsed_ms >= interval_ms
}

/// `word` spells `expected` once taken in ASCII lower case.
pub open spec fn spells(word: Seq<u8>, expected: Seq<u8>) -> bool {
    &&& word.len() == expected.len()
    &&& forall|i: int| 0 <= i < word.len() ==> lower(word[i]) == expected[i]
}

/// The switch that a setting's word names, in any ASCII case.
pub open spec fn flag_of(word: Seq<u8>) -> Option<bool> {
    if spells(word, "1".spec_bytes()) || spells(word, "true".spec_bytes()) || spells(
        word,
        "yes".spec_bytes(),
    ) || spells(word, "on".spec_bytes()) {
        Some(true)
    } else if spells(word, "0".spec_bytes()) || spells(word, "false".spec_bytes()) || spells(
        word,
        "no".spec_bytes(),
    ) || spells(word, "off".spec_bytes()) {
        Some(false)
    } else {
        None
    }
}

/// Whether `word` spells `expected` in ASCII lower case.
fn spells_exec(word: &[u8], expected: &[u8]) -> (r: bool)
    ensures
        r == spells(word@, expected@),
{
    if word.len() != expected.len() {
        return false;
    }
    let mut i: usize = 0;
    while i < word.len()
        invariant
            word@.len() == expected@.len(),
            i <= word@.len(),
            forall|j: int| 0 <= j < i ==> lower(word@[j]) == expected@[j],
        decreases word@.len() - i,
    {
        if to_lower(word[i]) != expected[i] {
            return false;
        }
        i = i + 1;
    }
    true
}

/// The switch that a setting's word names: `1`, `true`, `yes`, `on` or `0`, `false`, `no`,
/// `off`, in any ASCII case.
pub fn flag_word(word: &[u8]) -> (r: Option<bool>)
    ensures
        r == flag_of(word@),
{
    if spells_exec(word, "1".as_bytes()) || spells_exec(word, "true".as_bytes()) || spells_exec(
        word,
        "yes".as_bytes(),
    ) || spells_exec(word, "on".as_bytes()) {
        Some(true)
    } else if spells_exec(word, "0".as_bytes()) || spells_exec(word, "false".as_bytes())
        || spells_exec(word, "no".as_bytes()) || spells_exec(word, "off".as_bytes()) {
        Some(false)
    } else {
        None
    }
}

/// The digits of an unsigned number written with an optional leading `+`.
pub open spec fn unsigned_digits(s: Seq<u8>) -> Seq<u8> {
    if s.len() > 0 && s[0] == 43u8 {
        s.subrange(1, s.len() as int)
    } else {
        s
    }
}

/// The unsigned number that `s` writes, if it is at most `max`: an optional `+` and one or
/// more decimal digits, nothing else.
pub open spec fn unsigned_value(s: Seq<u8>, max: int) -> Option<int> {
    let d = unsigned_digits(s);
    if d.len() > 0 && (forall|i: int| 0 <= i < d.len() ==> is_digit(#[trigger] d[i]))
        && decimal_value(d) <= max {
        Some(decimal_value(d))
    } else {
        None
    }
}

/// Adding digits to a string of digits does not make its value smaller.
proof fn lemma_decimal_value_prefix(s: Seq<u8>, j: int)
    requires
        0 <= j <= s.len(),
        forall|i: int| 0 <= i < s.len() ==> is_digit(#[trigger] s[i]),
    ensures
        decimal_value(s.subrange(0, j)) <= decimal_value(s),
        0 <= decimal_value(s.subrange(0, j)),
    decreases s.len(),
{
    if j == s.len() {
        assert(s.subrange(0, j) =~= s);
        lemma_decimal_value_nonneg(s);
    } else {
        let t = s.drop_last();
        assert(t.subrange(0, j) =~= s.subrange(0, j));
        lemma_decimal_value_prefix(t, j);
        lemma_decimal_value_nonneg(t);
    }
}

proof fn lemma_decimal_value_nonneg(s: Seq<u8>)
    requires
        forall|i: int| 0 <= i < s.len() ==> is_digit(#[trigger] s[i]),
    ensures
        0 <= decimal_value(s),
    decreases s.len(),
{
    if s.len() > 0 {
        lemma_decimal_value_nonneg(s.drop_last());
    }
}

/// The number that `s` writes, as `str::parse` for an unsigned type reads it, if it is at
/// most `max`.
pub fn parse_unsigned(s: &[u8], max: u64) -> (r: Option<u64>)
    ensures
        opt_u64(r) == unsigned_value(s@, max as int),
{
    let n = s.len();
    let start: usize = if n > 0 && s[0] == 43u8 {
        1
    } else {
        0
    };
    let ghost d = unsigned_digits(s@);
    assert(d =~= s@.subrange(start as int, n as int));
    if start >= n {
        return None;
    }
    let mut acc: u64 = 0;
    let mut i: usize = start;
    while i < n
        invariant
            n == s@.len(),
            start <= i <= n,
            start < n,
            d == s@.subrange(start as int, n as int),
            d == unsigned_digits(s@),
            forall|k: int| 0 <= k < i - start ==> is_digit(#[trigger] d[k]),
            acc as int == decimal_value(d.subrange(0, i - start)),
            acc <= max,
        decreases n - i,
    {
        let b = s[i];
        if b < 48 || b > 57 {
            proof {
                let k = i - start;
                assert(d[k] == s@[i as int]);
                assert(!is_digit(d[k]));
                assert(!(forall|k2: int| 0 <= k2 < d.len() ==> is_digit(#[trigger] d[k2])));
            }
            return None;
        }
        let digit = (b - 48) as u64;
        assert(d.subrange(0, i + 1 - start).drop_last() =~= d.subrange(0, i - start));
        if digit > max || acc > (max - digit) / 10 {
            proof {
                if digit <= max {
                    assert(acc * 10 + digit > max) by (nonlinear_arith)
                        requires
                            acc > (max - digit) / 10,
                            digit <= max,
                    ;
                }
                if forall|k: int| 0 <= k < d.len() ==> is_digit(#[trigger] d[k]) {
                    lemma_decimal_value_prefix(d, i + 1 - start);
                }
            }
            return None;
        }
        assert(acc * 10 + digit <= max) by (nonlinear_arith)
            requires
                acc <= (max - digit) / 10,
                digit <= max,
        ;
        acc = acc * 10 + digit;
        i = i + 1;
    }
    assert(d.subrange(0, n - start) =~= d);
    Some(acc)
}

pub open spec fn opt_u64(r: Option<u64>) -> Option<int> {
    match r {
        Some(v) => Some(v as int),
        None => None,
    }
}

/// A character with the Unicode property `White_Space`, as `char::is_whitespace` reads it.
pub open spec fn is_whitespace(c: char) -> bool {
    let u = c as u32;
    ||| 9 <= u <= 13
    ||| u == 32
    ||| u == 0x85
    ||| u == 0xa0
    ||| u == 0x1680
    ||| 0x2000 <= u <= 0x200a
    ||| u == 0x2028
    ||| u == 0x2029
    ||| u == 0x202f
    ||| u == 0x205f
    ||| u == 0x3000
}

/// `s` without its leading whitespace.
pub open spec fn trim_start(s: Seq<char>) -> Seq<char>
    decreases s.len(),
{
    if s.len() > 0 && is_whitespace(s[0]) {
        trim_start(s.drop_first())
    } else {
        s
    }
}

/// `s` without its trailing whitespace.
pub open spec fn trim_end(s: Seq<char>) -> Seq<char>
    decreases s.len(),
{
    if s.len() > 0 && is_whitespace(s.last()) {
        trim_end(s.drop_last())
    } else {
        s
    }
}

/// `s` without its leading and trailing whitespace.
pub open spec fn trimmed(s: Seq<char>) -> Seq<char> {
    trim_end(trim_start(s))
}

/// Whether `c` is whitespace.
pub fn is_whitespace_char(c: char) -> (r: bool)
    ensures
        r == is_whitespace(c),
{
    let u = c as u32;
    (9 <= u && u <= 13) || u == 32 || u == 0x85 || u == 0xa0 || u == 0x1680 || (0x2000 <= u
        && u <= 0x200a) || u == 0x2028 || u == 0x2029 || u == 0x202f || u == 0x205f || u
        == 0x3000
}

/// `s` without its leading and trailing whitespace, as `str::trim` gives it.
pub fn trim_str(s: &str) -> (r: &str)
    ensures
        r@ == trimmed(s@),
{
    let n = s.unicode_len();
    let mut lo: usize = 0;
    assert(s@.subrange(0, n as int) =~= s@);
    while lo < n && is_whitespace_char(s.get_char(lo))
        invariant
            n == s@.len(),
            lo <= n,
            trim_start(s@) == trim_start(s@.subrange(lo as int, n as int)),
        decreases n - lo,
    {
        assert(s@.subrange(lo as int, n as int).drop_first() =~= s@.subrange(lo + 1, n as int));
        lo = lo + 1;
    }
    assert(trim_start(s@.subrange(lo as int, n as int)) == s@.subrange(lo as int, n as int));
    let mut hi: usize = n;
    while hi > lo && is_whitespace_char(s.get_char(hi - 1))
        invariant
            n == s@.len(),
            lo <= hi <= n,
            trim_end(s@.subrange(lo as int, n as int)) == trim_end(s@.subrange(lo as int, hi as int)),
        decreases hi - lo,
    {
        assert(s@.subrange(lo as int, hi as int).drop_last() =~= s@.subrange(lo as int, hi - 1));
        hi = hi - 1;
    }
    assert(trim_end(s@.subrange(lo as int, hi as int)) == s@.subrange(lo as int, hi as int));
    s.substring_char(lo, hi)
}

/// The bytes of a setting's value once trimmed.
pub open spec fn setting_bytes(value: Seq<char>) -> Seq<u8> {
    vstd::utf8::encode_utf8(trimmed(value))
}

/// A switch setting: its value, trimmed, names `true` or `false` as `flag_word` reads it;
/// an absent or unknown value keeps `fallback`.
pub fn bool_setting(value: Option<&str>, fallback: bool) -> (r: bool)
    ensures
        r == match value {
            None => fallback,
            Some(v) => match flag_of(setting_bytes(v@)) {
                Some(b) => b,
                None => fallback,
            },
        },
{
    match value {
        None => fallback,
        Some(v) => match flag_word(trim_str(v).as_bytes()) {
            Some(b) => b,
            None => fallback,
        },
    }
}

/// A count setting: its value, trimmed, as an unsigned number; an absent or unreadable value
/// keeps `fallback`.
pub fn u64_setting(value: Option<&str>, fallback: u64) -> (r: u64)
    ensures
        r == match value {
            None => fallback,
            Some(v) => match unsigned_value(setting_bytes(v@), u64::MAX as int) {
                Some(n) => n as u64,
                None => fallback,
            },
        },
{
    match value {
        None => fallback,
        Some(v) => match parse_unsigned(trim_str(v).as_bytes(), u64::MAX) {
            Some(n) => n,
            None => fallback,
        },
    }
}

/// A size setting: its value, trimmed, as an unsigned number that fits a `usize`; an absent
/// or unreadable value keeps `fallback`.
pub fn usize_setting(value: Option<&str>, fallback: usize) -> (r: usize)
    ensures
        r == match value {
            None => fallback,
            Some(v) => match unsigned_value(setting_bytes(v@), usize::MAX as int) {
                Some(n) => n as usize,
                None => fallback,
            },
        },
{
    match value {
        None => fallback,
        Some(v) => match parse_unsigned(trim_str(v).as_bytes(), usize::MAX as u64) {
            Some(n) => n as usize,
            None => fallback,
        },
    }
}

} // verus!
