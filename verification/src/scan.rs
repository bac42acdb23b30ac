//! Searching byte buffers: single bytes, fixed patterns, line and header ends.
use vstd::prelude::*;

verus! {

/// `i` is the first index of `s` that holds the byte `b`.
pub open spec fn first_byte_at(s: Seq<u8>, b: u8, i: int) -> bool {
    &&& 0 <= i < s.len()
    &&& s[i] == b
    &&& forall|j: int| 0 <= j < i ==> s[j] != b
}

/// The index of the first `b` in `s`, if `s` holds one.
pub open spec fn position_of(s: Seq<u8>, b: u8) -> Option<int> {
    if exists|i: int| first_byte_at(s, b, i) {
        Some(choose|i: int| first_byte_at(s, b, i))
    } else {
        None
    }
}

/// `p` occurs in `s` starting at index `i`.
pub open spec fn occurs_at(s: Seq<u8>, p: Seq<u8>, i: int) -> bool {
    &&& 0 <= i
    &&& i + p.len() <= s.len()
    &&& s.subrange(i, i + p.len()) == p
}

/// `i` is the start of the first occurrence of `p` in `s`.
pub open spec fn first_occurrence_at(s: Seq<u8>, p: Seq<u8>, i: int) -> bool {
    &&& occurs_at(s, p, i)
    &&& forall|j: int| 0 <= j < i ==> !occurs_at(s, p, j)
}

/// The start of the first occurrence of `p` in `s`, if there is one.
pub open spec fn find_seq(s: Seq<u8>, p: Seq<u8>) -> Option<int> {
    if exists|i: int| first_occurrence_at(s, p, i) {
        Some(choose|i: int| first_occurrence_at(s, p, i))
    } else {
        None
    }
}

/// An executable index read as a mathematical one.
pub open spec fn opt_int(r: Option<usize>) -> Option<int> {
    match r {
        Some(i) => Some(i as int),
        None => None,
    }
}

/// The end of the first line of `s` (one past its `\n`), if the line is complete.
pub open spec fn line_end(s: Seq<u8>) -> Option<int> {
    match position_of(s, 10u8) {
        Some(i) => Some(i + 1),
        None => None,
    }
}

/// The two blank-line terminators a request head may end with.
pub open spec fn crlf_crlf() -> Seq<u8> {
    seq![13u8, 10u8, 13u8, 10u8]
}

pub open spec fn lf_lf() -> Seq<u8> {
    seq![10u8, 10u8]
}

/// The end of the request head: one past the first `\r\n\r\n`, or failing that one past
/// the first `\n\n`.
pub open spec fn head_end(s: Seq<u8>) -> Option<int> {
    match find_seq(s, crlf_crlf()) {
        Some(i) => Some(i + 4),
        None => match find_seq(s, lf_lf()) {
            Some(i) => Some(i + 2),
            None => None,
        },
    }
}

pub proof fn lemma_position_of(s: Seq<u8>, b: u8)
    ensures
        position_of(s, b) matches Some(i) ==> first_byte_at(s, b, i),
        position_of(s, b) is None ==> forall|j: int| 0 <= j < s.len() ==> s[j] != b,
{
    if position_of(s, b) is None {
        assert forall|j: int| 0 <= j < s.len() implies s[j] != b by {
            if s[j] == b {
                lemma_first_byte_exists(s, b, j);
            }
        }
    }
}

/// Any occurrence of `b` has a first one before or at it.
proof fn lemma_first_byte_exists(s: Seq<u8>, b: u8, k: int)
    requires
        0 <= k < s.len(),
        s[k] == b,
    ensures
        exists|i: int| first_byte_at(s, b, i),
    decreases k,
{
    if forall|j: int| 0 <= j < k ==> s[j] != b {
        assert(first_byte_at(s, b, k));
    } else {
        let j = choose|j: int| 0 <= j < k && s[j] == b;
        lemma_first_byte_exists(s, b, j);
    }
}

pub proof fn lemma_find_seq(s: Seq<u8>, p: Seq<u8>)
    ensures
        find_seq(s, p) matches Some(i) ==> first_occurrence_at(s, p, i),
        find_seq(s, p) is None ==> forall|j: int| !occurs_at(s, p, j),
{
    if find_seq(s, p) is None {
        assert forall|j: int| !occurs_at(s, p, j) by {
            if occurs_at(s, p, j) {
                lemma_first_occurrence_exists(s, p, j);
            }
        }
    }
}

proof fn lemma_first_occurrence_exists(s: Seq<u8>, p: Seq<u8>, k: int)
    requires
        occurs_at(s, p, k),
    ensures
        exists|i: int| first_occurrence_at(s, p, i),
    decreases k,
{
    if forall|j: int| 0 <= j < k ==> !occurs_at(s, p, j) {
        assert(first_occurrence_at(s, p, k));
    } else {
        let j = choose|j: int| 0 <= j < k && occurs_at(s, p, j);
        lemma_first_occurrence_exists(s, p, j);
    }
}

/// A request head ends within the buffer, after at least a blank line's two bytes.
pub proof fn lemma_head_end_bounds(s: Seq<u8>)
    ensures
        head_end(s) matches Some(e) ==> 2 <= e <= s.len(),
{
    lemma_find_seq(s, crlf_crlf());
    lemma_find_seq(s, lf_lf());
}

/// The index of the first `needle` in `buf`.
pub fn memchr(buf: &[u8], needle: u8) -> (r: Option<usize>)
    ensures
        opt_int(r) == position_of(buf@, needle),
        r matches Some(i) ==> first_byte_at(buf@, needle, i as int),
        r is None ==> forall|j: int| 0 <= j < buf@.len() ==> buf@[j] != needle,
{
    let mut i: usize = 0;
    while i < buf.len()
        invariant
            i <= buf@.len(),
            forall|j: int| 0 <= j < i ==> buf@[j] != needle,
        decreases buf@.len() - i,
    {
        if buf[i] == needle {
            assert(first_byte_at(buf@, needle, i as int));
            proof {
                let c = choose|c: int| first_byte_at(buf@, needle, c);
                assert(c == i as int);
            }
            return Some(i);
        }
        i = i + 1;
    }
    None
}

/// Whether `pat` occurs in `buf` at `at`.
fn occurs_at_exec(buf: &[u8], pat: &[u8], at: usize) -> (r: bool)
    ensures
        r == occurs_at(buf@, pat@, at as int),
{
    if pat.len() > buf.len() || at > buf.len() - pat.len() {
        return false;
    }
    let mut k: usize = 0;
    while k < pat.len()
        invariant
            at + pat@.len() <= buf@.len(),
            buf@.len() == buf.len(),
            k <= pat@.len(),
            forall|m: int| 0 <= m < k ==> buf@[at + m] == pat@[m],
        decreases pat@.len() - k,
    {
        if buf[at + k] != pat[k] {
            assert(buf@.subrange(at as int, at + pat@.len())[k as int] != pat@[k as int]);
            return false;
        }
        k = k + 1;
    }
    assert(buf@.subrange(at as int, at + pat@.len()) =~= pat@);
    true
}

/// The start of the first occurrence of `pat` in `buf`.
pub fn find_pattern(buf: &[u8], pat: &[u8]) -> (r: Option<usize>)
    requires
        pat@.len() > 0,
    ensures
        opt_int(r) == find_seq(buf@, pat@),
{
    let mut i: usize = 0;
    while i < buf.len()
        invariant
            i <= buf@.len(),
            forall|j: int| 0 <= j < i ==> !occurs_at(buf@, pat@, j),
        decreases buf@.len() - i,
    {
        if occurs_at_exec(buf, pat, i) {
            assert(first_occurrence_at(buf@, pat@, i as int));
            proof {
                let c = choose|c: int| first_occurrence_at(buf@, pat@, c);
                assert(c == i as int);
            }
            return Some(i);
        }
        i = i + 1;
    }
    assert forall|c: int| !first_occurrence_at(buf@, pat@, c) by {
        if occurs_at(buf@, pat@, c) {
            assert(c < buf@.len());
        }
    }
    None
}

/// One past the first `\n` of `buf`: the end of the first line.
pub fn find_lf(buf: &[u8]) -> (r: Option<usize>)
    ensures
        opt_int(r) == line_end(buf@),
        r matches Some(e) ==> 0 < e <= buf@.len() && buf@[e - 1] == 10u8,
{
    let n = buf.len();
    match memchr(buf, 10u8) {
        Some(idx) => Some(idx + 1),
        None => None,
    }
}

/// One past the blank line that ends the request head in `buf`.
pub fn find_header_end(buf: &[u8]) -> (r: Option<usize>)
    ensures
        opt_int(r) == head_end(buf@),
        r matches Some(e) ==> 2 <= e <= buf@.len(),
{
    let n = buf.len();
    let crlf: [u8; 4] = [13u8, 10u8, 13u8, 10u8];
    assert(crlf@ =~= crlf_crlf());
    match find_pattern(buf, &crlf) {
        Some(idx) => {
            proof {
                lemma_find_seq(buf@, crlf_crlf());
            }
            return Some(idx + 4);
        },
        None => {},
    }
    let lf: [u8; 2] = [10u8, 10u8];
    assert(lf@ =~= lf_lf());
    match find_pattern(buf, &lf) {
        Some(idx) => {
            proof {
                lemma_find_seq(buf@, lf_lf());
            }
            Some(idx + 2)
        },
        None => None,
    }
}

/// A byte found in `a` is found at the same place in `a` followed by anything.
pub proof fn lemma_position_of_prefix(a: Seq<u8>, b: Seq<u8>, x: u8)
    ensures
        position_of(a, x) is Some ==> position_of(a + b, x) == position_of(a, x),
{
    lemma_position_of(a, x);
    if let Some(i) = position_of(a, x) {
        let ab = a + b;
        assert(first_byte_at(ab, x, i)) by {
            assert forall|j: int| 0 <= j < i implies ab[j] != x by {
                assert(ab[j] == a[j]);
            }
        }
        let c = choose|c: int| first_byte_at(ab, x, c);
        assert(c == i);
    }
}

/// A pattern found in `a` is found at the same place in `a` followed by anything.
pub proof fn lemma_find_seq_prefix(a: Seq<u8>, b: Seq<u8>, p: Seq<u8>)
    ensures
        find_seq(a, p) is Some ==> find_seq(a + b, p) == find_seq(a, p),
{
    lemma_find_seq(a, p);
    if let Some(i) = find_seq(a, p) {
        let ab = a + b;
        assert(ab.subrange(i, i + p.len()) =~= a.subrange(i, i + p.len()));
        assert(first_occurrence_at(ab, p, i)) by {
            assert forall|j: int| 0 <= j < i implies !occurs_at(ab, p, j) by {
                if occurs_at(ab, p, j) {
                    assert(ab.subrange(j, j + p.len()) =~= a.subrange(j, j + p.len()));
                    assert(occurs_at(a, p, j));
                }
            }
        }
        let c = choose|c: int| first_occurrence_at(ab, p, c);
        if c < i {
        } else if c > i {
        }
        assert(c == i);
    }
}


/// The first `b` in `s` is the one at `k`.
pub proof fn lemma_position_at(s: Seq<u8>, b: u8, k: int)
    requires
        first_byte_at(s, b, k),
    ensures
        position_of(s, b) == Some(k),
{
    let c = choose|c: int| first_byte_at(s, b, c);
    assert(c == k);
}

/// The first occurrence of `p` in `s` is the one at `k`.
pub proof fn lemma_find_at(s: Seq<u8>, p: Seq<u8>, k: int)
    requires
        first_occurrence_at(s, p, k),
    ensures
        find_seq(s, p) == Some(k),
{
    let c = choose|c: int| first_occurrence_at(s, p, c);
    if c < k {
    } else if c > k {
    }
    assert(c == k);
}

} // verus!
