//! What it means for a pattern to occur in a byte sequence, and the
//! sliding-window counters over a buffer.
use vstd::prelude::*;

verus! {

/// The pattern occurs in `text` starting at offset `i`.
pub open spec fn matches_at(text: Seq<u8>, pat: Seq<u8>, i: int) -> bool {
    0 <= i && i + pat.len() <= text.len() && text.subrange(i, i + pat.len()) == pat
}

/// Number of offsets `i` in `[lo, hi)` at which the pattern occurs in `text`.
pub open spec fn count_in(text: Seq<u8>, pat: Seq<u8>, lo: int, hi: int) -> nat
    decreases hi - lo,
{
    if hi <= lo {
        0
    } else {
        count_in(text, pat, lo, hi - 1) + if matches_at(text, pat, hi - 1) { 1nat } else { 0nat }
    }
}

/// Number of (possibly overlapping) occurrences of the pattern in the whole of `text`.
pub open spec fn count_all(text: Seq<u8>, pat: Seq<u8>) -> nat {
    count_in(text, pat, 0, text.len() as int)
}

/// Counting over `[lo, mid)` and then `[mid, hi)` counts over `[lo, hi)`.
pub proof fn lemma_count_split(text: Seq<u8>, pat: Seq<u8>, lo: int, mid: int, hi: int)
    requires
        lo <= mid <= hi,
    ensures
        count_in(text, pat, lo, mid) + count_in(text, pat, mid, hi) == count_in(text, pat, lo, hi),
    decreases hi - mid,
{
    if hi > mid {
        lemma_count_split(text, pat, lo, mid, hi - 1);
    }
}

/// A count never exceeds the number of offsets it ranges over.
pub proof fn lemma_count_bound(text: Seq<u8>, pat: Seq<u8>, lo: int, hi: int)
    ensures
        lo <= hi ==> count_in(text, pat, lo, hi) <= hi - lo,
        hi <= lo ==> count_in(text, pat, lo, hi) == 0,
    decreases hi - lo,
{
    if hi > lo {
        lemma_count_bound(text, pat, lo, hi - 1);
    }
}

/// Offsets at which the pattern cannot fit add nothing to a count.
pub proof fn lemma_count_past_fit(text: Seq<u8>, pat: Seq<u8>, lo: int, hi: int)
    requires
        lo + pat.len() > text.len(),
    ensures
        count_in(text, pat, lo, hi) == 0,
    decreases hi - lo,
{
    if hi > lo {
        lemma_count_past_fit(text, pat, lo, hi - 1);
    }
}

/// Counting the first `n` offsets of a window cut out of `text` at `base` is
/// counting offsets `[base, base + n)` of `text`, as long as the window reaches
/// every byte those matches could cover, or the end of `text`.
pub proof fn lemma_count_window(text: Seq<u8>, pat: Seq<u8>, base: int, stop: int, n: int)
    requires
        0 <= base <= stop <= text.len(),
        0 <= n,
        stop == text.len() || base + n + pat.len() - 1 <= stop,
    ensures
        count_in(text.subrange(base, stop), pat, 0, n) == count_in(text, pat, base, base + n),
    decreases n,
{
    if n > 0 {
        lemma_count_window(text, pat, base, stop, n - 1);
        let w = text.subrange(base, stop);
        let j = n - 1;
        if matches_at(w, pat, j) {
            assert(w.subrange(j, j + pat.len()) =~= text.subrange(base + j, base + j + pat.len()));
        }
        if matches_at(text, pat, base + j) {
            assert(w.subrange(j, j + pat.len()) =~= text.subrange(base + j, base + j + pat.len()));
        }
    }
}

/// Does the pattern occur in `buf` at offset `i`?
pub fn match_at(buf: &[u8], pat: &[u8], i: usize) -> (r: bool)
    ensures
        r == matches_at(buf@, pat@, i as int),
{
    if pat.len() > buf.len() || i > buf.len() - pat.len() {
        return false;
    }
    let mut k: usize = 0;
    while k < pat.len()
        invariant
            k <= pat.len(),
            i + pat.len() <= buf.len(),
            forall|m: int| 0 <= m < k ==> buf@[i + m] == pat@[m],
        decreases pat.len() - k,
    {
        if buf[i + k] != pat[k] {
            assert(buf@.subrange(i as int, i + pat.len())[k as int] != pat@[k as int]);
            return false;
        }
        k = k + 1;
    }
    assert(buf@.subrange(i as int, i + pat.len()) =~= pat@);
    true
}

/// Counts the offsets `i < limit` of `buf` at which the pattern occurs.
/// A match may run past `limit`, but not past the end of `buf`.
pub fn count_starts_below(buf: &[u8], pat: &[u8], limit: usize) -> (r: usize)
    requires
        pat@.len() >= 1,
    ensures
        r == count_in(buf@, pat@, 0, limit as int),
{
    let mut n: usize = 0;
    let mut i: usize = 0;
    let stop: usize = if limit < buf.len() { limit } else { buf.len() };
    while i < stop
        invariant
            i <= stop,
            stop <= buf.len(),
            stop <= limit,
            n == count_in(buf@, pat@, 0, i as int),
            n <= i,
        decreases stop - i,
    {
        if match_at(buf, pat, i) {
            n = n + 1;
        }
        i = i + 1;
    }
    proof {
        lemma_count_split(buf@, pat@, 0, stop as int, limit as int);
        if stop < limit {
            lemma_count_past_fit(buf@, pat@, stop as int, limit as int);
        }
    }
    n
}

/// Naive single pass over the whole buffer: every offset is tried.
pub fn count_naive(buf: &[u8], pat: &[u8]) -> (r: usize)
    requires
        pat@.len() >= 1,
    ensures
        r == count_all(buf@, pat@),
{
    count_starts_below(buf, pat, buf.len())
}

} // verus!
