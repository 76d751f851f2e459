//! Scanning a file range by range: checking a request, counting one range
//! from its read window, and the whole partitioned count over bytes in memory.
use vstd::prelude::*;
use crate::aggregate::{filled, lemma_fill, lemma_filled_all, lemma_none_filled, sum_filled, Aggregator, PartialResult};
use crate::error::{ConfigProblem, ScanError};
use crate::matching::{count_all, count_in, count_starts_below, lemma_count_bound, lemma_count_past_fit, lemma_count_split, lemma_count_window};
use crate::planner::{lemma_start_le, plan_ranges, range_end, range_start, read_window, ByteRange};

verus! {

/// The error a request is refused with, if any: zero workers first, then an
/// empty pattern.
pub open spec fn request_problem(workers: int, pat_len: int) -> Option<ConfigProblem> {
    if workers == 0 {
        Some(ConfigProblem::ZeroWorkers)
    } else if pat_len == 0 {
        Some(ConfigProblem::EmptyPattern)
    } else {
        None
    }
}

/// End of the bytes read for a range ending at `end`: `pat_len - 1` bytes
/// further, cut at the end of the file.
pub open spec fn window_end(end: int, pat_len: int, total_len: int) -> int {
    if end + pat_len - 1 <= total_len {
        end + pat_len - 1
    } else {
        total_len
    }
}

/// What the scanner of range `i` of the plan reads.
pub open spec fn chunk_window(text: Seq<u8>, pat_len: int, workers: int, i: int) -> Seq<u8> {
    text.subrange(
        range_start(text.len() as int, workers, i),
        window_end(range_end(text.len() as int, workers, i), pat_len, text.len() as int),
    )
}

/// What the scanner of range `i` of the plan reports: the matches in its
/// window that start before the range's nominal end.
pub open spec fn chunk_count(text: Seq<u8>, pat: Seq<u8>, workers: int, i: int) -> nat {
    count_in(
        chunk_window(text, pat.len() as int, workers, i),
        pat,
        0,
        range_end(text.len() as int, workers, i) - range_start(text.len() as int, workers, i),
    )
}

/// Sum of the reports of the first `k` ranges of the plan.
pub open spec fn partitioned_prefix(text: Seq<u8>, pat: Seq<u8>, workers: int, k: int) -> nat
    decreases k,
{
    if k <= 0 {
        0
    } else {
        partitioned_prefix(text, pat, workers, k - 1) + chunk_count(text, pat, workers, k - 1)
    }
}

/// The total that scanning `text` in `workers` ranges gives.
pub open spec fn partitioned_count(text: Seq<u8>, pat: Seq<u8>, workers: int) -> nat {
    partitioned_prefix(text, pat, workers, workers)
}

/// Where the first `k` ranges of the plan end.
pub open spec fn boundary(total_len: int, workers: int, k: int) -> int {
    if k <= 0 {
        0
    } else {
        range_end(total_len, workers, k - 1)
    }
}

/// Range `i` reports exactly the matches of `text` that start inside it.
pub proof fn lemma_chunk_count(text: Seq<u8>, pat: Seq<u8>, workers: int, i: int)
    requires
        workers >= 1,
        0 <= i < workers,
        pat.len() >= 1,
    ensures
        chunk_count(text, pat, workers, i) == count_in(
            text,
            pat,
            range_start(text.len() as int, workers, i),
            range_end(text.len() as int, workers, i),
        ),
{
    let n = text.len() as int;
    lemma_start_le(n, workers, i);
    let s = range_start(n, workers, i);
    let e = range_end(n, workers, i);
    let we = window_end(e, pat.len() as int, n);
    lemma_count_window(text, pat, s, we, e - s);
}

/// The first `k` ranges together report the matches that start before
/// their common end.
pub proof fn lemma_prefix(text: Seq<u8>, pat: Seq<u8>, workers: int, k: int)
    requires
        workers >= 1,
        0 <= k <= workers,
        pat.len() >= 1,
    ensures
        partitioned_prefix(text, pat, workers, k) == count_in(
            text,
            pat,
            0,
            boundary(text.len() as int, workers, k),
        ),
        k < workers ==> boundary(text.len() as int, workers, k) == range_start(
            text.len() as int,
            workers,
            k,
        ),
    decreases k,
{
    let n = text.len() as int;
    let b = n / workers;
    if k > 0 {
        lemma_prefix(text, pat, workers, k - 1);
        lemma_chunk_count(text, pat, workers, k - 1);
        lemma_start_le(n, workers, k - 1);
        lemma_count_split(
            text,
            pat,
            0,
            range_start(n, workers, k - 1),
            range_end(n, workers, k - 1),
        );
    } else {
        assert(0 * b == 0);
    }
}

/// Scanning in ranges counts what a single pass over the whole content
/// counts, for every content, pattern and worker count.
pub proof fn lemma_partitioned_is_single_pass(text: Seq<u8>, pat: Seq<u8>, workers: int)
    requires
        workers >= 1,
        pat.len() >= 1,
    ensures
        partitioned_count(text, pat, workers) == count_all(text, pat),
{
    lemma_prefix(text, pat, workers, workers);
}

/// The total does not depend on how many ranges the content is split into.
pub proof fn lemma_partition_invariant(text: Seq<u8>, pat: Seq<u8>, w1: int, w2: int)
    requires
        w1 >= 1,
        w2 >= 1,
        pat.len() >= 1,
    ensures
        partitioned_count(text, pat, w1) == partitioned_count(text, pat, w2),
{
    lemma_partitioned_is_single_pass(text, pat, w1);
    lemma_partitioned_is_single_pass(text, pat, w2);
}

/// An empty content, or one shorter than the pattern, gives a total of 0
/// for every worker count; more workers than bytes still give the
/// single-pass count.
pub proof fn lemma_degenerate_inputs(text: Seq<u8>, pat: Seq<u8>, workers: int)
    requires
        workers >= 1,
        pat.len() >= 1,
    ensures
        text.len() == 0 ==> partitioned_count(text, pat, workers) == 0,
        pat.len() > text.len() ==> partitioned_count(text, pat, workers) == 0,
        workers > text.len() ==> partitioned_count(text, pat, workers) == count_all(text, pat),
{
    lemma_partitioned_is_single_pass(text, pat, workers);
    if pat.len() > text.len() {
        lemma_count_past_fit(text, pat, 0, text.len() as int);
    }
}

/// Refuses a request with zero workers or an empty pattern.
pub fn validate_request(workers: usize, pat_len: usize) -> (r: Result<(), ScanError>)
    ensures
        r == match request_problem(workers as int, pat_len as int) {
            Some(p) => Err(ScanError::InvalidConfiguration { problem: p }),
            None => Ok(()),
        },
{
    if workers == 0 {
        Err(ScanError::InvalidConfiguration { problem: ConfigProblem::ZeroWorkers })
    } else if pat_len == 0 {
        Err(ScanError::InvalidConfiguration { problem: ConfigProblem::EmptyPattern })
    } else {
        Ok(())
    }
}

/// Counts the matches of range `range`, numbered `index` in the plan, from
/// `window`, the bytes read from the range's start on (see `read_window`).
/// Only matches that start before the range's end are counted.
pub fn scan_chunk(index: usize, range: ByteRange, window: &[u8], pat: &[u8]) -> (r: PartialResult)
    requires
        range.start <= range.end,
        pat@.len() >= 1,
    ensures
        r.range_index == index,
        r.count == count_in(window@, pat@, 0, range.end - range.start),
{
    let count = count_starts_below(window, pat, range.end - range.start);
    PartialResult { range_index: index, count }
}

/// Counts the (possibly overlapping) occurrences of `pat` in `text` by
/// splitting `text` into `workers` ranges, scanning each from its extended
/// window and summing the reports.
pub fn count_partitioned(text: &[u8], workers: usize, pat: &[u8]) -> (r: Result<usize, ScanError>)
    ensures
        request_problem(workers as int, pat@.len() as int) matches Some(p) ==> r == Err::<
            usize,
            ScanError,
        >(ScanError::InvalidConfiguration { problem: p }),
        request_problem(workers as int, pat@.len() as int) is None ==> r is Ok && r->Ok_0
            == count_all(text@, pat@) && r->Ok_0 == partitioned_count(
            text@,
            pat@,
            workers as int,
        ),
{
    match validate_request(workers, pat.len()) {
        Err(e) => {
            return Err(e);
        },
        Ok(()) => {},
    }
    let ranges = match plan_ranges(text.len(), workers) {
        Err(e) => {
            return Err(e);
        },
        Ok(v) => v,
    };
    let ghost n = text@.len() as int;
    let ghost w = workers as int;
    let mut agg = Aggregator::new(workers);
    proof {
        lemma_none_filled(agg@);
    }
    let mut i: usize = 0;
    while i < workers
        invariant
            workers >= 1,
            pat@.len() >= 1,
            n == text@.len(),
            w == workers,
            i <= workers,
            ranges@.len() == workers,
            forall|k: int|
                0 <= k < workers ==> ranges@[k].start == range_start(n, w, k) && ranges@[k].end
                    == range_end(n, w, k),
            agg.wf(),
            agg@.len() == workers,
            forall|k: int| i <= k < workers ==> (#[trigger] agg@[k]) is None,
            filled(agg@) == i,
            sum_filled(agg@) == count_in(text@, pat@, 0, boundary(n, w, i as int)),
        decreases workers - i,
    {
        let range = ranges[i];
        proof {
            lemma_start_le(n, w, i as int);
            lemma_prefix(text@, pat@, w, i as int);
            lemma_chunk_count(text@, pat@, w, i as int);
            lemma_count_split(text@, pat@, 0, range.start as int, range.end as int);
            lemma_count_bound(text@, pat@, 0, range.end as int);
        }
        let win = read_window(range, text.len(), pat.len());
        let window = &text[win.start..win.end];
        let part = scan_chunk(i, range, window, pat);
        let ghost before = agg@;
        let accepted = agg.record(part);
        assert(accepted);
        proof {
            lemma_fill(before, i as int, part.count);
        }
        i = i + 1;
    }
    proof {
        lemma_prefix(text@, pat@, w, w);
        lemma_filled_all(agg@);
    }
    agg.finish()
}

} // verus!
