//! Splitting `[0, total_len)` into one contiguous byte range per worker.
use vstd::prelude::*;
use crate::error::{ConfigProblem, ScanError};

verus! {

/// The half-open byte interval `[start, end)` of a file.
#[derive(Debug, Clone, Copy, PartialEq, Eq, Structural)]
pub struct ByteRange {
    pub start: usize,
    pub end: usize,
}

/// Size of every range but the last.
pub open spec fn base_size(total_len: int, workers: int) -> int {
    total_len / workers
}

/// Where range `i` of the plan starts.
pub open spec fn range_start(total_len: int, workers: int, i: int) -> int {
    i * base_size(total_len, workers)
}

/// Where range `i` of the plan ends; the last range takes the remainder.
pub open spec fn range_end(total_len: int, workers: int, i: int) -> int {
    if i == workers - 1 {
        total_len
    } else {
        (i + 1) * base_size(total_len, workers)
    }
}

/// Byte `p` lies in range `i` of the plan.
pub open spec fn in_planned(total_len: int, workers: int, i: int, p: int) -> bool {
    range_start(total_len, workers, i) <= p < range_end(total_len, workers, i)
}

/// The range of the plan that byte `p` falls in.
pub open spec fn owner(total_len: int, workers: int, p: int) -> int {
    let b = base_size(total_len, workers);
    if b == 0 || p / b >= workers - 1 {
        workers - 1
    } else {
        p / b
    }
}

/// `v` is the plan for `total_len` bytes over `workers` workers.
pub open spec fn is_plan(v: Seq<ByteRange>, total_len: int, workers: int) -> bool {
    &&& v.len() == workers
    &&& forall|i: int|
        0 <= i < workers ==> v[i].start == range_start(total_len, workers, i) && v[i].end
            == range_end(total_len, workers, i)
}

/// No range of the plan starts before 0, and none of them ends after `total_len`.
pub proof fn lemma_start_le(total_len: int, workers: int, i: int)
    requires
        total_len >= 0,
        workers >= 1,
        0 <= i <= workers,
    ensures
        0 <= range_start(total_len, workers, i) <= total_len,
        0 <= base_size(total_len, workers),
        i < workers ==> range_start(total_len, workers, i) <= range_end(total_len, workers, i)
            <= total_len,
{
    let b = base_size(total_len, workers);
    assert(b * workers <= total_len) by (nonlinear_arith)
        requires
            b == total_len / workers,
            workers >= 1,
            total_len >= 0,
    ;
    assert(0 <= b) by (nonlinear_arith)
        requires
            b == total_len / workers,
            workers >= 1,
            total_len >= 0,
    ;
    assert(0 <= i * b <= workers * b) by (nonlinear_arith)
        requires
            0 <= i <= workers,
            0 <= b,
    ;
    if i < workers {
        assert(i * b <= (i + 1) * b <= workers * b) by (nonlinear_arith)
            requires
                0 <= i < workers,
                0 <= b,
        ;
    }
}

/// The plan covers `[0, total_len)`: every byte lies in exactly one range,
/// and every byte of a range lies in `[0, total_len)`. The ranges come in
/// ascending order, each ending where the next one starts.
pub proof fn lemma_plan_covers(total_len: int, workers: int)
    requires
        total_len >= 0,
        workers >= 1,
    ensures
        range_start(total_len, workers, 0) == 0,
        range_end(total_len, workers, workers - 1) == total_len,
        forall|i: int|
            0 <= i < workers - 1 ==> range_end(total_len, workers, i) == range_start(
                total_len,
                workers,
                i + 1,
            ),
        forall|i: int|
            0 <= i < workers ==> range_start(total_len, workers, i) <= range_end(
                total_len,
                workers,
                i,
            ),
        forall|p: int|
            0 <= p < total_len ==> 0 <= #[trigger] owner(total_len, workers, p) < workers
                && in_planned(total_len, workers, owner(total_len, workers, p), p),
        forall|i: int, p: int|
            0 <= i < workers && #[trigger] in_planned(total_len, workers, i, p) ==> 0 <= p
                < total_len,
        forall|i: int, j: int, p: int|
            0 <= i < workers && 0 <= j < workers && #[trigger] in_planned(total_len, workers, i, p)
                && #[trigger] in_planned(total_len, workers, j, p) ==> i == j,
{
    let b = base_size(total_len, workers);
    assert(0 * b == 0);
    assert forall|i: int| 0 <= i < workers implies range_start(total_len, workers, i) <= range_end(
        total_len,
        workers,
        i,
    ) && range_end(total_len, workers, i) <= total_len && 0 <= range_start(
        total_len,
        workers,
        i,
    ) by {
        lemma_start_le(total_len, workers, i);
    }
    assert forall|p: int| 0 <= p < total_len implies 0 <= #[trigger] owner(total_len, workers, p)
        < workers && in_planned(total_len, workers, owner(total_len, workers, p), p) by {
        lemma_start_le(total_len, workers, workers - 1);
        if b == 0 {
            assert((workers - 1) * b == 0) by (nonlinear_arith)
                requires
                    b == 0,
            ;
            assert(in_planned(total_len, workers, workers - 1, p));
        } else {
            let q = p / b;
            if q >= workers - 1 {
                assert((workers - 1) * b <= p) by (nonlinear_arith)
                    requires
                        q == p / b,
                        q >= workers - 1,
                        b > 0,
                        p >= 0,
                        workers >= 1,
                ;
                assert(in_planned(total_len, workers, workers - 1, p));
            } else {
                assert(q * b <= p < (q + 1) * b && 0 <= q) by (nonlinear_arith)
                    requires
                        q == p / b,
                        b > 0,
                        p >= 0,
                ;
                assert(in_planned(total_len, workers, q, p));
            }
        }
    }
    assert forall|i: int, j: int, p: int|
        0 <= i < workers && 0 <= j < workers && #[trigger] in_planned(total_len, workers, i, p)
            && #[trigger] in_planned(total_len, workers, j, p) implies i == j by {
        if i < j {
            assert((i + 1) * b <= j * b) by (nonlinear_arith)
                requires
                    i < j,
                    0 <= b,
            ;
        } else if j < i {
            assert((j + 1) * b <= i * b) by (nonlinear_arith)
                requires
                    j < i,
                    0 <= b,
            ;
        }
    }
}

/// Splits `[0, total_len)` into `workers` contiguous ranges of
/// `total_len / workers` bytes each, the last one taking the remainder.
pub fn plan_ranges(total_len: usize, workers: usize) -> (r: Result<Vec<ByteRange>, ScanError>)
    ensures
        workers == 0 <==> r is Err,
        workers == 0 ==> r == Err::<Vec<ByteRange>, ScanError>(
            ScanError::InvalidConfiguration { problem: ConfigProblem::ZeroWorkers },
        ),
        r is Ok ==> is_plan(r->Ok_0@, total_len as int, workers as int),
{
    if workers == 0 {
        return Err(ScanError::InvalidConfiguration { problem: ConfigProblem::ZeroWorkers });
    }
    let base: usize = total_len / workers;
    let mut v: Vec<ByteRange> = Vec::new();
    let mut i: usize = 0;
    while i < workers
        invariant
            workers >= 1,
            i <= workers,
            base == base_size(total_len as int, workers as int),
            v@.len() == i,
            forall|k: int|
                0 <= k < i ==> v@[k].start == range_start(total_len as int, workers as int, k)
                    && v@[k].end == range_end(total_len as int, workers as int, k),
        decreases workers - i,
    {
        proof {
            lemma_start_le(total_len as int, workers as int, i as int);
            lemma_start_le(total_len as int, workers as int, (i + 1) as int);
        }
        let start: usize = i * base;
        let end: usize = if i == workers - 1 { total_len } else { (i + 1) * base };
        v.push(ByteRange { start, end });
        i = i + 1;
    }
    Ok(v)
}

/// The bytes a scanner reads for `range`: the range itself, extended by
/// `pat_len - 1` bytes so that a match starting inside it is seen whole,
/// but never past the end of the file.
pub fn read_window(range: ByteRange, total_len: usize, pat_len: usize) -> (r: ByteRange)
    requires
        range.start <= range.end <= total_len,
        pat_len >= 1,
    ensures
        r.start == range.start,
        r.end == if range.end + pat_len - 1 <= total_len {
            range.end + pat_len - 1
        } else {
            total_len as int
        },
{
    let extra: usize = pat_len - 1;
    let end: usize = if extra <= total_len - range.end { range.end + extra } else { total_len };
    ByteRange { start: range.start, end }
}

} // verus!
