use word_count::aggregate::{Aggregator, PartialResult};
use word_count::error::{io_error, ConfigProblem, ScanError};
use word_count::matching::{count_naive, count_starts_below, match_at};
use word_count::pipeline::{count_partitioned, scan_chunk, validate_request};
use word_count::planner::{plan_ranges, read_window, ByteRange};

fn r(start: usize, end: usize) -> ByteRange {
    ByteRange { start, end }
}

fn scan_all_chunks(text: &[u8], workers: usize, pat: &[u8]) -> usize {
    let ranges = plan_ranges(text.len(), workers).unwrap();
    let mut agg = Aggregator::new(workers);
    for (i, range) in ranges.iter().enumerate().rev() {
        let win = read_window(*range, text.len(), pat.len());
        let part = scan_chunk(i, *range, &text[win.start..win.end], pat);
        assert!(agg.record(part));
    }
    agg.finish().unwrap()
}

#[test]
fn scenario_boundary_straddling_match() {
    let text = b"abcabcabcabc";
    let ranges = plan_ranges(12, 3).unwrap();
    assert_eq!(ranges, vec![r(0, 4), r(4, 8), r(8, 12)]);
    assert_eq!(count_partitioned(text, 3, b"abc"), Ok(4));
    let win = read_window(ranges[0], 12, 3);
    assert_eq!(win, r(0, 6));
    let part = scan_chunk(0, ranges[0], &text[0..6], b"abc");
    assert_eq!(part, PartialResult { range_index: 0, count: 2 });
    assert_eq!(scan_all_chunks(text, 3, b"abc"), 4);
}

#[test]
fn scenario_overlapping_single_worker() {
    assert_eq!(count_partitioned(b"aaaaa", 1, b"aa"), Ok(4));
    assert_eq!(count_naive(b"aaaaa", b"aa"), 4);
}

#[test]
fn scenario_zero_workers() {
    assert_eq!(
        count_partitioned(b"abc", 0, b"a"),
        Err(ScanError::InvalidConfiguration { problem: ConfigProblem::ZeroWorkers })
    );
    assert_eq!(
        plan_ranges(10, 0),
        Err(ScanError::InvalidConfiguration { problem: ConfigProblem::ZeroWorkers })
    );
    assert_eq!(
        validate_request(0, 3),
        Err(ScanError::InvalidConfiguration { problem: ConfigProblem::ZeroWorkers })
    );
}

#[test]
fn scenario_missing_file() {
    assert_eq!(io_error(true, String::from("no such file")), ScanError::FileNotFound);
    assert_eq!(
        io_error(false, String::from("denied")),
        ScanError::IoFailure { cause: String::from("denied") }
    );
}

#[test]
fn empty_pattern_is_refused() {
    assert_eq!(
        count_partitioned(b"abc", 2, b""),
        Err(ScanError::InvalidConfiguration { problem: ConfigProblem::EmptyPattern })
    );
    assert_eq!(validate_request(2, 1), Ok(()));
}

#[test]
fn plan_covers_with_remainder() {
    assert_eq!(plan_ranges(10, 3).unwrap(), vec![r(0, 3), r(3, 6), r(6, 10)]);
    assert_eq!(plan_ranges(7, 1).unwrap(), vec![r(0, 7)]);
}

#[test]
fn plan_of_empty_file_is_all_empty() {
    assert_eq!(plan_ranges(0, 4).unwrap(), vec![r(0, 0), r(0, 0), r(0, 0), r(0, 0)]);
}

#[test]
fn plan_with_more_workers_than_bytes() {
    assert_eq!(plan_ranges(2, 5).unwrap(), vec![r(0, 0), r(0, 0), r(0, 0), r(0, 0), r(0, 2)]);
}

#[test]
fn plan_is_contiguous_for_many_sizes() {
    for total in 0..40usize {
        for workers in 1..15usize {
            let ranges = plan_ranges(total, workers).unwrap();
            assert_eq!(ranges.len(), workers);
            assert_eq!(ranges[0].start, 0);
            assert_eq!(ranges[workers - 1].end, total);
            for i in 0..workers - 1 {
                assert_eq!(ranges[i].end, ranges[i + 1].start);
            }
        }
    }
}

#[test]
fn count_is_the_same_for_any_worker_count() {
    let text = b"the cat sat on the mat; the end of the theme";
    for workers in [1usize, 2, 5, 13] {
        assert_eq!(count_partitioned(text, workers, b"the"), Ok(5));
        assert_eq!(scan_all_chunks(text, workers, b"the"), 5);
    }
}

#[test]
fn partitioned_count_equals_single_pass() {
    let text = b"abababababaabbbabababa";
    for pat in [&b"ab"[..], &b"aba"[..], &b"b"[..], &b"babab"[..], &b"abbb"[..]] {
        let single = count_naive(text, pat);
        for workers in 1..30usize {
            assert_eq!(count_partitioned(text, workers, pat), Ok(single));
        }
    }
    assert_eq!(count_naive(text, b"aba"), 8);
}

#[test]
fn empty_file_counts_zero() {
    for workers in 1..5usize {
        assert_eq!(count_partitioned(b"", workers, b"x"), Ok(0));
    }
}

#[test]
fn pattern_longer_than_file_counts_zero() {
    assert_eq!(count_partitioned(b"ab", 2, b"abc"), Ok(0));
    assert_eq!(count_naive(b"ab", b"abc"), 0);
}

#[test]
fn more_workers_than_bytes_still_counts() {
    assert_eq!(count_partitioned(b"aaa", 10, b"a"), Ok(3));
    assert_eq!(count_partitioned(b"aaa", 10, b"aa"), Ok(2));
}

#[test]
fn window_is_extended_and_cut_at_end() {
    assert_eq!(read_window(r(4, 8), 12, 3), r(4, 10));
    assert_eq!(read_window(r(8, 12), 12, 3), r(8, 12));
    assert_eq!(read_window(r(2, 5), 6, 4), r(2, 6));
    assert_eq!(read_window(r(0, 3), 6, 1), r(0, 3));
}

#[test]
fn chunk_counts_only_matches_starting_inside() {
    let window = b"abcab";
    assert_eq!(scan_chunk(1, r(3, 6), window, b"ab").count, 1);
    assert_eq!(scan_chunk(1, r(3, 7), window, b"ab").count, 2);
    assert_eq!(count_starts_below(window, b"ab", 100), 2);
    assert_eq!(count_starts_below(window, b"ab", 0), 0);
}

#[test]
fn match_at_is_byte_exact() {
    assert!(match_at(b"Hello", b"ell", 1));
    assert!(!match_at(b"Hello", b"ELL", 1));
    assert!(!match_at(b"Hello", b"lo", 4));
    assert!(match_at(b"Hello", b"lo", 3));
}

#[test]
fn aggregator_accepts_any_order() {
    let mut agg = Aggregator::new(3);
    assert!(!agg.is_complete());
    assert!(agg.record(PartialResult { range_index: 2, count: 5 }));
    assert!(agg.record(PartialResult { range_index: 0, count: 1 }));
    assert_eq!(agg.received(), 2);
    assert_eq!(agg.finish(), Err(ScanError::IncompleteResults));
    assert!(agg.record(PartialResult { range_index: 1, count: 7 }));
    assert!(agg.is_complete());
    assert_eq!(agg.finish(), Ok(13));
    assert_eq!(agg.finish(), Ok(13));
}

#[test]
fn aggregator_refuses_repeats_and_strangers() {
    let mut agg = Aggregator::new(2);
    assert!(agg.record(PartialResult { range_index: 0, count: 4 }));
    assert!(!agg.record(PartialResult { range_index: 0, count: 9 }));
    assert!(!agg.record(PartialResult { range_index: 2, count: 1 }));
    assert_eq!(agg.received(), 1);
    assert!(!agg.record(PartialResult { range_index: 1, count: usize::MAX }));
    assert!(agg.record(PartialResult { range_index: 1, count: 3 }));
    assert_eq!(agg.finish(), Ok(7));
}

#[test]
fn aggregator_with_no_ranges_is_complete() {
    let agg = Aggregator::new(0);
    assert!(agg.is_complete());
    assert_eq!(agg.finish(), Ok(0));
}

#[test]
fn config_problems_describe_themselves() {
    assert_eq!(ConfigProblem::ZeroWorkers.describe(), "the worker count must be at least one");
    assert_eq!(ConfigProblem::EmptyPattern.describe(), "the pattern must hold at least one byte");
}
