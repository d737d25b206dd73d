//! Chunk partitioner behaviour on concrete buffers.

use brc_core::chunks::{compute_chunk_ranges, find_next_newline};
use brc_core::render::format_output;
use brc_core::scan::scan_chunk;

fn check_partition(buf: &[u8], thread_count: usize) -> Vec<(usize, usize)> {
    let ranges = compute_chunk_ranges(buf, thread_count);
    assert_eq!(ranges.is_empty(), buf.is_empty());
    if !buf.is_empty() {
        assert_eq!(ranges[0].0, 0);
        assert_eq!(ranges[ranges.len() - 1].1, buf.len());
    }
    for (i, &(start, end)) in ranges.iter().enumerate() {
        assert!(start < end && end <= buf.len(), "empty or out-of-order range");
        if i > 0 {
            assert_eq!(start, ranges[i - 1].1, "gap or overlap between chunks");
        }
        if i + 1 < ranges.len() {
            assert_eq!(buf[end - 1], b'\n', "interior boundary not after a terminator");
        }
    }
    ranges
}

#[test]
fn find_next_newline_reports_first_terminator() {
    assert_eq!(find_next_newline(b"ab\ncd\n"), Some(2));
    assert_eq!(find_next_newline(b"\n"), Some(0));
    assert_eq!(find_next_newline(b"abc"), None);
    assert_eq!(find_next_newline(b""), None);
}

#[test]
fn partition_covers_without_gaps() {
    let buf = b"A;1.0\nB;2.0\nC;3.0\nD;4.0\nE;5.0\n";
    for t in 1..8usize {
        check_partition(buf, t);
    }
}

#[test]
fn partition_of_empty_buffer_is_empty() {
    assert!(compute_chunk_ranges(b"", 4).is_empty());
}

#[test]
fn short_buffer_yields_fewer_chunks() {
    let buf = b"A;1\n";
    let ranges = check_partition(buf, 8);
    assert!(ranges.len() <= 8);
}

#[test]
fn buffer_without_final_terminator_is_covered() {
    let buf = b"A;1.0\nB;2.0\nC;3.0";
    for t in 1..5usize {
        check_partition(buf, t);
    }
}

#[test]
fn scan_chunk_folds_only_its_range() {
    let buf = b"A;1.0\nA;3.0\n";
    let whole = scan_chunk(buf, 0, buf.len());
    assert_eq!(format_output(whole), b"{A=1.0/2.0/3.0}".to_vec());
    let first_line = scan_chunk(buf, 0, 6);
    assert_eq!(format_output(first_line), b"{A=1.0/1.0/1.0}".to_vec());
}
