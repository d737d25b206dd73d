//! End-to-end scenarios through `summarize`.

use brc_core::summarize;

#[test]
fn scenario_two_keys_three_records() {
    let out = summarize(b"A;10.0\nB;20.5\nA;5.0\n", 8);
    assert_eq!(out, b"{A=5.0/7.5/10.0, B=20.5/20.5/20.5}".to_vec());
}

#[test]
fn scenario_single_negative_record() {
    let out = summarize(b"X;-3.2\n", 8);
    assert_eq!(out, b"{X=-3.2/-3.2/-3.2}".to_vec());
}

#[test]
fn scenario_trailing_record_without_terminator() {
    let out = summarize(b"A;10.0\nB;20.5\nA;5.0", 8);
    assert_eq!(out, b"{A=5.0/7.5/10.0, B=20.5/20.5/20.5}".to_vec());
}

#[test]
fn scenario_mean_rounds_upward() {
    // sum = 31 tenths over 3 observations: 31/3 rounds up to 11 tenths
    let out = summarize(b"Z;1.0\nZ;1.0\nZ;1.1\n", 8);
    assert_eq!(out, b"{Z=1.0/1.1/1.1}".to_vec());
}

#[test]
fn negative_mean_rounds_upward_toward_zero() {
    // sum = -31 tenths over 3 observations: -31/3 rounds up to -10 tenths
    let out = summarize(b"Z;-1.0\nZ;-1.0\nZ;-1.1\n", 8);
    assert_eq!(out, b"{Z=-1.1/-1.0/-1.0}".to_vec());
}

#[test]
fn empty_input_yields_empty_braces() {
    let out = summarize(b"", 4);
    assert_eq!(out, b"{}".to_vec());
}

#[test]
fn malformed_lines_are_skipped() {
    let out = summarize(b"no separator here\nA;1.0\n;3.0\n\nA;2.0\n", 2);
    assert_eq!(out, b"{A=1.0/1.5/2.0}".to_vec());
}

#[test]
fn keys_come_out_in_byte_order() {
    let out = summarize(b"b;1.0\nB;2.0\na;3.0\nA;4.0\n", 3);
    assert_eq!(out, b"{A=4.0/4.0/4.0, B=2.0/2.0/2.0, a=3.0/3.0/3.0, b=1.0/1.0/1.0}".to_vec());
}

#[test]
fn worker_count_does_not_change_the_output() {
    let input = b"A;1.0\nB;2.5\nC;-3.0\nA;7.5\nB;0.1\nC;9.9\nA;-0.5\n";
    let one = summarize(input, 1);
    for t in 2..10usize {
        assert_eq!(summarize(input, t), one);
    }
}

#[test]
fn last_separator_in_a_line_splits_it() {
    let out = summarize(b"a;b;1.0\na;b;3.0\n", 1);
    assert_eq!(out, b"{a;b=1.0/2.0/3.0}".to_vec());
}
