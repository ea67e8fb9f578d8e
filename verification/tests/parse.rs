use ips_pointcloud::parse::{find_byte, parse_line, scan_run};
use ips_pointcloud::{parse_input, parse_number, ParseError, MAX_POINTS};

fn number(text: &str) -> Option<i64> {
    parse_number(text.as_bytes(), 0, text.len())
}

#[test]
fn numbers_are_read_in_ticks() {
    assert_eq!(number("0"), Some(0));
    assert_eq!(number("1"), Some(1_000_000));
    assert_eq!(number("0.03"), Some(30_000));
    assert_eq!(number("5.01"), Some(5_010_000));
    assert_eq!(number("10"), Some(10_000_000));
    assert_eq!(number("-2.5"), Some(-2_500_000));
    assert_eq!(number("+2.5"), Some(2_500_000));
    assert_eq!(number("0.000001"), Some(1));
    assert_eq!(number("123.456789"), Some(123_456_789));
    assert_eq!(number("007.5"), Some(7_500_000));
}

#[test]
fn a_point_may_begin_or_end_a_number() {
    assert_eq!(number(".5"), Some(500_000));
    assert_eq!(number("5."), Some(5_000_000));
    assert_eq!(number("-.25"), Some(-250_000));
    assert_eq!(number("."), None);
    assert_eq!(number("-."), None);
}

#[test]
fn a_number_is_rounded_to_the_nearest_tick() {
    assert_eq!(number("0.0000014"), Some(1));
    assert_eq!(number("0.0000015"), Some(2));
    assert_eq!(number("0.0000019"), Some(2));
    assert_eq!(number("0.0000004"), Some(0));
    assert_eq!(number("0.0000005"), Some(1));
    assert_eq!(number("-0.0000005"), Some(-1));
    assert_eq!(number("-0.0000004999"), Some(0));
    assert_eq!(number("0.9999995"), Some(1_000_000));
    assert_eq!(number("0.99999949999"), Some(999_999));
    assert_eq!(number("1.23456789012345678901234567890"), Some(1_234_568));
    assert_eq!(number("0.00000049"), Some(0));
    assert_eq!(number("0.00000005"), Some(0));
}

#[test]
fn numbers_printed_from_binary_fractions_come_out_right() {
    assert_eq!(number("2.999999999999999889e-02"), Some(30_000));
    assert_eq!(number("0.0299999993294477462768554688"), Some(30_000));
    assert_eq!(number("5.000000000000000278e-02"), Some(50_000));
    assert_eq!(number("0.0500000007450580596923828125"), Some(50_000));
    assert_eq!(number("1.000000000000000056e-01"), Some(100_000));
    assert_eq!(number("9.99999974737875163555145263671875e-06"), Some(10));
}

#[test]
fn an_exponent_shifts_the_point() {
    assert_eq!(number("1e0"), Some(1_000_000));
    assert_eq!(number("1e3"), Some(1_000_000_000));
    assert_eq!(number("1E3"), Some(1_000_000_000));
    assert_eq!(number("1e+3"), Some(1_000_000_000));
    assert_eq!(number("1e-3"), Some(1_000));
    assert_eq!(number("1.5e-05"), Some(15));
    assert_eq!(number("-1.234567e-02"), Some(-12_346));
    assert_eq!(number("-1.234564e-02"), Some(-12_346));
    assert_eq!(number("-1.2345649e-02"), Some(-12_346));
    assert_eq!(number("-1.2345644e-02"), Some(-12_346));
    assert_eq!(number("-1.23454e-02"), Some(-12_345));
    assert_eq!(number("2.500000000000000000e+00"), Some(2_500_000));
    assert_eq!(number("5.000000000000000278e-02"), Some(50_000));
    assert_eq!(number(".5e1"), Some(5_000_000));
    assert_eq!(number("5.e-1"), Some(500_000));
    assert_eq!(number("123456789e-9"), Some(123_457));
    assert_eq!(number("123456489e-9"), Some(123_456));
    assert_eq!(number("0.000123e4"), Some(1_230_000));
    assert_eq!(number("12e-6"), Some(12));
    assert_eq!(number("12e-7"), Some(1));
    assert_eq!(number("12e-8"), Some(0));
    assert_eq!(number("-12e-8"), Some(0));
    assert_eq!(number("5e-7"), Some(1));
    assert_eq!(number("49e-8"), Some(0));
    assert_eq!(number("9e-8"), Some(0));
    assert_eq!(number("1e-0007"), Some(0));
    assert_eq!(number("1e0003"), Some(1_000_000_000));
}

#[test]
fn an_exponent_of_any_size_is_read() {
    assert_eq!(number("1e12"), Some(1_000_000_000_000_000_000));
    assert_eq!(number("9e12"), Some(9_000_000_000_000_000_000));
    assert_eq!(number("1e13"), None);
    assert_eq!(number("-9.223372036854775808e12"), Some(i64::MIN));
    assert_eq!(number("9.223372036854775807e12"), Some(i64::MAX));
    assert_eq!(number("9.223372036854775808e12"), None);
    assert_eq!(number("1e99999999999999999999999999999999999999999"), None);
    assert_eq!(number("0e99999999999999999999999999999999999999999"), Some(0));
    assert_eq!(number("0.000e99999999999999999999999999999999999999999"), Some(0));
    assert_eq!(number("7e-99999999999999999999999999999999999999999"), Some(0));
    assert_eq!(number("0.00000000000000000000000000000001e32"), Some(1_000_000));
    assert_eq!(number("100000000000000000000000000000000e-32"), Some(1_000_000));
}

#[test]
fn what_is_not_a_number_is_refused() {
    for text in [
        "", "-", "+", "abc", "1.2.3", "--1", "1-", " 1", "1 ", "0x10", "inf", "nan", "NaN",
        "infinity", "1,5", "e5", ".e5", "1e", "1e+", "1e-", "1e5.", "1e5e5", "1e 5", "1f3", "+-1",
        "1e++5", "1_000",
    ] {
        assert_eq!(number(text), None);
    }
}

#[test]
fn numbers_beyond_a_coordinate_are_refused() {
    assert_eq!(number("9223372036854.775807"), Some(i64::MAX));
    assert_eq!(number("9223372036854.775808"), None);
    assert_eq!(number("-9223372036854.775808"), Some(i64::MIN));
    assert_eq!(number("-9223372036854.775809"), None);
    assert_eq!(number("9223372036854.7758074999"), Some(i64::MAX));
    assert_eq!(number("9223372036854.7758075"), None);
    assert_eq!(number("-9223372036854.7758084"), Some(i64::MIN));
    assert_eq!(number("-9223372036854.7758085"), None);
    assert_eq!(number("9223372036855"), None);
    assert_eq!(number("99999999999999999999999999999999999999"), None);
    assert_eq!(number("00000000000000000000000000000000000001"), Some(1_000_000));
}

#[test]
fn a_number_may_stand_within_a_text() {
    let text = b"x=12.5;";
    assert_eq!(parse_number(text, 2, 6), Some(12_500_000));
    assert_eq!(parse_number(text, 2, 7), None);
    assert_eq!(parse_number(text, 3, 3), None);
}

#[test]
fn lines_become_points_numbered_from_zero() {
    let text = b"0 0 0\n0.03 0 0\n10 10 10\n";
    assert_eq!(
        parse_input(text),
        Ok(vec![(0, 0, 0, 0), (30_000, 0, 0, 1), (10_000_000, 10_000_000, 10_000_000, 2)])
    );
}

#[test]
fn the_last_line_may_go_without_its_ending() {
    assert_eq!(parse_input(b"1 2 3\n-4 -5 -6"), Ok(vec![(1_000_000, 2_000_000, 3_000_000, 0), (-4_000_000, -5_000_000, -6_000_000, 1)]));
    assert_eq!(parse_input(b"1 2 3"), Ok(vec![(1_000_000, 2_000_000, 3_000_000, 0)]));
}

#[test]
fn a_carriage_return_before_the_line_feed_is_a_blank() {
    assert_eq!(
        parse_input(b"1 2 3\r\n4 5 6\r\n"),
        Ok(vec![(1_000_000, 2_000_000, 3_000_000, 0), (4_000_000, 5_000_000, 6_000_000, 1)])
    );
    assert_eq!(parse_input(b"1 2 3\r"), Ok(vec![(1_000_000, 2_000_000, 3_000_000, 0)]));
}

#[test]
fn fields_are_separated_by_any_run_of_blanks() {
    let want = Ok(vec![(1_000_000, -2_000_000, 500_000, 0)]);
    assert_eq!(parse_input(b"1 -2 0.5\n"), want);
    assert_eq!(parse_input(b"1  -2   0.5\n"), want);
    assert_eq!(parse_input(b"1\t-2\t0.5\n"), want);
    assert_eq!(parse_input(b"  1 -2 0.5\n"), want);
    assert_eq!(parse_input(b"1 -2 0.5 \t \n"), want);
    assert_eq!(parse_input(b"\t1 \t -2\x0c0.5\r\n"), want);
}

#[test]
fn numbers_with_exponents_are_read_in_lines() {
    let text = b"0.000000000000000000e+00 3.000000000000000097e-02 -1.000000000000000000e+01\n";
    assert_eq!(parse_input(text), Ok(vec![(0, 30_000, -10_000_000, 0)]));
}

#[test]
fn empty_text_is_the_empty_cloud() {
    assert_eq!(parse_input(b""), Ok(vec![]));
}

#[test]
fn an_empty_line_is_at_fault() {
    assert_eq!(parse_input(b"\n"), Err(ParseError::FieldCount(0)));
    assert_eq!(parse_input(b"1 2 3\n\n4 5 6\n"), Err(ParseError::FieldCount(1)));
    assert_eq!(parse_input(b"1 2 3\n \t \n"), Err(ParseError::FieldCount(1)));
}

#[test]
fn a_line_needs_three_fields() {
    assert_eq!(parse_input(b"1 2\n"), Err(ParseError::FieldCount(0)));
    assert_eq!(parse_input(b"1 2 3\n1 2 3 4\n"), Err(ParseError::FieldCount(1)));
    assert_eq!(parse_input(b"1\n"), Err(ParseError::FieldCount(0)));
    assert_eq!(parse_input(b"1  3\n"), Err(ParseError::FieldCount(0)));
    assert_eq!(parse_input(b"1\t2 3 4\n"), Err(ParseError::FieldCount(0)));
    assert_eq!(parse_input(b"x y\n"), Err(ParseError::FieldCount(0)));
    assert_eq!(parse_input(b"1 2 3 4 5 6\n"), Err(ParseError::FieldCount(0)));
}

#[test]
fn a_field_must_be_a_number() {
    assert_eq!(parse_input(b"1 2 3\n1 x 3\n"), Err(ParseError::Number(1)));
    assert_eq!(parse_input(b"1,2 3 4\n"), Err(ParseError::Number(0)));
    assert_eq!(parse_input(b"1 2 1e\n"), Err(ParseError::Number(0)));
    assert_eq!(parse_input(b"1 2 inf\n"), Err(ParseError::Number(0)));
    assert_eq!(parse_input(b"1 2 9223372036855\n"), Err(ParseError::Number(0)));
    assert_eq!(parse_input(b"1 2 3\n4 5 6\n7 8 nine"), Err(ParseError::Number(2)));
}

#[test]
fn the_first_line_at_fault_decides() {
    assert_eq!(parse_input(b"1 2 3\n1 2\nx y z\n"), Err(ParseError::FieldCount(1)));
    assert_eq!(parse_input(b"x y z\n1 2\n"), Err(ParseError::Number(0)));
}

#[test]
fn a_text_may_hold_as_many_lines_as_a_cloud_points() {
    let mut text = Vec::new();
    for _ in 0..MAX_POINTS {
        text.extend_from_slice(b"1 2 3\n");
    }
    let points = parse_input(&text).unwrap();
    assert_eq!(points.len(), MAX_POINTS);
    assert_eq!(points[MAX_POINTS - 1], (1_000_000, 2_000_000, 3_000_000, (MAX_POINTS - 1) as u16));
    text.extend_from_slice(b"1 2 3");
    assert_eq!(parse_input(&text), Err(ParseError::TooManyPoints));
}

#[test]
fn a_fault_before_the_capacity_comes_first() {
    let mut text = Vec::new();
    for k in 0..MAX_POINTS + 5 {
        text.extend_from_slice(if k == 100 { b"1 2 ?\n" } else { b"1 2 3\n" });
    }
    assert_eq!(parse_input(&text), Err(ParseError::Number(100)));
}

#[test]
fn runs_of_blanks_and_of_other_bytes_are_told_apart() {
    let text = b"  ab \t cd";
    assert_eq!(scan_run(text, 0, 9, true), 2);
    assert_eq!(scan_run(text, 0, 9, false), 0);
    assert_eq!(scan_run(text, 2, 9, false), 4);
    assert_eq!(scan_run(text, 4, 9, true), 7);
    assert_eq!(scan_run(text, 7, 9, false), 9);
    assert_eq!(scan_run(text, 0, 1, true), 1);
    assert_eq!(scan_run(text, 3, 3, true), 3);
}

#[test]
fn bytes_are_found_within_a_range() {
    let text = b"ab cd ef";
    assert_eq!(find_byte(text, 0, 8, b' '), 2);
    assert_eq!(find_byte(text, 3, 8, b' '), 5);
    assert_eq!(find_byte(text, 6, 8, b' '), 8);
    assert_eq!(find_byte(text, 0, 2, b' '), 2);
    assert_eq!(find_byte(text, 4, 4, b'c'), 4);
}

#[test]
fn a_line_is_read_with_its_number() {
    let text = b"#1.5 -2 0.25#";
    assert_eq!(parse_line(text, 1, 12, 41), Ok((1_500_000, -2_000_000, 250_000, 41)));
    assert_eq!(parse_line(text, 0, 12, 41), Err(ParseError::Number(41)));
    assert_eq!(parse_line(text, 1, 7, 3), Err(ParseError::FieldCount(3)));
    assert_eq!(parse_line(text, 5, 5, 0), Err(ParseError::FieldCount(0)));
}
