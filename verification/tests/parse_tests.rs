use stepwave::error::WaveError;
use stepwave::parse::{parse_decimal, parse_line, parse_series};
use stepwave::series::RawPoint;

fn lines(v: &[&str]) -> Vec<Vec<u8>> {
    v.iter().map(|s| s.as_bytes().to_vec()).collect()
}

fn pt(t: i64, v: i64) -> RawPoint {
    RawPoint { t, v }
}

#[test]
fn decimal_integers() {
    assert_eq!(parse_decimal(b"0"), Some(0));
    assert_eq!(parse_decimal(b"10"), Some(10_000_000));
    assert_eq!(parse_decimal(b"-3"), Some(-3_000_000));
    assert_eq!(parse_decimal(b"+7"), Some(7_000_000));
}

#[test]
fn decimal_fractions() {
    assert_eq!(parse_decimal(b"1.5"), Some(1_500_000));
    assert_eq!(parse_decimal(b"-2.25"), Some(-2_250_000));
    assert_eq!(parse_decimal(b".5"), Some(500_000));
    assert_eq!(parse_decimal(b"5."), Some(5_000_000));
    assert_eq!(parse_decimal(b"0.000001"), Some(1));
    assert_eq!(parse_decimal(b"-0.000001"), Some(-1));
}

#[test]
fn decimal_rejects_junk() {
    assert_eq!(parse_decimal(b""), None);
    assert_eq!(parse_decimal(b"."), None);
    assert_eq!(parse_decimal(b"-"), None);
    assert_eq!(parse_decimal(b"abc"), None);
    assert_eq!(parse_decimal(b"1x"), None);
    assert_eq!(parse_decimal(b"1.2.3"), None);
    assert_eq!(parse_decimal(b"1.2x"), None);
}

#[test]
fn decimal_rejects_out_of_range() {
    // Thirteen integer digits pass the twelve-digit capacity.
    assert_eq!(parse_decimal(b"1234567890123"), None);
    assert_eq!(parse_decimal(b"999999999999"), Some(999_999_999_999_000_000));
    // Seven fractional digits pass the six-digit resolution.
    assert_eq!(parse_decimal(b"0.1234567"), None);
    assert_eq!(parse_decimal(b"0.123456"), Some(123_456));
}

#[test]
fn line_two_tokens() {
    assert_eq!(parse_line(b"1 2"), Some((1_000_000, 2_000_000)));
    assert_eq!(parse_line(b"  1.5\t-2  "), Some((1_500_000, -2_000_000)));
}

#[test]
fn line_extra_tokens_ignored() {
    assert_eq!(parse_line(b"1 2 3"), Some((1_000_000, 2_000_000)));
}

#[test]
fn line_rejects_short_or_bad() {
    assert_eq!(parse_line(b""), None);
    assert_eq!(parse_line(b"42"), None);
    assert_eq!(parse_line(b"a 1"), None);
    assert_eq!(parse_line(b"1 b"), None);
}

#[test]
fn series_step_expansion() {
    let s = parse_series(&lines(&["0 0", "1 10", "2 0"])).unwrap();
    assert_eq!(
        s.points,
        vec![
            pt(0, 0),
            pt(1_000_000, 0),
            pt(1_000_000, 10_000_000),
            pt(2_000_000, 10_000_000),
            pt(2_000_000, 0),
        ]
    );
    assert!(s.is_time_ordered());
}

#[test]
fn series_empty_input() {
    let s = parse_series(&lines(&[])).unwrap();
    assert_eq!(s.points.len(), 0);
}

#[test]
fn series_reports_first_bad_line() {
    assert_eq!(
        parse_series(&lines(&["abc 1", "0 0"])).unwrap_err(),
        WaveError::MalformedInput { line: 0 }
    );
    assert_eq!(
        parse_series(&lines(&["0 0", "bad"])).unwrap_err(),
        WaveError::MalformedInput { line: 1 }
    );
}

#[test]
fn series_unordered_detected() {
    let s = parse_series(&lines(&["5 1", "1 2"])).unwrap();
    assert!(!s.is_time_ordered());
}
