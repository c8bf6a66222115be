use onebrc_rust::error::Error;
use onebrc_rust::record::parse_line;

#[test]
fn parse_line_reads_key_and_tenths() {
    let (key, reading) = parse_line(b"Hamburg;12.3").unwrap();
    assert_eq!(key, b"Hamburg");
    assert_eq!(reading, 123);
}

#[test]
fn parse_line_reads_a_negative_reading() {
    let (key, reading) = parse_line(b"A;-4.5").unwrap();
    assert_eq!(key, b"A");
    assert_eq!(reading, -45);
}

#[test]
fn parse_line_reads_zero() {
    assert_eq!(parse_line(b"A;0.0").unwrap().1, 0);
    assert_eq!(parse_line(b"A;-0.0").unwrap().1, 0);
}

#[test]
fn parse_line_takes_an_empty_key() {
    let (key, reading) = parse_line(b";7.0").unwrap();
    assert_eq!(key, b"");
    assert_eq!(reading, 70);
}

#[test]
fn parse_line_takes_an_empty_reading_as_zero() {
    let (key, reading) = parse_line(b"A;").unwrap();
    assert_eq!(key, b"A");
    assert_eq!(reading, 0);
}

#[test]
fn parse_line_skips_the_point_wherever_it_stands() {
    assert_eq!(parse_line(b"A;123").unwrap().1, 123);
    assert_eq!(parse_line(b"A;1.23").unwrap().1, 123);
}

#[test]
fn parse_line_without_delimiter_is_malformed() {
    assert_eq!(parse_line(b"Hamburg 12.3"), Err(Error::MalformedRecord));
    assert_eq!(parse_line(b""), Err(Error::MalformedRecord));
}

#[test]
fn parse_line_with_an_unexpected_byte_is_malformed() {
    assert_eq!(parse_line(b"A;12a3"), Err(Error::MalformedRecord));
    assert_eq!(parse_line(b"A;12.3\r"), Err(Error::MalformedRecord));
    assert_eq!(parse_line(b"A;+1.0"), Err(Error::MalformedRecord));
    assert_eq!(parse_line(b"A; 1.0"), Err(Error::MalformedRecord));
}

#[test]
fn parse_line_splits_at_the_first_delimiter() {
    assert_eq!(parse_line(b"A;B;1.0"), Err(Error::MalformedRecord));
}

#[test]
fn parse_line_takes_the_largest_reading() {
    assert_eq!(parse_line(b"A;922337203685477580.7").unwrap().1, i64::MAX);
    assert_eq!(parse_line(b"A;-922337203685477580.7").unwrap().1, -i64::MAX);
}

#[test]
fn parse_line_reports_a_reading_too_large() {
    assert_eq!(parse_line(b"A;922337203685477580.8"), Err(Error::Overflow));
    assert_eq!(parse_line(b"A;-922337203685477580.8"), Err(Error::Overflow));
    assert_eq!(parse_line(b"A;99999999999999999999999.9"), Err(Error::Overflow));
}

#[test]
fn parse_line_prefers_malformed_to_overflow() {
    assert_eq!(parse_line(b"A;99999999999999999999999.9x"), Err(Error::MalformedRecord));
}

#[test]
fn parse_line_ignores_leading_zeros() {
    assert_eq!(parse_line(b"A;000000000000000000000000012.3").unwrap().1, 123);
}
