use statn::market_format::{field_spans, parse_date, plausible_date, split_price_line, LineError};

#[test]
fn parse_date_reads_eight_digits() {
    assert_eq!(parse_date(b"20200101 100.0"), Some(20200101));
    assert_eq!(parse_date(b"00000000"), Some(0));
    assert_eq!(parse_date(b"99999999x"), Some(99999999));
}

#[test]
fn parse_date_refuses_non_digits_and_short_lines() {
    assert_eq!(parse_date(b"2020010"), None);
    assert_eq!(parse_date(b"invalid 100.0"), None);
    assert_eq!(parse_date(b"2020-01-01 1"), None);
    assert_eq!(parse_date(b""), None);
}

#[test]
fn plausible_dates() {
    assert!(plausible_date(20200101));
    assert!(plausible_date(18000131));
    assert!(!plausible_date(20201301));
    assert!(!plausible_date(20200100));
    assert!(!plausible_date(20200132));
    assert!(!plausible_date(17991231));
    assert!(!plausible_date(20310101));
}

#[test]
fn field_spans_split_on_space_tab_and_comma() {
    let line = b"20200101 100.0\t102.0,,99.0  101.0";
    let spans = field_spans(line, 8);
    let fields: Vec<&[u8]> = spans.iter().map(|&(s, e)| &line[s..e]).collect();
    assert_eq!(fields, vec![&b"100.0"[..], b"102.0", b"99.0", b"101.0"]);
}

#[test]
fn field_spans_edge_cases() {
    assert!(field_spans(b"20200101", 8).is_empty());
    assert!(field_spans(b"20200101 , \t", 8).is_empty());
    assert_eq!(field_spans(b"abc", 0), vec![(0, 3)]);
    assert_eq!(field_spans(b" a b", 0), vec![(1, 2), (3, 4)]);
}

#[test]
fn split_price_line_errors() {
    assert_eq!(split_price_line(b"2020", 1), Err(LineError::TooShort));
    assert_eq!(split_price_line(b"invalid 100.0", 1), Err(LineError::InvalidDate));
    assert_eq!(split_price_line(b"20200101", 1), Err(LineError::MissingFields));
    assert_eq!(split_price_line(b"20200101 1 2 3", 4), Err(LineError::MissingFields));
}

#[test]
fn split_price_line_ok() {
    let line = b"20200101 100.0 102.0 99.0 101.0";
    let (date, spans) = split_price_line(line, 4).unwrap();
    assert_eq!(date, 20200101);
    assert_eq!(spans.len(), 4);
    assert_eq!(&line[spans[3].0..spans[3].1], b"101.0");
}
