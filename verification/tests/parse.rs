use psweep::{parse_port_spec, ParseError};

#[test]
fn empty_spec_yields_empty_set() {
    assert_eq!(parse_port_spec("").unwrap(), Vec::<u16>::new());
}

#[test]
fn whitespace_spec_yields_empty_set() {
    assert_eq!(parse_port_spec("   ").unwrap(), Vec::<u16>::new());
}

#[test]
fn zero_port_literal_rejected() {
    assert!(matches!(parse_port_spec("0"), Err(ParseError::ZeroPort)));
}

#[test]
fn zero_range_bound_rejected() {
    assert!(matches!(parse_port_spec("0-10"), Err(ParseError::ZeroPort)));
}

#[test]
fn inverted_range_rejected() {
    assert!(matches!(parse_port_spec("10-0"), Err(ParseError::InvalidRange)));
}

#[test]
fn non_numeric_token_rejected() {
    assert!(matches!(parse_port_spec("abc"), Err(ParseError::InvalidPort)));
}

#[test]
fn overlapping_tokens_deduplicate_ascending() {
    assert_eq!(parse_port_spec("3000,3000,2999-3001").unwrap(), vec![2999, 3000, 3001]);
}

#[test]
fn single_port() {
    assert_eq!(parse_port_spec("3000").unwrap(), vec![3000]);
}

#[test]
fn mixed_tokens() {
    assert_eq!(
        parse_port_spec("3000,8000,9000-9010").unwrap(),
        vec![3000, 8000, 9000, 9001, 9002, 9003, 9004, 9005, 9006, 9007, 9008, 9009, 9010],
    );
}

#[test]
fn descending_input_comes_out_ascending() {
    assert_eq!(parse_port_spec("9000,80,443").unwrap(), vec![80, 443, 9000]);
}

#[test]
fn tokens_are_trimmed() {
    assert_eq!(parse_port_spec("  8080 , 9090  ").unwrap(), vec![8080, 9090]);
}

#[test]
fn empty_tokens_are_skipped() {
    assert_eq!(parse_port_spec("8080,,").unwrap(), vec![8080]);
    assert_eq!(parse_port_spec(",8080").unwrap(), vec![8080]);
}

#[test]
fn full_range_supported() {
    let v = parse_port_spec("1-65535").unwrap();
    assert_eq!(v.len(), 65535);
    assert_eq!(v[0], 1);
    assert_eq!(v[65534], 65535);
}

#[test]
fn singleton_range() {
    assert_eq!(parse_port_spec("443-443").unwrap(), vec![443]);
}

#[test]
fn oversized_port_rejected() {
    assert!(matches!(parse_port_spec("65536"), Err(ParseError::InvalidPort)));
    assert!(matches!(parse_port_spec("99999999999999999999"), Err(ParseError::InvalidPort)));
}

#[test]
fn largest_port_accepted() {
    assert_eq!(parse_port_spec("65535").unwrap(), vec![65535]);
}

#[test]
fn malformed_ranges_rejected() {
    assert!(matches!(parse_port_spec("1-2-3"), Err(ParseError::InvalidPort)));
    assert!(matches!(parse_port_spec("-5"), Err(ParseError::InvalidPort)));
    assert!(matches!(parse_port_spec("5-"), Err(ParseError::InvalidPort)));
}

#[test]
fn range_bounds_take_no_inner_whitespace() {
    assert!(matches!(parse_port_spec("5 - 7"), Err(ParseError::InvalidPort)));
}

#[test]
fn signs_are_not_digits() {
    assert!(matches!(parse_port_spec("+5"), Err(ParseError::InvalidPort)));
}

#[test]
fn leftmost_error_wins() {
    assert!(matches!(parse_port_spec("abc,10-0"), Err(ParseError::InvalidPort)));
    assert!(matches!(parse_port_spec("10-0,abc"), Err(ParseError::InvalidRange)));
}

#[test]
fn leading_zeros_are_plain_digits() {
    assert_eq!(parse_port_spec("0080").unwrap(), vec![80]);
    assert!(matches!(parse_port_spec("000"), Err(ParseError::ZeroPort)));
}

#[test]
fn reparse_of_canonical_output_is_identity() {
    let first = parse_port_spec("8080,9000-9002,3000,3000").unwrap();
    let joined = first.iter().map(|p| p.to_string()).collect::<Vec<_>>().join(",");
    let second = parse_port_spec(&joined).unwrap();
    assert_eq!(first, second);
}

#[test]
fn describe_names_each_error() {
    assert_eq!(ParseError::InvalidPort.describe(), "invalid port");
    assert_eq!(ParseError::InvalidRange.describe(), "invalid range: start exceeds end");
    assert_eq!(ParseError::ZeroPort.describe(), "port 0 is not valid");
}
