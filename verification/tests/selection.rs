use clikit::bounds::{normalize_range, parse_bounds, resolve_index, BoundItem, ParseError};
use clikit::parse_size::{parse_size, ParseSizeError};

#[test]
fn bounds_items() {
    let b = parse_bounds("1,3:5,-1=none").unwrap();
    assert!(!b.is_format);
    assert_eq!(
        b.items,
        vec![
            BoundItem::Single(1, None),
            BoundItem::Range(3, 5, None),
            BoundItem::Single(-1, Some("none".to_string())),
        ]
    );
}

#[test]
fn bounds_open_ranges() {
    let b = parse_bounds(":2,4:").unwrap();
    assert_eq!(b.items, vec![BoundItem::Range(0, 2, None), BoundItem::Range(4, 0, None)]);
}

#[test]
fn bounds_template() {
    let b = parse_bounds("{1}-{2}").unwrap();
    assert!(b.is_format);
    assert_eq!(b.format_template, Some("{1}-{2}".to_string()));
    assert!(b.items.is_empty());
}

#[test]
fn bounds_errors() {
    assert!(matches!(parse_bounds(""), Err(ParseError::Empty)));
    assert!(matches!(parse_bounds("0"), Err(ParseError::Zero)));
    assert!(matches!(parse_bounds("1,"), Err(ParseError::Empty)));
    match parse_bounds("x") {
        Err(ParseError::NotANumber(s)) => assert_eq!(s, "x"),
        _ => panic!("expected NotANumber"),
    }
    assert_eq!(ParseError::Zero.message(), "Zero is not a valid field");
    assert_eq!(ParseError::NotANumber("q".to_string()).message(), "Not a number `q`");
}

#[test]
fn index_resolution() {
    assert_eq!(resolve_index(-1, 5), Some(5));
    assert_eq!(resolve_index(-5, 5), Some(1));
    assert_eq!(resolve_index(-6, 5), None);
    assert_eq!(resolve_index(6, 5), None);
    assert_eq!(resolve_index(0, 5), None);
    assert_eq!(resolve_index(3, 5), Some(3));
}

#[test]
fn range_normalization() {
    assert_eq!(normalize_range(0, 0, 7), (1, 7));
    assert_eq!(normalize_range(2, -1, 7), (2, -1));
}

#[test]
fn sizes() {
    assert_eq!(parse_size("4KiB", 512), Ok(4096));
    assert_eq!(parse_size("2block", 512), Ok(1024));
    assert_eq!(parse_size("0x10", 0), Ok(16));
    assert_eq!(parse_size("3kB", 1), Ok(3000));
    assert_eq!(parse_size("5", 1), Ok(5));
    assert_eq!(parse_size("", 1), Err(ParseSizeError::Empty));
    assert_eq!(parse_size("5XB", 1), Err(ParseSizeError::InvalidUnit));
    assert_eq!(parse_size("5Q", 1), Err(ParseSizeError::InvalidUnit));
    assert_eq!(parse_size("1.5", 1), Err(ParseSizeError::InvalidNumber));
    assert_eq!(parse_size("99999999999TB", 1), Err(ParseSizeError::Overflow));
}

#[test]
fn decimal_sizes_read_back() {
    assert_eq!(parse_size("18446744073709551615", 1), Ok(u64::MAX));
    assert_eq!(parse_size("0", 7), Ok(0));
    assert_eq!(parse_size("3KiB", 1), Ok(3072));
    assert_eq!(parse_size("18014398509481983KiB", 1), Ok(18014398509481983 * 1024));
    assert_eq!(parse_size("18014398509481984KiB", 1), Err(ParseSizeError::Overflow));
}
