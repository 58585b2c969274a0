use clikit::units::{byte_count_plan, parse_byte_count, parse_byte_count_checked, ByteCount};

#[test]
fn hex_and_units() {
    assert_eq!(parse_byte_count("0xff", 512).unwrap(), 255);
    assert_eq!(parse_byte_count("4KiB", 512).unwrap(), 4096);
    assert_eq!(parse_byte_count("2block", 1024).unwrap(), 2048);
}

#[test]
fn plain_and_decimal_units() {
    assert_eq!(parse_byte_count(" 12 ", 512).unwrap(), 12);
    assert_eq!(parse_byte_count("3MB", 512).unwrap(), 3_000_000);
    assert_eq!(parse_byte_count("1kb", 512).unwrap(), 1000);
    assert_eq!(parse_byte_count("block", 512).unwrap(), 512);
    assert_eq!(parse_byte_count("-5", 512).unwrap(), -5);
}

#[test]
fn signed_hex() {
    assert_eq!(parse_byte_count("0x-1", 512).unwrap(), -1);
    assert_eq!(parse_byte_count("0X10", 512).unwrap(), 16);
}

#[test]
fn byte_count_errors() {
    assert_eq!(parse_byte_count("", 512).unwrap_err(), "empty byte count");
    assert_eq!(parse_byte_count("abc", 512).unwrap_err(), "invalid byte count: abc");
    assert!(parse_byte_count("0xzz", 512).is_err());
}

#[test]
fn fractions_are_left_to_floating_point() {
    assert_eq!(
        byte_count_plan("1.5KiB", 1),
        Some(Ok(ByteCount::Scaled {
            number: "1.5".to_string(),
            factor: 1024,
            error: "invalid byte count: 1.5KiB".to_string(),
        }))
    );
    assert_eq!(parse_byte_count_checked("1.5KiB", 1), None);
    assert_eq!(parse_byte_count_checked("7", 1), Some(Ok(7)));
}
