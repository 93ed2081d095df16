use streamchat::hexutil::{
    byte_to_hex_chars, display_char, hex_string_to_bytes, parse_hex_byte, parse_offset,
    HexStringError, OffsetError,
};

#[test]
fn parse_offset_decimal() {
    assert_eq!(parse_offset("100"), Ok(100));
    assert_eq!(parse_offset("0"), Ok(0));
    assert_eq!(parse_offset("  42  "), Ok(42));
    assert_eq!(parse_offset("+5"), Ok(5));
    assert_eq!(parse_offset("18446744073709551615"), Ok(u64::MAX));
}

#[test]
fn parse_offset_trims_all_whitespace() {
    // every Unicode whitespace character is stripped, as str::trim does
    assert_eq!(parse_offset("\u{0B}5"), Ok(5));
    assert_eq!(parse_offset("\u{0C}7\u{0C}"), Ok(7));
    assert_eq!(parse_offset("\u{85}8\u{A0}"), Ok(8));
    assert_eq!(parse_offset("\u{2003}0x10\u{3000}"), Ok(16));
    assert_eq!(parse_offset("\t\n 9 \r\n"), Ok(9));
    assert_eq!(parse_offset("5\u{200B}"), Err(OffsetError::InvalidDecimal));
}

#[test]
fn parse_offset_hex() {
    assert_eq!(parse_offset("0x10"), Ok(16));
    assert_eq!(parse_offset("0xFF"), Ok(255));
    assert_eq!(parse_offset("0xff"), Ok(255));
    assert_eq!(parse_offset(" 0x1A2b "), Ok(0x1A2B));
    assert_eq!(parse_offset("0x+A"), Ok(10));
    assert_eq!(parse_offset("0xFFFFFFFFFFFFFFFF"), Ok(u64::MAX));
}

#[test]
fn parse_offset_rejections() {
    assert_eq!(parse_offset(""), Err(OffsetError::InvalidDecimal));
    assert_eq!(parse_offset("abc"), Err(OffsetError::InvalidDecimal));
    assert_eq!(parse_offset("-5"), Err(OffsetError::InvalidDecimal));
    assert_eq!(parse_offset("12 34"), Err(OffsetError::InvalidDecimal));
    assert_eq!(parse_offset("18446744073709551616"), Err(OffsetError::InvalidDecimal));
    assert_eq!(parse_offset("0x"), Err(OffsetError::InvalidHex));
    assert_eq!(parse_offset("0xZZ"), Err(OffsetError::InvalidHex));
    assert_eq!(parse_offset("0x10000000000000000"), Err(OffsetError::InvalidHex));
}

#[test]
fn hex_string_to_bytes_happy_path() {
    assert_eq!(hex_string_to_bytes("48656c"), Ok(vec![0x48, 0x65, 0x6C]));
    assert_eq!(hex_string_to_bytes(""), Ok(vec![]));
    assert_eq!(hex_string_to_bytes("FFff"), Ok(vec![0xFF, 0xFF]));
    assert_eq!(hex_string_to_bytes("00"), Ok(vec![0x00]));
    // the standard byte parser takes a leading plus sign per group
    assert_eq!(hex_string_to_bytes("+5ff"), Ok(vec![0x05, 0xFF]));
}

#[test]
fn hex_string_to_bytes_rejections() {
    assert_eq!(hex_string_to_bytes("abc"), Err(HexStringError::OddLength));
    assert_eq!(hex_string_to_bytes("4g"), Err(HexStringError::InvalidDigit(0)));
    assert_eq!(hex_string_to_bytes("48mn"), Err(HexStringError::InvalidDigit(2)));
    assert_eq!(hex_string_to_bytes("5+"), Err(HexStringError::InvalidDigit(0)));
}

#[test]
fn parse_hex_byte_tokens() {
    assert_eq!(parse_hex_byte("ff"), Some(255));
    assert_eq!(parse_hex_byte("0"), Some(0));
    assert_eq!(parse_hex_byte("A0"), Some(0xA0));
    assert_eq!(parse_hex_byte("+a"), Some(10));
    assert_eq!(parse_hex_byte("100"), None);
    assert_eq!(parse_hex_byte("g"), None);
    assert_eq!(parse_hex_byte(""), None);
}

#[test]
fn hex_dump_rendering() {
    assert_eq!(byte_to_hex_chars(0xAB), ('a', 'b'));
    assert_eq!(byte_to_hex_chars(0x05), ('0', '5'));
    assert_eq!(byte_to_hex_chars(0x00), ('0', '0'));
    assert_eq!(byte_to_hex_chars(0xFF), ('f', 'f'));
    assert_eq!(display_char(0x41), 'A');
    assert_eq!(display_char(0x20), ' ');
    assert_eq!(display_char(0x7E), '~');
    assert_eq!(display_char(0x19), '.');
    assert_eq!(display_char(0x7F), '.');
    assert_eq!(display_char(0x00), '.');
}
