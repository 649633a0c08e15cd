use drive_image_searcher::hex_parse::parse_hex_string;

#[test]
fn test_valid_input_concatenated() {
    let hex_str = "72656c6c6f";
    assert_eq!(parse_hex_string(hex_str), Ok(vec![114, 101, 108, 108, 111]));
}

#[test]
fn test_valid_input_space_separated() {
    let hex_str = "72 65 6c 6c 6f"; // "Hello"
    assert_eq!(parse_hex_string(hex_str), Ok(vec![114, 101, 108, 108, 111]));
}

#[test]
fn test_valid_input_space_separated_multiple_spaces() {
    let hex_str = "72    65 6c  6c 6f"; // "Hello" (duplicate spaces between hex bytes)
    assert_eq!(parse_hex_string(hex_str), Ok(vec![114, 101, 108, 108, 111]));
}

#[test]
fn test_valid_input_0x_prefixed() {
    let hex_str = "0x72 0x65 0x6c 0x6c 0x6f"; // "Hello"
    assert_eq!(parse_hex_string(hex_str), Ok(vec![114, 101, 108, 108, 111]));
}

#[test]
fn test_valid_input_one_character() {
    let hex_str = "f"; // "f"
    assert_eq!(parse_hex_string(hex_str), Ok(vec![0x0F]));
}

#[test]
fn test_invalid_input_odd_characters() {
    let hex_str = "123"; // Odd number of characters
    assert!(parse_hex_string(hex_str).is_err());
}

#[test]
fn test_invalid_input_odd_characters_multiple() {
    let hex_str = "12 123"; // Odd number of characters in the second pair
    assert!(parse_hex_string(hex_str).is_err());
}

#[test]
fn test_invalid_input_non_hex_characters() {
    let hex_str = "72 65 6g 6c 6f"; // 'g' is not a valid hex character
    assert!(parse_hex_string(hex_str).is_err());
}

#[test]
fn test_empty_string() {
    let hex_str = ""; // Empty string
    assert_eq!(parse_hex_string(hex_str), Ok(vec![]));
}

#[test]
fn test_invalid_input_all_non_hex() {
    let hex_str = "xyz"; // Completely invalid hex characters
    assert!(parse_hex_string(hex_str).is_err());
}

#[test]
fn test_mixed_valid_invalid() {
    let hex_str = "72 65 6z 6c 6f"; // Contains an invalid 'z'
    assert!(parse_hex_string(hex_str).is_err());
}

#[test]
fn test_whole_string_0x_prefixed() {
    assert_eq!(parse_hex_string("0x72656c"), Ok(vec![0x72, 0x65, 0x6c]));
}

#[test]
fn test_token_with_leading_zeros() {
    // a multi-digit token still fits a byte when its value does
    assert_eq!(parse_hex_string("00f 01"), Ok(vec![0x0f, 0x01]));
    // a token above 255 does not
    assert!(parse_hex_string("fff 01").is_err());
}

#[test]
fn test_plus_prefixed_token() {
    // a byte token may carry one leading '+' sign
    assert_eq!(parse_hex_string("+5 12"), Ok(vec![0x05, 0x12]));
    assert!(parse_hex_string("+ 12").is_err());
    assert!(parse_hex_string("++5 12").is_err());
}

#[test]
fn test_other_whitespace_separators() {
    // tabs and other whitespace separate tokens once a space is present
    assert_eq!(parse_hex_string("12 34\u{000B}56"), Ok(vec![0x12, 0x34, 0x56]));
    assert_eq!(parse_hex_string("12\t34 56"), Ok(vec![0x12, 0x34, 0x56]));
}
