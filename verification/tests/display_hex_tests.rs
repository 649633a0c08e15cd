use drive_image_searcher::display_hex::{display_hex_offset, parse_hex_offset};

#[test]
fn test_display_hex_offset() {
    assert_eq!(display_hex_offset(0, 1), "0");
    assert_eq!(display_hex_offset(1, 1), "1");
    assert_eq!(display_hex_offset(10, 1), "A");
    assert_eq!(display_hex_offset(15, 1), "F");
    assert_eq!(display_hex_offset(15, 4), "000F"); // check zfill
    assert_eq!(display_hex_offset(15, 8), "0000_000F"); // check zfill with separator

    assert_eq!(display_hex_offset(16, 2), "10");
    assert_eq!(display_hex_offset(16, 1), "10"); // check requested width < actual width
    assert_eq!(display_hex_offset(4096, 4), "1000");
    assert_eq!(display_hex_offset(268435455, 7), "FFF_FFFF");
    assert_eq!(display_hex_offset(0xFFFF_FFFF_u64, 8), "FFFF_FFFF");
}

#[test]
fn test_hex_offset_round_trip_concrete() {
    // formatting 0xFFFFFFFF at width 8 with 4-digit grouping, then parsing
    // the rendering back (ignoring separators) recovers the integer
    let rendered = display_hex_offset(0xFFFF_FFFF_u64, 8);
    assert_eq!(rendered, "FFFF_FFFF");
    assert_eq!(parse_hex_offset(&rendered), Some(0xFFFF_FFFF_u64));
}

#[test]
fn test_hex_offset_round_trip_various() {
    for &(v, w) in &[
        (0u64, 1usize),
        (1, 1),
        (15, 4),
        (4096, 20),
        (u64::MAX, 8),
        (5000, 1),
    ] {
        let rendered = display_hex_offset(v, w);
        assert_eq!(parse_hex_offset(&rendered), Some(v), "width {}", w);
    }
}

#[test]
fn test_parse_hex_offset_lowercase_and_separators() {
    assert_eq!(parse_hex_offset("ff"), Some(255));
    assert_eq!(parse_hex_offset("00_10"), Some(16));
    assert_eq!(parse_hex_offset("_1_"), Some(1));
}

#[test]
fn test_parse_hex_offset_rejects() {
    assert_eq!(parse_hex_offset(""), None);
    assert_eq!(parse_hex_offset("____"), None);
    assert_eq!(parse_hex_offset("xyz"), None);
    assert_eq!(parse_hex_offset("12g4"), None);
    // seventeen hex digits overflow 64 bits
    assert_eq!(parse_hex_offset("1_0000_0000_0000_0000"), None);
    // the largest value still fits
    assert_eq!(parse_hex_offset("FFFF_FFFF_FFFF_FFFF"), Some(u64::MAX));
}
