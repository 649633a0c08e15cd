use drive_image_searcher::needle::{
    default_write_to_file, load_needles_from_file, validate_needles, ConfigNeedle,
    ConfigNeedleValFormat, Needle,
};
use drive_image_searcher::progress::{format_duration, should_log_progress};
use drive_image_searcher::record::NeedleValFound;
use drive_image_searcher::summary::summarize_records;

fn config(name: &str, val: &str, format: ConfigNeedleValFormat, hl: u8) -> ConfigNeedle {
    ConfigNeedle {
        name: name.to_string(),
        val: val.to_string(),
        val_format: format,
        description_notes: "d".to_string(),
        happiness_level: hl,
        write_to_file: true,
    }
}

#[test]
fn test_from_needle_val_config_hex() {
    let c = config("n1", "72 65 6c 6c 6f", ConfigNeedleValFormat::Hex, 3);
    let n = Needle::from_needle_val_config(&c);
    assert_eq!(n.name, "n1");
    assert_eq!(n.val, vec![0x72, 0x65, 0x6c, 0x6c, 0x6f]);
    assert_eq!(n.happiness_level, 3);
    assert!(n.write_to_file);
    assert_eq!(n.byte_count_before_match, 1024);
    assert_eq!(n.byte_count_after_match, 1024);
}

#[test]
fn test_from_needle_val_config_ascii() {
    let c = config("n2", "Hello", ConfigNeedleValFormat::Ascii, 9);
    let n = Needle::from_needle_val_config(&c);
    assert_eq!(n.val, b"Hello".to_vec());
}

#[test]
fn test_try_from_needle_val_config_bad_hex() {
    let c = config("bad", "zz zz", ConfigNeedleValFormat::Hex, 1);
    assert!(Needle::try_from_needle_val_config(&c).is_err());
}

#[test]
fn test_config_format_from_str() {
    assert_eq!(
        ConfigNeedleValFormat::from_str("hex"),
        Ok(ConfigNeedleValFormat::Hex)
    );
    assert_eq!(
        ConfigNeedleValFormat::from_str("HEX"),
        Ok(ConfigNeedleValFormat::Hex)
    );
    assert_eq!(
        ConfigNeedleValFormat::from_str("Ascii"),
        Ok(ConfigNeedleValFormat::Ascii)
    );
    assert_eq!(ConfigNeedleValFormat::from_str("utf8"), Err(()));
}

#[test]
fn test_is_val_printable_and_rendering() {
    let n = Needle {
        name: "p".to_string(),
        val: b"Hi!".to_vec(),
        description_notes: String::new(),
        happiness_level: 0,
        write_to_file: false,
        byte_count_before_match: 0,
        byte_count_after_match: 0,
    };
    assert!(n.is_val_printable());
    assert_eq!(n.val_as_string(), "[72, 105, 33] ('Hi!')");
    let mut n2 = n;
    n2.val = vec![0x00, 0x48];
    assert!(!n2.is_val_printable());
    assert_eq!(n2.val_as_string(), "[0, 72]");
}

#[test]
fn test_happiness_level_as_string() {
    let n = Needle {
        name: "h".to_string(),
        val: vec![1],
        description_notes: String::new(),
        happiness_level: 5,
        write_to_file: false,
        byte_count_before_match: 0,
        byte_count_after_match: 0,
    };
    assert_eq!(n.happiness_level_as_string(), "😁😁 (5)");
}

#[test]
fn test_validate_needles() {
    let good = Needle {
        name: "g".to_string(),
        val: vec![1, 2, 3],
        description_notes: String::new(),
        happiness_level: 0,
        write_to_file: false,
        byte_count_before_match: 0,
        byte_count_after_match: 0,
    };
    let empty = Needle {
        val: vec![],
        name: "e".to_string(),
        description_notes: String::new(),
        happiness_level: 0,
        write_to_file: false,
        byte_count_before_match: 0,
        byte_count_after_match: 0,
    };
    assert!(validate_needles(&vec![clone_needle(&good)], 4));
    assert!(!validate_needles(&vec![empty], 4));
    // a pattern longer than carry + 1 cannot span a boundary safely
    assert!(!validate_needles(&vec![good], 1));
}

fn clone_needle(n: &Needle) -> Needle {
    Needle {
        name: n.name.clone(),
        val: n.val.clone(),
        description_notes: n.description_notes.clone(),
        happiness_level: n.happiness_level,
        write_to_file: n.write_to_file,
        byte_count_before_match: n.byte_count_before_match,
        byte_count_after_match: n.byte_count_after_match,
    }
}

#[test]
fn test_format_duration() {
    assert_eq!(format_duration(0), "00:00:00");
    assert_eq!(format_duration(3661), "01:01:01");
    assert_eq!(format_duration(59), "00:00:59");
    assert_eq!(format_duration(360000), "100:00:00");
}

#[test]
fn test_should_log_progress() {
    assert!(!should_log_progress(29, false));
    assert!(should_log_progress(30, false));
    assert!(should_log_progress(0, true));
}

fn record(name: &str, hl: u8, offset: u64) -> NeedleValFound {
    NeedleValFound {
        name: name.to_string(),
        match_start_global_offset: offset,
        val: vec![1],
        val_as_str: String::new(),
        description_notes: format!("{} notes", name),
        happiness_level: hl,
        found_timestamp_utc: String::new(),
        haystack_written_to_file: false,
        haystack_file_path: None,
        haystack_file_name: None,
    }
}

#[test]
fn test_summarize_records_grouping_and_order() {
    let records = vec![
        record("beta", 5, 10),
        record("alpha", 5, 700),
        record("beta", 5, 400),
        record("gamma", 9, 3),
        record("alpha", 5, 20),
        record("beta", 5, 40),
    ];
    let out = summarize_records(&records);
    assert_eq!(out.len(), 3);
    // order: happiness level descending, then count descending, then name
    assert_eq!(out[0].name, "gamma");
    assert_eq!(out[0].happiness_level, 9);
    assert_eq!(out[0].count, 1);
    assert_eq!(out[0].latest_global_offset, 3);
    assert_eq!(out[1].name, "beta");
    assert_eq!(out[1].count, 3);
    assert_eq!(out[1].latest_global_offset, 400);
    assert_eq!(out[2].name, "alpha");
    assert_eq!(out[2].count, 2);
    assert_eq!(out[2].latest_global_offset, 700);
    assert_eq!(out[2].description_notes, "alpha notes");
}

#[test]
fn test_summarize_records_name_tiebreak() {
    let records = vec![record("b", 5, 1), record("a", 5, 2)];
    let out = summarize_records(&records);
    assert_eq!(out[0].name, "a");
    assert_eq!(out[1].name, "b");
}

#[test]
fn test_load_needles_from_file() {
    // the sample configuration: three example needles
    let configs = vec![
        config(
            "Example Needle 1",
            "72 65 6c 6c 6f",
            ConfigNeedleValFormat::Hex,
            5,
        ),
        config("Example Needle 2", "Hello", ConfigNeedleValFormat::Ascii, 7),
        config("Example Needle 3", "0xde 0xad", ConfigNeedleValFormat::Hex, 9),
    ];
    let needles = load_needles_from_file(&configs).unwrap();
    assert!(needles.len() > 2);
    assert!(needles[0].name == "Example Needle 1");
    assert!(needles[1].name == "Example Needle 2");
    assert!(needles[2].name == "Example Needle 3");
}

#[test]
fn test_load_needles_from_file_rejects_bad_entry() {
    let configs = vec![
        config("ok", "Hello", ConfigNeedleValFormat::Ascii, 1),
        config("bad", "xyz", ConfigNeedleValFormat::Hex, 1),
    ];
    assert!(load_needles_from_file(&configs).is_err());
}

#[test]
fn test_construction_rejects_empty_pattern() {
    // a zero-length pattern fails at construction, for both formats
    let hex_empty = config("e1", "", ConfigNeedleValFormat::Hex, 1);
    assert!(Needle::try_from_needle_val_config(&hex_empty).is_err());
    let ascii_empty = config("e2", "", ConfigNeedleValFormat::Ascii, 1);
    assert!(Needle::try_from_needle_val_config(&ascii_empty).is_err());
    assert!(load_needles_from_file(&vec![ascii_empty]).is_err());
}

#[test]
fn test_default_write_to_file() {
    assert!(default_write_to_file());
}
