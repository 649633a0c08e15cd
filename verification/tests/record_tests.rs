use drive_image_searcher::needle::Needle;
use drive_image_searcher::record::{
    context_window, needle_dir_name, needle_log_file_name, path_file_name, NeedleValFound,
};

fn needle(name: &str, pattern: &[u8], happiness_level: u8, write_to_file: bool) -> Needle {
    Needle {
        name: name.to_string(),
        val: pattern.to_vec(),
        description_notes: "a note".to_string(),
        happiness_level,
        write_to_file,
        byte_count_before_match: 1024,
        byte_count_after_match: 1024,
    }
}

#[test]
fn test_context_clipping_before_start() {
    // 1024 bytes of "before" context for a match at offset 10 yields
    // exactly 10 bytes of context, never reaching before offset 0
    let (start, end) = context_window(10, 5, 1024, 0, 100000);
    assert_eq!(start, 0);
    assert_eq!(10 - start, 10);
    assert_eq!(end, 15);
}

#[test]
fn test_context_clipping_after_end() {
    let (start, end) = context_window(50, 5, 8, 1024, 60);
    assert_eq!(start, 42);
    assert_eq!(end, 60);
}

#[test]
fn test_context_window_unclipped() {
    let (start, end) = context_window(5000, 5, 1024, 1024, 10005);
    assert_eq!(start, 5000 - 1024);
    assert_eq!(end, 5000 + 5 + 1024);
}

#[test]
fn test_from_needle_val_fields() {
    let n = needle("hello", b"Hello", 5, true);
    let r = NeedleValFound::from_needle_val(&n, 5000, "/data/img/disk.img", "ts".to_string());
    assert_eq!(r.name, "hello");
    assert_eq!(r.match_start_global_offset, 5000);
    assert_eq!(r.val, b"Hello".to_vec());
    assert_eq!(r.val_as_str, "[72, 101, 108, 108, 111] ('Hello')");
    assert_eq!(r.description_notes, "a note");
    assert_eq!(r.happiness_level, 5);
    assert_eq!(r.found_timestamp_utc, "ts");
    assert!(r.haystack_written_to_file);
    assert_eq!(r.haystack_file_path.as_deref(), Some("/data/img/disk.img"));
    assert_eq!(r.haystack_file_name.as_deref(), Some("disk.img"));
}

#[test]
fn test_from_needle_val_no_write() {
    let n = needle("quiet", &[0xde, 0xad], 2, false);
    let r = NeedleValFound::from_needle_val(&n, 7, "disk.img", "ts".to_string());
    assert!(!r.haystack_written_to_file);
    assert_eq!(r.haystack_file_path, None);
    assert_eq!(r.haystack_file_name, None);
    // 0xde is not printable, so no text rendering is attached
    assert_eq!(r.val_as_str, "[222, 173]");
}

#[test]
fn test_jsonl_line_exact() {
    let n = needle("hello", b"Hi", 5, true);
    let r = NeedleValFound::from_needle_val(&n, 42, "a/b.img", "2024-01-01T00:00:00".to_string());
    let line = r.to_jsonl_line();
    let mut expected = String::new();
    expected.push_str("{\"name\":\"hello\",\"match_start_global_offset\":42,");
    expected.push_str("\"val\":[72,105],\"val_as_str\":\"[72, 105] ('Hi')\",");
    expected.push_str("\"description_notes\":\"a note\",\"happiness_level\":5,");
    expected.push_str("\"found_timestamp_utc\":\"2024-01-01T00:00:00\",");
    expected.push_str("\"haystack_written_to_file\":true,");
    expected.push_str("\"haystack_file_path\":\"a/b.img\",\"haystack_file_name\":\"b.img\"}");
    assert_eq!(line, expected);
}

#[test]
fn test_jsonl_line_is_valid_json() {
    let mut n = needle("na\"me\\x", b"Hi", 9, false);
    n.description_notes = "line\nbreak\ttab".to_string();
    let r = NeedleValFound::from_needle_val(&n, 7, "p", "ts".to_string());
    let line = r.to_jsonl_line();
    let v: serde_json::Value = serde_json::from_str(&line).expect("valid JSON");
    assert_eq!(v["name"].as_str(), Some("na\"me\\x"));
    assert_eq!(v["match_start_global_offset"].as_u64(), Some(7));
    assert_eq!(v["description_notes"].as_str(), Some("line\nbreak\ttab"));
    assert_eq!(v["happiness_level"].as_u64(), Some(9));
    assert_eq!(v["haystack_written_to_file"].as_bool(), Some(false));
    assert!(v["haystack_file_path"].is_null());
    assert_eq!(v["val"][0].as_u64(), Some(72));
    assert_eq!(v["val"][1].as_u64(), Some(105));
}

#[test]
fn test_needle_dir_and_log_names() {
    let n = needle("My Needle", b"x", 5, true);
    assert_eq!(needle_dir_name(&n), "5_My Needle");
    assert_eq!(needle_log_file_name(&n), "001_My Needle.jsonl");
}

#[test]
fn test_path_file_name() {
    assert_eq!(path_file_name("a/b/c.img"), "c.img");
    assert_eq!(path_file_name("disk.img"), "disk.img");
    assert_eq!(path_file_name("a/b/"), "");
}
