use drive_image_searcher::automaton::Automaton;
use drive_image_searcher::needle::Needle;
use drive_image_searcher::record::{context_file_name, context_window, NeedleValFound};
use drive_image_searcher::scanner::{run_scan_chunked, scan_buffer, ProcessDataState};

fn needle(name: &str, pattern: &[u8], happiness_level: u8) -> Needle {
    Needle {
        name: name.to_string(),
        val: pattern.to_vec(),
        description_notes: String::new(),
        happiness_level,
        write_to_file: true,
        byte_count_before_match: 1024,
        byte_count_after_match: 1024,
    }
}

#[test]
fn test_exactly_once_across_boundary() {
    // haystack of 20 zero bytes with "ABCDE" placed at offset 8,
    // chunk size 10, carry-forward 4: exactly one event at offset 8
    let mut hay = vec![0u8; 20];
    hay[8..13].copy_from_slice(b"ABCDE");
    let needles = vec![needle("abcde", b"ABCDE", 5)];
    let st = run_scan_chunked(&needles, &hay, 10, 4);
    assert_eq!(st.found_pairs, vec![(0usize, 8u64)]);
}

#[test]
fn test_uniform_chunk_length_one_needle_found_everywhere() {
    // a chunk of 4096 identical 0x00 bytes with a length-1 needle 0x00
    // is still detected at every offset
    let hay = vec![0u8; 4096];
    let needles = vec![needle("zero", &[0x00], 1)];
    let st = run_scan_chunked(&needles, &hay, 4096, 4);
    assert_eq!(st.found_pairs.len(), 4096);
    for (k, &(n, off)) in st.found_pairs.iter().enumerate() {
        assert_eq!(n, 0);
        assert_eq!(off, k as u64);
    }
}

#[test]
fn test_uniform_chunk_nonzero_needle_never_matches() {
    // a longer needle holding a non-zero byte never matches inside a
    // uniform zero chunk
    let hay = vec![0u8; 4096];
    let needles = vec![needle("tagged", &[0x00, 0x41, 0x00], 1)];
    let st = run_scan_chunked(&needles, &hay, 4096, 4);
    assert!(st.found_pairs.is_empty());
}

#[test]
fn test_boundary_equivalence_concrete() {
    // chunked scanning with a large enough carry-forward reports the same
    // (needle, offset) pairs as scanning the whole buffer at once
    let mut hay = Vec::new();
    for i in 0..1000u32 {
        hay.push((i % 7) as u8);
    }
    hay.extend_from_slice(b"ABABAB");
    hay.extend_from_slice(&[0u8; 100]);
    let needles = vec![
        needle("abab", b"ABAB", 3),
        needle("ab", b"AB", 2),
        needle("zeros", &[0, 1, 2], 1),
    ];
    let whole = scan_buffer(&needles, &hay);
    for &(read_size, carry) in &[(64usize, 8usize), (7, 3), (997, 5), (2000, 16)] {
        let st = run_scan_chunked(&needles, &hay, read_size, carry);
        let mut a = st.found_pairs.clone();
        let mut b = whole.clone();
        a.sort();
        b.sort();
        assert_eq!(a, b, "read_size {} carry {}", read_size, carry);
    }
}

#[test]
fn test_idempotent_rerun() {
    // two runs over identical input, needle set and parameters produce
    // identical occurrence lists and context file names
    let mut hay = vec![0u8; 5000];
    hay.extend_from_slice(b"Hello");
    hay.extend_from_slice(&vec![0u8; 5000]);
    let needles = vec![needle("hello", b"Hello", 5)];
    let first = run_scan_chunked(&needles, &hay, 4096, 4);
    let second = run_scan_chunked(&needles, &hay, 4096, 4);
    assert_eq!(first.found_pairs, second.found_pairs);
    let names_first: Vec<String> = first
        .found_pairs
        .iter()
        .map(|&(_, off)| context_file_name(off, off.saturating_sub(8)))
        .collect();
    let names_second: Vec<String> = second
        .found_pairs
        .iter()
        .map(|&(_, off)| context_file_name(off, off.saturating_sub(8)))
        .collect();
    assert_eq!(names_first, names_second);
}

#[test]
fn test_end_to_end_scenario() {
    // 5000 zero bytes + "Hello" + 5000 zero bytes, needle "Hello" with
    // happiness level 5, chunk size 4096, carry 4: exactly one record at
    // offset 5000 with a context window clipped at both ends
    let mut hay = vec![0u8; 5000];
    hay.extend_from_slice(b"Hello");
    hay.extend_from_slice(&vec![0u8; 5000]);
    assert_eq!(hay.len(), 10005);
    let needles = vec![needle("hello", b"Hello", 5)];
    let st = run_scan_chunked(&needles, &hay, 4096, 4);
    assert_eq!(st.found_pairs, vec![(0usize, 5000u64)]);

    // the match is visible in the window that starts at 4092 (the second
    // chunk with its 4-byte carry, 4100 bytes long), at in-buffer
    // position 908
    let pos: usize = 5000 - 4092;
    let window_len: usize = 4 + 4096;
    let (cs, ce) = context_window(pos, 5, 1024, 1024, window_len);
    // only 908 bytes exist before the match inside this window
    assert_eq!(cs, 0);
    assert_eq!(ce, 908 + 5 + 1024);

    let record = NeedleValFound::from_needle_val(
        &needles[0],
        5000,
        "/data/image.img",
        "2024-01-01T00:00:00".to_string(),
    );
    assert_eq!(record.match_start_global_offset, 5000);
    assert!(record.val_as_str.contains("Hello"));
    assert_eq!(record.happiness_level, 5);

    let window_start_abs = 4092 + cs as u64;
    let file_name = context_file_name(5000, window_start_abs);
    assert_eq!(
        file_name,
        "found_g_0x0000_0000_0000_0000_1388_startat_0xFFC.bin"
    );
}

#[test]
fn test_do_search_deduplicates_carry_region() {
    // a match re-observed through the carried tail is not reported twice
    let needles = vec![needle("mark", b"XY", 4)];
    let mut st = ProcessDataState::new(4);
    let first = st.do_search(&needles, b"..XY");
    assert_eq!(first, vec![(0usize, 2u64)]);
    // the next chunk re-presents "..XY" as carry; only the new occurrence
    // is reported
    let second = st.do_search(&needles, b"XY..");
    assert_eq!(second, vec![(0usize, 4u64)]);
    assert_eq!(st.found_pairs, vec![(0usize, 2u64), (0usize, 4u64)]);
    assert_eq!(st.total_haystack_bytes_read, 8);
    assert_eq!(st.chunk_count, 2);
    // the second window spans the whole stream, so absolute offset 4 sits
    // at in-buffer position 4
    assert_eq!(st.pos_in_buffer(4), 4);
}

#[test]
fn test_record_partial_read_counts() {
    let mut st = ProcessDataState::new(4);
    assert!(!st.record_partial_read());
    assert_eq!(st.partial_chunk_read_count, 1);
    assert!(st.record_partial_read());
    assert_eq!(st.partial_chunk_read_count, 2);
}

#[test]
fn test_overlapping_matches_all_reported() {
    // overlapping occurrences of one pattern are each reported once
    let hay = b"AAAA";
    let needles = vec![needle("aa", b"AA", 1)];
    let pairs = scan_buffer(&needles, hay);
    assert_eq!(pairs, vec![(0, 0), (0, 1), (0, 2)]);
}

#[test]
fn test_pattern_longer_than_buffer_never_matches() {
    // not an error: the occurrence list is simply empty
    let hay = b"abc";
    let needles = vec![needle("long", b"abcdef", 1)];
    assert!(scan_buffer(&needles, hay).is_empty());
}

#[test]
fn test_empty_haystack() {
    let needles = vec![needle("x", b"x", 1)];
    assert!(scan_buffer(&needles, b"").is_empty());
    let st = run_scan_chunked(&needles, b"", 16, 4);
    assert!(st.found_pairs.is_empty());
    assert_eq!(st.total_haystack_bytes_read, 0);
}

#[test]
fn test_multiple_needles_same_offset() {
    // two needles matching at one offset yield two events, one per needle
    let hay = b"..ABC..";
    let needles = vec![needle("ab", b"AB", 1), needle("abc", b"ABC", 2)];
    let pairs = scan_buffer(&needles, hay);
    assert_eq!(pairs, vec![(0, 2), (1, 2)]);
}

#[test]
fn test_automaton_build_and_scan() {
    let patterns: Vec<Vec<u8>> = vec![b"he".to_vec(), b"she".to_vec(), b"hers".to_vec()];
    let a = Automaton::build(&patterns);
    let pairs = a.scan(b"ushers");
    // "she" at 1, "he" at 2, "hers" at 2
    assert_eq!(pairs, vec![(1, 1), (0, 2), (2, 2)]);
}
