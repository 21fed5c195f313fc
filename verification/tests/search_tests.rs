use flr_editor::encoding::Encoding;
use flr_editor::field_codec::FieldValueError;
use flr_editor::record::RecordBuffer;
use flr_editor::schema::Schema;
use flr_editor::ui::search_bar::{
    field_at, find_all_subslice, find_next, find_subslice, find_subslice_seq, parse_hex_bytes,
    parse_offset, pattern_preview, record_jump, replace_all, replace_next, window_matches,
    FindOutcome, SearchError, SearchMode, SearchState,
};

#[test]
fn encode_exact_sjis_no_padding() {
    // "メディカル" in CP932 is exactly these 10 bytes, with no trailing padding.
    let pat = Encoding::ShiftJis.encode_exact("メディカル").unwrap();
    assert_eq!(pat, vec![0x83, 0x81, 0x83, 0x66, 0x83, 0x42, 0x83, 0x4A, 0x83, 0x8B]);
}

/// Search of "メディカル" in a buffer of sample records holding it once.
#[test]
fn finds_japanese_in_varied_data() {
    let schema = Schema::sample_120();
    let mut buf = RecordBuffer::new_empty(&schema, 10);
    let holder = schema.fields[5].clone();
    assert_eq!(buf.set_field_text(&schema, 7, &holder, "タナカメディカル"), Ok(()));
    let pat = Encoding::ShiftJis.encode_exact("メディカル").unwrap();
    let pos = find_subslice(buf.data.as_slice(), &pat, 0, false);
    assert!(pos.is_some(), "メディカル should be in the buffer");
    let stride = schema.stride();
    let p = pos.unwrap();
    assert_eq!(p / stride, 7);
    assert_eq!(p % stride, 16 + 6);
}

/// Confirm parallel and sequential produce identical first-match results
/// over a synthetic haystack with matches at positions including chunk
/// boundaries.
#[test]
fn parallel_matches_sequential() {
    let mut haystack = vec![0u8; 5 * 1024 * 1024]; // 5 MiB > PAR_SEARCH_THRESHOLD
    let needle = b"NEEDLE-HERE-42";
    let planted: &[usize] = &[
        0,
        1_000,
        65_500,
        65_540,
        100_000,
        1_048_500,
        1_048_580,
        4_000_000,
        haystack.len() - needle.len(),
    ];
    for &pos in planted {
        haystack[pos..pos + needle.len()].copy_from_slice(needle);
    }

    let seq = find_subslice_seq(&haystack, needle, 0, false);
    let par = find_subslice(&haystack, needle, 0, false);
    assert_eq!(seq, par, "seq and par disagree on first match");

    let seq2 = find_subslice_seq(&haystack, needle, 100_000, false);
    let par2 = find_subslice(&haystack, needle, 100_000, false);
    assert_eq!(seq2, par2);

    let all = find_all_subslice(&haystack, needle, false);
    assert!(all.windows(2).all(|w| w[0] < w[1]), "positions not sorted");
    assert_eq!(all, planted, "find_all missed or invented a match");
}

#[test]
fn parallel_search_past_the_last_match() {
    let mut haystack = vec![b'.'; 3 * 1024 * 1024];
    haystack[2_000_000..2_000_003].copy_from_slice(b"abc");
    assert_eq!(find_subslice(&haystack, b"ABC", 1_999_999, true), Some(2_000_000));
    assert_eq!(find_subslice(&haystack, b"abc", 2_000_001, false), None);
    assert_eq!(find_subslice(&haystack, b"", 0, false), None);
    assert_eq!(find_subslice(&haystack, b"abc", haystack.len(), false), None);
}

#[test]
fn overlapping_matches_are_all_found() {
    assert_eq!(find_all_subslice(b"aaaa", b"aa", false), vec![0, 1, 2]);
    assert_eq!(find_all_subslice(b"aAaA", b"aa", true), vec![0, 1, 2]);
    assert_eq!(find_all_subslice(b"a", b"aa", false), Vec::<usize>::new());
    assert_eq!(find_all_subslice(b"abc", b"", false), Vec::<usize>::new());
}

#[test]
fn window_comparison_ignores_ascii_case_only_when_asked() {
    assert!(window_matches(b"abc", b"ABC", true));
    assert!(!window_matches(b"abc", b"ABC", false));
    assert!(!window_matches(b"ab", b"abc", true));
    assert!(!window_matches(&[0xE9], &[0xC9], true));
}

#[test]
fn hex_pattern_parsing() {
    assert_eq!(parse_hex_bytes("30 31 32"), Ok(vec![0x30, 0x31, 0x32]));
    assert_eq!(parse_hex_bytes("303132"), Ok(vec![0x30, 0x31, 0x32]));
    assert_eq!(parse_hex_bytes("ff\tA0\n"), Ok(vec![0xFF, 0xA0]));
    assert_eq!(parse_hex_bytes("+a"), Ok(vec![0x0A]));
    assert_eq!(parse_hex_bytes("303"), Err(SearchError::OddHexLength));
    assert_eq!(parse_hex_bytes("zz"), Err(SearchError::InvalidHexPair { first: b'z', second: b'z' }));
    // One two-byte character: valid UTF-8, but not hex.
    assert_eq!(parse_hex_bytes("é"), Err(SearchError::InvalidHexPair { first: 0xC3, second: 0xA9 }));
    // 'a' followed by the first byte of a three-byte character.
    assert_eq!(parse_hex_bytes("aあ"), Err(SearchError::NonAsciiHex));
}

fn buffer_with_abc(records: &[usize]) -> (Schema, RecordBuffer) {
    let schema = Schema::sample_120();
    let mut buf = RecordBuffer::new_empty(&schema, 3);
    let ref_no = schema.fields[8].clone();
    for &r in records {
        assert_eq!(buf.set_field_text(&schema, r, &ref_no, "ABC"), Ok(()));
    }
    (schema, buf)
}

fn text_state(query: &str, replace: &str) -> SearchState {
    let mut st = SearchState::default();
    st.query = query.to_string();
    st.replace = replace.to_string();
    st.mode = SearchMode::Text;
    st.encoding = Encoding::Ascii;
    st
}

#[test]
fn find_next_wraps_around() {
    let (schema, mut buf) = buffer_with_abc(&[0]);
    let st = text_state("ABC", "");
    assert_eq!(find_next(&st, &buf, &schema), Ok(FindOutcome::Hit { offset: 64, wrapped: false }));
    buf.current_record = 1;
    assert_eq!(find_next(&st, &buf, &schema), Ok(FindOutcome::Hit { offset: 64, wrapped: true }));
    let st = text_state("XYZ", "");
    assert_eq!(find_next(&st, &buf, &schema), Ok(FindOutcome::NoMatch));
    let mut st = text_state("abc", "");
    st.case_insensitive = true;
    st.last_match_abs = Some(64);
    assert_eq!(find_next(&st, &buf, &schema), Ok(FindOutcome::Hit { offset: 64, wrapped: true }));
}

#[test]
fn field_value_search_compares_whole_fields() {
    let (schema, mut buf) = buffer_with_abc(&[0]);
    let mut st = SearchState::default();
    st.mode = SearchMode::FieldValue;
    st.field_idx = Some(8);
    st.query = "ABC".to_string();
    assert_eq!(find_next(&st, &buf, &schema), Ok(FindOutcome::Hit { offset: 64, wrapped: false }));
    buf.current_record = 1;
    assert_eq!(find_next(&st, &buf, &schema), Ok(FindOutcome::Hit { offset: 64, wrapped: true }));
    st.query = "AB".to_string();
    assert_eq!(find_next(&st, &buf, &schema), Ok(FindOutcome::NoMatch));
}

#[test]
fn search_errors() {
    let (schema, buf) = buffer_with_abc(&[0]);
    assert_eq!(find_next(&text_state("", ""), &buf, &schema), Err(SearchError::EmptyPattern));
    assert_eq!(find_next(&text_state("あ", ""), &buf, &schema), Err(SearchError::Unencodable));
    let mut st = SearchState::default();
    st.mode = SearchMode::FieldValue;
    st.query = "1".to_string();
    assert_eq!(find_next(&st, &buf, &schema), Err(SearchError::NoFieldSelected));
    st.field_idx = Some(7);
    st.query = "abc".to_string();
    assert_eq!(
        find_next(&st, &buf, &schema),
        Err(SearchError::Field(FieldValueError::InvalidDecimal))
    );
    let mut st = SearchState::default();
    st.mode = SearchMode::HexBytes;
    st.query = "4".to_string();
    assert_eq!(find_next(&st, &buf, &schema), Err(SearchError::OddHexLength));
}

#[test]
fn replace_next_writes_over_the_next_match() {
    let (schema, mut buf) = buffer_with_abc(&[0, 2]);
    let mut st = text_state("ABC", "XYZ");
    assert_eq!(replace_next(&mut st, &mut buf, &schema), Ok(Some(64)));
    assert_eq!(&buf.data.as_slice()[64..67], b"XYZ");
    assert!(buf.modified);
    assert_eq!(st.last_match_abs, Some(64));
    assert_eq!(replace_next(&mut st, &mut buf, &schema), Ok(Some(304)));
    assert_eq!(replace_next(&mut st, &mut buf, &schema), Ok(None));
    assert_eq!(buf.data.len(), 360);
}

#[test]
fn replace_all_pads_a_shorter_text_replacement() {
    let (schema, mut buf) = buffer_with_abc(&[0, 2]);
    let mut st = text_state("ABC", "XY");
    assert_eq!(replace_all(&mut st, &mut buf, &schema), Ok(2));
    assert_eq!(&buf.data.as_slice()[64..67], b"XY ");
    assert_eq!(&buf.data.as_slice()[304..307], b"XY ");
    assert_eq!(replace_all(&mut st, &mut buf, &schema), Ok(0));
}

#[test]
fn replace_errors() {
    let (schema, mut buf) = buffer_with_abc(&[0]);
    let mut st = text_state("ABC", "あ");
    assert_eq!(replace_next(&mut st, &mut buf, &schema), Err(SearchError::UnencodableReplacement));
    let mut st = SearchState::default();
    st.mode = SearchMode::HexBytes;
    st.query = "414243".to_string();
    st.replace = "4142".to_string();
    assert_eq!(
        replace_all(&mut st, &mut buf, &schema),
        Err(SearchError::LengthMismatch { replacement: 2, pattern: 3 })
    );
    assert_eq!(&buf.data.as_slice()[64..67], b"ABC");
}

#[test]
fn pattern_preview_text() {
    assert_eq!(pattern_preview(&[0x30, 0x31]), "30 31 (2 バイト)");
    let long = vec![0xABu8; 17];
    assert_eq!(
        pattern_preview(&long),
        "AB AB AB AB AB AB AB AB AB AB AB AB AB AB AB AB … (17 バイト)"
    );
    assert_eq!(pattern_preview(&[]), " (0 バイト)");
}

#[test]
fn parse_offset_forms() {
    assert_eq!(parse_offset("0x10"), Some(16));
    assert_eq!(parse_offset("#ff"), Some(255));
    assert_eq!(parse_offset(" 42 "), Some(42));
    assert_eq!(parse_offset("+7"), Some(7));
    assert_eq!(parse_offset("0x+f"), Some(15));
    assert_eq!(parse_offset("0X"), None);
    assert_eq!(parse_offset("-1"), None);
    assert_eq!(parse_offset(""), None);
    assert_eq!(parse_offset("12a"), None);
}

#[test]
fn record_jump_bounds() {
    assert_eq!(record_jump(" 3 ", 5), Some(2));
    assert_eq!(record_jump("5", 5), Some(4));
    assert_eq!(record_jump("0", 5), None);
    assert_eq!(record_jump("6", 5), None);
    assert_eq!(record_jump("0x2", 5), None);
}

#[test]
fn show_hit_selects_record_and_field() {
    let schema = Schema::sample_120();
    let mut buf = RecordBuffer::new_empty(&schema, 3);
    let mut st = SearchState::default();
    let (rec, off, field) = st.show_hit(&mut buf, &schema, 250);
    assert_eq!((rec, off), (2, 10));
    assert_eq!(field, Some(4));
    assert_eq!(buf.current_record, 2);
    assert_eq!(buf.cursor_in_record, 10);
    assert_eq!(st.last_match_abs, Some(250));
    assert_eq!(field_at(&schema, 16), Some(5));
    assert_eq!(field_at(&schema, 120), None);
}

#[test]
fn replace_all_skips_matches_overlapping_a_replaced_one() {
    let schema = Schema::sample_120();
    let mut buf = RecordBuffer::from_file_bytes(b"aaa".to_vec(), std::path::PathBuf::from("aaa.dat"));
    let mut st = SearchState::default();
    st.mode = SearchMode::HexBytes;
    st.query = "61 61".to_string();
    st.replace = "62 63".to_string();
    assert_eq!(replace_all(&mut st, &mut buf, &schema), Ok(1));
    assert_eq!(buf.data.as_slice(), b"bca");
    let mut buf = RecordBuffer::from_file_bytes(b"aaaaa".to_vec(), std::path::PathBuf::from("a.dat"));
    assert_eq!(replace_all(&mut st, &mut buf, &schema), Ok(2));
    assert_eq!(buf.data.as_slice(), b"bcbca");
}
