use flr_editor::encoding::Encoding;
use flr_editor::encoding::fit_encoded;
use flr_editor::field_codec::{build_defined, build_field_bytes, display_from_decoded, format_field_value, FieldValueError};
use flr_editor::schema::{validate_value, Field, FieldKind, ValueError};
use flr_editor::value_check::{date_check_fits, validate_date, value_check_is_defined};

fn field(kind: FieldKind, length: usize) -> Field {
    Field { name: "f".into(), offset: 0, length, kind, encoding: None, description: String::new() }
}

#[test]
fn decoding_in_each_encoding() {
    assert_eq!(Encoding::ShiftJis.decode(&[0x83, 0x81, 0x41]), "メA");
    assert_eq!(Encoding::Utf8.decode("日本".as_bytes()), "日本");
    assert_eq!(Encoding::Ascii.decode(&[0x41, 0x00, 0x7f, 0x7e]), "A··~");
    assert_eq!(Encoding::Utf8.decode(&[0xEF, 0xBB, 0xBF, 0x41]), "A");
}

#[test]
fn encoding_exact_and_fixed() {
    assert_eq!(Encoding::Ascii.encode_exact("あ"), None);
    assert_eq!(Encoding::Utf8.encode_exact("é"), Some(vec![0xC3, 0xA9]));
    assert_eq!(Encoding::ShiftJis.encode_fixed("メ", 4, b' '), Some(vec![0x83, 0x81, b' ', b' ']));
    assert_eq!(Encoding::ShiftJis.encode_fixed("メディ", 4, b' '), None);
    assert_eq!(Encoding::ShiftJis.encode_exact("😀"), None);
    assert_eq!(Encoding::all(), [Encoding::ShiftJis, Encoding::Utf8, Encoding::Ascii]);
    assert_eq!(Encoding::ShiftJis.label(), "Shift_JIS (CP932)");
    assert_eq!(Encoding::Utf8.label(), "UTF-8");
    assert_eq!(Encoding::default(), Encoding::ShiftJis);
}

#[test]
fn formatting_each_kind() {
    let text = field(FieldKind::Text { pad: b' ' }, 6);
    assert_eq!(format_field_value(&text, Encoding::Ascii, b"AB    "), "AB");
    let num = field(FieldKind::Numeric { pad: b'0', signed: false }, 5);
    assert_eq!(format_field_value(&num, Encoding::Ascii, b"00042"), "42");
    assert_eq!(format_field_value(&num, Encoding::Ascii, b"00000"), "0");
    let signed = field(FieldKind::Numeric { pad: b'0', signed: true }, 5);
    assert_eq!(format_field_value(&signed, Encoding::Ascii, b"00000"), "");
    let dec = field(FieldKind::Decimal { pad: b'0', scale: 2, signed: false }, 10);
    assert_eq!(format_field_value(&dec, Encoding::Ascii, b"0000012345"), "123.45");
    assert_eq!(format_field_value(&dec, Encoding::Ascii, b"0000000005"), "0.05");
    let date = field(FieldKind::Date { format: "YYYYMMDD".into() }, 8);
    assert_eq!(format_field_value(&date, Encoding::Ascii, b"20240229"), "20240229");
    let bytes = field(FieldKind::Bytes, 3);
    assert_eq!(format_field_value(&bytes, Encoding::Ascii, &[0x00, 0xAB, 0x10]), "00 AB 10");
}

#[test]
fn building_each_kind() {
    let text = field(FieldKind::Text { pad: b' ' }, 4);
    assert_eq!(build_field_bytes(&text, Encoding::Ascii, "ab"), Ok(b"ab  ".to_vec()));
    assert_eq!(build_field_bytes(&text, Encoding::Ascii, "abcde"), Err(FieldValueError::CannotEncode));
    let num = field(FieldKind::Numeric { pad: b'0', signed: true }, 5);
    assert_eq!(build_field_bytes(&num, Encoding::Ascii, " -42 "), Ok(b"-0042".to_vec()));
    assert_eq!(build_field_bytes(&num, Encoding::Ascii, "4x"), Err(FieldValueError::NotDigits));
    assert_eq!(build_field_bytes(&num, Encoding::Ascii, "-12345"), Err(FieldValueError::TooLong));
    let dec = field(FieldKind::Decimal { pad: b'0', scale: 2, signed: false }, 8);
    assert_eq!(build_field_bytes(&dec, Encoding::Ascii, "123.4"), Ok(b"00012340".to_vec()));
    assert_eq!(build_field_bytes(&dec, Encoding::Ascii, "1.234"), Err(FieldValueError::TooManyFractionDigits { scale: 2 }));
    assert_eq!(build_field_bytes(&dec, Encoding::Ascii, "1.2.3"), Err(FieldValueError::InvalidDecimal));
    let date = field(FieldKind::Date { format: "YYYY-MM-DD".into() }, 10);
    assert_eq!(build_field_bytes(&date, Encoding::Ascii, "2024-02-29"), Ok(b"2024-02-29".to_vec()));
    assert_eq!(
        build_field_bytes(&date, Encoding::Ascii, "2023-02-29"),
        Err(FieldValueError::Invalid(ValueError::DayOutOfRange { day: 29 }))
    );
    let short_date = field(FieldKind::Date { format: "YYYY-MM-DD".into() }, 8);
    assert_eq!(
        build_field_bytes(&short_date, Encoding::Ascii, "2024-02-29"),
        Err(FieldValueError::DateLength { expected: 8, actual: 10 })
    );
    let bytes = field(FieldKind::Bytes, 2);
    assert_eq!(build_field_bytes(&bytes, Encoding::Ascii, "0a FF"), Ok(vec![0x0A, 0xFF]));
    assert_eq!(build_field_bytes(&bytes, Encoding::Ascii, "0aF"), Err(FieldValueError::HexLength { expected: 4, actual: 3 }));
    assert_eq!(build_field_bytes(&bytes, Encoding::Ascii, "0aFG"), Err(FieldValueError::InvalidHex));
}

#[test]
fn bytes_fields_round_trip_through_their_display() {
    let bytes = field(FieldKind::Bytes, 4);
    let raw = [0x00, 0x7F, 0xAB, 0xFF];
    let shown = format_field_value(&bytes, Encoding::ShiftJis, &raw);
    assert_eq!(shown, "00 7F AB FF");
    assert_eq!(build_field_bytes(&bytes, Encoding::ShiftJis, &shown), Ok(raw.to_vec()));
}

#[test]
fn ascii_text_round_trips() {
    let text = field(FieldKind::Text { pad: b' ' }, 8);
    let raw = build_field_bytes(&text, Encoding::Ascii, "HELLO").unwrap();
    assert_eq!(format_field_value(&text, Encoding::Ascii, &raw), "HELLO");
}

#[test]
fn value_checks() {
    let num = field(FieldKind::Numeric { pad: b'0', signed: false }, 3);
    assert_eq!(validate_value(&num, "12"), Ok(()));
    assert_eq!(validate_value(&num, "1a"), Err(ValueError::NotDigits));
    assert_eq!(validate_value(&num, "1234"), Err(ValueError::TooLong { length: 3 }));
    let dec = field(FieldKind::Decimal { pad: b'0', scale: 1, signed: true }, 6);
    assert_eq!(validate_value(&dec, "-1.5"), Ok(()));
    assert_eq!(validate_value(&dec, "1.55"), Err(ValueError::TooManyFractionDigits { scale: 1 }));
    assert_eq!(validate_value(&dec, "1.x"), Err(ValueError::InvalidDecimal));
    let text = field(FieldKind::Text { pad: b' ' }, 1);
    assert_eq!(validate_value(&text, "anything"), Ok(()));
}

#[test]
fn date_checks() {
    assert_eq!(validate_date("20240229", "YYYYMMDD"), Ok(()));
    assert_eq!(validate_date("2024022", "YYYYMMDD"), Err(ValueError::DateLengthMismatch));
    assert_eq!(validate_date("2024O229", "YYYYMMDD"), Err(ValueError::DateNonDigit));
    assert_eq!(validate_date("2024/02/29", "YYYY-MM-DD"), Err(ValueError::DateLiteralMismatch { expected: '-', found: '/' }));
    assert_eq!(validate_date("20240229", "YYYYMM--"), Err(ValueError::DateLiteralMismatch { expected: '-', found: '2' }));
    assert_eq!(validate_date("202402", "YYYYMM"), Err(ValueError::DateMissingPart));
    assert_eq!(validate_date("20241301", "YYYYMMDD"), Err(ValueError::MonthOutOfRange { month: 13 }));
    assert_eq!(validate_date("19000229", "YYYYMMDD"), Err(ValueError::DayOutOfRange { day: 29 }));
    assert_eq!(validate_date("20000229", "YYYYMMDD"), Ok(()));
}

#[test]
fn conversions_that_cannot_complete_are_recognised() {
    let signed_empty = field(FieldKind::Numeric { pad: b'0', signed: true }, 0);
    assert!(!build_defined(&signed_empty, Encoding::Ascii, "-5"));
    assert!(build_defined(&signed_empty, Encoding::Ascii, "5"));
    assert!(build_defined(&signed_empty, Encoding::Ascii, "-x"));
    let signed_dec = field(FieldKind::Decimal { pad: b'0', scale: 2, signed: true }, 0);
    assert!(!build_defined(&signed_dec, Encoding::Ascii, "+1.5"));
    assert!(build_defined(&signed_dec, Encoding::Ascii, "+1.555"));
    let text = field(FieldKind::Text { pad: b' ' }, 3);
    assert!(build_defined(&text, Encoding::ShiftJis, "anything at all"));
    let bytes = field(FieldKind::Bytes, 2);
    assert!(build_defined(&bytes, Encoding::Ascii, "0A 0B"));
    assert!(build_defined(&bytes, Encoding::Ascii, "zz0B"));
    // A two-byte chunk that splits a character.
    assert!(!build_defined(&bytes, Encoding::Ascii, "aéb"));
    let huge = field(FieldKind::Bytes, usize::MAX);
    assert!(!build_defined(&huge, Encoding::Ascii, ""));
    let date = field(FieldKind::Date { format: "YYYYYYYYYYMMDD".into() }, 14);
    assert!(!build_defined(&date, Encoding::Ascii, "99999999990101"));
    assert!(build_defined(&date, Encoding::Ascii, "00000000010101"));
}

#[test]
fn date_checks_that_overflow_are_recognised() {
    assert!(date_check_fits("20240229", "YYYYMMDD"));
    assert!(!date_check_fits("9999999999", "YYYYYYYYYY"));
    assert!(date_check_fits("0000000001", "YYYYYYYYYY"));
    assert!(date_check_fits("99999999x9", "YYYYYYYYYY"));
    assert!(!date_check_fits("99999999999", "MMMMMMMMMMM"));
    assert!(date_check_fits("short", "YYYYMMDD"));
    assert!(value_check_is_defined(&FieldKind::Bytes, "anything"));
    assert!(!value_check_is_defined(&FieldKind::Date { format: "DDDDDDDDDDD".into() }, "99999999999"));
}

#[test]
fn text_and_numeric_values_read_back() {
    let text = field(FieldKind::Text { pad: b' ' }, 6);
    let b = build_field_bytes(&text, Encoding::Ascii, "AB C").unwrap();
    assert_eq!(b, b"AB C  ".to_vec());
    assert_eq!(format_field_value(&text, Encoding::Ascii, &b), "AB C");
    let num = field(FieldKind::Numeric { pad: b'0', signed: false }, 6);
    let b = build_field_bytes(&num, Encoding::Ascii, "1020").unwrap();
    assert_eq!(b, b"001020".to_vec());
    assert_eq!(format_field_value(&num, Encoding::Ascii, &b), "1020");
    // A value ending in the pad character loses it on reading.
    let b = build_field_bytes(&text, Encoding::Ascii, "AB ").unwrap();
    assert_eq!(format_field_value(&text, Encoding::Ascii, &b), "AB");
}

#[test]
fn display_from_decoded_text() {
    assert_eq!(
        display_from_decoded(&FieldKind::Text { pad: b' ' }, "メディカル   ", &[]),
        Some("メディカル".to_string())
    );
    assert_eq!(
        display_from_decoded(&FieldKind::Decimal { pad: b'0', scale: 2, signed: false }, "0012345", &[]),
        Some("123.45".to_string())
    );
    assert_eq!(
        display_from_decoded(&FieldKind::Numeric { pad: b'0', signed: false }, "0000", &[]),
        Some("0".to_string())
    );
    assert_eq!(
        display_from_decoded(&FieldKind::Bytes, "ignored", &[0x0A, 0xFF]),
        Some("0A FF".to_string())
    );
    // The decimal point would fall inside a character.
    assert_eq!(
        display_from_decoded(&FieldKind::Decimal { pad: b'0', scale: 1, signed: false }, "1メ", &[]),
        None
    );
}

#[test]
fn fitting_an_encoding_to_a_field() {
    assert_eq!(fit_encoded(Some(vec![1, 2]), 4, 0x20), Some(vec![1, 2, 0x20, 0x20]));
    assert_eq!(fit_encoded(Some(vec![1, 2, 3]), 2, 0), None);
    assert_eq!(fit_encoded(Some(vec![1, 2]), 2, 0), Some(vec![1, 2]));
    assert_eq!(fit_encoded(None, 4, 0), None);
}

#[test]
fn fraction_digits_are_counted_modulo_256() {
    let f = field(FieldKind::Decimal { pad: 0x30, scale: 0, signed: false }, 10);
    // 256 fraction digits count as none.
    let value = format!("1.{}", "0".repeat(256));
    assert_eq!(validate_value(&f, &value), Ok(()));
    assert_eq!(build_field_bytes(&f, Encoding::Ascii, &value), Err(FieldValueError::TooLong));
    let value = format!("1.{}", "0".repeat(257));
    assert_eq!(validate_value(&f, &value), Err(ValueError::TooManyFractionDigits { scale: 0 }));
}

#[test]
fn shown_digits_edited_back_give_the_same_bytes() {
    let num = field(FieldKind::Numeric { pad: 0x30, signed: false }, 6);
    for bytes in [b"000120".to_vec(), b"000000".to_vec(), b"912345".to_vec()] {
        let shown = format_field_value(&num, Encoding::Ascii, &bytes);
        assert_eq!(build_field_bytes(&num, Encoding::Ascii, &shown), Ok(bytes));
    }
    for scale in [0u8, 2, 6, 9] {
        let dec = field(FieldKind::Decimal { pad: 0x30, scale, signed: false }, 6);
        for bytes in [b"000120".to_vec(), b"000000".to_vec(), b"912345".to_vec(), b"000007".to_vec()] {
            let shown = format_field_value(&dec, Encoding::Ascii, &bytes);
            assert_eq!(build_field_bytes(&dec, Encoding::Ascii, &shown), Ok(bytes), "scale {scale}");
        }
    }
    let dec = field(FieldKind::Decimal { pad: 0x30, scale: 2, signed: false }, 6);
    assert_eq!(format_field_value(&dec, Encoding::Ascii, b"000120"), "1.20");
}

#[test]
fn dates_are_stored_as_their_bytes() {
    let date = field(FieldKind::Date { format: "YYYYMMDD".into() }, 8);
    for enc in [Encoding::Ascii, Encoding::ShiftJis, Encoding::Utf8] {
        assert_eq!(build_field_bytes(&date, enc, "20240229"), Ok(b"20240229".to_vec()));
        assert!(build_field_bytes(&date, enc, "20230229").is_err());
    }
}
