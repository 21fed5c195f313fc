use flr_editor::encoding::Encoding;
use flr_editor::schema::{
    Discriminator, Field, FieldError, FieldKind, Layout, RecordSeparator, Schema, SchemaError, Variant,
};

fn text_field(name: &str, offset: usize, length: usize) -> Field {
    Field {
        name: name.to_string(),
        offset,
        length,
        kind: FieldKind::Text { pad: 0x20 },
        encoding: None,
        description: String::new(),
    }
}

fn variant(key: &str, name: &str, fields: Vec<Field>) -> Variant {
    Variant { key: key.to_string(), name: name.to_string(), description: String::new(), fields }
}

/// A Zengin-style 120-byte layout: header, data, trailer and end records
/// told apart by their first byte.
fn zengin_schema() -> Schema {
    Schema {
        name: "zengin_120_multi".to_string(),
        record_length: 120,
        default_encoding: Encoding::ShiftJis,
        record_separator: RecordSeparator::NoSeparator,
        fields: Vec::new(),
        discriminator: Some(Discriminator { offset: 0, length: 1, encoding: Encoding::Ascii }),
        variants: vec![
            variant("1", "ヘッダレコード", vec![text_field("レコード区分", 0, 1), text_field("委託者名", 14, 40)]),
            variant("2", "データレコード", vec![text_field("レコード区分", 0, 1), text_field("振込金額", 80, 10)]),
            variant("8", "トレーラレコード", vec![text_field("レコード区分", 0, 1), text_field("合計件数", 1, 6)]),
            variant("9", "エンドレコード", vec![text_field("レコード区分", 0, 1)]),
        ],
    }
}

#[test]
fn variant_for_dispatches_by_discriminator() {
    let schema = zengin_schema();
    // Header record starts with '1'
    let mut header = vec![b' '; 120];
    header[0] = b'1';
    let v = schema.variant_for(&header).expect("should match header");
    assert_eq!(v.key, "1");
    assert_eq!(v.name, "ヘッダレコード");

    // Data record
    let mut data = vec![b' '; 120];
    data[0] = b'2';
    assert_eq!(schema.variant_for(&data).unwrap().key, "2");

    // End record
    let mut end = vec![b' '; 120];
    end[0] = b'9';
    assert_eq!(schema.variant_for(&end).unwrap().key, "9");

    // Unknown discriminator returns None
    let mut other = vec![b' '; 120];
    other[0] = b'X';
    assert!(schema.variant_for(&other).is_none());
}

#[test]
fn multi_variant_layouts_are_selected_per_record() {
    let schema = zengin_schema();
    assert!(schema.is_multi_variant());
    assert_eq!(schema.variants.len(), 4);
    let mut data = vec![b' '; 120];
    data[0] = b'2';
    let fields = schema.fields_for(&data);
    assert!(fields.iter().any(|f| f.name == "振込金額"));
    // No default fields: an unknown record falls back to the first variant.
    let mut other = vec![b' '; 120];
    other[0] = b'X';
    assert_eq!(schema.fields_for(&other)[1].name, "委託者名");
    assert_eq!(schema.variant_index_of(&data), Some(1));
}

#[test]
fn default_fields_win_over_first_variant_fallback() {
    let mut schema = zengin_schema();
    schema.fields = vec![text_field("whole", 0, 120)];
    let mut other = vec![b' '; 120];
    other[0] = b'X';
    assert_eq!(schema.fields_for(&other)[0].name, "whole");
}

#[test]
fn all_layouts_lists_each_variant_or_the_default() {
    let schema = zengin_schema();
    let layouts = schema.all_layouts();
    assert_eq!(layouts.len(), 4);
    assert_eq!(layouts[0].0, "[1] ヘッダレコード");
    assert_eq!(layouts[0].1.len(), 2);
    let single = Schema::sample_120();
    let layouts = single.all_layouts();
    assert_eq!(layouts.len(), 1);
    assert_eq!(layouts[0].0, "");
    assert_eq!(layouts[0].1.len(), 12);
}

#[test]
fn sample_schema_is_valid_and_120_bytes() {
    let schema = Schema::sample_120();
    assert_eq!(schema.record_length, 120);
    assert_eq!(schema.stride(), 120);
    assert_eq!(schema.fields.len(), 12);
    assert_eq!(schema.fields[5].name, "account_holder");
    assert_eq!(schema.validate(), Ok(()));
    assert!(!schema.is_multi_variant());
    assert_eq!(schema.field_encoding(&schema.fields[5]), Encoding::ShiftJis);
    assert_eq!(schema.field_encoding(&schema.fields[7]), Encoding::Ascii);
}

#[test]
fn stride_counts_the_separator() {
    let mut schema = Schema::sample_120();
    schema.record_separator = RecordSeparator::CrLf;
    assert_eq!(schema.stride(), 122);
    assert_eq!(RecordSeparator::Lf.len(), 1);
    assert_eq!(RecordSeparator::NoSeparator.len(), 0);
}

#[test]
fn validation_reports_each_problem() {
    let mut s = Schema::sample_120();
    s.record_length = 0;
    assert_eq!(s.validate(), Err(SchemaError::RecordLengthZero));

    let mut s = Schema::sample_120();
    s.fields[3].length = 0;
    assert_eq!(
        s.validate(),
        Err(SchemaError::Field { layout: Layout::Default, error: FieldError::LengthZero { index: 3 } })
    );

    let mut s = Schema::sample_120();
    s.fields[11].length = 16;
    assert_eq!(
        s.validate(),
        Err(SchemaError::Field {
            layout: Layout::Default,
            error: FieldError::OutOfRange { index: 11, offset: 105, length: 16, record_length: 120 },
        })
    );

    let mut s = Schema::sample_120();
    s.fields[2].offset = 4;
    assert_eq!(
        s.validate(),
        Err(SchemaError::Field {
            layout: Layout::Default,
            error: FieldError::Overlap { index: 2, offset: 4, last_end: 5 },
        })
    );

    let mut s = Schema::sample_120();
    s.fields[0].offset = usize::MAX;
    assert_eq!(
        s.validate(),
        Err(SchemaError::Field { layout: Layout::Default, error: FieldError::Overflow { index: 0 } })
    );

    let mut s = zengin_schema();
    s.discriminator = Some(Discriminator { offset: 0, length: 0, encoding: Encoding::Ascii });
    assert_eq!(s.validate(), Err(SchemaError::DiscriminatorLengthZero));

    let mut s = zengin_schema();
    s.discriminator = Some(Discriminator { offset: usize::MAX, length: 1, encoding: Encoding::Ascii });
    assert_eq!(s.validate(), Err(SchemaError::DiscriminatorOverflow));

    let mut s = zengin_schema();
    s.discriminator = Some(Discriminator { offset: 119, length: 2, encoding: Encoding::Ascii });
    assert_eq!(
        s.validate(),
        Err(SchemaError::DiscriminatorOutOfRange { offset: 119, length: 2, record_length: 120 })
    );

    let mut s = zengin_schema();
    s.variants.clear();
    assert_eq!(s.validate(), Err(SchemaError::NoVariants));

    let mut s = zengin_schema();
    s.variants[2].key = " 1 ".to_string();
    assert_eq!(s.validate(), Err(SchemaError::DuplicateVariantKey { index: 2 }));

    let mut s = zengin_schema();
    s.variants[1].fields[1].length = 200;
    assert!(matches!(
        s.validate(),
        Err(SchemaError::Field { layout: Layout::Variant(1), error: FieldError::OutOfRange { .. } })
    ));

    assert_eq!(zengin_schema().validate(), Ok(()));
}

#[test]
fn validate_fields_checks_one_list() {
    let s = Schema::sample_120();
    let fields = vec![text_field("a", 0, 10), text_field("b", 5, 10)];
    assert_eq!(s.validate_fields(&fields), Err(FieldError::Overlap { index: 1, offset: 5, last_end: 10 }));
    let fields = vec![text_field("a", 0, 10), text_field("b", 10, 10)];
    assert_eq!(s.validate_fields(&fields), Ok(()));
}

#[test]
fn defaults_match_serde_defaults() {
    assert_eq!(flr_editor::schema::default_space(), 0x20);
    assert_eq!(flr_editor::schema::default_zero(), 0x30);
    assert_eq!(flr_editor::schema::default_date_fmt(), "YYYYMMDD");
    assert_eq!(flr_editor::schema::default_ascii_enc(), Encoding::Ascii);
}

#[test]
fn variant_lookup_by_decoded_key_trims_both_sides() {
    let mut schema = zengin_schema();
    assert_eq!(schema.variant_with_key("2"), Some(1));
    assert_eq!(schema.variant_with_key(" 9 "), Some(3));
    assert_eq!(schema.variant_with_key("X"), None);
    schema.variants[2].key = " 2".to_string();
    // The first variant with the key wins.
    assert_eq!(schema.variant_with_key("2"), Some(1));
}

#[test]
fn variant_fields_are_checked_without_a_discriminator() {
    let s = Schema {
        name: "v".into(),
        record_length: 10,
        default_encoding: Encoding::Ascii,
        record_separator: RecordSeparator::NoSeparator,
        fields: vec![],
        discriminator: None,
        variants: vec![variant("1", "", vec![text_field("f", 8, 5)])],
    };
    assert_eq!(
        s.validate(),
        Err(SchemaError::Field {
            layout: Layout::Variant(0),
            error: FieldError::OutOfRange { index: 0, offset: 8, length: 5, record_length: 10 },
        })
    );
}
