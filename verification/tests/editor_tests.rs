use flr_editor::app_state::TableEditState;
use flr_editor::encoding::Encoding;
use flr_editor::record::{RecordBuffer, RecordError};
use flr_editor::schema::{Discriminator, Field, FieldKind, Layout, RecordSeparator, Schema, SchemaError, ValueError, Variant};
use flr_editor::ui::hex_view::{ascii_byte_of, ascii_row, field_index_at, parse_byte_radix, row_count};
use flr_editor::ui::schema_editor::{
    add_field, auto_align, default_kind_for, kind_label_jp, kind_tag, layout_fields_mut, move_field_down,
    move_field_up, parse_byte, SchemaEditorState,
};
use flr_editor::ui::spreadsheet_view::{
    commit_cell_edit, displayed_rows, refresh_variant_cache, row_of_record, visible_fields, EditCell,
    SpreadsheetState, VariantIndexCache,
};
use flr_editor::ui::table_view::{commit_table_edit, kind_label, EditError};

fn text_field(name: &str, offset: usize, length: usize) -> Field {
    Field {
        name: name.to_string(),
        offset,
        length,
        kind: FieldKind::Text { pad: 0x20 },
        encoding: None,
        description: String::new(),
    }
}

fn two_variant_schema() -> Schema {
    Schema {
        name: "two".into(),
        record_length: 10,
        default_encoding: Encoding::Ascii,
        record_separator: RecordSeparator::Lf,
        fields: Vec::new(),
        discriminator: Some(Discriminator { offset: 0, length: 1, encoding: Encoding::Ascii }),
        variants: vec![
            Variant { key: "H".into(), name: "head".into(), description: String::new(), fields: vec![text_field("kind", 0, 1), text_field("title", 1, 9)] },
            Variant { key: "D".into(), name: "data".into(), description: String::new(), fields: vec![text_field("kind", 0, 1), text_field("value", 1, 4)] },
        ],
    }
}

fn records(schema: &Schema, first: &[u8]) -> RecordBuffer {
    let mut bytes = Vec::new();
    for &b in first {
        let mut rec = vec![b' '; schema.record_length];
        rec[0] = b;
        bytes.extend_from_slice(&rec);
        bytes.push(b'\n');
    }
    RecordBuffer::from_file_bytes(bytes, std::path::PathBuf::from("t.dat"))
}

#[test]
fn kind_names() {
    assert_eq!(kind_tag(&FieldKind::Decimal { pad: b'0', scale: 2, signed: false }), "decimal");
    assert_eq!(kind_label(&FieldKind::Bytes), "bytes");
    assert_eq!(kind_label_jp("numeric"), "整数 (numeric)");
    assert_eq!(kind_label_jp("filler"), "予備領域 (filler)");
    assert_eq!(kind_label_jp("zzz"), "(不明)");
    assert!(matches!(default_kind_for("numeric"), FieldKind::Numeric { pad: 0x30, signed: false }));
    assert!(matches!(default_kind_for("date"), FieldKind::Date { ref format } if format == "YYYYMMDD"));
    assert!(matches!(default_kind_for("bytes"), FieldKind::Bytes));
    assert!(matches!(default_kind_for("other"), FieldKind::Text { pad: 0x20 }));
}

#[test]
fn pad_byte_entry() {
    assert_eq!(parse_byte("0x20"), Some(0x20));
    assert_eq!(parse_byte("#FF"), Some(255));
    assert_eq!(parse_byte(" 48 "), Some(48));
    assert_eq!(parse_byte("256"), None);
    assert_eq!(parse_byte("0x100"), None);
}

#[test]
fn adding_and_aligning_fields() {
    let mut fields = vec![text_field("a", 0, 3)];
    add_field(&mut fields);
    assert_eq!(fields.len(), 2);
    assert_eq!(fields[1].name, "field_2");
    assert_eq!(fields[1].offset, 3);
    assert_eq!(fields[1].length, 1);
    fields[0].offset = 7;
    fields[1].length = 4;
    let end = auto_align(&mut fields);
    assert_eq!(end, 7);
    assert_eq!((fields[0].offset, fields[1].offset), (0, 3));
    move_field_up(&mut fields, 1);
    assert_eq!(fields[0].name, "field_2");
    move_field_down(&mut fields, 0);
    assert_eq!(fields[0].name, "a");
    move_field_down(&mut fields, 1);
    assert_eq!(fields[1].name, "field_2");
}

#[test]
fn editor_targets_and_variants() {
    let mut schema = Schema::sample_120();
    let mut st = SchemaEditorState::default();
    assert_eq!(st.edit_target(&schema), Some(Layout::Default));
    assert!(st.add_field_to_target(&mut schema));
    assert_eq!(schema.fields.len(), 13);
    assert_eq!(schema.fields[12].offset, 120);
    assert_eq!(st.check_schema(&schema), Err(SchemaError::Field { layout: Layout::Default, error: flr_editor::schema::FieldError::OutOfRange { index: 12, offset: 120, length: 1, record_length: 120 } }));
    assert!(st.validation_error.is_some());
    assert_eq!(st.auto_align_target(&mut schema), Some(121));
    assert_eq!(schema.record_length, 121);
    assert_eq!(st.check_schema(&schema), Ok(()));
    assert!(st.validation_error.is_none());

    st.set_multi_variant(&mut schema, true);
    assert!(schema.discriminator.is_some());
    assert_eq!(schema.variants.len(), 1);
    assert_eq!(schema.variants[0].key, "1");
    assert_eq!(schema.variants[0].name, "バリアント1");
    assert_eq!(st.active_variant, Some(0));
    assert_eq!(st.edit_target(&schema), Some(Layout::Variant(0)));
    st.add_variant(&mut schema);
    assert_eq!(schema.variants[1].key, "2");
    assert_eq!(schema.variants[1].name, "バリアント2");
    assert_eq!(st.active_variant, Some(1));
    assert!(st.add_field_to_target(&mut schema));
    assert_eq!(schema.variants[1].fields[0].name, "field_1");
    st.remove_variant(&mut schema, 1);
    assert_eq!(st.active_variant, Some(0));
    st.select_variant(7);
    st.sync_active_variant(&schema);
    assert_eq!(st.active_variant, Some(0));
    st.set_multi_variant(&mut schema, false);
    assert!(schema.discriminator.is_none());
    assert_eq!(st.active_variant, None);
    st.delete_field(&mut schema, Layout::Default, 12);
    assert_eq!(schema.fields.len(), 12);
    assert!(st.selected_field.is_none());
    let fields = layout_fields_mut(&mut schema, Layout::Variant(0));
    fields.push(text_field("x", 0, 1));
    assert_eq!(schema.variants[0].fields.len(), 1);
}

#[test]
fn hex_dump_helpers() {
    assert_eq!(row_count(120), 8);
    assert_eq!(row_count(16), 1);
    assert_eq!(row_count(0), 0);
    assert_eq!(ascii_row(&[0x41, 0x1F, 0x7E, 0x7F, 0xA0]), "A·~··");
    let fields = vec![text_field("a", 0, 4), text_field("b", 4, 4)];
    assert_eq!(field_index_at(&fields, 5), Some(1));
    assert_eq!(field_index_at(&fields, 8), None);
    assert_eq!(parse_byte_radix(" ff ", 16), Some(255));
    assert_eq!(parse_byte_radix("300", 10), None);
    assert_eq!(ascii_byte_of("A"), Some(b'A'));
    assert_eq!(ascii_byte_of("あ"), None);
    assert_eq!(ascii_byte_of(""), None);
}

#[test]
fn variant_cache_partitions_records() {
    let schema = two_variant_schema();
    let buf = records(&schema, b"HDDXD");
    let mut cache = VariantIndexCache::default();
    refresh_variant_cache(&mut cache, &schema, &buf);
    assert_eq!(cache.by_key.len(), 2);
    assert_eq!(cache.records_for_key(&"H".to_string()), Some(&vec![0]));
    assert_eq!(cache.records_for_key(&"D".to_string()), Some(&vec![1, 2, 4]));
    assert_eq!(cache.unmatched, vec![3]);
    assert_eq!(cache.records_for_key(&"Q".to_string()), None);
    assert_eq!(cache.signature, (55, 10, "two".to_string(), 2));
}

#[test]
fn spreadsheet_tabs_and_rows() {
    let schema = two_variant_schema();
    let buf = records(&schema, b"HDDXD");
    let mut st = SpreadsheetState::default();
    st.sync_variants(&schema, &buf);
    assert_eq!(st.active_variant, Some("H".to_string()));
    st.active_variant = Some("D".to_string());
    st.sync_variants(&schema, &buf);
    assert_eq!(st.active_variant, Some("D".to_string()));
    assert_eq!(visible_fields(&schema, &st.active_variant)[1].name, "value");
    assert!(visible_fields(&schema, &Some("Q".to_string())).is_empty());
    let d = st.variant_cache.records_for_key(&"D".to_string());
    assert_eq!(displayed_rows(d, true, &[0, 2, 3], 5), vec![2]);
    assert_eq!(displayed_rows(d, false, &[], 5), vec![1, 2, 4]);
    assert_eq!(displayed_rows(None, true, &[0, 3], 5), vec![0, 3]);
    assert_eq!(displayed_rows(None, false, &[], 3), vec![0, 1, 2]);
    assert_eq!(row_of_record(&[1, 2, 4], 4), Some(2));
    assert_eq!(row_of_record(&[1, 2, 4], 3), None);
    let single = Schema::sample_120();
    st.sync_variants(&single, &buf);
    assert_eq!(st.active_variant, None);
}

#[test]
fn committing_edits() {
    let schema = Schema::sample_120();
    let mut buf = RecordBuffer::new_empty(&schema, 1);
    let amount = schema.fields[7].clone();
    assert_eq!(commit_table_edit(&mut buf, &schema, 0, &amount, "77"), Ok(()));
    assert_eq!(buf.field_bytes(&schema, 0, &amount).unwrap(), b"0000000077");
    assert_eq!(
        commit_table_edit(&mut buf, &schema, 0, &amount, "7.5"),
        Err(EditError::Invalid(ValueError::TooManyFractionDigits { scale: 0 }))
    );
    let num = schema.fields[1].clone();
    assert_eq!(commit_table_edit(&mut buf, &schema, 0, &num, "12345"), Err(EditError::Invalid(ValueError::TooLong { length: 4 })));
    assert_eq!(commit_cell_edit(&mut buf, &schema, 0, &num, "x"), Err(EditError::Invalid(ValueError::NotDigits)));
    assert_eq!(commit_cell_edit(&mut buf, &schema, 3, &num, "12"), Err(EditError::Write(RecordError::RecordOutOfRange)));
    let holder = schema.fields[5].clone();
    assert_eq!(
        commit_cell_edit(&mut buf, &schema, 0, &holder, "😀"),
        Err(EditError::Write(RecordError::Field(flr_editor::field_codec::FieldValueError::CannotEncode)))
    );
    assert_eq!(
        commit_table_edit(&mut buf, &schema, 0, &holder, "😀"),
        Err(EditError::Encode(flr_editor::field_codec::FieldValueError::CannotEncode))
    );
    let cell = EditCell::start(0, 5, "abc".to_string());
    assert!(cell.needs_focus && cell.error.is_none());
    let t = TableEditState::start(2, "x".to_string());
    assert_eq!((t.field_idx, t.draft.as_str()), (2, "x"));
}
