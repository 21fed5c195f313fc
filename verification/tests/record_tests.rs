use flr_editor::app_state::{FlrApp, ViewMode};
use flr_editor::field_codec::FieldValueError;
use flr_editor::record::{DataSource, RecordBuffer, RecordError};
use flr_editor::schema::{RecordSeparator, Schema};
use std::path::PathBuf;

#[test]
fn new_empty_holds_blank_records() {
    let mut schema = Schema::sample_120();
    schema.record_separator = RecordSeparator::CrLf;
    let buf = RecordBuffer::new_empty(&schema, 3);
    assert_eq!(buf.data.len(), 366);
    assert_eq!(buf.record_count(&schema), 3);
    assert_eq!(&buf.data.as_slice()[120..122], b"\r\n");
    assert!(buf.data.as_slice()[..120].iter().all(|&b| b == b' '));
    assert!(!buf.data.is_mmap());
    assert!(!buf.modified);
}

#[test]
fn append_then_delete_changes_the_count_by_one() {
    let schema = Schema::sample_120();
    let mut buf = RecordBuffer::new_empty(&schema, 2);
    let idx = buf.append_record(&schema);
    assert_eq!(idx, 2);
    assert_eq!(buf.record_count(&schema), 3);
    let rec = buf.record_slice(&schema, 2).unwrap();
    // Numeric fields are filled with their pad byte '0', text with spaces.
    assert_eq!(rec[0], b' ');
    assert_eq!(&rec[1..5], b"0000");
    assert_eq!(&rec[54..64], b"0000000000");
    assert!(buf.modified);
    buf.current_record = 2;
    assert_eq!(buf.delete_record(&schema, 2), Ok(()));
    assert_eq!(buf.record_count(&schema), 2);
    assert_eq!(buf.current_record, 1);
    assert_eq!(buf.delete_record(&schema, 5), Err(RecordError::RecordOutOfRange));
}

#[test]
fn field_write_reads_back() {
    let schema = Schema::sample_120();
    let mut buf = RecordBuffer::new_empty(&schema, 2);
    let amount = schema.fields[7].clone();
    let bank = schema.fields[1].clone();
    assert_eq!(buf.set_field_text(&schema, 1, &amount, "1234"), Ok(()));
    assert_eq!(buf.field_bytes(&schema, 1, &amount).unwrap(), b"0000001234");
    // The neighbouring field is untouched.
    assert_eq!(buf.field_bytes(&schema, 1, &bank).unwrap(), b"    ");
    assert_eq!(
        buf.set_field_text(&schema, 1, &amount, "12345678901"),
        Err(RecordError::Field(FieldValueError::TooLong))
    );
    assert_eq!(buf.set_field_text(&schema, 5, &amount, "1"), Err(RecordError::RecordOutOfRange));
    assert!(buf.field_bytes(&schema, 5, &amount).is_none());
}

#[test]
fn set_byte_marks_only_real_changes() {
    let schema = Schema::sample_120();
    let mut buf = RecordBuffer::new_empty(&schema, 1);
    assert_eq!(buf.set_byte(3, b' '), Ok(()));
    assert!(!buf.modified);
    assert_eq!(buf.set_byte(3, b'Z'), Ok(()));
    assert!(buf.modified);
    assert_eq!(buf.data.as_slice()[3], b'Z');
    assert_eq!(buf.set_byte(120, b'Z'), Err(RecordError::ByteOutOfRange { offset: 120 }));
}

#[test]
fn file_size_must_be_whole_records() {
    let schema = Schema::sample_120();
    assert_eq!(RecordBuffer::check_file_len(240, &schema), Ok(()));
    assert_eq!(
        RecordBuffer::check_file_len(250, &schema),
        Err(RecordError::SizeNotMultiple { size: 250, record_length: 120, stride: 120, remainder: 10 })
    );
    let mut zero = Schema::sample_120();
    zero.record_length = 0;
    assert_eq!(RecordBuffer::check_file_len(0, &zero), Err(RecordError::ZeroStride));
}

#[test]
fn loaded_bytes_stay_read_only_until_edited() {
    let schema = Schema::sample_120();
    let mut buf = RecordBuffer::from_file_bytes(vec![b'A'; 120], PathBuf::from("a.dat"));
    assert!(buf.data.is_mmap());
    assert_eq!(buf.path, Some(PathBuf::from("a.dat")));
    assert_eq!(buf.prepare_save(&schema, false), Ok(()));
    assert!(buf.data.is_mmap());
    assert_eq!(buf.prepare_save(&schema, true), Ok(()));
    assert!(matches!(buf.data, DataSource::Owned(_)));
    buf.finish_save(PathBuf::from("b.dat"));
    assert_eq!(buf.path, Some(PathBuf::from("b.dat")));
    let empty = RecordBuffer::from_file_bytes(Vec::new(), PathBuf::from("e.dat"));
    assert!(!empty.data.is_mmap());
    let mut odd = RecordBuffer::from_file_bytes(vec![0; 7], PathBuf::from("o.dat"));
    assert!(matches!(odd.prepare_save(&schema, true), Err(RecordError::SizeNotMultiple { .. })));
}

#[test]
fn app_starts_with_the_sample_schema_and_one_record() {
    let app = FlrApp::new();
    assert_eq!(app.schema.name, "sample_120byte_remittance");
    assert_eq!(app.buffer.record_count(&app.schema), 1);
    assert!(app.view_mode == ViewMode::Detail);
    assert!(app.table_panel_open);
    assert_eq!(app.status, "準備完了。120バイト・サンプルスキーマを読み込みました。");
}

#[test]
fn app_record_menu_and_schema_switch() {
    let mut app = FlrApp::new();
    app.filter.active = true;
    assert_eq!(app.add_record(), 1);
    assert_eq!(app.buffer.current_record, 1);
    assert!(!app.filter.active);
    assert_eq!(app.delete_current_record(), Ok(1));
    assert_eq!(app.buffer.record_count(&app.schema), 1);
    let mut other = Schema::sample_120();
    other.record_length = 80;
    other.fields.truncate(5);
    assert!(app.use_schema(other));
    assert_eq!(app.buffer.data.len(), 80);
    assert!(!app.use_schema(app.schema.clone()));
    let count = app.open_buffer(RecordBuffer::from_file_bytes(vec![b' '; 160], PathBuf::from("x")));
    assert_eq!(count, 2);
}
