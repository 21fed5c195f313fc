//! The field table of the current record: kind names and committing an
//! edited value.

use vstd::prelude::*;
use crate::field_codec::{FieldValueError, build_field_bytes, build_outcome};
use crate::record::{RecordBuffer, RecordError, splice};
use crate::schema::{Field, FieldKind, Schema};
use crate::value_check::{ValueError, spec_validate_value, validate_value, value_check_defined};
use crate::ui::schema_editor::kind_tag_text;

verus! {

/// The short name of a field kind shown in the table.
pub fn kind_label(kind: &FieldKind) -> (r: &'static str)
    ensures
        r@ == kind_tag_text(*kind),
{
    match kind {
        FieldKind::Text { .. } => "text",
        FieldKind::Numeric { .. } => "numeric",
        FieldKind::Decimal { .. } => "decimal",
        FieldKind::Date { .. } => "date",
        FieldKind::Bytes => "bytes",
        FieldKind::Filler { .. } => "filler",
    }
}

/// Why an edited value was not written.
#[derive(Clone, Copy, Debug, PartialEq, Eq, Structural)]
pub enum EditError {
    /// The value is not valid for the field's kind.
    Invalid(ValueError),
    /// The value cannot be encoded into the field.
    Encode(FieldValueError),
    /// Writing the field failed.
    Write(RecordError),
}

/// The inputs on which committing `draft` to `field` of record `idx` completes.
pub open spec fn commit_defined(schema: Schema, idx: int, field: Field, draft: Seq<char>) -> bool {
    &&& RecordBuffer::record_index_fits(schema, idx)
    &&& field.offset + field.length <= schema.record_length
    &&& value_check_defined(field.kind, draft)
    &&& build_outcome(field, schema.spec_field_encoding(field), draft) is Some
}

/// The buffer after `draft` has been written to `field` of record `idx`
/// (its bytes `b` spliced in at the field's place).
pub open spec fn written(old: RecordBuffer, new: RecordBuffer, schema: Schema, idx: int, field: Field, b: Seq<u8>) -> bool {
    &&& new.bytes() == splice(old.bytes(), idx * schema.spec_stride() + field.offset, b)
    &&& new.data is Owned
    &&& new.modified
    &&& new.path == old.path
    &&& new.current_record == old.current_record
    &&& new.cursor_in_record == old.cursor_in_record
}

/// Commit an edited value from the field table: check it against the
/// field's kind, check it can be encoded, then write it.
pub fn commit_table_edit(
    buffer: &mut RecordBuffer,
    schema: &Schema,
    record_idx: usize,
    field: &Field,
    draft: &str,
) -> (r: Result<(), EditError>)
    requires
        commit_defined(*schema, record_idx as int, *field, draft@),
    ensures
        match spec_validate_value(*field, draft@) {
            Err(e) => r == Err::<(), EditError>(EditError::Invalid(e)) && *final(buffer) == *old(buffer),
            Ok(()) => match build_outcome(*field, schema.spec_field_encoding(*field), draft@)->0 {
                Err(e) => r == Err::<(), EditError>(EditError::Encode(e)) && *final(buffer) == *old(
                    buffer,
                ),
                Ok(b) => match old(buffer).spec_record(*schema, record_idx as int) {
                    None => r == Err::<(), EditError>(EditError::Write(RecordError::RecordOutOfRange))
                        && final(buffer).bytes() == old(buffer).bytes(),
                    Some(_) => r is Ok && written(*old(buffer), *final(buffer), *schema, record_idx as int, *field, b),
                },
            },
        },
{
    match validate_value(field, draft) {
        Err(e) => return Err(EditError::Invalid(e)),
        Ok(()) => {},
    }
    let enc = schema.field_encoding(field);
    match build_field_bytes(field, enc, draft) {
        Err(e) => return Err(EditError::Encode(e)),
        Ok(_) => {},
    }
    match buffer.set_field_text(schema, record_idx, field, draft) {
        Ok(()) => Ok(()),
        Err(e) => Err(EditError::Write(e)),
    }
}

} // verus!
