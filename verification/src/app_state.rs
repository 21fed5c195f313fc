//! Top-level view state shared by the panels of the editor.

use vstd::prelude::*;
use crate::record::{RecordBuffer, RecordError, blank_record, count_records, default_fields_in_record, empty_record, repeat};
use crate::schema::{Schema, sep_bytes};
use crate::encoding::Encoding;
use crate::schema_sample::{is_sample_120, sample_120_described};
use crate::ui::filter::FilterState;
use crate::ui::schema_editor::SchemaEditorState;
use crate::ui::search_bar::{SearchMode, SearchState};
use crate::ui::spreadsheet_view::SpreadsheetState;
use crate::ui::table_view::EditError;

verus! {

/// Which large view occupies the central panel.
#[derive(Clone, Copy, Debug, PartialEq, Eq, Structural)]
pub enum ViewMode {
    /// Hex dump + ASCII view of the currently selected record.
    Detail,
    /// All records as rows, all fields as columns.
    Spreadsheet,
}

/// Inline editing state of the field table.
pub struct TableEditState {
    pub field_idx: usize,
    pub draft: String,
    pub error: Option<EditError>,
}

impl TableEditState {
    /// Start editing field `field_idx` from its displayed value.
    pub fn start(field_idx: usize, display: String) -> (r: Self)
        ensures
            r.field_idx == field_idx,
            r.draft == display,
            r.error is None,
    {
        TableEditState { field_idx, draft: display, error: None }
    }
}


/// Top-level application state.
pub struct FlrApp {
    pub schema: Schema,
    pub buffer: RecordBuffer,
    /// Pending status message shown briefly in the status bar.
    pub status: String,
    /// State for the schema editor side panel.
    pub schema_editor_open: bool,
    pub schema_editor: SchemaEditorState,
    /// State for the search bar.
    pub search: SearchState,
    /// Field index currently highlighted (clicked in either pane).
    pub highlighted_field: Option<usize>,
    /// Inline editing state for the table view.
    pub table_edit: Option<TableEditState>,
    /// Which large view the central panel shows.
    pub view_mode: ViewMode,
    /// State for the spreadsheet view (edit cell, last scrolled row).
    pub spreadsheet: SpreadsheetState,
    /// Active filter (multi-condition AND'd) applied to the spreadsheet.
    pub filter: FilterState,
    /// Whether the bottom field-breakdown panel is shown.
    pub table_panel_open: bool,
}

impl FlrApp {
    /// Start with the built-in 120-byte sample schema and one blank record.
    pub fn new() -> (r: Self)
        ensures
            is_sample_120(r.schema),
            sample_120_described(r.schema),
            r.buffer.bytes() == repeat(empty_record(r.schema), 1),
            r.buffer.path is None,
            r.buffer.current_record == 0,
            r.buffer.cursor_in_record == 0,
            !r.buffer.modified,
            r.status@ == "準備完了。120バイト・サンプルスキーマを読み込みました。"@,
            !r.schema_editor_open,
            r.schema_editor.selected_field is None,
            r.schema_editor.validation_error is None,
            r.schema_editor.active_variant is None,
            r.search.query@.len() == 0,
            r.search.replace@.len() == 0,
            r.search.mode == SearchMode::Text,
            r.search.encoding == Encoding::ShiftJis,
            r.search.field_idx is None,
            !r.search.case_insensitive,
            r.search.last_match_abs is None,
            r.search.jump_to@.len() == 0,
            r.spreadsheet.edit is None,
            r.spreadsheet.last_scrolled_to is None,
            r.spreadsheet.active_variant is None,
            r.spreadsheet.variant_cache.by_key@.len() == 0,
            r.spreadsheet.variant_cache.unmatched@.len() == 0,
            r.highlighted_field is None,
            r.table_edit is None,
            r.view_mode == ViewMode::Detail,
            !r.filter.active,
            r.filter.conditions@.len() == 0,
            r.filter.matched@.len() == 0,
            r.filter.last_eval_ms == 0,
            r.table_panel_open,
    {
        let schema = Schema::sample_120();
        let buffer = RecordBuffer::new_empty(&schema, 1);
        FlrApp {
            schema,
            buffer,
            status: String::from_str("準備完了。120バイト・サンプルスキーマを読み込みました。"),
            schema_editor_open: false,
            schema_editor: SchemaEditorState::default(),
            search: SearchState::default(),
            highlighted_field: None,
            table_edit: None,
            view_mode: ViewMode::Detail,
            spreadsheet: SpreadsheetState::default(),
            filter: FilterState::default(),
            table_panel_open: true,
        }
    }

    /// Show a newly opened data file: it replaces the buffer and the filter
    /// is cleared. Returns its record count.
    pub fn open_buffer(&mut self, buffer: RecordBuffer) -> (r: usize)
        requires
            old(self).schema.stride_fits(),
        ensures
            final(self).buffer == buffer,
            r == buffer.spec_record_count(old(self).schema),
            final(self).schema == old(self).schema,
            final(self).filter.conditions@.len() == 0,
            final(self).filter.matched@.len() == 0,
            !final(self).filter.active,
    {
        let count = buffer.record_count(&self.schema);
        self.buffer = buffer;
        self.filter.clear();
        count
    }

    /// Switch to another schema. The filter's result is dropped; when the
    /// record stride changes the data can no longer be read with it, so the
    /// buffer is reset to one blank record. Returns whether it was reset.
    pub fn use_schema(&mut self, schema: Schema) -> (r: bool)
        requires
            old(self).schema.stride_fits(),
            schema.stride_fits(),
        ensures
            r == (schema.spec_stride() != old(self).schema.spec_stride()),
            final(self).schema == schema,
            r ==> final(self).buffer.bytes() == repeat(empty_record(schema), 1),
            r ==> final(self).buffer.current_record == 0,
            r ==> final(self).buffer.path is None,
            !r ==> final(self).buffer == old(self).buffer,
            final(self).filter.conditions == old(self).filter.conditions,
            final(self).filter.matched@.len() == 0,
            !final(self).filter.active,
    {
        let stride_changed = schema.stride() != self.schema.stride();
        self.schema = schema;
        self.filter.invalidate();
        if stride_changed {
            self.buffer = RecordBuffer::new_empty(&self.schema, 1);
        }
        stride_changed
    }

    /// Append a blank record, select it and drop the filter's result.
    /// Returns its index.
    pub fn add_record(&mut self) -> (r: usize)
        requires
            old(self).schema.stride_fits(),
            default_fields_in_record(old(self).schema),
        ensures
            r == old(self).buffer.spec_record_count(old(self).schema),
            final(self).buffer.bytes() == old(self).buffer.bytes() + blank_record(old(self).schema)
                + sep_bytes(old(self).schema.record_separator),
            final(self).buffer.current_record == r,
            final(self).buffer.modified,
            final(self).schema == old(self).schema,
            final(self).filter.matched@.len() == 0,
            !final(self).filter.active,
    {
        let idx = self.buffer.append_record(&self.schema);
        self.buffer.current_record = idx;
        self.filter.invalidate();
        idx
    }

    /// Delete the current record and drop the filter's result. Returns the
    /// deleted index.
    pub fn delete_current_record(&mut self) -> (r: Result<usize, RecordError>)
        requires
            old(self).schema.stride_fits(),
            old(self).buffer.current_record * old(self).schema.spec_stride()
                + old(self).schema.spec_stride() <= usize::MAX,
        ensures
            final(self).schema == old(self).schema,
            ({
                let idx = old(self).buffer.current_record as int;
                let stride = old(self).schema.spec_stride();
                let start = idx * stride;
                let end = start + stride;
                if end > old(self).buffer.bytes().len() {
                    &&& r == Err::<usize, RecordError>(RecordError::RecordOutOfRange)
                    &&& final(self).buffer.bytes() == old(self).buffer.bytes()
                    &&& final(self).filter == old(self).filter
                } else {
                    let count = count_records(old(self).buffer.bytes().len() - stride, stride);
                    &&& r == Ok::<usize, RecordError>(idx as usize)
                    &&& final(self).buffer.bytes() == old(self).buffer.bytes().take(start)
                        + old(self).buffer.bytes().skip(end)
                    &&& final(self).buffer.current_record == (if idx >= count && idx > 0 {
                        (idx - 1) as usize
                    } else {
                        idx as usize
                    })
                    &&& final(self).filter.matched@.len() == 0
                    &&& !final(self).filter.active
                }
            }),
    {
        let idx = self.buffer.current_record;
        match self.buffer.delete_record(&self.schema, idx) {
            Err(e) => Err(e),
            Ok(()) => {
                self.filter.invalidate();
                Ok(idx)
            },
        }
    }
}

} // verus!
