# flr_editor

An editor for fixed-length record files (bank transfer formats and the
like): records of one fixed length, fields laid out by a schema, text in
Shift_JIS, UTF-8 or ASCII, and record layouts chosen per record by a
discriminator.

The library under `src/` is written in Verus and verified: every public
function states in its contract what it returns or changes, and the laws
that tie the functions together are proof functions next to them.

- `encoding`, `text`, `number`: decoding and encoding text, small string
  and number helpers.
- `schema`, `schema_check`, `schema_sample`, `value_check`: layouts,
  variant dispatch, schema validation, value checks.
- `field_codec`: field bytes to display text and back.
- `record`: the record buffer and its edits.
- `parallel`: the data-parallel map the scans run on.
- `ui/*`: the decisions behind each panel (search and replace, filtering,
  the spreadsheet's rows, the schema editor, the hex dump, the field table).
- `app_state`: the editor's top-level state and its menu actions.

`app/` is the desktop program around the library (window, menus, reading
and writing files, the schema file format); `tests/` exercises the library.
