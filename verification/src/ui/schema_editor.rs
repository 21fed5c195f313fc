//! Editing a schema: which field list is being edited, adding, removing,
//! reordering and aligning fields, switching to and from multi-variant
//! layouts and keeping the selected variant valid.

use vstd::prelude::*;
use crate::encoding::Encoding;
use crate::number::{decimal_digits, decimal_string, parse_prefixed, parse_prefixed_number};
use crate::schema::{Discriminator, Field, FieldKind, Schema, Variant, default_date_fmt};
use crate::schema_check::{Layout, SchemaError, fields_fit, spec_validate};
use crate::text::{chars_equal, chars_of, push_all};

verus! {

pub struct SchemaEditorState {
    pub selected_field: Option<usize>,
    /// The outcome of the last validation, when it failed.
    pub validation_error: Option<SchemaError>,
    /// Active variant index (only meaningful when the schema is multi-variant).
    pub active_variant: Option<usize>,
}

impl Default for SchemaEditorState {
    fn default() -> (r: Self)
        ensures
            r.selected_field is None,
            r.validation_error is None,
            r.active_variant is None,
    {
        SchemaEditorState { selected_field: None, validation_error: None, active_variant: None }
    }
}

/// The short name of a field kind.
pub open spec fn kind_tag_text(k: FieldKind) -> Seq<char> {
    match k {
        FieldKind::Text { .. } => "text"@,
        FieldKind::Numeric { .. } => "numeric"@,
        FieldKind::Decimal { .. } => "decimal"@,
        FieldKind::Date { .. } => "date"@,
        FieldKind::Bytes => "bytes"@,
        FieldKind::Filler { .. } => "filler"@,
    }
}

/// The short name of a field kind, as schemas spell it.
pub fn kind_tag(k: &FieldKind) -> (r: &'static str)
    ensures
        r@ == kind_tag_text(*k),
{
    match k {
        FieldKind::Text { .. } => "text",
        FieldKind::Numeric { .. } => "numeric",
        FieldKind::Decimal { .. } => "decimal",
        FieldKind::Date { .. } => "date",
        FieldKind::Bytes => "bytes",
        FieldKind::Filler { .. } => "filler",
    }
}

/// The label shown for a kind's short name.
pub open spec fn kind_label_text(tag: Seq<char>) -> Seq<char> {
    if tag == "text"@ {
        "テキスト"@
    } else if tag == "numeric"@ {
        "整数 (numeric)"@
    } else if tag == "decimal"@ {
        "固定小数 (decimal)"@
    } else if tag == "date"@ {
        "日付"@
    } else if tag == "bytes"@ {
        "バイト列"@
    } else if tag == "filler"@ {
        "予備領域 (filler)"@
    } else {
        "(不明)"@
    }
}

/// `tag` is the short name `name`.
fn tag_is(tag: &[char], name: &str) -> (r: bool)
    ensures
        r == (tag@ == name@),
{
    let n = chars_of(name);
    chars_equal(tag, n.as_slice())
}

/// The label shown for a kind's short name.
pub fn kind_label_jp(tag: &str) -> (r: &'static str)
    ensures
        r@ == kind_label_text(tag@),
{
    let t = chars_of(tag);
    let t = t.as_slice();
    if tag_is(t, "text") {
        "テキスト"
    } else if tag_is(t, "numeric") {
        "整数 (numeric)"
    } else if tag_is(t, "decimal") {
        "固定小数 (decimal)"
    } else if tag_is(t, "date") {
        "日付"
    } else if tag_is(t, "bytes") {
        "バイト列"
    } else if tag_is(t, "filler") {
        "予備領域 (filler)"
    } else {
        "(不明)"
    }
}

/// A fresh kind of the named sort, with its default parameters (a text
/// kind for an unknown name).
pub fn default_kind_for(tag: &str) -> (r: FieldKind)
    ensures
        tag@ == "numeric"@ ==> r == (FieldKind::Numeric { pad: 0x30, signed: false }),
        tag@ == "decimal"@ ==> r == (FieldKind::Decimal { pad: 0x30, scale: 0, signed: false }),
        tag@ == "date"@ ==> (r matches FieldKind::Date { format } && format@ == "YYYYMMDD"@),
        tag@ == "bytes"@ ==> r == FieldKind::Bytes,
        tag@ == "filler"@ ==> r == (FieldKind::Filler { pad: 0x20 }),
        tag@ != "numeric"@ && tag@ != "decimal"@ && tag@ != "date"@ && tag@ != "bytes"@ && tag@
            != "filler"@ ==> r == (FieldKind::Text { pad: 0x20 }),
{
    proof {
        reveal_strlit("text");
        reveal_strlit("numeric");
        reveal_strlit("decimal");
        reveal_strlit("date");
        reveal_strlit("bytes");
        reveal_strlit("filler");
        assert("text"@.len() == 4 && "date"@.len() == 4);
        assert("numeric"@.len() == 7 && "decimal"@.len() == 7);
        assert("text"@[0] != "date"@[0]);
        assert("numeric"@[0] != "decimal"@[0]);
        assert("bytes"@.len() == 5 && "filler"@.len() == 6);
    }
    let t = chars_of(tag);
    let t = t.as_slice();
    if tag_is(t, "text") {
        FieldKind::Text { pad: 0x20 }
    } else if tag_is(t, "numeric") {
        FieldKind::Numeric { pad: 0x30, signed: false }
    } else if tag_is(t, "decimal") {
        FieldKind::Decimal { pad: 0x30, scale: 0, signed: false }
    } else if tag_is(t, "date") {
        FieldKind::Date { format: default_date_fmt() }
    } else if tag_is(t, "bytes") {
        FieldKind::Bytes
    } else if tag_is(t, "filler") {
        FieldKind::Filler { pad: 0x20 }
    } else {
        FieldKind::Text { pad: 0x20 }
    }
}

/// A pad byte typed by the user: hex after `0x`, `0X` or `#`, else decimal.
pub fn parse_byte(s: &str) -> (r: Option<u8>)
    ensures
        match parse_prefixed(s@, 255) {
            Some(v) => r == Some(v as u8),
            None => r is None,
        },
{
    match parse_prefixed_number(s, 255) {
        Some(v) => Some(v as u8),
        None => None,
    }
}


/// The fields of layout `t` of `s`.
pub open spec fn layout_fields(s: Schema, t: Layout) -> Seq<Field> {
    match t {
        Layout::Default => s.fields@,
        Layout::Variant(i) => s.variants@[i as int].fields@,
    }
}

/// `t` names a field list of `s`.
pub open spec fn layout_exists(s: Schema, t: Layout) -> bool {
    match t {
        Layout::Default => true,
        Layout::Variant(i) => i < s.variants@.len(),
    }
}

/// `new` is `old` with the fields of layout `t` replaced by `fields`.
pub open spec fn with_fields(old: Schema, new: Schema, t: Layout, fields: Seq<Field>) -> bool {
    &&& new.name == old.name
    &&& new.record_length == old.record_length
    &&& new.default_encoding == old.default_encoding
    &&& new.record_separator == old.record_separator
    &&& new.discriminator == old.discriminator
    &&& match t {
        Layout::Default => new.fields@ == fields && new.variants@ == old.variants@,
        Layout::Variant(i) => {
            &&& new.fields@ == old.fields@
            &&& new.variants@.len() == old.variants@.len()
            &&& forall|j: int|
                0 <= j < old.variants@.len() && j != i ==> #[trigger] new.variants@[j] == old.variants@[j]
            &&& new.variants@[i as int].key == old.variants@[i as int].key
            &&& new.variants@[i as int].name == old.variants@[i as int].name
            &&& new.variants@[i as int].description == old.variants@[i as int].description
            &&& new.variants@[i as int].fields@ == fields
        },
    }
}

/// The field list of layout `t`, to be edited in place.
pub fn layout_fields_mut(schema: &mut Schema, t: Layout) -> (r: &mut Vec<Field>)
    requires
        layout_exists(*old(schema), t),
    ensures
        r@ == layout_fields(*old(schema), t),
        with_fields(*old(schema), *final(schema), t, final(r)@),
{
    match t {
        Layout::Default => &mut schema.fields,
        Layout::Variant(i) => &mut schema.variants[i].fields,
    }
}

impl SchemaEditorState {
    /// Which field list the editor works on: the active variant's, else the
    /// default list unless the schema is multi-variant.
    pub open spec fn edit_target_spec(&self, schema: Schema) -> Option<Layout> {
        match self.active_variant {
            Some(i) => if i < schema.variants@.len() {
                Some(Layout::Variant(i))
            } else {
                None
            },
            None => if schema.discriminator is Some {
                None
            } else {
                Some(Layout::Default)
            },
        }
    }

    /// Which field list the editor works on: the active variant's, else the
    /// default list unless the schema is multi-variant.
    pub fn edit_target(&self, schema: &Schema) -> (r: Option<Layout>)
        ensures
            r == self.edit_target_spec(*schema),
            r matches Some(t) ==> layout_exists(*schema, t),
    {
        match self.active_variant {
            Some(i) => if i < schema.variants.len() {
                Some(Layout::Variant(i))
            } else {
                None
            },
            None => if schema.discriminator.is_some() {
                None
            } else {
                Some(Layout::Default)
            },
        }
    }
}

/// Where a field appended to `fields` starts: right after the last one.
pub open spec fn next_offset(fields: Seq<Field>) -> int {
    if fields.len() == 0 {
        0
    } else {
        fields.last().offset + fields.last().length
    }
}

/// Append a one-byte text field named `field_<n>` right after the last field.
pub fn add_field(fields: &mut Vec<Field>)
    requires
        old(fields)@.len() < usize::MAX,
        next_offset(old(fields)@) <= usize::MAX,
    ensures
        final(fields)@.len() == old(fields)@.len() + 1,
        final(fields)@.take(old(fields)@.len() as int) == old(fields)@,
        final(fields)@.last().name@ == "field_"@ + decimal_digits(old(fields)@.len() + 1),
        final(fields)@.last().offset == next_offset(old(fields)@),
        final(fields)@.last().length == 1,
        final(fields)@.last().kind == (FieldKind::Text { pad: 0x20 }),
        final(fields)@.last().encoding is None,
        final(fields)@.last().description@.len() == 0,
{
    let n = fields.len();
    let offset = if n == 0 {
        0
    } else {
        fields[n - 1].offset + fields[n - 1].length
    };
    let mut name = String::from_str("field_");
    let digits = decimal_string(n + 1);
    push_all(&mut name, digits.as_slice());
    fields.push(
        Field {
            name,
            offset,
            length: 1,
            kind: FieldKind::Text { pad: 0x20 },
            encoding: None,
            description: String::new(),
        },
    );
    assert(fields@.take(n as int) =~= old(fields)@);
}

/// Total length of the first `k` fields.
pub open spec fn lengths_before(fields: Seq<Field>, k: int) -> int
    decreases k,
{
    if k <= 0 {
        0
    } else {
        lengths_before(fields, k - 1) + fields[k - 1].length
    }
}

proof fn lemma_lengths_grow(fields: Seq<Field>, a: int, b: int)
    requires
        0 <= a <= b,
    ensures
        lengths_before(fields, a) <= lengths_before(fields, b),
    decreases b - a,
{
    if a < b {
        lemma_lengths_grow(fields, a, b - 1);
    }
}

/// Lay the fields end to end from offset 0, in their order; returns where
/// the last one ends.
pub fn auto_align(fields: &mut Vec<Field>) -> (r: usize)
    requires
        lengths_before(old(fields)@, old(fields)@.len() as int) <= usize::MAX,
    ensures
        r == lengths_before(old(fields)@, old(fields)@.len() as int),
        final(fields)@.len() == old(fields)@.len(),
        forall|k: int|
            0 <= k < old(fields)@.len() ==> #[trigger] final(fields)@[k] == (Field {
                offset: lengths_before(old(fields)@, k) as usize,
                ..old(fields)@[k]
            }),
{
    let ghost f0 = fields@;
    let n = fields.len();
    let mut off: usize = 0;
    let mut k: usize = 0;
    while k < n
        invariant
            k <= n,
            n == f0.len(),
            fields@.len() == n,
            lengths_before(f0, n as int) <= usize::MAX,
            off == lengths_before(f0, k as int),
            forall|j: int| k <= j < n ==> #[trigger] fields@[j] == f0[j],
            forall|j: int|
                0 <= j < k ==> #[trigger] fields@[j] == (Field {
                    offset: lengths_before(f0, j) as usize,
                    ..f0[j]
                }),
        decreases n - k,
    {
        proof {
            lemma_lengths_grow(f0, k + 1, n as int);
        }
        let len = fields[k].length;
        fields[k].offset = off;
        off = off + len;
        k = k + 1;
    }
    off
}

/// Remove field `i`.
pub fn remove_field(fields: &mut Vec<Field>, i: usize)
    requires
        i < old(fields)@.len(),
    ensures
        final(fields)@ == old(fields)@.remove(i as int),
{
    fields.remove(i);
}

/// Move field `i` one place up (no change for the first).
pub fn move_field_up(fields: &mut Vec<Field>, i: usize)
    requires
        i < old(fields)@.len(),
    ensures
        i == 0 ==> final(fields)@ == old(fields)@,
        i > 0 ==> final(fields)@ == old(fields)@.update(i as int, old(fields)@[i - 1]).update(
            i - 1,
            old(fields)@[i as int],
        ),
{
    if i > 0 {
        let f = fields.remove(i);
        fields.insert(i - 1, f);
        assert(fields@ =~= old(fields)@.update(i as int, old(fields)@[i - 1]).update(
            i - 1,
            old(fields)@[i as int],
        ));
    }
}

/// Move field `i` one place down (no change for the last).
pub fn move_field_down(fields: &mut Vec<Field>, i: usize)
    requires
        i < old(fields)@.len(),
    ensures
        i + 1 == old(fields)@.len() ==> final(fields)@ == old(fields)@,
        i + 1 < old(fields)@.len() ==> final(fields)@ == old(fields)@.update(
            i as int,
            old(fields)@[i + 1],
        ).update(i + 1, old(fields)@[i as int]),
{
    if i < fields.len() - 1 {
        let f = fields.remove(i);
        fields.insert(i + 1, f);
        assert(fields@ =~= old(fields)@.update(i as int, old(fields)@[i + 1]).update(
            i + 1,
            old(fields)@[i as int],
        ));
    }
}


/// `new` is `old` with only its variants and discriminator possibly changed.
pub open spec fn same_outline(old: Schema, new: Schema) -> bool {
    &&& new.name == old.name
    &&& new.record_length == old.record_length
    &&& new.default_encoding == old.default_encoding
    &&& new.record_separator == old.record_separator
    &&& new.fields == old.fields
}

/// What the active variant becomes once checked against `n` variants: kept
/// when in range, else the first one (none without variants).
pub open spec fn normalized(active: Option<usize>, n: nat) -> Option<usize> {
    match active {
        Some(i) => if i < n {
            Some(i)
        } else if n == 0 {
            None
        } else {
            Some(0)
        },
        None => if n == 0 {
            None
        } else {
            Some(0)
        },
    }
}

impl SchemaEditorState {
    /// Switch between a single layout and per-variant layouts. Turning it on
    /// reads a one-byte ASCII discriminator at offset 0 and makes sure
    /// there is a variant to edit; turning it off drops the discriminator.
    pub fn set_multi_variant(&mut self, schema: &mut Schema, want: bool)
        ensures
            same_outline(*old(schema), *final(schema)),
            final(self).validation_error == old(self).validation_error,
            want == (old(schema).discriminator is Some) ==> {
                &&& *final(schema) == *old(schema)
                &&& *final(self) == *old(self)
            },
            want && old(schema).discriminator is None ==> {
                &&& final(schema).discriminator == Some(
                    Discriminator { offset: 0, length: 1, encoding: Encoding::Ascii },
                )
                &&& old(schema).variants@.len() > 0 ==> final(schema).variants == old(schema).variants
                &&& old(schema).variants@.len() == 0 ==> {
                    &&& final(schema).variants@.len() == 1
                    &&& final(schema).variants@[0].key@ == "1"@
                    &&& final(schema).variants@[0].name@ == "バリアント1"@
                    &&& final(schema).variants@[0].description@.len() == 0
                    &&& final(schema).variants@[0].fields@.len() == 0
                }
                &&& final(self).active_variant == Some(0usize)
                &&& final(self).selected_field is None
            },
            !want && old(schema).discriminator is Some ==> {
                &&& final(schema).discriminator is None
                &&& final(schema).variants == old(schema).variants
                &&& final(self).active_variant is None
                &&& final(self).selected_field is None
            },
    {
        let was = schema.discriminator.is_some();
        if want == was {
            return;
        }
        if want {
            schema.discriminator = Some(
                Discriminator { offset: 0, length: 1, encoding: Encoding::Ascii },
            );
            if schema.variants.len() == 0 {
                schema.variants.push(
                    Variant {
                        key: String::from_str("1"),
                        name: String::from_str("バリアント1"),
                        description: String::new(),
                        fields: Vec::new(),
                    },
                );
            }
            self.active_variant = Some(0);
            self.selected_field = None;
        } else {
            schema.discriminator = None;
            self.active_variant = None;
            self.selected_field = None;
        }
    }

    /// Make variant `i` the one being edited.
    pub fn select_variant(&mut self, i: usize)
        ensures
            final(self).active_variant == Some(i),
            final(self).selected_field is None,
            final(self).validation_error == old(self).validation_error,
    {
        self.active_variant = Some(i);
        self.selected_field = None;
    }

    /// Append a variant keyed by its 1-based position, named after it, and
    /// make it the one being edited.
    pub fn add_variant(&mut self, schema: &mut Schema)
        requires
            old(schema).variants@.len() < usize::MAX,
        ensures
            same_outline(*old(schema), *final(schema)),
            final(schema).discriminator == old(schema).discriminator,
            final(schema).variants@.len() == old(schema).variants@.len() + 1,
            final(schema).variants@.take(old(schema).variants@.len() as int) == old(schema).variants@,
            final(schema).variants@.last().key@ == decimal_digits(old(schema).variants@.len() + 1),
            final(schema).variants@.last().name@ == "バリアント"@ + decimal_digits(
                old(schema).variants@.len() + 1,
            ),
            final(schema).variants@.last().description@.len() == 0,
            final(schema).variants@.last().fields@.len() == 0,
            final(self).active_variant == Some(old(schema).variants@.len() as usize),
            final(self).selected_field is None,
            final(self).validation_error == old(self).validation_error,
    {
        let next_idx = schema.variants.len();
        let digits = decimal_string(next_idx + 1);
        let mut key = String::new();
        push_all(&mut key, digits.as_slice());
        let mut name = String::from_str("バリアント");
        push_all(&mut name, digits.as_slice());
        schema.variants.push(
            Variant { key, name, description: String::new(), fields: Vec::new() },
        );
        assert(schema.variants@.take(next_idx as int) =~= old(schema).variants@);
        self.active_variant = Some(next_idx);
        self.selected_field = None;
    }

    /// Remove variant `idx`; the one now at its place (or the new last one)
    /// becomes the one being edited.
    pub fn remove_variant(&mut self, schema: &mut Schema, idx: usize)
        requires
            idx < old(schema).variants@.len(),
        ensures
            same_outline(*old(schema), *final(schema)),
            final(schema).discriminator == old(schema).discriminator,
            final(schema).variants@ == old(schema).variants@.remove(idx as int),
            final(self).active_variant == (if final(schema).variants@.len() == 0 {
                None
            } else if idx < final(schema).variants@.len() {
                Some(idx)
            } else {
                Some((final(schema).variants@.len() - 1) as usize)
            }),
            final(self).selected_field is None,
            final(self).validation_error == old(self).validation_error,
    {
        schema.variants.remove(idx);
        let n = schema.variants.len();
        self.active_variant = if n == 0 {
            None
        } else if idx < n {
            Some(idx)
        } else {
            Some(n - 1)
        };
        self.selected_field = None;
    }

    /// Keep the active variant valid for the schema: without a discriminator
    /// there is none; with one it is kept when in range, else the first.
    pub fn sync_active_variant(&mut self, schema: &Schema)
        ensures
            final(self).active_variant == (if schema.discriminator is Some {
                normalized(old(self).active_variant, schema.variants@.len())
            } else {
                None
            }),
            final(self).selected_field == old(self).selected_field,
            final(self).validation_error == old(self).validation_error,
    {
        if schema.discriminator.is_none() {
            self.active_variant = None;
            return;
        }
        let n = schema.variants.len();
        match self.active_variant {
            Some(idx) => {
                if idx >= n {
                    self.active_variant = if n == 0 {
                        None
                    } else {
                        Some(0)
                    };
                }
            },
            None => {
                if n > 0 {
                    self.active_variant = Some(0);
                }
            },
        }
    }

    /// Append a field to the list being edited; `false` when there is none.
    pub fn add_field_to_target(&mut self, schema: &mut Schema) -> (r: bool)
        requires
            old(self).edit_target_spec(*old(schema)) matches Some(t) ==> {
                &&& layout_fields(*old(schema), t).len() < usize::MAX
                &&& next_offset(layout_fields(*old(schema), t)) <= usize::MAX
            },
        ensures
            *final(self) == *old(self),
            r == (old(self).edit_target_spec(*old(schema)) is Some),
            !r ==> *final(schema) == *old(schema),
            old(self).edit_target_spec(*old(schema)) matches Some(t) ==> {
                let before = layout_fields(*old(schema), t);
                let after = layout_fields(*final(schema), t);
                &&& with_fields(*old(schema), *final(schema), t, after)
                &&& after.len() == before.len() + 1
                &&& after.take(before.len() as int) == before
                &&& after.last().name@ == "field_"@ + decimal_digits(before.len() + 1)
                &&& after.last().offset == next_offset(before)
                &&& after.last().length == 1
                &&& after.last().kind == (FieldKind::Text { pad: 0x20 })
                &&& after.last().encoding is None
                &&& after.last().description@.len() == 0
            },
    {
        match self.edit_target(schema) {
            Some(t) => {
                let fields = layout_fields_mut(schema, t);
                add_field(fields);
                true
            },
            None => false,
        }
    }
}


impl SchemaEditorState {
    /// Lay the edited fields end to end from offset 0 and grow the record
    /// length to hold them; returns where the last field ends (`None`, and
    /// nothing changed, when no field list is being edited).
    pub fn auto_align_target(&mut self, schema: &mut Schema) -> (r: Option<usize>)
        requires
            old(self).edit_target_spec(*old(schema)) matches Some(t) ==> lengths_before(
                layout_fields(*old(schema), t),
                layout_fields(*old(schema), t).len() as int,
            ) <= usize::MAX,
        ensures
            *final(self) == *old(self),
            match old(self).edit_target_spec(*old(schema)) {
                None => r is None && *final(schema) == *old(schema),
                Some(t) => {
                    let before = layout_fields(*old(schema), t);
                    let after = layout_fields(*final(schema), t);
                    let end = lengths_before(before, before.len() as int);
                    &&& r == Some(end as usize)
                    &&& final(schema).record_length == (if old(schema).record_length < end {
                        end as usize
                    } else {
                        old(schema).record_length
                    })
                    &&& with_fields(
                        *old(schema),
                        (Schema { record_length: old(schema).record_length, ..*final(schema) }),
                        t,
                        after,
                    )
                    &&& after.len() == before.len()
                    &&& forall|k: int|
                        0 <= k < before.len() ==> #[trigger] after[k] == (Field {
                            offset: lengths_before(before, k) as usize,
                            ..before[k]
                        })
                },
            },
    {
        match self.edit_target(schema) {
            Some(t) => {
                let fields = layout_fields_mut(schema, t);
                let end = auto_align(fields);
                if schema.record_length < end {
                    schema.record_length = end;
                }
                Some(end)
            },
            None => None,
        }
    }

    /// Validate the schema and remember the problem found, if any.
    pub fn check_schema(&mut self, schema: &Schema) -> (r: Result<(), SchemaError>)
        ensures
            r == spec_validate(*schema),
            final(self).validation_error == (match r {
                Ok(()) => None,
                Err(e) => Some(e),
            }),
            final(self).selected_field == old(self).selected_field,
            final(self).active_variant == old(self).active_variant,
    {
        let r = schema.validate();
        self.validation_error = match r {
            Ok(()) => None,
            Err(e) => Some(e),
        };
        r
    }

    /// Delete field `i` of the list `t`; no field stays selected.
    pub fn delete_field(&mut self, schema: &mut Schema, t: Layout, i: usize)
        requires
            layout_exists(*old(schema), t),
            i < layout_fields(*old(schema), t).len(),
        ensures
            with_fields(*old(schema), *final(schema), t, layout_fields(*old(schema), t).remove(i as int)),
            final(self).selected_field is None,
            final(self).active_variant == old(self).active_variant,
            final(self).validation_error == old(self).validation_error,
    {
        let fields = layout_fields_mut(schema, t);
        remove_field(fields, i);
        self.selected_field = None;
    }
}


/// Fields laid end to end from offset 0 fit any record at least as long as
/// their total length, as long as none is empty; so after aligning (which
/// grows the record length to that total) the list passes validation.
pub proof fn lemma_aligned_fields_fit(before: Seq<Field>, after: Seq<Field>, record_length: usize)
    requires
        after.len() == before.len(),
        forall|k: int|
            0 <= k < before.len() ==> #[trigger] after[k] == (Field {
                offset: lengths_before(before, k) as usize,
                ..before[k]
            }),
        forall|k: int| 0 <= k < before.len() ==> (#[trigger] before[k]).length > 0,
        lengths_before(before, before.len() as int) <= record_length,
    ensures
        fields_fit(after, record_length),
        forall|k: int|
            0 < k < after.len() ==> after[k - 1].offset + after[k - 1].length == (#[trigger] after[k]).offset,
{
    assert forall|k: int| 0 <= k < after.len() implies (#[trigger] after[k]).length > 0
        && after[k].offset + after[k].length <= record_length by {
        lemma_lengths_grow(before, k + 1, before.len() as int);
        lemma_lengths_grow(before, 0, k);
        assert(lengths_before(before, k + 1) == lengths_before(before, k) + before[k].length);
        assert(after[k].offset == lengths_before(before, k));
        assert(after[k].length == before[k].length);
    }
    assert forall|k: int| 0 < k < after.len() implies after[k - 1].offset + after[k - 1].length == (
    #[trigger] after[k]).offset by {
        lemma_lengths_grow(before, k, before.len() as int);
        lemma_lengths_grow(before, 0, k - 1);
        assert(lengths_before(before, k) == lengths_before(before, k - 1) + before[k - 1].length);
        assert(after[k - 1].offset == lengths_before(before, k - 1));
        assert(after[k - 1].length == before[k - 1].length);
        assert(after[k].offset == lengths_before(before, k));
    }
}

/// Moving a field up and then back down restores the list.
pub proof fn lemma_move_up_then_down(fields: Seq<Field>, i: int)
    requires
        0 < i < fields.len(),
    ensures
        ({
            let up = fields.update(i, fields[i - 1]).update(i - 1, fields[i]);
            up.update(i - 1, up[i]).update(i, up[i - 1])
        }) == fields,
{
    let up = fields.update(i, fields[i - 1]).update(i - 1, fields[i]);
    assert(up.update(i - 1, up[i]).update(i, up[i - 1]) =~= fields);
}

} // verus!
