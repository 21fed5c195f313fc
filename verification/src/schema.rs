//! Record layouts: fields, variants selected by a discriminator, and the
//! schema-level checks run before a schema is used.

use vstd::prelude::*;
use crate::encoding::{Encoding, spec_decode};
use crate::text::{trim_ws, chars_of, trim_chars, chars_equal};

pub use crate::schema_check::{FieldError, Layout, SchemaError, spec_validate, spec_validate_fields};
pub use crate::value_check::{ValueError, spec_validate_value, validate_value};

verus! {

#[derive(Clone, Debug, PartialEq)]
pub enum FieldKind {
    /// Text field, right-padded with `pad` (default 0x20 space).
    Text { pad: u8 },
    /// Numeric digits as text. Left-padded with `pad` (default 0x30 '0').
    /// If `signed`, allows a leading '+' or '-' on the very first byte.
    Numeric { pad: u8, signed: bool },
    /// Fixed-point decimal as text (e.g. raw "0000012345" with scale 2 -> 123.45).
    Decimal { pad: u8, scale: u8, signed: bool },
    /// Date laid out by a format string of Y, M, D placeholders and literal
    /// characters, e.g. "YYYYMMDD" or "YYYY-MM-DD".
    Date { format: String },
    /// Opaque bytes; shown as hex.
    Bytes,
    /// Filler / reserved area. Treated as bytes but flagged in UI.
    Filler { pad: u8 },
}

pub fn default_space() -> (r: u8)
    ensures
        r == 0x20,
{
    0x20
}

pub fn default_zero() -> (r: u8)
    ensures
        r == 0x30,
{
    0x30
}

pub fn default_date_fmt() -> (r: String)
    ensures
        r@ == "YYYYMMDD"@,
{
    String::from_str("YYYYMMDD")
}

pub fn default_ascii_enc() -> (r: Encoding)
    ensures
        r == Encoding::Ascii,
{
    Encoding::Ascii
}

#[derive(Clone, Debug, PartialEq)]
pub struct Field {
    pub name: String,
    pub offset: usize,
    pub length: usize,
    pub kind: FieldKind,
    /// Per-field encoding override. If None, the schema default is used.
    pub encoding: Option<Encoding>,
    pub description: String,
}

#[derive(Clone, Debug, PartialEq)]
pub struct Discriminator {
    pub offset: usize,
    pub length: usize,
    pub encoding: Encoding,
}

/// One layout of a multi-variant schema (e.g. a header record vs a data
/// record in the Zengin format). The `key` is matched against the bytes read
/// at the schema's `discriminator` offset.
#[derive(Clone, Debug, PartialEq)]
pub struct Variant {
    pub key: String,
    pub name: String,
    pub description: String,
    pub fields: Vec<Field>,
}

#[derive(Clone, Debug, PartialEq)]
pub struct Schema {
    pub name: String,
    pub record_length: usize,
    pub default_encoding: Encoding,
    /// Optional record separator. Most fixed-length files have none, but some use CRLF.
    pub record_separator: RecordSeparator,
    /// Default field layout, used when this schema has no variants OR when a
    /// record's discriminator doesn't match any declared variant.
    pub fields: Vec<Field>,
    /// When present, the schema is variant-aware: each record's layout is
    /// chosen by reading these bytes and matching `variants[*].key`.
    pub discriminator: Option<Discriminator>,
    pub variants: Vec<Variant>,
}

#[derive(Clone, Copy, Debug, PartialEq, Eq, Structural)]
pub enum RecordSeparator {
    NoSeparator,
    Lf,
    CrLf,
}

impl Default for RecordSeparator {
    fn default() -> (r: Self)
        ensures
            r == RecordSeparator::NoSeparator,
    {
        RecordSeparator::NoSeparator
    }
}

pub open spec fn sep_len(s: RecordSeparator) -> nat {
    match s {
        RecordSeparator::NoSeparator => 0,
        RecordSeparator::Lf => 1,
        RecordSeparator::CrLf => 2,
    }
}

/// The separator's bytes.
pub open spec fn sep_bytes(s: RecordSeparator) -> Seq<u8> {
    match s {
        RecordSeparator::NoSeparator => Seq::empty(),
        RecordSeparator::Lf => seq![0x0Au8],
        RecordSeparator::CrLf => seq![0x0Du8, 0x0Au8],
    }
}

impl RecordSeparator {
    pub fn len(self) -> (r: usize)
        ensures
            r == sep_len(self),
    {
        match self {
            RecordSeparator::NoSeparator => 0,
            RecordSeparator::Lf => 1,
            RecordSeparator::CrLf => 2,
        }
    }
}

/// A found index, as the index type.
pub open spec fn as_index(o: Option<int>) -> Option<usize> {
    match o {
        Some(x) => Some(x as usize),
        None => None,
    }
}

/// First index `j` in `[i, n)` with `p(j)`.
pub open spec fn first_from(p: spec_fn(int) -> bool, i: int, n: int) -> Option<int>
    decreases n - i,
{
    if i >= n {
        None
    } else if p(i) {
        Some(i)
    } else {
        first_from(p, i + 1, n)
    }
}

pub proof fn lemma_first_from_found(p: spec_fn(int) -> bool, i: int, n: int)
    requires
        first_from(p, i, n) is Some,
    ensures
        ({
            let k = first_from(p, i, n)->0;
            &&& i <= k < n
            &&& p(k)
            &&& forall|j: int| i <= j < k ==> !#[trigger] p(j)
        }),
    decreases n - i,
{
    if i < n && !p(i) {
        lemma_first_from_found(p, i + 1, n);
    }
}

pub proof fn lemma_first_from_none(p: spec_fn(int) -> bool, i: int, n: int)
    requires
        first_from(p, i, n) is None,
    ensures
        forall|j: int| i <= j < n ==> !#[trigger] p(j),
    decreases n - i,
{
    if i < n {
        lemma_first_from_none(p, i + 1, n);
    }
}

impl Field {
    pub open spec fn end(&self) -> int {
        self.offset + self.length
    }
}

impl Schema {
    pub open spec fn spec_stride(&self) -> int {
        self.record_length + sep_len(self.record_separator)
    }

    /// The encoding a field is read and written in.
    pub open spec fn spec_field_encoding(&self, field: Field) -> Encoding {
        match field.encoding {
            Some(e) => e,
            None => self.default_encoding,
        }
    }

    /// The stride is representable in a `usize`.
    pub open spec fn stride_fits(&self) -> bool {
        self.spec_stride() <= usize::MAX
    }

    /// The trimmed key read at the discriminator, if the schema has one and
    /// the record is long enough.
    pub open spec fn disc_key(&self, rec: Seq<u8>) -> Option<Seq<char>> {
        match self.discriminator {
            None => None,
            Some(d) => if d.offset + d.length > usize::MAX || d.offset + d.length > rec.len() {
                None
            } else {
                Some(
                    trim_ws(
                        spec_decode(
                            d.encoding,
                            rec.subrange(d.offset as int, d.offset + d.length),
                        ),
                    ),
                )
            },
        }
    }

    pub open spec fn key_pred(&self, k: Seq<char>) -> spec_fn(int) -> bool {
        |i: int| trim_ws(self.variants@[i].key@) == k
    }

    /// Index of the variant a record belongs to: the first variant whose
    /// trimmed key equals the trimmed discriminator text.
    pub open spec fn variant_index(&self, rec: Seq<u8>) -> Option<int> {
        match self.disc_key(rec) {
            None => None,
            Some(k) => first_from(self.key_pred(k), 0, self.variants@.len() as int),
        }
    }

    /// The field layout used for a record: its variant's fields, else the
    /// default fields, else the first variant's fields, else none.
    pub open spec fn layout_for(&self, rec: Seq<u8>) -> Seq<Field> {
        match self.variant_index(rec) {
            Some(i) => self.variants@[i].fields@,
            None => if self.fields@.len() > 0 {
                self.fields@
            } else if self.variants@.len() > 0 {
                self.variants@[0].fields@
            } else {
                Seq::empty()
            },
        }
    }

    pub open spec fn spec_is_multi_variant(&self) -> bool {
        self.discriminator is Some && self.variants@.len() > 0
    }

    /// Returns the effective on-disk stride: record length + separator length.
    pub fn stride(&self) -> (r: usize)
        requires
            self.stride_fits(),
        ensures
            r == self.spec_stride(),
    {
        self.record_length + self.record_separator.len()
    }

    pub fn field_encoding(&self, field: &Field) -> (r: Encoding)
        ensures
            r == self.spec_field_encoding(*field),
    {
        match field.encoding {
            Some(e) => e,
            None => self.default_encoding,
        }
    }

    /// True when this schema dispatches on a discriminator field.
    pub fn is_multi_variant(&self) -> (r: bool)
        ensures
            r == self.spec_is_multi_variant(),
    {
        self.discriminator.is_some() && self.variants.len() > 0
    }

    /// Look up the variant a record belongs to. Returns None for single-layout
    /// schemas or when the discriminator bytes don't match any variant key.
    pub fn variant_for<'a>(&'a self, record_bytes: &[u8]) -> (r: Option<&'a Variant>)
        ensures
            match self.variant_index(record_bytes@) {
                Some(i) => r matches Some(v) && *v == self.variants@[i],
                None => r is None,
            },
    {
        match self.variant_index_of(record_bytes) {
            Some(i) => Some(&self.variants[i]),
            None => None,
        }
    }

    /// Index of the variant a record belongs to, as `variant_for` finds it.
    pub fn variant_index_of(&self, record_bytes: &[u8]) -> (r: Option<usize>)
        ensures
            r matches Some(i) ==> self.variant_index(record_bytes@) == Some(i as int) && i
                < self.variants@.len(),
            r is None ==> self.variant_index(record_bytes@) is None,
    {
        let disc = match &self.discriminator {
            Some(d) => d,
            None => return None,
        };
        let end = match disc.offset.checked_add(disc.length) {
            Some(e) => e,
            None => return None,
        };
        if end > record_bytes.len() {
            return None;
        }
        let key_bytes = vstd::slice::slice_subrange(record_bytes, disc.offset, end);
        let decoded = disc.encoding.decode(key_bytes);
        assert(self.disc_key(record_bytes@) == Some(trim_ws(decoded@)));
        let r = self.variant_with_key(decoded.as_str());
        let n = self.variants.len();
        proof {
            let p = self.key_pred(trim_ws(decoded@));
            if first_from(p, 0, n as int) is Some {
                lemma_first_from_found(p, 0, n as int);
            }
        }
        r
    }

    /// Index of the first variant whose trimmed key equals the trimmed
    /// discriminator text `decoded`.
    pub fn variant_with_key(&self, decoded: &str) -> (r: Option<usize>)
        ensures
            r == as_index(first_from(self.key_pred(trim_ws(decoded@)), 0, self.variants@.len() as int)),
    {
        let decoded_chars = chars_of(decoded);
        let key_trim = trim_chars(decoded_chars.as_slice());
        let ghost k = key_trim@;
        let ghost p = self.key_pred(k);
        let n = self.variants.len();
        let mut i: usize = 0;
        while i < n
            invariant
                i <= n,
                n == self.variants@.len(),
                p == self.key_pred(k),
                key_trim@ == k,
                k == trim_ws(decoded@),
                first_from(p, 0, n as int) == first_from(p, i as int, n as int),
            decreases n - i,
        {
            let v = &self.variants[i];
            let key_chars = chars_of(v.key.as_str());
            let vk = trim_chars(key_chars.as_slice());
            assert(vk@ == trim_ws(self.variants@[i as int].key@));
            if chars_equal(vk.as_slice(), key_trim.as_slice()) {
                assert(p(i as int));
                return Some(i);
            }
            assert(!p(i as int));
            i = i + 1;
        }
        None
    }

    /// Pick the field layout for a record. Falls back to the default
    /// `self.fields` if no variant matches.
    pub fn fields_for<'a>(&'a self, record_bytes: &[u8]) -> (r: &'a [Field])
        ensures
            r@ == self.layout_for(record_bytes@),
    {
        if let Some(v) = self.variant_for(record_bytes) {
            return v.fields.as_slice();
        }
        if self.fields.len() > 0 {
            return self.fields.as_slice();
        }
        // No discriminator match AND no default — fall back to the first
        // variant so the UI shows *something* rather than blank.
        if self.variants.len() > 0 {
            self.variants[0].fields.as_slice()
        } else {
            let empty: &[Field] = &[];
            assert(empty@ =~= Seq::<Field>::empty());
            empty
        }
    }

    /// The label of a variant's layout: "[key] name".
    pub open spec fn layout_label(v: Variant) -> Seq<char> {
        seq!['['] + v.key@ + seq![']', ' '] + v.name@
    }

    /// All distinct field layouts in this schema, for places that need to
    /// enumerate them (schema editor, search "field" combo, etc.).
    /// Returns (label, fields) tuples. For single schemas the label is empty.
    pub fn all_layouts(&self) -> (r: Vec<(String, &[Field])>)
        ensures
            self.spec_is_multi_variant() ==> {
                &&& r@.len() == self.variants@.len()
                &&& forall|i: int|
                    0 <= i < r@.len() ==> (#[trigger] r@[i]).0@ == Self::layout_label(
                        self.variants@[i],
                    ) && r@[i].1@ == self.variants@[i].fields@
            },
            !self.spec_is_multi_variant() ==> {
                &&& r@.len() == 1
                &&& r@[0].0@ == Seq::<char>::empty()
                &&& r@[0].1@ == self.fields@
            },
    {
        let mut out: Vec<(String, &[Field])> = Vec::new();
        if self.is_multi_variant() {
            let n = self.variants.len();
            let mut i: usize = 0;
            while i < n
                invariant
                    i <= n,
                    n == self.variants@.len(),
                    out@.len() == i,
                    forall|j: int|
                        0 <= j < i ==> (#[trigger] out@[j]).0@ == Self::layout_label(
                            self.variants@[j],
                        ) && out@[j].1@ == self.variants@[j].fields@,
                decreases n - i,
            {
                let v = &self.variants[i];
                let mut label = String::new();
                crate::text::push_char(&mut label, '[');
                label.append(v.key.as_str());
                crate::text::push_char(&mut label, ']');
                crate::text::push_char(&mut label, ' ');
                label.append(v.name.as_str());
                assert(label@ =~= Self::layout_label(*v));
                out.push((label, v.fields.as_slice()));
                i = i + 1;
            }
        } else {
            out.push((String::new(), self.fields.as_slice()));
        }
        out
    }
}


/// Which variant a record belongs to depends only on its bytes at the
/// discriminator: two records of the same length that agree there belong
/// to the same variant, whatever their other bytes.
pub proof fn lemma_variant_reads_only_discriminator(s: Schema, r1: Seq<u8>, r2: Seq<u8>)
    requires
        r1.len() == r2.len(),
        s.discriminator matches Some(d) ==> (d.offset + d.length <= r1.len() ==> r1.subrange(
            d.offset as int,
            d.offset + d.length,
        ) == r2.subrange(d.offset as int, d.offset + d.length)),
    ensures
        s.variant_index(r1) == s.variant_index(r2),
{
}

/// A record whose bytes at the discriminator decode, trimmed, to the trimmed
/// key of variant `i` (and of no earlier variant) belongs to variant `i`
/// (for any record that fits in memory);
/// a schema without a discriminator puts no record in a variant.
pub proof fn lemma_variant_selected_by_key(s: Schema, rec: Seq<u8>, i: int)
    ensures
        s.discriminator is None ==> s.variant_index(rec) is None,
        (s.discriminator matches Some(d) && d.offset + d.length <= rec.len() <= usize::MAX && 0 <= i
            < s.variants@.len() && trim_ws(
            spec_decode(d.encoding, rec.subrange(d.offset as int, d.offset + d.length)),
        ) == trim_ws(s.variants@[i].key@) && forall|j: int|
            0 <= j < i ==> trim_ws(#[trigger] s.variants@[j].key@) != trim_ws(s.variants@[i].key@))
            ==> s.variant_index(rec) == Some(i),
{
    if let Some(d) = s.discriminator {
        if d.offset + d.length <= rec.len() <= usize::MAX && 0 <= i < s.variants@.len() {
            let k = trim_ws(spec_decode(d.encoding, rec.subrange(d.offset as int, d.offset + d.length)));
            if k == trim_ws(s.variants@[i].key@) && forall|j: int|
                0 <= j < i ==> trim_ws(#[trigger] s.variants@[j].key@) != trim_ws(s.variants@[i].key@) {
                let p = s.key_pred(k);
                assert(p(i));
                assert forall|j: int| 0 <= j < i implies !#[trigger] p(j) by {
                    assert(trim_ws(s.variants@[j].key@) != trim_ws(s.variants@[i].key@));
                }
                lemma_first_from_at(p, 0, s.variants@.len() as int, i);
            }
        }
    }
}

proof fn lemma_first_from_at(p: spec_fn(int) -> bool, i: int, n: int, k: int)
    requires
        i <= k < n,
        p(k),
        forall|j: int| i <= j < k ==> !#[trigger] p(j),
    ensures
        first_from(p, i, n) == Some(k),
    decreases k - i,
{
    if i < k {
        lemma_first_from_at(p, i + 1, n, k);
    }
}

} // verus!
