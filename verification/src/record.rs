//! The record buffer: the whole file's bytes, navigation state, and the
//! record-level reads and edits.

use vstd::prelude::*;
use std::path::PathBuf;
use crate::encoding::Encoding;
use crate::schema::{Field, FieldKind, RecordSeparator, Schema, sep_bytes};

pub use crate::field_codec::{
    FieldValueError, build_field_bytes, build_outcome, format_field_value, format_outcome,
    try_format_field_value,
};

verus! {

/// std's `PathBuf`, carried opaque: the file a buffer was loaded from or
/// last saved to. Nothing is claimed of its contents.
#[verifier::external_type_specification]
#[verifier::external_body]
pub struct ExPathBuf(std::path::PathBuf);

/// Where the buffer's bytes currently live.
///
/// A loaded file starts as `Mapped`: the read-only image of the file as it
/// was mapped. The first mutation turns it into `Owned` (copy-on-write);
/// subsequent edits stay in `Owned`.
pub enum DataSource {
    Mapped(Vec<u8>),
    Owned(Vec<u8>),
}

impl DataSource {
    pub open spec fn bytes(&self) -> Seq<u8> {
        match self {
            DataSource::Mapped(v) => v@,
            DataSource::Owned(v) => v@,
        }
    }

    pub open spec fn spec_is_mmap(&self) -> bool {
        self is Mapped
    }

    pub fn as_slice(&self) -> (r: &[u8])
        ensures
            r@ == self.bytes(),
    {
        match self {
            DataSource::Mapped(m) => m.as_slice(),
            DataSource::Owned(v) => v.as_slice(),
        }
    }

    pub fn len(&self) -> (r: usize)
        ensures
            r == self.bytes().len(),
    {
        self.as_slice().len()
    }

    pub fn is_mmap(&self) -> (r: bool)
        ensures
            r == self.spec_is_mmap(),
    {
        matches!(self, DataSource::Mapped(_))
    }

    /// Promote the buffer to `Owned` so it can be mutated. If already `Owned`,
    /// this is a no-op.
    pub fn make_owned(&mut self) -> (r: &mut Vec<u8>)
        ensures
            r@ == old(self).bytes(),
            *final(self) == DataSource::Owned(*final(r)),
    {
        if let DataSource::Mapped(m) = self {
            let mut bytes: Vec<u8> = Vec::new();
            std::mem::swap(&mut bytes, m);
            *self = DataSource::Owned(bytes);
        }
        match self {
            DataSource::Owned(v) => v,
            DataSource::Mapped(_) => {
                proof {
                    assert(false);
                }
                unreached()
            },
        }
    }
}

/// Why a buffer operation failed.
#[derive(Clone, Copy, Debug, PartialEq, Eq, Structural)]
pub enum RecordError {
    /// The schema's stride (record length plus separator) is 0.
    ZeroStride,
    /// The byte count is not a whole number of records.
    SizeNotMultiple { size: usize, record_length: usize, stride: usize, remainder: usize },
    /// No record with this index.
    RecordOutOfRange,
    /// No byte at this offset.
    ByteOutOfRange { offset: usize },
    /// The value could not be written to the field.
    Field(FieldValueError),
}

/// Buffer holding the entire file plus navigation/editing state.
pub struct RecordBuffer {
    pub data: DataSource,
    pub path: Option<PathBuf>,
    pub modified: bool,
    /// 0-based currently selected record.
    pub current_record: usize,
    /// 0-based byte offset of the cursor within the current record.
    pub cursor_in_record: usize,
}

/// `s` repeated `n` times.
pub open spec fn repeat(s: Seq<u8>, n: nat) -> Seq<u8>
    decreases n,
{
    if n == 0 {
        Seq::empty()
    } else {
        repeat(s, (n - 1) as nat) + s
    }
}

pub proof fn lemma_repeat_len(s: Seq<u8>, n: nat)
    ensures
        repeat(s, n).len() == n * s.len(),
    decreases n,
{
    if n > 0 {
        let m = (n - 1) as nat;
        lemma_repeat_len(s, m);
        let l = s.len();
        assert(n * l == m * l + l) by (nonlinear_arith)
            requires
                n == m + 1,
        ;
        assert(repeat(s, n) == repeat(s, m) + s);
    } else {
        let l = s.len();
        assert(n * l == 0) by (nonlinear_arith)
            requires
                n == 0,
        ;
    }
}

/// One empty record: spaces, then the separator.
pub open spec fn empty_record(schema: Schema) -> Seq<u8> {
    Seq::new(schema.record_length as nat, |i: int| 0x20u8) + sep_bytes(schema.record_separator)
}

/// Number of whole records in `len` bytes.
pub open spec fn count_records(len: int, stride: int) -> int {
    if stride == 0 {
        0
    } else {
        len / stride
    }
}

/// The pad byte an empty field is filled with.
pub open spec fn blank_byte(kind: FieldKind) -> u8 {
    match kind {
        FieldKind::Numeric { pad, .. } => pad,
        FieldKind::Decimal { pad, .. } => pad,
        FieldKind::Filler { pad } => pad,
        FieldKind::Text { pad } => pad,
        FieldKind::Bytes => 0x00,
        FieldKind::Date { .. } => 0x30,
    }
}

/// `s` with `[off, off + len)` set to `b`.
pub open spec fn fill(s: Seq<u8>, off: int, len: int, b: u8) -> Seq<u8> {
    Seq::new(s.len(), |k: int| if off <= k < off + len { b } else { s[k] })
}

/// A blank record after filling the first `n` default fields with their pad bytes.
pub open spec fn blank_prefix(fields: Seq<Field>, n: int, record_length: nat) -> Seq<u8>
    decreases n,
{
    if n <= 0 {
        Seq::new(record_length, |i: int| 0x20u8)
    } else {
        let f = fields[n - 1];
        fill(blank_prefix(fields, n - 1, record_length), f.offset as int, f.length as int, blank_byte(f.kind))
    }
}

/// The record `append_record` adds (without its separator).
pub open spec fn blank_record(schema: Schema) -> Seq<u8> {
    blank_prefix(schema.fields@, schema.fields@.len() as int, schema.record_length as nat)
}

/// `bytes` with `[start, start + part.len())` replaced by `part`.
pub open spec fn splice(bytes: Seq<u8>, start: int, part: Seq<u8>) -> Seq<u8> {
    bytes.take(start) + part + bytes.skip(start + part.len())
}

/// All default fields lie inside the record.
pub open spec fn default_fields_in_record(schema: Schema) -> bool {
    forall|i: int|
        0 <= i < schema.fields@.len() ==> (#[trigger] schema.fields@[i]).offset
            + schema.fields@[i].length <= schema.record_length
}

impl RecordBuffer {
    pub open spec fn bytes(&self) -> Seq<u8> {
        self.data.bytes()
    }

    pub open spec fn spec_record_count(&self, schema: Schema) -> int {
        count_records(self.bytes().len() as int, schema.spec_stride())
    }

    /// The bytes of record `idx`, if it lies within the buffer.
    pub open spec fn spec_record(&self, schema: Schema, idx: int) -> Option<Seq<u8>> {
        let start = idx * schema.spec_stride();
        let end = start + schema.record_length;
        if end > self.bytes().len() {
            None
        } else {
            Some(self.bytes().subrange(start, end))
        }
    }

    /// The record's start and end offsets are representable.
    pub open spec fn record_index_fits(schema: Schema, idx: int) -> bool {
        &&& schema.stride_fits()
        &&& idx * schema.spec_stride() + schema.record_length <= usize::MAX
    }

    pub fn new_empty(schema: &Schema, initial_records: usize) -> (r: Self)
        requires
            schema.stride_fits(),
            initial_records * schema.spec_stride() <= usize::MAX,
        ensures
            r.bytes() == repeat(empty_record(*schema), initial_records as nat),
            r.data is Owned,
            r.path is None,
            !r.modified,
            r.current_record == 0,
            r.cursor_in_record == 0,
    {
        let mut template: Vec<u8> = Vec::new();
        let mut k: usize = 0;
        while k < schema.record_length
            invariant
                k <= schema.record_length,
                template@ == Seq::new(k as nat, |i: int| 0x20u8),
            decreases schema.record_length - k,
        {
            template.push(0x20u8);
            k = k + 1;
            assert(template@ =~= Seq::new(k as nat, |i: int| 0x20u8));
        }
        match schema.record_separator {
            RecordSeparator::Lf => {
                template.push(0x0Au8);
            },
            RecordSeparator::CrLf => {
                template.push(0x0Du8);
                template.push(0x0Au8);
            },
            RecordSeparator::NoSeparator => {},
        }
        assert(template@ =~= empty_record(*schema));
        let mut data: Vec<u8> = Vec::new();
        let mut i: usize = 0;
        while i < initial_records
            invariant
                i <= initial_records,
                template@ == empty_record(*schema),
                template@.len() == schema.spec_stride(),
                initial_records * schema.spec_stride() <= usize::MAX,
                data@ == repeat(template@, i as nat),
            decreases initial_records - i,
        {
            let ghost before = data@;
            let mut j: usize = 0;
            while j < template.len()
                invariant
                    j <= template@.len(),
                    data@ == before + template@.take(j as int),
                decreases template@.len() - j,
            {
                data.push(template[j]);
                j = j + 1;
                assert(data@ =~= before + template@.take(j as int));
            }
            assert(template@.take(template@.len() as int) =~= template@);
            i = i + 1;
        }
        RecordBuffer {
            data: DataSource::Owned(data),
            path: None,
            modified: false,
            current_record: 0,
            cursor_in_record: 0,
        }
    }

    /// Check that a file of `len` bytes holds whole records of the schema.
    pub fn check_file_len(len: usize, schema: &Schema) -> (r: Result<(), RecordError>)
        requires
            schema.stride_fits(),
        ensures
            r == (if schema.spec_stride() == 0 {
                Err(RecordError::ZeroStride)
            } else if (len as int) % schema.spec_stride() != 0 {
                Err(
                    RecordError::SizeNotMultiple {
                        size: len,
                        record_length: schema.record_length,
                        stride: schema.spec_stride() as usize,
                        remainder: ((len as int) % schema.spec_stride()) as usize,
                    },
                )
            } else {
                Ok(())
            }),
    {
        let stride = schema.stride();
        if stride == 0 {
            return Err(RecordError::ZeroStride);
        }
        if len % stride != 0 {
            let remainder = len % stride;
            return Err(
                RecordError::SizeNotMultiple {
                    size: len,
                    record_length: schema.record_length,
                    stride,
                    remainder,
                },
            );
        }
        Ok(())
    }

    /// A buffer over a loaded file's bytes. An empty file becomes an empty
    /// owned buffer; anything else stays read-only until first edited.
    pub fn from_file_bytes(bytes: Vec<u8>, path: PathBuf) -> (r: Self)
        ensures
            r.bytes() == bytes@,
            r.data is Mapped <==> bytes@.len() > 0,
            r.path == Some(path),
            !r.modified,
            r.current_record == 0,
            r.cursor_in_record == 0,
    {
        let data = if bytes.len() == 0 {
            DataSource::Owned(bytes)
        } else {
            DataSource::Mapped(bytes)
        };
        RecordBuffer { data, path: Some(path), modified: false, current_record: 0, cursor_in_record: 0 }
    }

    /// The checks done before the buffer is written to a file. When the file
    /// is the one the buffer was loaded from, the bytes are first made owned
    /// so the mapping can go away before the file is truncated.
    pub fn prepare_save(&mut self, schema: &Schema, same_path: bool) -> (r: Result<(), RecordError>)
        requires
            schema.stride_fits(),
        ensures
            final(self).bytes() == old(self).bytes(),
            final(self).path == old(self).path,
            final(self).modified == old(self).modified,
            final(self).current_record == old(self).current_record,
            final(self).cursor_in_record == old(self).cursor_in_record,
            r == (if schema.spec_stride() == 0 {
                Err(RecordError::ZeroStride)
            } else if (old(self).bytes().len() as int) % schema.spec_stride() != 0 {
                Err(
                    RecordError::SizeNotMultiple {
                        size: old(self).bytes().len() as usize,
                        record_length: schema.record_length,
                        stride: schema.spec_stride() as usize,
                        remainder: ((old(self).bytes().len() as int) % schema.spec_stride()) as usize,
                    },
                )
            } else {
                Ok(())
            }),
            r is Ok && same_path ==> final(self).data is Owned,
            !(r is Ok && same_path) ==> final(self).data == old(self).data,
    {
        let len = self.data.len();
        match Self::check_file_len(len, schema) {
            Err(e) => return Err(e),
            Ok(()) => {},
        }
        if same_path && self.data.is_mmap() {
            self.data.make_owned();
        }
        Ok(())
    }

    /// Record that the buffer now matches the file at `path`.
    pub fn finish_save(&mut self, path: PathBuf)
        ensures
            final(self).data == old(self).data,
            final(self).path == Some(path),
            !final(self).modified,
            final(self).current_record == old(self).current_record,
            final(self).cursor_in_record == old(self).cursor_in_record,
    {
        self.path = Some(path);
        self.modified = false;
    }

    pub fn record_count(&self, schema: &Schema) -> (r: usize)
        requires
            schema.stride_fits(),
        ensures
            r == self.spec_record_count(*schema),
    {
        let stride = schema.stride();
        if stride == 0 {
            0
        } else {
            self.data.len() / stride
        }
    }

    /// Byte offset of the start of record `idx`.
    pub fn record_start(&self, schema: &Schema, idx: usize) -> (r: usize)
        requires
            schema.stride_fits(),
            idx * schema.spec_stride() <= usize::MAX,
        ensures
            r == idx * schema.spec_stride(),
    {
        idx * schema.stride()
    }

    pub fn record_slice<'a>(&'a self, schema: &Schema, idx: usize) -> (r: Option<&'a [u8]>)
        requires
            Self::record_index_fits(*schema, idx as int),
        ensures
            match self.spec_record(*schema, idx as int) {
                Some(s) => r matches Some(x) && x@ == s,
                None => r is None,
            },
    {
        let start = self.record_start(schema, idx);
        let end = start + schema.record_length;
        let data = self.data.as_slice();
        if end > data.len() {
            None
        } else {
            Some(vstd::slice::slice_subrange(data, start, end))
        }
    }

    pub fn record_slice_mut<'a>(&'a mut self, schema: &Schema, idx: usize) -> (r: Option<
        &'a mut [u8],
    >)
        requires
            Self::record_index_fits(*schema, idx as int),
        ensures
            final(self).path == old(self).path,
            final(self).modified == old(self).modified,
            final(self).current_record == old(self).current_record,
            final(self).cursor_in_record == old(self).cursor_in_record,
            final(self).data is Owned,
            match old(self).spec_record(*schema, idx as int) {
                Some(s) => r matches Some(x) && x@ == s && final(self).bytes() == old(
                    self,
                ).bytes().take(idx * schema.spec_stride()) + final(x)@ + old(self).bytes().skip(
                    idx * schema.spec_stride() + schema.record_length,
                ),
                None => r is None && final(self).bytes() == old(self).bytes(),
            },
    {
        let start = self.record_start(schema, idx);
        let end = start + schema.record_length;
        let data = self.data.make_owned();
        if end > data.len() {
            None
        } else {
            let s = data.as_mut_slice();
            let (_, rest) = s.split_at_mut(start);
            let (rec, _) = rest.split_at_mut(schema.record_length);
            Some(rec)
        }
    }

    /// The bytes of a field in record `idx`, if both lie within the buffer.
    pub open spec fn spec_field_bytes(&self, schema: Schema, idx: int, field: Field) -> Option<Seq<u8>> {
        match self.spec_record(schema, idx) {
            None => None,
            Some(rec) => if field.offset + field.length > rec.len() {
                None
            } else {
                Some(rec.subrange(field.offset as int, field.offset + field.length))
            },
        }
    }

    pub fn field_bytes<'a>(&'a self, schema: &Schema, record_idx: usize, field: &Field) -> (r: Option<
        &'a [u8],
    >)
        requires
            Self::record_index_fits(*schema, record_idx as int),
            field.offset + field.length <= usize::MAX,
        ensures
            match self.spec_field_bytes(*schema, record_idx as int, *field) {
                Some(s) => r matches Some(x) && x@ == s,
                None => r is None,
            },
    {
        let rec = match self.record_slice(schema, record_idx) {
            Some(r) => r,
            None => return None,
        };
        let end = field.offset + field.length;
        if end > rec.len() {
            None
        } else {
            Some(vstd::slice::slice_subrange(rec, field.offset, end))
        }
    }

    /// Write a new value into a field, returning Ok on success.
    pub fn set_field_text(&mut self, schema: &Schema, record_idx: usize, field: &Field, value: &str) -> (r:
        Result<(), RecordError>)
        requires
            Self::record_index_fits(*schema, record_idx as int),
            field.offset + field.length <= schema.record_length,
            build_outcome(*field, schema.spec_field_encoding(*field), value@) is Some,
        ensures
            final(self).path == old(self).path,
            final(self).current_record == old(self).current_record,
            final(self).cursor_in_record == old(self).cursor_in_record,
            match build_outcome(*field, schema.spec_field_encoding(*field), value@)->0 {
                Err(e) => r == Err::<(), RecordError>(RecordError::Field(e)) && *final(self) == *old(
                    self,
                ),
                Ok(b) => {
                    &&& final(self).data is Owned
                    &&& match old(self).spec_record(*schema, record_idx as int) {
                        None => {
                            &&& r == Err::<(), RecordError>(RecordError::RecordOutOfRange)
                            &&& final(self).bytes() == old(self).bytes()
                            &&& final(self).modified == old(self).modified
                        },
                        Some(_) => {
                            &&& r is Ok
                            &&& final(self).bytes() == splice(
                                old(self).bytes(),
                                record_idx * schema.spec_stride() + field.offset,
                                b,
                            )
                            &&& final(self).modified
                        },
                    }
                },
            },
    {
        let encoding = schema.field_encoding(field);
        let bytes = match build_field_bytes(field, encoding, value) {
            Ok(b) => b,
            Err(e) => return Err(RecordError::Field(e)),
        };
        proof {
            crate::field_codec::lemma_build_length(*field, encoding, value@);
        }
        let ghost old_bytes = self.bytes();
        let ghost start = record_idx * schema.spec_stride();
        let rec = match self.record_slice_mut(schema, record_idx) {
            Some(r) => r,
            None => return Err(RecordError::RecordOutOfRange),
        };
        let ghost rec0 = rec@;
        let mut j: usize = 0;
        while j < field.length
            invariant
                j <= field.length,
                bytes@.len() == field.length,
                field.offset + field.length <= rec@.len(),
                field.offset + field.length <= schema.record_length,
                rec@.len() == rec0.len(),
                rec@ == rec0.take(field.offset as int) + bytes@.take(j as int) + rec0.skip(
                    field.offset + j,
                ),
            decreases field.length - j,
        {
            rec[field.offset + j] = bytes[j];
            j = j + 1;
            assert(rec@ =~= rec0.take(field.offset as int) + bytes@.take(j as int) + rec0.skip(
                field.offset + j,
            ));
        }
        proof {
            assert(bytes@.take(field.length as int) =~= bytes@);
        }
        self.modified = true;
        proof {
            let fin = self.bytes();
            assert(fin =~= splice(old_bytes, start + field.offset, bytes@));
        }
        Ok(())
    }

    pub fn set_byte(&mut self, abs_offset: usize, byte: u8) -> (r: Result<(), RecordError>)
        ensures
            final(self).path == old(self).path,
            final(self).current_record == old(self).current_record,
            final(self).cursor_in_record == old(self).cursor_in_record,
            final(self).data is Owned,
            abs_offset < old(self).bytes().len() ==> {
                &&& r is Ok
                &&& final(self).bytes() == old(self).bytes().update(abs_offset as int, byte)
                &&& final(self).modified == (old(self).modified || old(self).bytes()[abs_offset as int]
                    != byte)
            },
            abs_offset >= old(self).bytes().len() ==> {
                &&& r == Err::<(), RecordError>(RecordError::ByteOutOfRange { offset: abs_offset })
                &&& final(self).bytes() == old(self).bytes()
                &&& final(self).modified == old(self).modified
            },
    {
        let data = self.data.make_owned();
        if abs_offset >= data.len() {
            return Err(RecordError::ByteOutOfRange { offset: abs_offset });
        }
        let changed = data[abs_offset] != byte;
        if changed {
            data.set(abs_offset, byte);
        } else {
            assert(data@ =~= data@.update(abs_offset as int, byte));
        }
        if changed {
            self.modified = true;
        }
        Ok(())
    }

    /// Append a fresh blank record at the end and return its index.
    pub fn append_record(&mut self, schema: &Schema) -> (r: usize)
        requires
            schema.stride_fits(),
            default_fields_in_record(*schema),
        ensures
            r == old(self).spec_record_count(*schema),
            final(self).bytes() == old(self).bytes() + blank_record(*schema) + sep_bytes(
                schema.record_separator,
            ),
            final(self).data is Owned,
            final(self).modified,
            final(self).path == old(self).path,
            final(self).current_record == old(self).current_record,
            final(self).cursor_in_record == old(self).cursor_in_record,
    {
        let new_idx = self.record_count(schema);
        let rl = schema.record_length;
        let mut block: Vec<u8> = Vec::new();
        let mut k: usize = 0;
        while k < rl
            invariant
                k <= rl,
                block@ == Seq::new(k as nat, |i: int| 0x20u8),
            decreases rl - k,
        {
            block.push(0x20u8);
            k = k + 1;
            assert(block@ =~= Seq::new(k as nat, |i: int| 0x20u8));
        }
        let n = schema.fields.len();
        let mut i: usize = 0;
        while i < n
            invariant
                i <= n,
                n == schema.fields@.len(),
                rl == schema.record_length,
                default_fields_in_record(*schema),
                block@ == blank_prefix(schema.fields@, i as int, rl as nat),
                block@.len() == rl,
            decreases n - i,
        {
            let f = &schema.fields[i];
            let pad_byte = match &f.kind {
                FieldKind::Numeric { pad, .. } | FieldKind::Decimal { pad, .. } | FieldKind::Filler {
                    pad,
                } | FieldKind::Text { pad } => *pad,
                FieldKind::Bytes => 0x00u8,
                FieldKind::Date { .. } => 0x30u8,
            };
            assert(pad_byte == blank_byte(f.kind));
            let ghost prev = block@;
            let end = f.offset + f.length;
            let mut q = f.offset;
            while q < end
                invariant
                    f.offset <= q <= end,
                    end == f.offset + f.length,
                    end <= rl,
                    prev.len() == rl,
                    block@ == fill(prev, f.offset as int, q - f.offset, pad_byte),
                decreases end - q,
            {
                block.set(q, pad_byte);
                q = q + 1;
                assert(block@ =~= fill(prev, f.offset as int, q - f.offset, pad_byte));
            }
            assert(block@ =~= blank_prefix(schema.fields@, i + 1, rl as nat));
            i = i + 1;
        }
        let ghost old_bytes = self.bytes();
        let data = self.data.make_owned();
        let mut t: usize = 0;
        while t < block.len()
            invariant
                t <= block@.len(),
                data@ == old_bytes + block@.take(t as int),
            decreases block@.len() - t,
        {
            data.push(block[t]);
            t = t + 1;
            assert(data@ =~= old_bytes + block@.take(t as int));
        }
        assert(block@.take(block@.len() as int) =~= block@);
        match schema.record_separator {
            RecordSeparator::Lf => data.push(0x0Au8),
            RecordSeparator::CrLf => {
                data.push(0x0Du8);
                data.push(0x0Au8);
            },
            RecordSeparator::NoSeparator => {},
        }
        assert(data@ =~= old_bytes + blank_record(*schema) + sep_bytes(schema.record_separator));
        self.modified = true;
        new_idx
    }

    pub fn delete_record(&mut self, schema: &Schema, idx: usize) -> (r: Result<(), RecordError>)
        requires
            schema.stride_fits(),
            idx * schema.spec_stride() + schema.spec_stride() <= usize::MAX,
        ensures
            final(self).data is Owned,
            final(self).path == old(self).path,
            final(self).cursor_in_record == old(self).cursor_in_record,
            ({
                let start = idx * schema.spec_stride();
                let end = start + schema.spec_stride();
                if end > old(self).bytes().len() {
                    &&& r == Err::<(), RecordError>(RecordError::RecordOutOfRange)
                    &&& final(self).bytes() == old(self).bytes()
                    &&& final(self).modified == old(self).modified
                    &&& final(self).current_record == old(self).current_record
                } else {
                    let count = count_records(
                        old(self).bytes().len() - schema.spec_stride(),
                        schema.spec_stride(),
                    );
                    let cur = old(self).current_record;
                    &&& r is Ok
                    &&& final(self).bytes() == old(self).bytes().take(start) + old(self).bytes().skip(
                        end,
                    )
                    &&& final(self).modified
                    &&& final(self).current_record == (if cur >= count && cur > 0 {
                        (cur - 1) as usize
                    } else {
                        cur
                    })
                }
            }),
    {
        let stride = schema.stride();
        let start = idx * stride;
        let end = start + stride;
        let data = self.data.make_owned();
        if end > data.len() {
            return Err(RecordError::RecordOutOfRange);
        }
        let mut tail = data.split_off(end);
        data.truncate(start);
        data.append(&mut tail);
        self.modified = true;
        if self.current_record >= self.record_count(schema) && self.current_record > 0 {
            self.current_record = self.current_record - 1;
        }
        Ok(())
    }
}


/// Splicing keeps the length, puts `part` at `start` and leaves every
/// other byte as it was.
pub proof fn lemma_splice(bytes: Seq<u8>, start: int, part: Seq<u8>)
    requires
        0 <= start,
        start + part.len() <= bytes.len(),
    ensures
        splice(bytes, start, part).len() == bytes.len(),
        splice(bytes, start, part).subrange(start, start + part.len()) == part,
        forall|k: int|
            0 <= k < bytes.len() && !(start <= k < start + part.len()) ==> #[trigger] splice(
                bytes,
                start,
                part,
            )[k] == bytes[k],
{
    let r = splice(bytes, start, part);
    assert(r.subrange(start, start + part.len()) =~= part);
}

/// Reading a field back after writing it gives the bytes written, and a
/// field of the same record that does not overlap it reads as before.
pub proof fn lemma_read_after_write(
    old: RecordBuffer,
    new: RecordBuffer,
    schema: Schema,
    idx: int,
    field: Field,
    other: Field,
    b: Seq<u8>,
)
    requires
        0 <= idx,
        old.spec_record(schema, idx) is Some,
        field.offset + field.length <= schema.record_length,
        b.len() == field.length,
        new.bytes() == splice(old.bytes(), idx * schema.spec_stride() + field.offset, b),
    ensures
        new.bytes().len() == old.bytes().len(),
        new.spec_field_bytes(schema, idx, field) == Some(b),
        other.offset + other.length <= field.offset || field.offset + field.length <= other.offset
            ==> new.spec_field_bytes(schema, idx, other) == old.spec_field_bytes(schema, idx, other),
{
    let start = idx * schema.spec_stride();
    assert(start >= 0) by (nonlinear_arith)
        requires
            start == idx * schema.spec_stride(),
            idx >= 0,
            schema.spec_stride() >= 0,
    ;
    lemma_splice(old.bytes(), start + field.offset, b);
    let rec_new = new.bytes().subrange(start, start + schema.record_length);
    let rec_old = old.bytes().subrange(start, start + schema.record_length);
    assert(rec_new.subrange(field.offset as int, field.offset + field.length) =~= b);
    if other.offset + other.length <= field.offset || field.offset + field.length <= other.offset {
        if other.offset + other.length <= rec_old.len() {
            assert(rec_new.subrange(other.offset as int, other.offset + other.length) =~= rec_old.subrange(
                other.offset as int,
                other.offset + other.length,
            ));
        }
    }
}


proof fn lemma_blank_prefix_len(fields: Seq<Field>, n: int, record_length: nat)
    ensures
        blank_prefix(fields, n, record_length).len() == record_length,
    decreases n,
{
    if n > 0 {
        lemma_blank_prefix_len(fields, n - 1, record_length);
    }
}

/// A blank record is one record long.
pub proof fn lemma_blank_record_len(schema: Schema)
    ensures
        blank_record(schema).len() == schema.record_length,
{
    lemma_blank_prefix_len(schema.fields@, schema.fields@.len() as int, schema.record_length as nat);
}

proof fn lemma_record_fits(j: int, count: int, stride: int, record_length: int)
    requires
        0 <= j < count,
        0 <= record_length <= stride,
    ensures
        0 <= j * stride,
        j * stride + record_length <= count * stride,
        j * stride + stride <= count * stride,
{
    assert(0 <= j * stride) by (nonlinear_arith)
        requires
            0 <= j,
            0 <= stride,
    ;
    assert(j * stride + stride <= count * stride) by (nonlinear_arith)
        requires
            j < count,
            0 <= stride,
    ;
}

/// Appending a blank record to a buffer of whole records adds one record,
/// which reads as the blank record, and leaves the others as they were.
pub proof fn lemma_append_adds_record(old: RecordBuffer, new: RecordBuffer, schema: Schema)
    requires
        schema.spec_stride() > 0,
        (old.bytes().len() as int) % schema.spec_stride() == 0,
        new.bytes() == old.bytes() + blank_record(schema) + sep_bytes(schema.record_separator),
    ensures
        new.spec_record_count(schema) == old.spec_record_count(schema) + 1,
        new.spec_record(schema, old.spec_record_count(schema)) == Some(blank_record(schema)),
        forall|j: int|
            0 <= j < old.spec_record_count(schema) ==> #[trigger] new.spec_record(schema, j)
                == old.spec_record(schema, j),
{
    let stride = schema.spec_stride();
    let rl = schema.record_length as int;
    let len = old.bytes().len() as int;
    let count = old.spec_record_count(schema);
    lemma_blank_record_len(schema);
    assert(count * stride == len) by (nonlinear_arith)
        requires
            count == len / stride,
            len % stride == 0,
            stride > 0,
    ;
    assert(new.bytes().len() == len + stride);
    assert((len + stride) / stride == count + 1) by (nonlinear_arith)
        requires
            count * stride == len,
            stride > 0,
    ;
    assert(new.bytes().subrange(len, len + rl) =~= blank_record(schema));
    assert forall|j: int| 0 <= j < count implies #[trigger] new.spec_record(schema, j) == old.spec_record(
        schema,
        j,
    ) by {
        lemma_record_fits(j, count, stride, rl);
        assert(new.bytes().subrange(j * stride, j * stride + rl) =~= old.bytes().subrange(
            j * stride,
            j * stride + rl,
        ));
    }
}

/// Deleting record `idx` of a buffer of whole records leaves one record
/// fewer: those before it in place, those after it one place earlier.
pub proof fn lemma_delete_removes_record(old: RecordBuffer, new: RecordBuffer, schema: Schema, idx: int)
    requires
        schema.spec_stride() > 0,
        (old.bytes().len() as int) % schema.spec_stride() == 0,
        0 <= idx < old.spec_record_count(schema),
        new.bytes() == old.bytes().take(idx * schema.spec_stride()) + old.bytes().skip(
            idx * schema.spec_stride() + schema.spec_stride(),
        ),
    ensures
        new.spec_record_count(schema) == old.spec_record_count(schema) - 1,
        forall|j: int|
            0 <= j < new.spec_record_count(schema) ==> #[trigger] new.spec_record(schema, j)
                == old.spec_record(
                schema,
                if j < idx {
                    j
                } else {
                    j + 1
                },
            ),
{
    let stride = schema.spec_stride();
    let rl = schema.record_length as int;
    let len = old.bytes().len() as int;
    let count = old.spec_record_count(schema);
    assert(count * stride == len) by (nonlinear_arith)
        requires
            count == len / stride,
            len % stride == 0,
            stride > 0,
    ;
    lemma_record_fits(idx, count, stride, rl);
    assert(new.bytes().len() == len - stride);
    assert((len - stride) / stride == count - 1) by (nonlinear_arith)
        requires
            count * stride == len,
            stride > 0,
    ;
    assert forall|j: int| 0 <= j < count - 1 implies #[trigger] new.spec_record(schema, j)
        == old.spec_record(
        schema,
        if j < idx {
            j
        } else {
            j + 1
        },
    ) by {
        lemma_record_fits(j, count - 1, stride, rl);
        lemma_record_fits(j + 1, count, stride, rl);
        assert((j + 1) * stride == j * stride + stride) by (nonlinear_arith);
        if j < idx {
            assert(j * stride + stride <= idx * stride) by (nonlinear_arith)
                requires
                    j < idx,
                    stride > 0,
            ;
            assert(new.bytes().subrange(j * stride, j * stride + rl) =~= old.bytes().subrange(
                j * stride,
                j * stride + rl,
            ));
        } else {
            assert(idx * stride <= j * stride) by (nonlinear_arith)
                requires
                    idx <= j,
                    stride > 0,
            ;
            assert(new.bytes().subrange(j * stride, j * stride + rl) =~= old.bytes().subrange(
                (j + 1) * stride,
                (j + 1) * stride + rl,
            ));
        }
    }
}

/// A new buffer of `n` empty records holds `n` records.
pub proof fn lemma_new_empty_count(schema: Schema, buffer: RecordBuffer, n: nat)
    requires
        schema.spec_stride() > 0,
        buffer.bytes() == repeat(empty_record(schema), n),
    ensures
        buffer.spec_record_count(schema) == n,
{
    lemma_repeat_len(empty_record(schema), n);
    let stride = schema.spec_stride();
    assert(empty_record(schema).len() == stride);
    assert((n * stride) / stride == n) by (nonlinear_arith)
        requires
            stride > 0,
    ;
}

} // verus!
