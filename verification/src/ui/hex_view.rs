//! What the hex dump shows of a record: which field a byte belongs to, and
//! the printable-ASCII rendering of a row of bytes.

use vstd::prelude::*;
use crate::schema::{Field, as_index, first_from};
use crate::number::{parse_unsigned, parse_unsigned_chars};
use crate::text::{chars_of, push_char, trim_chars, trim_ws};

verus! {

/// Bytes shown per row of the dump.
pub const BYTES_PER_ROW: usize = 16;

/// Field `i` of `fields` covers byte `offset`.
pub open spec fn covers(fields: Seq<Field>, offset: int) -> spec_fn(int) -> bool {
    |i: int| fields[i].offset <= offset && offset < fields[i].offset + fields[i].length
}

/// Index of the first field whose byte range contains `offset`.
pub fn field_index_at(fields: &[Field], offset: usize) -> (r: Option<usize>)
    ensures
        r == as_index(first_from(covers(fields@, offset as int), 0, fields@.len() as int)),
{
    let ghost p = covers(fields@, offset as int);
    let mut i: usize = 0;
    while i < fields.len()
        invariant
            i <= fields@.len(),
            p == covers(fields@, offset as int),
            first_from(p, 0, fields@.len() as int) == first_from(p, i as int, fields@.len() as int),
        decreases fields@.len() - i,
    {
        let f = &fields[i];
        if offset >= f.offset && offset - f.offset < f.length {
            assert(p(i as int));
            return Some(i);
        }
        assert(!p(i as int));
        i = i + 1;
    }
    None
}

/// How a byte appears in the ASCII column: itself when printable, else a
/// middle dot.
pub open spec fn printable(b: u8) -> char {
    if 0x20 <= b && b < 0x7f {
        b as char
    } else {
        '\u{b7}'
    }
}

/// The ASCII column for `bytes`.
pub open spec fn ascii_column(bytes: Seq<u8>) -> Seq<char> {
    bytes.map_values(|b: u8| printable(b))
}

/// The ASCII column of a row of the dump.
pub fn ascii_row(bytes: &[u8]) -> (r: String)
    ensures
        r@ == ascii_column(bytes@),
{
    let mut out = String::new();
    let mut i: usize = 0;
    while i < bytes.len()
        invariant
            i <= bytes@.len(),
            out@ == ascii_column(bytes@.take(i as int)),
        decreases bytes@.len() - i,
    {
        let b = bytes[i];
        let c = if 0x20 <= b && b < 0x7f {
            b as char
        } else {
            '\u{b7}'
        };
        push_char(&mut out, c);
        i = i + 1;
        assert(ascii_column(bytes@.take(i as int)) =~= ascii_column(bytes@.take(i - 1)).push(c));
    }
    assert(bytes@.take(bytes@.len() as int) =~= bytes@);
    out
}

/// Number of dump rows for a record of `record_length` bytes.
pub fn row_count(record_length: usize) -> (r: usize)
    ensures
        r == (record_length + BYTES_PER_ROW - 1) / (BYTES_PER_ROW as int),
{
    record_length / BYTES_PER_ROW + if record_length % BYTES_PER_ROW == 0 {
        0
    } else {
        1
    }
}


/// A byte typed into the byte editor: trimmed digits in `radix` (16 or 10),
/// as `u8::from_str_radix` reads them.
pub fn parse_byte_radix(s: &str, radix: u32) -> (r: Option<u8>)
    requires
        2 <= radix <= 36,
    ensures
        match parse_unsigned(trim_ws(s@), radix as nat, 255) {
            Some(v) => r == Some(v as u8),
            None => r is None,
        },
{
    let cs = chars_of(s);
    let t = trim_chars(cs.as_slice());
    match parse_unsigned_chars(t.as_slice(), radix, 255) {
        Some(v) => Some(v as u8),
        None => None,
    }
}

/// The byte a character typed into the byte editor stands for: its first
/// character, when that is ASCII.
pub fn ascii_byte_of(s: &str) -> (r: Option<u8>)
    ensures
        s@.len() > 0 && (s@[0] as u32) < 0x80 ==> r == Some(s@[0] as u8),
        !(s@.len() > 0 && (s@[0] as u32) < 0x80) ==> r is None,
{
    let cs = chars_of(s);
    if cs.len() > 0 && (cs[0] as u32) < 0x80 {
        Some(cs[0] as u8)
    } else {
        None
    }
}

} // verus!
