//! Conversion between a field's raw bytes and its display text:
//! `format_field_value` (bytes to text) and `build_field_bytes` (text to
//! bytes of exactly the field's length).

use vstd::prelude::*;
use vstd::utf8::{decode_utf8, encode_utf8, is_char_boundary};
use crate::encoding::{Encoding, ascii_display, pad_run, spec_decode, spec_encode_exact, spec_encode_fixed};
use crate::schema::{Field, FieldKind};
use crate::text::{all_ascii_digits, hex2, hex_digit, is_whitespace, trim_chars, all_digits, chars_of, hex_join, hex_join_string, is_char, is_ws, push_all, push_char, slice_range, string_from, trim_end_by, trim_end_char_index, trim_start_by, trim_start_char_index, trim_ws};
use crate::value_check::{
    ValueError, find_char, position_of, sign_split, split_sign,
    spec_validate_value, validate_value, value_check_defined, value_check_is_defined,
};

verus! {

broadcast use vstd::utf8::group_utf8_lib;

/// Why a display value could not be turned into field bytes.
#[derive(Clone, Copy, Debug, PartialEq, Eq, Structural)]
pub enum FieldValueError {
    /// Too long for the field, or not representable in its encoding.
    CannotEncode,
    /// A numeric field needs digits.
    NotDigits,
    /// The digits do not fit in the field.
    TooLong,
    InvalidDecimal,
    TooManyFractionDigits { scale: u8 },
    /// The value failed the field's value check.
    Invalid(ValueError),
    /// A date of another byte length than the field.
    DateLength { expected: usize, actual: usize },
    /// A hex field needs exactly two hex digits per byte.
    HexLength { expected: usize, actual: usize },
    InvalidHex,
}

// ---------------------------------------------------------------------------
// Bytes to display text
// ---------------------------------------------------------------------------

pub open spec fn zeros(n: int) -> Seq<char> {
    Seq::new(n as nat, |i: int| '0')
}

/// Fixed-point display of a digit string with `scale` fractional digits
/// (`None` where slicing the digits at the point would split a character).
pub open spec fn decimal_display(digits: Seq<char>, scale: u8) -> Option<Seq<char>> {
    if scale == 0 {
        Some(digits)
    } else {
        let b = encode_utf8(digits);
        if b.len() <= scale {
            let padn = if digits.len() < scale {
                scale - digits.len()
            } else {
                0
            };
            Some(seq!['0', '.'] + zeros(padn) + digits)
        } else {
            let split = b.len() - scale;
            if is_char_boundary(b, split) {
                Some(decode_utf8(b.take(split)) + seq!['.'] + decode_utf8(b.skip(split)))
            } else {
                None
            }
        }
    }
}

/// Display text of a field whose bytes are `bytes` and decode to
/// `decoded`, or `None` where the formatting cannot complete (a decimal
/// whose point would fall inside a character).
pub open spec fn display_of(kind: FieldKind, decoded: Seq<char>, bytes: Seq<u8>) -> Option<Seq<char>> {
    match kind {
        FieldKind::Text { pad } => Some(trim_end_by(decoded, is_char(pad as char))),
        FieldKind::Numeric { pad, signed } => {
            let t = trim_start_by(decoded, is_char(pad as char));
            if signed {
                Some(t)
            } else if t.len() == 0 {
                Some(seq!['0'])
            } else {
                Some(t)
            }
        },
        FieldKind::Decimal { pad, scale, .. } => {
            let t = trim_start_by(decoded, is_char(pad as char));
            let digits = if t.len() == 0 {
                seq!['0']
            } else {
                t
            };
            decimal_display(digits, scale)
        },
        FieldKind::Date { .. } => Some(decoded),
        FieldKind::Bytes | FieldKind::Filler { .. } => Some(hex_join(bytes)),
    }
}

/// Display text of a field's bytes in `enc`, or `None` where the formatting
/// cannot complete.
pub open spec fn format_outcome(kind: FieldKind, enc: Encoding, bytes: Seq<u8>) -> Option<Seq<char>> {
    display_of(kind, spec_decode(enc, bytes), bytes)
}

fn decimal_text(digits: &[char], scale: u8) -> (r: Option<String>)
    ensures
        r matches Some(s) ==> decimal_display(digits@, scale) == Some(s@),
        r is None ==> decimal_display(digits@, scale) is None,
{
    let ds = string_from(digits);
    if scale == 0 {
        return Some(ds);
    }
    let n = scale as usize;
    let bl = ds.as_str().as_bytes().len();
    if bl <= n {
        let mut out = String::new();
        push_char(&mut out, '0');
        push_char(&mut out, '.');
        let padn: usize = if digits.len() < n {
            n - digits.len()
        } else {
            0
        };
        let mut k: usize = 0;
        while k < padn
            invariant
                k <= padn,
                out@ == seq!['0', '.'] + zeros(k as int),
            decreases padn - k,
        {
            push_char(&mut out, '0');
            k = k + 1;
            assert(out@ =~= seq!['0', '.'] + zeros(k as int));
        }
        push_all(&mut out, digits);
        Some(out)
    } else {
        let split = bl - n;
        if !ds.as_str().is_char_boundary(split) {
            return None;
        }
        let (a, b) = ds.as_str().split_at(split);
        proof {
            vstd::utf8::encode_utf8_decode_utf8(a@);
            vstd::utf8::encode_utf8_decode_utf8(b@);
        }
        let mut out = String::from_str(a);
        push_char(&mut out, '.');
        out.append(b);
        Some(out)
    }
}

/// The display text of a field whose bytes are `bytes` and decode to
/// `decoded` (hex kinds show the bytes themselves), or `None` where the
/// formatting cannot complete.
pub fn display_from_decoded(kind: &FieldKind, decoded: &str, bytes: &[u8]) -> (r: Option<String>)
    ensures
        r matches Some(s) ==> display_of(*kind, decoded@, bytes@) == Some(s@),
        r is None ==> display_of(*kind, decoded@, bytes@) is None,
{
    match kind {
        FieldKind::Text { pad } => {
            let dc = chars_of(decoded);
            let b = trim_end_char_index(dc.as_slice(), *pad as char);
            let kept = slice_range(dc.as_slice(), 0, b);
            assert(kept@ =~= dc@.take(b as int));
            Some(string_from(kept.as_slice()))
        },
        FieldKind::Numeric { pad, signed } => {
            let dc = chars_of(decoded);
            let a = trim_start_char_index(dc.as_slice(), *pad as char);
            let rest = slice_range(dc.as_slice(), a, dc.len());
            assert(rest@ =~= dc@.skip(a as int));
            if *signed {
                Some(string_from(rest.as_slice()))
            } else if rest.len() == 0 {
                let mut s = String::new();
                push_char(&mut s, '0');
                Some(s)
            } else {
                Some(string_from(rest.as_slice()))
            }
        },
        FieldKind::Decimal { pad, scale, .. } => {
            let dc = chars_of(decoded);
            let a = trim_start_char_index(dc.as_slice(), *pad as char);
            let rest = slice_range(dc.as_slice(), a, dc.len());
            assert(rest@ =~= dc@.skip(a as int));
            if rest.len() == 0 {
                let zero: Vec<char> = vec!['0'];
                assert(zero@ =~= seq!['0']);
                decimal_text(zero.as_slice(), *scale)
            } else {
                decimal_text(rest.as_slice(), *scale)
            }
        },
        FieldKind::Date { .. } => Some(string_from(chars_of(decoded).as_slice())),
        FieldKind::Bytes | FieldKind::Filler { .. } => Some(hex_join_string(bytes)),
    }
}

fn format_checked(field: &Field, encoding: Encoding, bytes: &[u8]) -> (r: Option<String>)
    ensures
        r matches Some(s) ==> format_outcome(field.kind, encoding, bytes@) == Some(s@),
        r is None ==> format_outcome(field.kind, encoding, bytes@) is None,
{
    match &field.kind {
        FieldKind::Bytes | FieldKind::Filler { .. } => display_from_decoded(&field.kind, "", bytes),
        _ => {
            let decoded = encoding.decode(bytes);
            display_from_decoded(&field.kind, decoded.as_str(), bytes)
        },
    }
}

/// Format raw field bytes into a human-readable display string.
pub fn format_field_value(field: &Field, encoding: Encoding, bytes: &[u8]) -> (r: String)
    requires
        format_outcome(field.kind, encoding, bytes@) is Some,
    ensures
        format_outcome(field.kind, encoding, bytes@) == Some(r@),
{
    match format_checked(field, encoding, bytes) {
        Some(s) => s,
        None => {
            proof {
                assert(false);
            }
            String::new()
        },
    }
}

/// `format_field_value`, or `None` on the inputs on which it cannot
/// complete.
pub fn try_format_field_value(field: &Field, encoding: Encoding, bytes: &[u8]) -> (r: Option<
    String,
>)
    ensures
        r matches Some(s) ==> format_outcome(field.kind, encoding, bytes@) == Some(s@),
        r is None ==> format_outcome(field.kind, encoding, bytes@) is None,
{
    format_checked(field, encoding, bytes)
}

// ---------------------------------------------------------------------------
// Display text to bytes
// ---------------------------------------------------------------------------

/// `len` bytes: `pad` on the left, the digits on the right, and the sign
/// byte (if any) in front.
pub open spec fn place_digits(len: int, pad: u8, digits: Seq<char>, sign: Option<u8>) -> Seq<u8> {
    Seq::new(
        len as nat,
        |k: int|
            if sign is Some && k == 0 {
                sign->0
            } else if k < len - digits.len() {
                pad
            } else {
                digits[k - (len - digits.len())] as u8
            },
    )
}

/// The sign byte of a trimmed signed value.
pub open spec fn sign_byte(v: Seq<char>, sign: bool) -> Option<u8> {
    if sign {
        Some(v[0] as u8)
    } else {
        None
    }
}

pub open spec fn hex_val(b: u8) -> Option<u8> {
    if 0x30 <= b && b <= 0x39 {
        Some((b - 0x30) as u8)
    } else if 0x41 <= b && b <= 0x46 {
        Some((b - 0x41 + 10) as u8)
    } else if 0x61 <= b && b <= 0x66 {
        Some((b - 0x61 + 10) as u8)
    } else {
        None
    }
}

/// `u8::from_str_radix` (base 16) of a two-byte chunk: two hex digits, or
/// a '+' sign and one hex digit.
pub open spec fn hex_pair(b0: u8, b1: u8) -> Option<u8> {
    if b0 == 0x2B {
        hex_val(b1)
    } else {
        match (hex_val(b0), hex_val(b1)) {
            (Some(h), Some(l)) => Some((h * 16 + l) as u8),
            _ => None,
        }
    }
}

/// Parsing of two-byte chunks from chunk `k` on: `Some(Ok(bytes))`,
/// `Some(Err(()))` at the first chunk that is not hex, or `None` when a
/// chunk that is not valid UTF-8 is reached first (where the parse cannot
/// complete).
pub open spec fn hex_chunks(cb: Seq<u8>, k: int) -> Option<Result<Seq<u8>, ()>>
    decreases cb.len() - 2 * k,
{
    if k < 0 || 2 * k + 2 > cb.len() {
        Some(Ok(Seq::empty()))
    } else {
        let b0 = cb[2 * k];
        let b1 = cb[2 * k + 1];
        if !vstd::utf8::valid_utf8(seq![b0, b1]) {
            None
        } else {
            match hex_pair(b0, b1) {
                None => Some(Err(())),
                Some(v) => match hex_chunks(cb, k + 1) {
                    Some(Ok(s)) => Some(Ok(seq![v] + s)),
                    other => other,
                },
            }
        }
    }
}

/// Bytes of `value` for `field`, `Some(Err(..))` for a rejected value, or
/// `None` on the inputs on which the conversion cannot complete.
pub open spec fn build_outcome(field: Field, enc: Encoding, value: Seq<char>) -> Option<
    Result<Seq<u8>, FieldValueError>,
> {
    let len = field.length;
    match field.kind {
        FieldKind::Text { pad } | FieldKind::Filler { pad } => match spec_encode_fixed(
            enc,
            value,
            len as nat,
            pad,
        ) {
            Some(b) => Some(Ok(b)),
            None => Some(Err(FieldValueError::CannotEncode)),
        },
        FieldKind::Numeric { pad, signed } => {
            let v = trim_ws(value);
            let (sign, body) = sign_split(v, signed);
            if body.len() == 0 || !all_digits(body) {
                Some(Err(FieldValueError::NotDigits))
            } else if sign && len == 0 {
                None
            } else if body.len() > (if sign {
                len - 1
            } else {
                len as int
            }) {
                Some(Err(FieldValueError::TooLong))
            } else {
                Some(Ok(place_digits(len as int, pad, body, sign_byte(v, sign))))
            }
        },
        FieldKind::Decimal { pad, scale, signed } => {
            let v = trim_ws(value);
            let (sign, body) = sign_split(v, signed);
            let whole = whole_of(body);
            if !all_digits(whole) || !all_digits(frac_of(body)) {
                Some(Err(FieldValueError::InvalidDecimal))
            // The fraction digits are counted in a `u8` (modulo 256).
            } else if (frac_of(body).len() as u8) > scale {
                Some(Err(FieldValueError::TooManyFractionDigits { scale }))
            } else {
                let digits0 = whole + frac_of(body) + zeros(
                    fraction_zeros(frac_of(body).len(), scale),
                );
                let t = trim_start_by(digits0, is_char('0'));
                let digits = if t.len() == 0 {
                    seq!['0']
                } else {
                    t
                };
                if sign && len == 0 {
                    None
                } else if digits.len() > (if sign {
                    len - 1
                } else {
                    len as int
                }) {
                    Some(Err(FieldValueError::TooLong))
                } else {
                    Some(Ok(place_digits(len as int, pad, digits, sign_byte(v, sign))))
                }
            }
        },
        FieldKind::Date { .. } => if !value_check_defined(field.kind, value) {
            None
        } else {
            match spec_validate_value(field, value) {
                Err(e) => Some(Err(FieldValueError::Invalid(e))),
                Ok(()) => if encode_utf8(value).len() != len {
                    Some(
                        Err(
                            FieldValueError::DateLength {
                                expected: len,
                                actual: encode_utf8(value).len() as usize,
                            },
                        ),
                    )
                } else {
                    Some(Ok(encode_utf8(value)))
                },
            }
        },
        FieldKind::Bytes => {
            let cleaned = value.filter(|c: char| !is_ws(c));
            let cb = encode_utf8(cleaned);
            if len * 2 > usize::MAX {
                None
            } else if cb.len() != len * 2 {
                Some(
                    Err(
                        FieldValueError::HexLength {
                            expected: (len * 2) as usize,
                            actual: cb.len() as usize,
                        },
                    ),
                )
            } else {
                match hex_chunks(cb, 0) {
                    None => None,
                    Some(Err(())) => Some(Err(FieldValueError::InvalidHex)),
                    Some(Ok(out)) => Some(Ok(out)),
                }
            }
        },
    }
}

/// The digits before the first '.' of a decimal body (all of it without one).
pub open spec fn whole_of(body: Seq<char>) -> Seq<char> {
    match find_char(body, '.') {
        None => body,
        Some(p) => body.take(p),
    }
}

/// The fractional digits of a decimal body (everything after the first '.').
pub open spec fn frac_of(body: Seq<char>) -> Seq<char> {
    match find_char(body, '.') {
        None => Seq::empty(),
        Some(p) => body.skip(p + 1),
    }
}

/// Zeros appended to the fractional digits to reach `scale`; the digits
/// are counted in a `u8`, so their count is taken modulo 256.
pub open spec fn fraction_zeros(frac_len: nat, scale: u8) -> int {
    if (frac_len as u8) < scale {
        scale - (frac_len as u8)
    } else {
        0
    }
}


pub open spec fn not_ws() -> spec_fn(char) -> bool {
    |c: char| !is_ws(c)
}

/// Prefix `out` to a parse of the remaining chunks.
pub open spec fn prefix_parse(out: Seq<u8>, x: Option<Result<Seq<u8>, ()>>) -> Option<Result<Seq<u8>, ()>> {
    match x {
        Some(Ok(s)) => Some(Ok(out + s)),
        other => other,
    }
}

fn hex_val_exec(b: u8) -> (r: Option<u8>)
    ensures
        r == hex_val(b),
{
    if 0x30 <= b && b <= 0x39 {
        Some(b - 0x30)
    } else if 0x41 <= b && b <= 0x46 {
        Some(b - 0x41 + 10)
    } else if 0x61 <= b && b <= 0x66 {
        Some(b - 0x61 + 10)
    } else {
        None
    }
}

pub(crate) fn hex_pair_exec(b0: u8, b1: u8) -> (r: Option<u8>)
    ensures
        r == hex_pair(b0, b1),
{
    if b0 == 0x2B {
        hex_val_exec(b1)
    } else {
        match (hex_val_exec(b0), hex_val_exec(b1)) {
            (Some(h), Some(l)) => Some(h * 16 + l),
            _ => None,
        }
    }
}

/// The characters of `value` that are not whitespace.
pub(crate) fn non_ws_chars(value: &str) -> (r: String)
    ensures
        r@ == value@.filter(not_ws()),
{
    let vc = chars_of(value);
    let mut out = String::new();
    let mut i: usize = 0;
    while i < vc.len()
        invariant
            i <= vc@.len(),
            out@ == vc@.take(i as int).filter(not_ws()),
        decreases vc@.len() - i,
    {
        let c = vc[i];
        proof {
            reveal_with_fuel(Seq::filter, 1);
            assert(vc@.take(i + 1).drop_last() =~= vc@.take(i as int));
        }
        if !is_whitespace(c) {
            push_char(&mut out, c);
        }
        i = i + 1;
    }
    assert(vc@.take(vc@.len() as int) =~= vc@);
    out
}

/// Digits right-aligned in `length` bytes of `pad`, with the sign byte first.
fn place_digits_exec(length: usize, pad: u8, digits: &[char], sign: Option<u8>) -> (r: Vec<u8>)
    requires
        digits@.len() <= length,
    ensures
        r@ == place_digits(length as int, pad, digits@, sign),
{
    let start = length - digits.len();
    let mut out: Vec<u8> = Vec::new();
    let mut k: usize = 0;
    while k < length
        invariant
            k <= length,
            start == length - digits@.len(),
            out@ == place_digits(length as int, pad, digits@, sign).take(k as int),
        decreases length - k,
    {
        let b = if sign.is_some() && k == 0 {
            sign.unwrap()
        } else if k < start {
            pad
        } else {
            digits[k - start] as u8
        };
        out.push(b);
        k = k + 1;
        assert(out@ =~= place_digits(length as int, pad, digits@, sign).take(k as int));
    }
    assert(out@ =~= place_digits(length as int, pad, digits@, sign));
    out
}

fn parse_hex_chunks(cb: &[u8]) -> (r: Result<Vec<u8>, FieldValueError>)
    requires
        cb@.len() % 2 == 0,
        hex_chunks(cb@, 0) is Some,
    ensures
        r matches Ok(v) ==> hex_chunks(cb@, 0) == Some(Ok::<Seq<u8>, ()>(v@)),
        r matches Err(e) ==> e == FieldValueError::InvalidHex && hex_chunks(cb@, 0) == Some(
            Err::<Seq<u8>, ()>(()),
        ),
{
    let mut out: Vec<u8> = Vec::new();
    let n = cb.len() / 2;
    let mut k: usize = 0;
    while k < n
        invariant
            k <= n,
            n * 2 == cb@.len(),
            cb@.len() == cb.len(),
            hex_chunks(cb@, 0) is Some,
            hex_chunks(cb@, 0) == prefix_parse(out@, hex_chunks(cb@, k as int)),
        decreases n - k,
    {
        let b0 = cb[2 * k];
        let b1 = cb[2 * k + 1];
        match hex_pair_exec(b0, b1) {
            None => {
                return Err(FieldValueError::InvalidHex);
            },
            Some(v) => {
                proof {
                    let rest = hex_chunks(cb@, k + 1);
                    match rest {
                        Some(Ok(s)) => {
                            assert(out@.push(v) + s =~= out@ + (seq![v] + s));
                        },
                        _ => {},
                    }
                }
                out.push(v);
                k = k + 1;
            },
        }
    }
    assert(out@ + Seq::<u8>::empty() =~= out@);
    Ok(out)
}

/// The sign byte and digits placed in a field, or why they do not fit.
fn place_signed(length: usize, pad: u8, v: &[char], sign: bool, digits: &[char]) -> (r: Result<
    Vec<u8>,
    FieldValueError,
>)
    requires
        sign ==> v@.len() > 0 && length > 0,
    ensures
        r matches Ok(b) ==> digits@.len() <= (if sign {
            length - 1
        } else {
            length as int
        }) && b@ == place_digits(length as int, pad, digits@, sign_byte(v@, sign)),
        r matches Err(e) ==> e == FieldValueError::TooLong && digits@.len() > (if sign {
            length - 1
        } else {
            length as int
        }),
{
    let avail = if sign {
        length - 1
    } else {
        length
    };
    if digits.len() > avail {
        return Err(FieldValueError::TooLong);
    }
    let sb: Option<u8> = if sign {
        Some(v[0] as u8)
    } else {
        None
    };
    Ok(place_digits_exec(length, pad, digits, sb))
}

/// Convert a display string back to raw bytes for storage in the field.
/// For numeric/decimal fields the value is padded with the field's pad byte.
pub fn build_field_bytes(field: &Field, encoding: Encoding, value: &str) -> (r: Result<
    Vec<u8>,
    FieldValueError,
>)
    requires
        build_outcome(*field, encoding, value@) is Some,
    ensures
        r matches Ok(b) ==> build_outcome(*field, encoding, value@) == Some(
            Ok::<Seq<u8>, FieldValueError>(b@),
        ),
        r matches Err(e) ==> build_outcome(*field, encoding, value@) == Some(
            Err::<Seq<u8>, FieldValueError>(e),
        ),
{
    match &field.kind {
        FieldKind::Text { pad } | FieldKind::Filler { pad } => {
            match encoding.encode_fixed(value, field.length, *pad) {
                Some(b) => Ok(b),
                None => Err(FieldValueError::CannotEncode),
            }
        },
        FieldKind::Numeric { pad, signed } => {
            let vc = chars_of(value);
            let v = trim_chars(vc.as_slice());
            let (sign, body) = split_sign(v.as_slice(), *signed);
            if body.len() == 0 || !all_ascii_digits(body.as_slice()) {
                return Err(FieldValueError::NotDigits);
            }
            place_signed(field.length, *pad, v.as_slice(), sign, body.as_slice())
        },
        FieldKind::Decimal { pad, scale, signed } => {
            let vc = chars_of(value);
            let v = trim_chars(vc.as_slice());
            let (sign, body) = split_sign(v.as_slice(), *signed);
            let blen = body.len();
            let (int_part, frac_part) = match position_of(body.as_slice(), '.') {
                Some(p) => {
                    assert(p < blen);
                    let a = slice_range(body.as_slice(), 0, p);
                    let b = slice_range(body.as_slice(), p + 1, blen);
                    assert(a@ =~= body@.take(p as int));
                    assert(b@ =~= body@.skip(p + 1));
                    (a, b)
                },
                None => {
                    assert(body@.subrange(0, body@.len() as int) =~= body@);
                    (slice_range(body.as_slice(), 0, body.len()), Vec::new())
                },
            };
            assert(int_part@ == whole_of(body@));
            assert(frac_part@ =~= frac_of(body@));
            if !all_ascii_digits(int_part.as_slice()) || !all_ascii_digits(frac_part.as_slice()) {
                return Err(FieldValueError::InvalidDecimal);
            }
            // The fraction digits are counted in a `u8` (modulo 256).
            let flen = #[verifier::truncate] (frac_part.len() as u8);
            if flen > *scale {
                return Err(FieldValueError::TooManyFractionDigits { scale: *scale });
            }
            // pad fractional part to `scale` with trailing zeros
            let nz: usize = (*scale - flen) as usize;
            let mut digits0 = int_part;
            let ghost pre = digits0@;
            let mut j: usize = 0;
            while j < frac_part.len()
                invariant
                    j <= frac_part@.len(),
                    digits0@ == pre + frac_part@.take(j as int),
                decreases frac_part@.len() - j,
            {
                digits0.push(frac_part[j]);
                j = j + 1;
                assert(digits0@ =~= pre + frac_part@.take(j as int));
            }
            let ghost pre2 = digits0@;
            let mut z: usize = 0;
            while z < nz
                invariant
                    z <= nz,
                    digits0@ == pre2 + zeros(z as int),
                decreases nz - z,
            {
                digits0.push('0');
                z = z + 1;
                assert(digits0@ =~= pre2 + zeros(z as int));
            }
            assert(frac_part@.take(frac_part@.len() as int) =~= frac_part@);
            let a = trim_start_char_index(digits0.as_slice(), '0');
            let digits = if a == digits0.len() {
                assert(digits0@.skip(a as int).len() == 0);
                let zero: Vec<char> = vec!['0'];
                assert(zero@ =~= seq!['0']);
                zero
            } else {
                let t = slice_range(digits0.as_slice(), a, digits0.len());
                assert(t@ =~= digits0@.skip(a as int));
                t
            };
            place_signed(field.length, *pad, v.as_slice(), sign, digits.as_slice())
        },
        FieldKind::Date { .. } => {
            match validate_value(field, value) {
                Err(e) => return Err(FieldValueError::Invalid(e)),
                Ok(()) => {},
            }
            let bytes = value.as_bytes();
            if bytes.len() != field.length {
                return Err(
                    FieldValueError::DateLength { expected: field.length, actual: bytes.len() },
                );
            }
            Ok(vstd::slice::slice_to_vec(bytes))
        },
        FieldKind::Bytes => {
            let cleaned = non_ws_chars(value);
            let cb = cleaned.as_str().as_bytes();
            if cb.len() != field.length * 2 {
                return Err(
                    FieldValueError::HexLength { expected: field.length * 2, actual: cb.len() },
                );
            }
            parse_hex_chunks(cb)
        },
    }
}


/// Whether the chunk parse of `cb` completes (no chunk that is not UTF-8
/// comes before the first one that is not hex).
fn hex_chunks_complete(cb: &[u8]) -> (r: bool)
    ensures
        r == (hex_chunks(cb@, 0) is Some),
{
    let n = cb.len() / 2;
    let mut k: usize = 0;
    while k < n
        invariant
            k <= n,
            n == cb@.len() / 2,
            cb@.len() == cb.len(),
            (hex_chunks(cb@, 0) is Some) == (hex_chunks(cb@, k as int) is Some),
        decreases n - k,
    {
        let b0 = cb[2 * k];
        let b1 = cb[2 * k + 1];
        proof {
            crate::text::lemma_pair_utf8(b0, b1);
        }
        if !crate::text::pair_is_utf8_exec(b0, b1) {
            return false;
        }
        if hex_pair_exec(b0, b1).is_none() {
            return true;
        }
        k = k + 1;
    }
    true
}

/// Whether `build_field_bytes` completes on these inputs.
pub fn build_defined(field: &Field, encoding: Encoding, value: &str) -> (r: bool)
    ensures
        r == (build_outcome(*field, encoding, value@) is Some),
{
    match &field.kind {
        FieldKind::Text { .. } | FieldKind::Filler { .. } => true,
        FieldKind::Numeric { signed, .. } => {
            let vc = chars_of(value);
            let v = trim_chars(vc.as_slice());
            let (sign, body) = split_sign(v.as_slice(), *signed);
            if body.len() == 0 || !all_ascii_digits(body.as_slice()) {
                return true;
            }
            !(sign && field.length == 0)
        },
        FieldKind::Decimal { scale, signed, .. } => {
            let vc = chars_of(value);
            let v = trim_chars(vc.as_slice());
            let (sign, body) = split_sign(v.as_slice(), *signed);
            let blen = body.len();
            let (int_part, frac_part) = match position_of(body.as_slice(), '.') {
                Some(p) => {
                    let a = slice_range(body.as_slice(), 0, p);
                    let b = slice_range(body.as_slice(), p + 1, blen);
                    assert(a@ =~= body@.take(p as int));
                    assert(b@ =~= body@.skip(p + 1));
                    (a, b)
                },
                None => {
                    assert(body@.subrange(0, body@.len() as int) =~= body@);
                    (slice_range(body.as_slice(), 0, body.len()), Vec::new())
                },
            };
            assert(int_part@ == whole_of(body@));
            assert(frac_part@ =~= frac_of(body@));
            if !all_ascii_digits(int_part.as_slice()) || !all_ascii_digits(frac_part.as_slice()) {
                return true;
            }
            if (#[verifier::truncate] (frac_part.len() as u8)) > *scale {
                return true;
            }
            !(sign && field.length == 0)
        },
        FieldKind::Date { .. } => value_check_is_defined(&field.kind, value),
        FieldKind::Bytes => {
            if field.length > usize::MAX / 2 {
                return false;
            }
            let cleaned = non_ws_chars(value);
            let cb = cleaned.as_str().as_bytes();
            if cb.len() != field.length * 2 {
                return true;
            }
            hex_chunks_complete(cb)
        },
    }
}

proof fn lemma_hex_chunks_len(cb: Seq<u8>, k: int)
    requires
        0 <= k,
        2 * k <= cb.len(),
        cb.len() % 2 == 0,
    ensures
        hex_chunks(cb, k) matches Some(Ok(s)) ==> s.len() == cb.len() / 2 - k,
    decreases cb.len() - 2 * k,
{
    if 2 * k + 2 <= cb.len() {
        lemma_hex_chunks_len(cb, k + 1);
    }
}

/// Every value `build_field_bytes` accepts becomes exactly `field.length` bytes.
pub proof fn lemma_build_length(field: Field, enc: Encoding, value: Seq<char>)
    ensures
        build_outcome(field, enc, value) matches Some(Ok(b)) ==> b.len() == field.length,
{
    match field.kind {
        FieldKind::Bytes => {
            let cleaned = value.filter(|c: char| !is_ws(c));
            let cb = encode_utf8(cleaned);
            if cb.len() == field.length * 2 {
                lemma_hex_chunks_len(cb, 0);
            }
        },
        _ => {},
    }
}


/// The hex digits of `bs` with nothing between the bytes.
pub open spec fn hex_digits(bs: Seq<u8>) -> Seq<char>
    decreases bs.len(),
{
    if bs.len() == 0 {
        Seq::empty()
    } else {
        hex_digits(bs.drop_last()) + hex2(bs.last())
    }
}

proof fn lemma_filter_keeps_all(s: Seq<char>, p: spec_fn(char) -> bool)
    requires
        forall|i: int| 0 <= i < s.len() ==> p(#[trigger] s[i]),
    ensures
        s.filter(p) == s,
    decreases s.len(),
{
    reveal_with_fuel(Seq::filter, 1);
    if s.len() > 0 {
        lemma_filter_keeps_all(s.drop_last(), p);
        assert(s.drop_last().push(s.last()) =~= s);
    }
}

/// A printable ASCII value written to an ASCII-encoded text field with a
/// printable pad character reads back as itself, unless it ends in the pad
/// character (reading strips trailing pad characters).
pub proof fn lemma_text_round_trip(field: Field, value: Seq<char>)
    requires
        field.kind matches FieldKind::Text { pad } && 0x20 <= pad < 0x7f && (value.len() == 0
            || value.last() != pad as char),
        forall|i: int| 0 <= i < value.len() ==> ' ' <= #[trigger] value[i] && value[i] <= '~',
        value.len() <= field.length,
    ensures
        build_outcome(field, Encoding::Ascii, value) matches Some(Ok(b)) && format_outcome(
            field.kind,
            Encoding::Ascii,
            b,
        ) == Some(value),
{
    let pad = field.kind->Text_pad;
    let n = value.len() as int;
    assert(vstd::utf8::is_ascii_chars(value));
    vstd::utf8::is_ascii_chars_encode_utf8(value);
    let e = encode_utf8(value);
    assert(spec_encode_exact(Encoding::Ascii, value) == Some(e));
    let b = e + pad_run(field.length - e.len(), pad);
    assert(spec_encode_fixed(Encoding::Ascii, value, field.length as nat, pad) == Some(b));
    let d = ascii_display(b);
    let p = is_char(pad as char);
    assert forall|j: int| n <= j < d.len() implies p(#[trigger] d[j]) by {
        assert(b[j] == pad);
    }
    assert forall|j: int| 0 <= j < n implies #[trigger] d[j] == value[j] by {
        assert(b[j] == e[j]);
        assert(e[j] == value[j] as u8);
    }
    crate::text::lemma_trim_end_take(d, p, n);
    assert(d.take(n) =~= value);
}

/// Digits written to an unsigned ASCII-encoded numeric field with a
/// printable pad character read back as themselves, unless they start with
/// the pad character (reading strips leading pad characters).
pub proof fn lemma_numeric_round_trip(field: Field, value: Seq<char>)
    requires
        field.kind matches FieldKind::Numeric { pad, signed } && !signed && 0x20 <= pad < 0x7f
            && value.len() > 0 && value[0] != pad as char,
        all_digits(value),
        value.len() <= field.length,
    ensures
        build_outcome(field, Encoding::Ascii, value) matches Some(Ok(b)) && format_outcome(
            field.kind,
            Encoding::Ascii,
            b,
        ) == Some(value),
{
    let pad = field.kind->Numeric_pad;
    let n = value.len() as int;
    let len = field.length as int;
    assert(crate::text::is_digit(value[0]));
    assert(crate::text::is_digit(value[n - 1]));
    crate::text::lemma_trim_start_skip(value, crate::text::ws(), 0);
    assert(value.skip(0) =~= value);
    crate::text::lemma_trim_end_take(value, crate::text::ws(), n);
    assert(value.take(n) =~= value);
    assert(trim_ws(value) == value);
    let b = place_digits(len, pad, value, sign_byte(value, false));
    assert(build_outcome(field, Encoding::Ascii, value) == Some(Ok::<Seq<u8>, FieldValueError>(b)));
    let d = ascii_display(b);
    let p = is_char(pad as char);
    assert forall|j: int| 0 <= j < len - n implies p(#[trigger] d[j]) by {
        assert(b[j] == pad);
    }
    assert forall|j: int| len - n <= j < len implies #[trigger] d[j] == value[j - (len - n)] by {
        assert(crate::text::is_digit(value[j - (len - n)]));
        assert(b[j] == value[j - (len - n)] as u8);
    }
    crate::text::lemma_trim_start_skip(d, p, len - n);
    assert(d.skip(len - n) =~= value);
}

/// Where `trim_start_by` cuts: the first index not satisfying `p`.
proof fn lemma_trim_start_index(s: Seq<char>, p: spec_fn(char) -> bool) -> (k: int)
    ensures
        0 <= k <= s.len(),
        forall|j: int| 0 <= j < k ==> p(#[trigger] s[j]),
        k == s.len() || !p(s[k]),
        trim_start_by(s, p) == s.skip(k),
    decreases s.len(),
{
    if s.len() > 0 && p(s[0]) {
        let k1 = lemma_trim_start_index(s.drop_first(), p);
        assert forall|j: int| 0 <= j < k1 + 1 implies p(#[trigger] s[j]) by {
            if j > 0 {
                assert(s[j] == s.drop_first()[j - 1]);
            }
        }
        assert(s.drop_first().skip(k1) =~= s.skip(k1 + 1));
        k1 + 1
    } else {
        assert(s.skip(0) =~= s);
        0
    }
}

/// A text without whitespace is its own `trim`.
proof fn lemma_trim_ws_none(v: Seq<char>)
    requires
        forall|i: int| 0 <= i < v.len() ==> !is_ws(#[trigger] v[i]),
    ensures
        trim_ws(v) == v,
{
    crate::text::lemma_trim_start_skip(v, crate::text::ws(), 0);
    assert(v.skip(0) =~= v);
    crate::text::lemma_trim_end_take(v, crate::text::ws(), v.len() as int);
    assert(v.take(v.len() as int) =~= v);
}

proof fn lemma_first_at(p: spec_fn(int) -> bool, i: int, n: int, k: int)
    requires
        i <= k < n,
        p(k),
        forall|j: int| i <= j < k ==> !#[trigger] p(j),
    ensures
        crate::schema::first_from(p, i, n) == Some(k),
    decreases k - i,
{
    if i < k {
        lemma_first_at(p, i + 1, n, k);
    }
}

proof fn lemma_first_absent(p: spec_fn(int) -> bool, i: int, n: int)
    requires
        forall|j: int| i <= j < n ==> !#[trigger] p(j),
    ensures
        crate::schema::first_from(p, i, n) is None,
    decreases n - i,
{
    if i < n {
        lemma_first_absent(p, i + 1, n);
    }
}

/// ASCII digit bytes shown as characters, with the first `a` of them `'0'`
/// and the rest `t`, are put back by padding `t` with `'0'` bytes.
proof fn lemma_place_back(b: Seq<u8>, a: int, t: Seq<char>)
    requires
        forall|i: int| 0 <= i < b.len() ==> 0x30 <= #[trigger] b[i] <= 0x39,
        0 <= a <= b.len(),
        t == ascii_display(b).skip(a),
        forall|j: int| 0 <= j < a ==> #[trigger] ascii_display(b)[j] == '0',
    ensures
        place_digits(b.len() as int, 0x30, t, None) == b,
{
    let d = ascii_display(b);
    let r = place_digits(b.len() as int, 0x30, t, None);
    assert forall|k: int| 0 <= k < b.len() implies r[k] == b[k] by {
        if k < a {
            assert(d[k] == '0');
            assert(d[k] == b[k] as char);
        } else {
            assert(t[k - a] == d[k]);
        }
    }
    assert(r =~= b);
}

/// Cutting the UTF-8 of ASCII text at `k` cuts between characters, and each
/// side decodes to that side of the text.
proof fn lemma_ascii_cut(ds: Seq<char>, k: int)
    requires
        vstd::utf8::is_ascii_chars(ds),
        0 < k < ds.len(),
    ensures
        is_char_boundary(encode_utf8(ds), k),
        decode_utf8(encode_utf8(ds).take(k)) == ds.take(k),
        decode_utf8(encode_utf8(ds).skip(k)) == ds.skip(k),
{
    let e = encode_utf8(ds);
    vstd::utf8::is_ascii_chars_encode_utf8(ds);
    vstd::utf8::encode_utf8_valid_utf8(ds);
    assert(e[k] == ds[k] as u8);
    vstd::utf8::is_char_boundary_iff_not_is_continuation_byte(e, k);
    let a = ds.take(k);
    let z = ds.skip(k);
    assert(vstd::utf8::is_ascii_chars(a));
    assert(vstd::utf8::is_ascii_chars(z));
    vstd::utf8::is_ascii_chars_encode_utf8(a);
    vstd::utf8::is_ascii_chars_encode_utf8(z);
    assert(encode_utf8(a) =~= e.take(k));
    assert(encode_utf8(z) =~= e.skip(k));
    vstd::utf8::encode_utf8_decode_utf8(a);
    vstd::utf8::encode_utf8_decode_utf8(z);
}

/// The decimal half of `lemma_digits_edit_round_trip`: `digits` (no leading
/// zero, or a lone zero) placed in the field are `b`; shown with the
/// field's scale and built back, they give `b` again.
#[verifier::spinoff_prover]
proof fn lemma_decimal_edit_back(field: Field, b: Seq<u8>, digits: Seq<char>)
    requires
        field.kind matches FieldKind::Decimal { pad, signed, .. } && pad == 0x30 && !signed,
        all_digits(digits),
        1 <= digits.len() <= field.length,
        digits == seq!['0'] || digits[0] != '0',
        place_digits(field.length as int, 0x30, digits, None) == b,
    ensures
        decimal_display(digits, field.kind->Decimal_scale) matches Some(d) && build_outcome(
            field,
            Encoding::Ascii,
            d,
        ) == Some(Ok::<Seq<u8>, FieldValueError>(b)),
{
    let p = is_char('0');
    let len = field.length as int;
    assert forall|i: int| 0 <= i < digits.len() implies !is_ws(#[trigger] digits[i]) && digits[i]
        != '.' && '\0' <= digits[i] <= '\u{7f}' by {
        assert(crate::text::is_digit(digits[i]));
    }
    // Leading zeros of the shown digits, which the build strips again.
    let tz = lemma_trim_start_index(digits, p);
    if digits == seq!['0'] {
        assert(digits.skip(tz) =~= Seq::<char>::empty());
    } else {
        assert(tz == 0);
        assert(digits.skip(0) =~= digits);
    }
    let scale = field.kind->Decimal_scale;
    let n = digits.len() as int;
    lemma_trim_ws_none(digits);
    // The digits before and after the point that are built back
    // equal the shown digits again.
    let back = if scale == 0 {
        lemma_first_absent(crate::value_check::char_pred(digits, '.'), 0, n);
        assert(digits + Seq::<char>::empty() + zeros(0) =~= digits);
        digits
    } else {
        assert(vstd::utf8::is_ascii_chars(digits));
        vstd::utf8::is_ascii_chars_encode_utf8(digits);
        if n <= scale {
            let shown = seq!['0', '.'] + zeros(scale - n) + digits;
            assert(decimal_display(digits, scale) == Some(shown));
            assert forall|i: int| 0 <= i < shown.len() implies !is_ws(#[trigger] shown[i]) by {
                if i >= 2 + scale - n {
                    assert(shown[i] == digits[i - (2 + scale - n)]);
                }
            }
            lemma_trim_ws_none(shown);
            lemma_first_at(crate::value_check::char_pred(shown, '.'), 0, shown.len() as int, 1);
            assert(shown.take(1) =~= seq!['0']);
            assert(shown.skip(2) =~= zeros(scale - n) + digits);
            let d0 = seq!['0'] + (zeros(scale - n) + digits) + zeros(0);
            let z = 1 + scale - n;
            if digits == seq!['0'] {
                crate::text::lemma_trim_start_skip(d0, p, d0.len() as int);
                assert(d0.skip(d0.len() as int) =~= Seq::<char>::empty());
            } else {
                assert forall|j: int| 0 <= j < z implies p(#[trigger] d0[j]) by {}
                assert(d0[z] == digits[0]);
                crate::text::lemma_trim_start_skip(d0, p, z);
                assert(d0.skip(z) =~= digits);
            }
            shown
        } else {
            let split = n - scale;
            lemma_ascii_cut(digits, split);
            let shown = digits.take(split) + seq!['.'] + digits.skip(split);
            assert(decimal_display(digits, scale) == Some(shown));
            assert forall|i: int| 0 <= i < shown.len() implies !is_ws(#[trigger] shown[i]) by {
                if i < split {
                    assert(shown[i] == digits[i]);
                } else if i > split {
                    assert(shown[i] == digits[i - 1]);
                }
            }
            lemma_trim_ws_none(shown);
            assert forall|j: int| 0 <= j < split implies #[trigger] shown[j] != '.' by {
                assert(shown[j] == digits[j]);
                assert(crate::text::is_digit(digits[j]));
            }
            lemma_first_at(crate::value_check::char_pred(shown, '.'), 0, shown.len() as int, split);
            assert(shown.take(split) =~= digits.take(split));
            assert(shown.skip(split + 1) =~= digits.skip(split));
            assert(digits.take(split) + digits.skip(split) + zeros(0) =~= digits);
            crate::text::lemma_trim_start_skip(digits, p, 0);
            assert(digits.skip(0) =~= digits);
            shown
        }
    };
    assert(decimal_display(digits, scale) == Some(back));
    assert(build_outcome(field, Encoding::Ascii, back) == Some(Ok::<Seq<u8>, FieldValueError>(b)));
}

/// Digits shown for an unsigned `'0'`-padded numeric or decimal field,
/// edited back unchanged, give the same bytes.
#[verifier::spinoff_prover]
pub proof fn lemma_digits_edit_round_trip(field: Field, b: Seq<u8>)
    requires
        (field.kind matches FieldKind::Numeric { pad, signed } && pad == 0x30 && !signed)
            || (field.kind matches FieldKind::Decimal { pad, signed, .. } && pad == 0x30 && !signed),
        field.length >= 1,
        b.len() == field.length,
        forall|i: int| 0 <= i < b.len() ==> 0x30 <= #[trigger] b[i] <= 0x39,
    ensures
        format_outcome(field.kind, Encoding::Ascii, b) matches Some(d) && build_outcome(
            field,
            Encoding::Ascii,
            d,
        ) == Some(Ok::<Seq<u8>, FieldValueError>(b)),
{
    let len = b.len() as int;
    let d = ascii_display(b);
    let p = is_char('0');
    assert(is_char(0x30u8 as char) == p);
    let a = lemma_trim_start_index(d, p);
    let t = d.skip(a);
    assert forall|j: int| 0 <= j < d.len() implies crate::text::is_digit(#[trigger] d[j]) by {
        assert(d[j] == b[j] as char);
    }
    assert forall|j: int| 0 <= j < a implies #[trigger] d[j] == '0' by {
        assert(p(d[j]));
    }
    // The digits that are shown: the bytes without their leading zeros, or
    // a lone zero.
    let digits = if t.len() == 0 { seq!['0'] } else { t };
    assert(all_digits(digits));
    assert(t.len() > 0 ==> t[0] != '0');
    if t.len() == 0 {
        assert(t =~= ascii_display(b).skip(len));
        assert(seq!['0'] =~= d.skip(len - 1));
        lemma_place_back(b, len - 1, seq!['0']);
    } else {
        lemma_place_back(b, a, t);
    }
    assert(place_digits(len, 0x30, digits, None) == b);
    assert forall|i: int| 0 <= i < digits.len() implies !is_ws(#[trigger] digits[i]) by {
        assert(crate::text::is_digit(digits[i]));
    }
    match field.kind {
        FieldKind::Numeric { .. } => {
            assert(format_outcome(field.kind, Encoding::Ascii, b) == Some(digits));
            lemma_trim_ws_none(digits);
            assert(sign_byte(digits, false) is None);
            assert(sign_split(digits, false) == (false, digits));
            assert(digits.len() <= len);
            assert(build_outcome(field, Encoding::Ascii, digits) == Some(
                Ok::<Seq<u8>, FieldValueError>(place_digits(len, 0x30, digits, None)),
            ));
            assert(build_outcome(field, Encoding::Ascii, digits) == Some(Ok::<Seq<u8>, FieldValueError>(b)));
        },
        _ => {
            assert(format_outcome(field.kind, Encoding::Ascii, b) == decimal_display(
                digits,
                field.kind->Decimal_scale,
            ));
            lemma_decimal_edit_back(field, b, digits);
        },
    }
}

/// A date value is stored exactly when it passes the field's date check and
/// its UTF-8 is the field's length, and then as its UTF-8 bytes, whatever
/// the field's encoding. (Date checks whose year, month or day do not fit
/// the integers the check counts them in cannot be made; see
/// `value_check_is_defined`.)
pub proof fn lemma_date_build(field: Field, enc: Encoding, value: Seq<char>)
    requires
        field.kind is Date,
        value_check_defined(field.kind, value),
    ensures
        build_outcome(field, enc, value) matches Some(r) && (r is Ok <==> (spec_validate_value(
            field,
            value,
        ) is Ok && encode_utf8(value).len() == field.length)) && (r matches Ok(x) ==> x
            == encode_utf8(value)),
{
}

/// A signed numeric or decimal value written with a leading '+' or '-' is
/// stored with that sign as the field's first byte, and the digits after it.
pub proof fn lemma_signed_value_keeps_sign(field: Field, enc: Encoding, value: Seq<char>)
    requires
        (field.kind matches FieldKind::Numeric { signed, .. } && signed)
            || (field.kind matches FieldKind::Decimal { signed, .. } && signed),
        trim_ws(value).len() > 0,
        trim_ws(value)[0] == '+' || trim_ws(value)[0] == '-',
    ensures
        build_outcome(field, enc, value) matches Some(Ok(b)) ==> b.len() == field.length && b.len()
            > 0 && b[0] == trim_ws(value)[0] as u8 && forall|k: int|
            1 <= k < b.len() ==> 0x30 <= #[trigger] b[k] <= 0x39 || b[k] == field.kind->Numeric_pad
            || b[k] == field.kind->Decimal_pad,
{
    let v = trim_ws(value);
    match build_outcome(field, enc, value) {
        Some(Ok(b)) => {
            let len = field.length as int;
            match field.kind {
                FieldKind::Numeric { pad, signed } => {
                    let body = v.skip(1);
                    assert(sign_split(v, signed) == (true, body));
                    assert(b == place_digits(len, pad, body, Some(v[0] as u8)));
                    assert forall|k: int| 1 <= k < b.len() implies 0x30 <= #[trigger] b[k] <= 0x39
                        || b[k] == pad by {
                        if k >= len - body.len() {
                            assert(crate::text::is_digit(body[k - (len - body.len())]));
                        }
                    }
                },
                FieldKind::Decimal { pad, scale, signed } => {
                    let body = v.skip(1);
                    assert(sign_split(v, signed) == (true, body));
                    let whole = whole_of(body);
                    let frac = frac_of(body);
                    let digits0 = whole + frac + zeros(fraction_zeros(frac.len(), scale));
                    assert(all_digits(digits0)) by {
                        assert forall|i: int| 0 <= i < digits0.len() implies crate::text::is_digit(
                            #[trigger] digits0[i],
                        ) by {
                            if i < whole.len() {
                                assert(digits0[i] == whole[i]);
                            } else if i < whole.len() + frac.len() {
                                assert(digits0[i] == frac[i - whole.len()]);
                            }
                        }
                    }
                    let k = lemma_trim_start_index(digits0, is_char('0'));
                    let t = digits0.skip(k);
                    let digits = if t.len() == 0 {
                        seq!['0']
                    } else {
                        t
                    };
                    assert forall|i: int| 0 <= i < digits.len() implies crate::text::is_digit(
                        #[trigger] digits[i],
                    ) by {
                        if t.len() > 0 {
                            assert(digits[i] == digits0[i + k]);
                        }
                    }
                    assert(b == place_digits(len, pad, digits, Some(v[0] as u8)));
                    assert forall|j: int| 1 <= j < b.len() implies 0x30 <= #[trigger] b[j] <= 0x39
                        || b[j] == pad by {
                        if j >= len - digits.len() {
                            assert(crate::text::is_digit(digits[j - (len - digits.len())]));
                        }
                    }
                },
                _ => {},
            }
        },
        _ => {},
    }
}

proof fn lemma_hex_digit(v: u8)
    requires
        v < 16,
    ensures
        '\0' <= hex_digit(v) <= '\u{7f}',
        !is_ws(hex_digit(v)),
        hex_digit(v) as u8 != 0x2B,
        hex_val(hex_digit(v) as u8) == Some(v),
{
}

/// Removing the spaces from the hex display leaves the digits.
proof fn lemma_hex_join_digits(bs: Seq<u8>)
    ensures
        hex_join(bs).filter(not_ws()) == hex_digits(bs),
    decreases bs.len(),
{
    if bs.len() > 0 {
        let b = bs.last();
        lemma_hex_digit(b / 16);
        lemma_hex_digit(b % 16);
        let h = hex2(b);
        lemma_filter_keeps_all(h, not_ws());
        if bs.len() == 1 {
            assert(bs.drop_last() =~= Seq::<u8>::empty());
            assert(hex_digits(bs.drop_last()) =~= Seq::<char>::empty());
            assert(hex_digits(bs) =~= h);
        } else {
            lemma_hex_join_digits(bs.drop_last());
            let init = hex_join(bs.drop_last());
            Seq::filter_distributes_over_add(init + seq![' '], h, not_ws());
            Seq::filter_distributes_over_add(init, seq![' '], not_ws());
            reveal_with_fuel(Seq::filter, 2);
            assert(seq![' '].filter(not_ws()) =~= Seq::<char>::empty());
            assert(hex_join(bs.drop_last()).filter(not_ws()) + Seq::<char>::empty() =~= hex_digits(
                bs.drop_last(),
            ));
        }
    }
}

proof fn lemma_hex_digits_shape(bs: Seq<u8>)
    ensures
        hex_digits(bs).len() == 2 * bs.len(),
        forall|k: int|
            0 <= k < bs.len() ==> hex_digits(bs)[2 * k] == hex_digit(#[trigger] bs[k] / 16)
                && hex_digits(bs)[2 * k + 1] == hex_digit(bs[k] % 16),
        forall|i: int| 0 <= i < hex_digits(bs).len() ==> '\0' <= #[trigger] hex_digits(bs)[i] <= '\u{7f}',
    decreases bs.len(),
{
    if bs.len() > 0 {
        let init = bs.drop_last();
        lemma_hex_digits_shape(init);
        let b = bs.last();
        lemma_hex_digit(b / 16);
        lemma_hex_digit(b % 16);
        let d = hex_digits(bs);
        assert forall|k: int| 0 <= k < bs.len() implies d[2 * k] == hex_digit(#[trigger] bs[k] / 16)
            && d[2 * k + 1] == hex_digit(bs[k] % 16) by {
            if k < init.len() {
                assert(bs[k] == init[k]);
            }
        }
        assert forall|i: int| 0 <= i < d.len() implies '\0' <= #[trigger] d[i] <= '\u{7f}' by {
            if i < hex_digits(init).len() {
                assert(d[i] == hex_digits(init)[i]);
            }
        }
    }
}

proof fn lemma_hex_chunks_parse(bs: Seq<u8>, cb: Seq<u8>, k: int)
    requires
        0 <= k <= bs.len(),
        cb.len() == 2 * bs.len(),
        forall|j: int|
            0 <= j < bs.len() ==> cb[2 * j] == hex_digit(#[trigger] bs[j] / 16) as u8 && cb[2 * j + 1]
                == hex_digit(bs[j] % 16) as u8,
    ensures
        hex_chunks(cb, k) == Some(Ok::<Seq<u8>, ()>(bs.skip(k))),
    decreases bs.len() - k,
{
    if k < bs.len() {
        lemma_hex_chunks_parse(bs, cb, k + 1);
        let b = bs[k];
        lemma_hex_digit(b / 16);
        lemma_hex_digit(b % 16);
        let b0 = cb[2 * k];
        let b1 = cb[2 * k + 1];
        crate::text::lemma_pair_utf8(b0, b1);
        assert(hex_pair(b0, b1) == Some(b));
        assert(seq![b] + bs.skip(k + 1) =~= bs.skip(k));
    } else {
        assert(bs.skip(k) =~= Seq::<u8>::empty());
    }
}

/// A bytes field shows its bytes in hex, and the hex it shows is read back
/// as the same bytes when edited: display and edit round-trip.
pub proof fn lemma_bytes_display_round_trip(field: Field, enc: Encoding, bytes: Seq<u8>)
    requires
        field.kind == FieldKind::Bytes,
        bytes.len() == field.length,
        field.length * 2 <= usize::MAX,
    ensures
        format_outcome(field.kind, enc, bytes) == Some(hex_join(bytes)),
        build_outcome(field, enc, hex_join(bytes)) == Some(Ok::<Seq<u8>, FieldValueError>(bytes)),
{
    lemma_hex_join_digits(bytes);
    lemma_hex_digits_shape(bytes);
    let cleaned = hex_join(bytes).filter(|c: char| !is_ws(c));
    assert(cleaned == hex_join(bytes).filter(not_ws()));
    let d = hex_digits(bytes);
    assert(vstd::utf8::is_ascii_chars(d));
    vstd::utf8::is_ascii_chars_encode_utf8(d);
    let cb = encode_utf8(d);
    assert forall|j: int| 0 <= j < bytes.len() implies cb[2 * j] == hex_digit(#[trigger] bytes[j] / 16) as u8
        && cb[2 * j + 1] == hex_digit(bytes[j] % 16) as u8 by {
        assert(d[2 * j] as u8 == cb[2 * j]);
        assert(d[2 * j + 1] as u8 == cb[2 * j + 1]);
    }
    lemma_hex_chunks_parse(bytes, cb, 0);
    assert(bytes.skip(0) =~= bytes);
}

} // verus!
