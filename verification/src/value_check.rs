//! Checking an edited display value against its field's kind before it is
//! encoded into the record.

use vstd::prelude::*;
use vstd::utf8::encode_utf8;
use crate::schema::{Field, FieldKind, first_from, lemma_first_from_found, lemma_first_from_none};
use crate::text::{all_digits, is_digit, trim_ws, chars_of, trim_chars, all_ascii_digits, slice_range};

verus! {

broadcast use vstd::utf8::group_utf8_lib;

#[derive(Clone, Copy, Debug, PartialEq, Eq, Structural)]
pub enum ValueError {
    /// Only digits are allowed.
    NotDigits,
    /// The value does not fit in a field of this length.
    TooLong { length: usize },
    /// Not a valid fixed-point decimal.
    InvalidDecimal,
    /// More fractional digits (counted modulo 256) than the field's scale.
    TooManyFractionDigits { scale: u8 },
    /// The date and its format differ in length.
    DateLengthMismatch,
    /// A non-digit where the format has Y, M or D.
    DateNonDigit,
    /// The date does not have the format's literal character here.
    DateLiteralMismatch { expected: char, found: char },
    /// The format lacks one of Y, M, D.
    DateMissingPart,
    MonthOutOfRange { month: u32 },
    DayOutOfRange { day: u32 },
}

/// Sign handling shared by numeric and decimal values: whether a leading
/// '+' or '-' is taken as the sign, and the rest.
pub open spec fn sign_split(s: Seq<char>, signed: bool) -> (bool, Seq<char>) {
    if signed && s.len() > 0 && (s[0] == '+' || s[0] == '-') {
        (true, s.skip(1))
    } else {
        (false, s)
    }
}

pub open spec fn char_pred(s: Seq<char>, c: char) -> spec_fn(int) -> bool {
    |i: int| s[i] == c
}

/// Index of the first `c` in `s`.
pub open spec fn find_char(s: Seq<char>, c: char) -> Option<int> {
    first_from(char_pred(s, c), 0, s.len() as int)
}

/// `(integer part, fractional part, more than one '.')` of a decimal body.
pub open spec fn decimal_parts(body: Seq<char>) -> (Seq<char>, Seq<char>, bool) {
    match find_char(body, '.') {
        None => (body, Seq::empty(), false),
        Some(p) => {
            let frac = body.skip(p + 1);
            (body.take(p), frac, find_char(frac, '.') is Some)
        },
    }
}

/// State of the left-to-right scan of a date against its format.
pub struct DateScan {
    pub y: int,
    pub m: int,
    pub d: int,
    pub yc: nat,
    pub mc: nat,
    pub dc: nat,
    pub err: Option<ValueError>,
}

pub open spec fn digit_val(c: char) -> int {
    (c as int) - ('0' as int)
}

pub open spec fn date_step(vc: char, fc: char, st: DateScan) -> DateScan {
    if fc == 'Y' {
        if !is_digit(vc) {
            DateScan { err: Some(ValueError::DateNonDigit), ..st }
        } else {
            DateScan { y: st.y * 10 + digit_val(vc), yc: st.yc + 1, ..st }
        }
    } else if fc == 'M' {
        if !is_digit(vc) {
            DateScan { err: Some(ValueError::DateNonDigit), ..st }
        } else {
            DateScan { m: st.m * 10 + digit_val(vc), mc: st.mc + 1, ..st }
        }
    } else if fc == 'D' {
        if !is_digit(vc) {
            DateScan { err: Some(ValueError::DateNonDigit), ..st }
        } else {
            DateScan { d: st.d * 10 + digit_val(vc), dc: st.dc + 1, ..st }
        }
    } else if vc != fc {
        DateScan { err: Some(ValueError::DateLiteralMismatch { expected: fc, found: vc }), ..st }
    } else {
        st
    }
}

pub open spec fn date_init() -> DateScan {
    DateScan { y: 0, m: 0, d: 0, yc: 0, mc: 0, dc: 0, err: None }
}

/// Scan value and format character by character (as far as the shorter
/// one goes), stopping at the first error.
pub open spec fn date_scan(v: Seq<char>, f: Seq<char>, i: int, st: DateScan) -> DateScan
    decreases v.len() - i,
{
    if i < 0 || i >= v.len() || i >= f.len() || st.err is Some {
        st
    } else {
        date_scan(v, f, i + 1, date_step(v[i], f[i], st))
    }
}

pub open spec fn is_leap(y: int) -> bool {
    (y % 4 == 0 && y % 100 != 0) || y % 400 == 0
}

pub open spec fn days_in_month(m: int, y: int) -> int {
    if m == 1 || m == 3 || m == 5 || m == 7 || m == 8 || m == 10 || m == 12 {
        31
    } else if m == 4 || m == 6 || m == 9 || m == 11 {
        30
    } else if is_leap(y) {
        29
    } else {
        28
    }
}

/// The scan's numbers fit the integer types the check accumulates them in
/// (the year in an `i32`, month and day in `u32`).
pub open spec fn date_scan_fits(value: Seq<char>, format: Seq<char>) -> bool {
    let st = date_scan(value, format, 0, date_init());
    encode_utf8(value).len() == encode_utf8(format).len() ==> (st.y <= i32::MAX && st.m
        <= u32::MAX && st.d <= u32::MAX)
}

pub open spec fn spec_validate_date(value: Seq<char>, format: Seq<char>) -> Result<(), ValueError> {
    if encode_utf8(value).len() != encode_utf8(format).len() {
        Err(ValueError::DateLengthMismatch)
    } else {
        let st = date_scan(value, format, 0, date_init());
        if st.err is Some {
            Err(st.err->0)
        } else if st.yc == 0 || st.mc == 0 || st.dc == 0 {
            Err(ValueError::DateMissingPart)
        } else if !(1 <= st.m <= 12) {
            Err(ValueError::MonthOutOfRange { month: st.m as u32 })
        } else if !(1 <= st.d <= days_in_month(st.m, st.y)) {
            Err(ValueError::DayOutOfRange { day: st.d as u32 })
        } else {
            Ok(())
        }
    }
}

/// Inputs on which checking `value` against `kind` completes.
pub open spec fn value_check_defined(kind: FieldKind, value: Seq<char>) -> bool {
    match kind {
        FieldKind::Date { format } => date_scan_fits(value, format@),
        _ => true,
    }
}

pub open spec fn spec_validate_value(field: Field, value: Seq<char>) -> Result<(), ValueError> {
    match field.kind {
        FieldKind::Text { .. } | FieldKind::Filler { .. } | FieldKind::Bytes => Ok(()),
        FieldKind::Numeric { signed, .. } => {
            let s = trim_ws(value);
            let (sign, body) = sign_split(s, signed);
            if body.len() == 0 || !all_digits(body) {
                Err(ValueError::NotDigits)
            } else if (if sign {
                1int
            } else {
                0int
            }) + body.len() > field.length {
                Err(ValueError::TooLong { length: field.length })
            } else {
                Ok(())
            }
        },
        FieldKind::Decimal { scale, signed, .. } => {
            let (sign, body) = sign_split(trim_ws(value), signed);
            let (int_part, frac, extra_dot) = decimal_parts(body);
            if extra_dot {
                Err(ValueError::InvalidDecimal)
            } else if find_char(body, '.') is None {
                if all_digits(body) {
                    Ok(())
                } else {
                    Err(ValueError::InvalidDecimal)
                }
            } else if !all_digits(int_part) || !all_digits(frac) {
                Err(ValueError::InvalidDecimal)
            // The fraction digits are counted in a `u8` (modulo 256).
            } else if (frac.len() as u8) > scale {
                Err(ValueError::TooManyFractionDigits { scale })
            } else {
                Ok(())
            }
        },
        FieldKind::Date { format } => spec_validate_date(value, format@),
    }
}

/// Sign detection on a trimmed character vector.
pub fn split_sign(s: &[char], signed: bool) -> (r: (bool, Vec<char>))
    ensures
        (r.0, r.1@) == sign_split(s@, signed),
{
    if signed && s.len() > 0 && (s[0] == '+' || s[0] == '-') {
        (true, slice_range(s, 1, s.len()))
    } else {
        assert(s@.subrange(0, s@.len() as int) =~= s@);
        (false, slice_range(s, 0, s.len()))
    }
}

/// Index of the first `c` in `s`, if any.
pub fn position_of(s: &[char], c: char) -> (r: Option<usize>)
    ensures
        r matches Some(p) ==> find_char(s@, c) == Some(p as int) && p < s@.len() && s@[p as int] == c,
        r is None ==> find_char(s@, c) is None,
{
    let ghost p = char_pred(s@, c);
    let mut i: usize = 0;
    while i < s.len()
        invariant
            i <= s@.len(),
            p == char_pred(s@, c),
            first_from(p, 0, s@.len() as int) == first_from(p, i as int, s@.len() as int),
        decreases s@.len() - i,
    {
        if s[i] == c {
            assert(p(i as int));
            return Some(i);
        }
        i = i + 1;
    }
    None
}

/// Validate a candidate edited value against a field's kind.
pub fn validate_value(field: &Field, value: &str) -> (r: Result<(), ValueError>)
    requires
        value_check_defined(field.kind, value@),
    ensures
        r == spec_validate_value(*field, value@),
{
    match &field.kind {
        FieldKind::Text { .. } | FieldKind::Filler { .. } | FieldKind::Bytes => Ok(()),
        FieldKind::Numeric { signed, .. } => {
            let vc = chars_of(value);
            let s = trim_chars(vc.as_slice());
            let (sign, body) = split_sign(s.as_slice(), *signed);
            if body.len() == 0 || !all_ascii_digits(body.as_slice()) {
                return Err(ValueError::NotDigits);
            }
            let too_long = if sign {
                body.len() >= field.length
            } else {
                body.len() > field.length
            };
            if too_long {
                return Err(ValueError::TooLong { length: field.length });
            }
            Ok(())
        },
        FieldKind::Decimal { scale, signed, .. } => {
            let vc = chars_of(value);
            let s = trim_chars(vc.as_slice());
            let (_sign, body) = split_sign(s.as_slice(), *signed);
            match position_of(body.as_slice(), '.') {
                None => {
                    if all_ascii_digits(body.as_slice()) {
                        Ok(())
                    } else {
                        Err(ValueError::InvalidDecimal)
                    }
                },
                Some(p) => {
                    let int_part = slice_range(body.as_slice(), 0, p);
                    let frac = slice_range(body.as_slice(), p + 1, body.len());
                    assert(int_part@ =~= body@.take(p as int));
                    assert(frac@ =~= body@.skip(p + 1));
                    if position_of(frac.as_slice(), '.').is_some() {
                        return Err(ValueError::InvalidDecimal);
                    }
                    if !all_ascii_digits(int_part.as_slice()) || !all_ascii_digits(
                        frac.as_slice(),
                    ) {
                        return Err(ValueError::InvalidDecimal);
                    }
                    if (#[verifier::truncate] (frac.len() as u8)) > *scale {
                        return Err(ValueError::TooManyFractionDigits { scale: *scale });
                    }
                    Ok(())
                },
            }
        },
        FieldKind::Date { format } => validate_date(value, format.as_str()),
    }
}

proof fn lemma_date_scan_monotone(v: Seq<char>, f: Seq<char>, i: int, st: DateScan)
    requires
        st.y >= 0,
        st.m >= 0,
        st.d >= 0,
    ensures
        ({
            let r = date_scan(v, f, i, st);
            &&& st.y <= r.y
            &&& st.m <= r.m
            &&& st.d <= r.d
        }),
    decreases v.len() - i,
{
    if !(i < 0 || i >= v.len() || i >= f.len() || st.err is Some) {
        lemma_date_scan_monotone(v, f, i + 1, date_step(v[i], f[i], st));
    }
}

/// Check a date against a format of Y, M, D placeholders and literal
/// characters.
pub fn validate_date(value: &str, format: &str) -> (r: Result<(), ValueError>)
    requires
        date_scan_fits(value@, format@),
    ensures
        r == spec_validate_date(value@, format@),
{
    if value.as_bytes().len() != format.as_bytes().len() {
        return Err(ValueError::DateLengthMismatch);
    }
    let vs = chars_of(value);
    let fs = chars_of(format);
    let ghost fin = date_scan(vs@, fs@, 0, date_init());
    let (mut y, mut m, mut d): (i32, u32, u32) = (0, 0, 0);
    let (mut yc, mut mc, mut dc): (usize, usize, usize) = (0, 0, 0);
    let n: usize = if vs.len() < fs.len() {
        vs.len()
    } else {
        fs.len()
    };
    let mut i: usize = 0;
    while i < n
        invariant
            i <= n,
            n <= vs@.len(),
            n <= fs@.len(),
            n == vs@.len() || n == fs@.len(),
            fin == date_scan(vs@, fs@, 0, date_init()),
            vs@ == value@,
            fs@ == format@,
            encode_utf8(value@).len() == encode_utf8(format@).len(),
            fin.y <= i32::MAX,
            fin.m <= u32::MAX,
            fin.d <= u32::MAX,
            yc <= i,
            mc <= i,
            dc <= i,
            y >= 0,
            fin == date_scan(
                vs@,
                fs@,
                i as int,
                DateScan {
                    y: y as int,
                    m: m as int,
                    d: d as int,
                    yc: yc as nat,
                    mc: mc as nat,
                    dc: dc as nat,
                    err: None,
                },
            ),
        decreases n - i,
    {
        let vc = vs[i];
        let fc = fs[i];
        let ghost st = DateScan {
            y: y as int,
            m: m as int,
            d: d as int,
            yc: yc as nat,
            mc: mc as nat,
            dc: dc as nat,
            err: None,
        };
        let ghost nx = date_step(vc, fc, st);
        proof {
            assert(date_scan(vs@, fs@, i as int, st) == date_scan(vs@, fs@, i + 1, nx));
            lemma_date_scan_monotone(vs@, fs@, i + 1, nx);
            if nx.err is Some {
                assert(date_scan(vs@, fs@, i + 1, nx) == nx);
            }
        }
        if fc == 'Y' {
            if !(vc >= '0' && vc <= '9') {
                return Err(ValueError::DateNonDigit);
            }
            let dv = (vc as u32 - '0' as u32) as i32;
            y = y * 10 + dv;
            yc = yc + 1;
        } else if fc == 'M' {
            if !(vc >= '0' && vc <= '9') {
                return Err(ValueError::DateNonDigit);
            }
            m = m * 10 + (vc as u32 - '0' as u32);
            mc = mc + 1;
        } else if fc == 'D' {
            if !(vc >= '0' && vc <= '9') {
                return Err(ValueError::DateNonDigit);
            }
            d = d * 10 + (vc as u32 - '0' as u32);
            dc = dc + 1;
        } else if vc != fc {
            return Err(ValueError::DateLiteralMismatch { expected: fc, found: vc });
        }
        i = i + 1;
    }
    if yc == 0 || mc == 0 || dc == 0 {
        return Err(ValueError::DateMissingPart);
    }
    if !(1 <= m && m <= 12) {
        return Err(ValueError::MonthOutOfRange { month: m });
    }
    let leap = (y % 4 == 0 && y % 100 != 0) || y % 400 == 0;
    let days_in_month: u32 = if m == 1 || m == 3 || m == 5 || m == 7 || m == 8 || m == 10 || m
        == 12 {
        31
    } else if m == 4 || m == 6 || m == 9 || m == 11 {
        30
    } else if leap {
        29
    } else {
        28
    };
    if !(1 <= d && d <= days_in_month) {
        return Err(ValueError::DayOutOfRange { day: d });
    }
    Ok(())
}

/// Whether checking `value` against `format` stays within the integer types
/// the check accumulates year, month and day in.
pub fn date_check_fits(value: &str, format: &str) -> (r: bool)
    ensures
        r == date_scan_fits(value@, format@),
{
    if value.as_bytes().len() != format.as_bytes().len() {
        return true;
    }
    let vs = chars_of(value);
    let fs = chars_of(format);
    let ghost fin = date_scan(vs@, fs@, 0, date_init());
    let (mut y, mut m, mut d): (u64, u64, u64) = (0, 0, 0);
    let ghost mut yc: nat = 0;
    let ghost mut mc: nat = 0;
    let ghost mut dc: nat = 0;
    let n: usize = if vs.len() < fs.len() {
        vs.len()
    } else {
        fs.len()
    };
    let mut i: usize = 0;
    while i < n
        invariant
            i <= n,
            n <= vs@.len(),
            n <= fs@.len(),
            n == vs@.len() || n == fs@.len(),
            vs@ == value@,
            fs@ == format@,
            encode_utf8(value@).len() == encode_utf8(format@).len(),
            fin == date_scan(vs@, fs@, 0, date_init()),
            y <= i32::MAX,
            m <= u32::MAX,
            d <= u32::MAX,
            fin == date_scan(
                vs@,
                fs@,
                i as int,
                DateScan { y: y as int, m: m as int, d: d as int, yc, mc, dc, err: None },
            ),
        decreases n - i,
    {
        let vc = vs[i];
        let fc = fs[i];
        let ghost st = DateScan { y: y as int, m: m as int, d: d as int, yc, mc, dc, err: None };
        let ghost nx = date_step(vc, fc, st);
        proof {
            assert(date_scan(vs@, fs@, i as int, st) == date_scan(vs@, fs@, i + 1, nx));
            lemma_date_scan_monotone(vs@, fs@, i + 1, nx);
            if nx.err is Some {
                assert(date_scan(vs@, fs@, i + 1, nx) == nx);
            }
        }
        let is_part = fc == 'Y' || fc == 'M' || fc == 'D';
        if is_part && !(vc >= '0' && vc <= '9') {
            return true;
        }
        if !is_part && vc != fc {
            return true;
        }
        if is_part {
            let dv = (vc as u32 - '0' as u32) as u64;
            if fc == 'Y' {
                y = y * 10 + dv;
                proof { yc = yc + 1; }
                if y > i32::MAX as u64 {
                    return false;
                }
            } else if fc == 'M' {
                m = m * 10 + dv;
                proof { mc = mc + 1; }
                if m > u32::MAX as u64 {
                    return false;
                }
            } else {
                d = d * 10 + dv;
                proof { dc = dc + 1; }
                if d > u32::MAX as u64 {
                    return false;
                }
            }
        }
        i = i + 1;
    }
    true
}

/// Whether checking `value` against `kind` completes.
pub fn value_check_is_defined(kind: &FieldKind, value: &str) -> (r: bool)
    ensures
        r == value_check_defined(*kind, value@),
{
    match kind {
        FieldKind::Date { format } => date_check_fits(value, format.as_str()),
        _ => true,
    }
}

} // verus!
