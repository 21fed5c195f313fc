//! Parsing of unsigned integers as `from_str_radix` and `str::parse` read
//! them, with the `0x` / `#` prefixes the editor accepts for hex input, and
//! rendering of counters as decimal text.

use vstd::prelude::*;
use crate::text::{chars_of, trim_chars, trim_ws};

verus! {

/// Value of `c` as a digit in `radix` (`char::to_digit`).
pub open spec fn digit_value(c: char, radix: nat) -> Option<nat> {
    let v: nat = if '0' <= c && c <= '9' {
        (c as nat - '0' as nat) as nat
    } else if 'a' <= c && c <= 'z' {
        (c as nat - 'a' as nat + 10) as nat
    } else if 'A' <= c && c <= 'Z' {
        (c as nat - 'A' as nat + 10) as nat
    } else {
        36
    };
    if v < radix {
        Some(v)
    } else {
        None
    }
}

/// The number written by the digits `s` in `radix`, or `None` when a
/// character is not such a digit.
pub open spec fn digits_value(s: Seq<char>, radix: nat) -> Option<nat>
    decreases s.len(),
{
    if s.len() == 0 {
        Some(0)
    } else {
        match (digits_value(s.drop_last(), radix), digit_value(s.last(), radix)) {
            (Some(v), Some(d)) => Some(v * radix + d),
            _ => None,
        }
    }
}

/// Unsigned `from_str_radix`: an optional `+`, then at least one digit, and
/// a value of at most `max`.
pub open spec fn parse_unsigned(s: Seq<char>, radix: nat, max: nat) -> Option<nat> {
    let body = if s.len() > 0 && s[0] == '+' {
        s.drop_first()
    } else {
        s
    };
    if body.len() == 0 {
        None
    } else {
        match digits_value(body, radix) {
            Some(v) => if v <= max {
                Some(v)
            } else {
                None
            },
            None => None,
        }
    }
}

/// Trimmed text read as hex after a `0x`, `0X` or `#` prefix, else as decimal.
pub open spec fn parse_prefixed(s: Seq<char>, max: nat) -> Option<nat> {
    let t = trim_ws(s);
    if t.len() >= 2 && t[0] == '0' && (t[1] == 'x' || t[1] == 'X') {
        parse_unsigned(t.skip(2), 16, max)
    } else if t.len() >= 1 && t[0] == '#' {
        parse_unsigned(t.skip(1), 16, max)
    } else {
        parse_unsigned(t, 10, max)
    }
}

proof fn lemma_digits_grow(s: Seq<char>, radix: nat, i: int)
    requires
        radix >= 1,
        0 <= i <= s.len(),
        digits_value(s.take(i), radix) is Some,
    ensures
        digits_value(s, radix) matches Some(v) ==> v >= digits_value(s.take(i), radix)->0,
    decreases s.len() - i,
{
    if i < s.len() {
        let t = s.take(i + 1);
        assert(t.drop_last() =~= s.take(i));
        if digits_value(t, radix) is Some {
            let a = digits_value(s.take(i), radix)->0;
            let d = digit_value(t.last(), radix)->0;
            assert(a * radix + d >= a) by (nonlinear_arith)
                requires
                    radix >= 1,
            ;
            lemma_digits_grow(s, radix, i + 1);
        } else {
            lemma_digits_none_extends(s, radix, i + 1);
        }
    } else {
        assert(s.take(i) =~= s);
    }
}

proof fn lemma_digits_none_extends(s: Seq<char>, radix: nat, i: int)
    requires
        0 <= i <= s.len(),
        digits_value(s.take(i), radix) is None,
    ensures
        digits_value(s, radix) is None,
    decreases s.len() - i,
{
    if i < s.len() {
        let t = s.take(i + 1);
        assert(t.drop_last() =~= s.take(i));
        lemma_digits_none_extends(s, radix, i + 1);
    } else {
        assert(s.take(i) =~= s);
    }
}

fn digit_value_exec(c: char, radix: u32) -> (r: Option<u32>)
    requires
        2 <= radix <= 36,
    ensures
        match digit_value(c, radix as nat) {
            Some(v) => r == Some(v as u32),
            None => r is None,
        },
{
    let v: u32 = if '0' <= c && c <= '9' {
        (c as u32) - ('0' as u32)
    } else if 'a' <= c && c <= 'z' {
        (c as u32) - ('a' as u32) + 10
    } else if 'A' <= c && c <= 'Z' {
        (c as u32) - ('A' as u32) + 10
    } else {
        36
    };
    if v < radix {
        Some(v)
    } else {
        None
    }
}

/// `from_str_radix` for an unsigned type whose largest value is `max`.
pub fn parse_unsigned_chars(s: &[char], radix: u32, max: u64) -> (r: Option<u64>)
    requires
        2 <= radix <= 36,
    ensures
        match parse_unsigned(s@, radix as nat, max as nat) {
            Some(v) => r == Some(v as u64),
            None => r is None,
        },
{
    let start: usize = if s.len() > 0 && s[0] == '+' {
        1
    } else {
        0
    };
    let ghost body = if s@.len() > 0 && s@[0] == '+' {
        s@.drop_first()
    } else {
        s@
    };
    assert(body =~= s@.skip(start as int));
    if start == s.len() {
        return None;
    }
    let mut acc: u128 = 0;
    let mut i: usize = start;
    while i < s.len()
        invariant
            start <= i <= s@.len(),
            start < s@.len(),
            body == s@.skip(start as int),
            body == (if s@.len() > 0 && s@[0] == '+' {
                s@.drop_first()
            } else {
                s@
            }),
            2 <= radix <= 36,
            digits_value(body.take(i - start), radix as nat) == Some(acc as nat),
            acc <= max,
        decreases s@.len() - i,
    {
        let ghost pre = body.take(i - start);
        let ghost t = body.take(i - start + 1);
        assert(t.drop_last() =~= pre);
        assert(t.last() == s@[i as int]);
        let d = match digit_value_exec(s[i], radix) {
            Some(d) => d,
            None => {
                proof {
                    lemma_digits_none_extends(body, radix as nat, i - start + 1);
                }
                return None;
            },
        };
        assert(acc * (radix as u128) <= 0xffff_ffff_ffff_ffff * 36) by (nonlinear_arith)
            requires
                acc <= 0xffff_ffff_ffff_ffff,
                radix <= 36,
        ;
        let next: u128 = acc * (radix as u128) + (d as u128);
        assert(digits_value(t, radix as nat) == Some(next as nat));
        i = i + 1;
        if next > max as u128 {
            proof {
                lemma_digits_grow(body, radix as nat, i - start);
            }
            return None;
        }
        acc = next;
    }
    assert(body.take(body.len() as int) =~= body);
    Some(acc as u64)
}

/// Trimmed text as a number of at most `max`: hex after `0x`, `0X` or `#`,
/// decimal otherwise.
pub fn parse_prefixed_number(s: &str, max: u64) -> (r: Option<u64>)
    ensures
        match parse_prefixed(s@, max as nat) {
            Some(v) => r == Some(v as u64),
            None => r is None,
        },
{
    let cs = chars_of(s);
    let t = trim_chars(cs.as_slice());
    if t.len() >= 2 && t[0] == '0' && (t[1] == 'x' || t[1] == 'X') {
        let rest = crate::text::slice_range(t.as_slice(), 2, t.len());
        assert(rest@ =~= t@.skip(2));
        parse_unsigned_chars(rest.as_slice(), 16, max)
    } else if t.len() >= 1 && t[0] == '#' {
        let rest = crate::text::slice_range(t.as_slice(), 1, t.len());
        assert(rest@ =~= t@.skip(1));
        parse_unsigned_chars(rest.as_slice(), 16, max)
    } else {
        parse_unsigned_chars(t.as_slice(), 10, max)
    }
}

/// Decimal digits of `n`, most significant first, without leading zeros.
pub open spec fn decimal_digits(n: nat) -> Seq<char>
    decreases n,
{
    if n < 10 {
        seq![(('0' as nat) + n) as char]
    } else {
        decimal_digits(n / 10) + seq![(('0' as nat) + n % 10) as char]
    }
}

/// `n` written in decimal, as `format!("{}", n)` writes it.
pub fn decimal_string(n: usize) -> (r: Vec<char>)
    ensures
        r@ == decimal_digits(n as nat),
    decreases n,
{
    if n < 10 {
        let c = char_of_digit(n);
        let mut v: Vec<char> = Vec::new();
        v.push(c);
        assert(v@ =~= decimal_digits(n as nat));
        v
    } else {
        let mut v = decimal_string(n / 10);
        let c = char_of_digit(n % 10);
        v.push(c);
        assert(v@ =~= decimal_digits(n as nat));
        v
    }
}

fn char_of_digit(d: usize) -> (c: char)
    requires
        d < 10,
    ensures
        c == (('0' as nat) + d) as char,
{
    if d == 0 { '0' }
    else if d == 1 { '1' }
    else if d == 2 { '2' }
    else if d == 3 { '3' }
    else if d == 4 { '4' }
    else if d == 5 { '5' }
    else if d == 6 { '6' }
    else if d == 7 { '7' }
    else if d == 8 { '8' }
    else { '9' }
}

} // verus!
