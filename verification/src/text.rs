//! Character-level helpers shared by the codec, the validators and the
//! search/filter logic: whitespace trimming, digit tests, hex rendering and
//! conversions between `&str`, `String` and `Vec<char>`.

use vstd::prelude::*;
use vstd::utf8::{pop_first_scalar, valid_utf8};

verus! {

/// The Unicode `White_Space` property, which is what `char::is_whitespace`
/// (and therefore `str::trim`) tests.
pub open spec fn is_ws(c: char) -> bool {
    ||| ('\u{9}' <= c && c <= '\u{d}')
    ||| c == ' '
    ||| c == '\u{85}'
    ||| c == '\u{a0}'
    ||| c == '\u{1680}'
    ||| ('\u{2000}' <= c && c <= '\u{200a}')
    ||| c == '\u{2028}'
    ||| c == '\u{2029}'
    ||| c == '\u{202f}'
    ||| c == '\u{205f}'
    ||| c == '\u{3000}'
}

pub fn is_whitespace(c: char) -> (b: bool)
    ensures
        b == is_ws(c),
{
    ('\u{9}' <= c && c <= '\u{d}') || c == ' ' || c == '\u{85}' || c == '\u{a0}' || c == '\u{1680}'
        || ('\u{2000}' <= c && c <= '\u{200a}') || c == '\u{2028}' || c == '\u{2029}' || c
        == '\u{202f}' || c == '\u{205f}' || c == '\u{3000}'
}

pub open spec fn is_digit(c: char) -> bool {
    '0' <= c && c <= '9'
}

pub open spec fn all_digits(s: Seq<char>) -> bool {
    forall|i: int| 0 <= i < s.len() ==> #[trigger] is_digit(s[i])
}

pub open spec fn is_ascii_char(c: char) -> bool {
    (c as u32) < 0x80
}

/// Strip leading characters satisfying `p` (as `str::trim_start_matches`).
pub open spec fn trim_start_by(s: Seq<char>, p: spec_fn(char) -> bool) -> Seq<char>
    decreases s.len(),
{
    if s.len() > 0 && p(s[0]) {
        trim_start_by(s.drop_first(), p)
    } else {
        s
    }
}

/// Strip trailing characters satisfying `p` (as `str::trim_end_matches`).
pub open spec fn trim_end_by(s: Seq<char>, p: spec_fn(char) -> bool) -> Seq<char>
    decreases s.len(),
{
    if s.len() > 0 && p(s.last()) {
        trim_end_by(s.drop_last(), p)
    } else {
        s
    }
}

/// `str::trim`: whitespace removed from both ends.
pub open spec fn trim_ws(s: Seq<char>) -> Seq<char> {
    trim_end_by(trim_start_by(s, ws()), ws())
}

pub open spec fn ws() -> spec_fn(char) -> bool {
    |c: char| is_ws(c)
}

pub open spec fn is_char(c: char) -> spec_fn(char) -> bool {
    |x: char| x == c
}

pub proof fn lemma_trim_start_skip(s: Seq<char>, p: spec_fn(char) -> bool, i: int)
    requires
        0 <= i <= s.len(),
        forall|j: int| 0 <= j < i ==> p(#[trigger] s[j]),
        i == s.len() || !p(s[i]),
    ensures
        trim_start_by(s, p) == s.skip(i),
    decreases i,
{
    if i == 0 {
        assert(s.skip(0) =~= s);
    } else {
        assert forall|j: int| 0 <= j < i - 1 implies p(#[trigger] s.drop_first()[j]) by {
            assert(s.drop_first()[j] == s[j + 1]);
        }
        if i - 1 < s.drop_first().len() {
            assert(s.drop_first()[i - 1] == s[i]);
        }
        lemma_trim_start_skip(s.drop_first(), p, i - 1);
        assert(s.drop_first().skip(i - 1) =~= s.skip(i));
    }
}

pub proof fn lemma_trim_end_take(s: Seq<char>, p: spec_fn(char) -> bool, i: int)
    requires
        0 <= i <= s.len(),
        forall|j: int| i <= j < s.len() ==> p(#[trigger] s[j]),
        i == 0 || !p(s[i - 1]),
    ensures
        trim_end_by(s, p) == s.take(i),
    decreases s.len() - i,
{
    if i == s.len() {
        assert(s.take(i) =~= s);
    } else {
        let t = s.drop_last();
        assert forall|j: int| i <= j < t.len() implies p(#[trigger] t[j]) by {
            assert(t[j] == s[j]);
        }
        if i > 0 {
            assert(t[i - 1] == s[i - 1]);
        }
        lemma_trim_end_take(t, p, i);
        assert(t.take(i) =~= s.take(i));
    }
}

/// The characters of a string slice.
pub fn chars_of(s: &str) -> (r: Vec<char>)
    ensures
        r@ == s@,
{
    let mut out: Vec<char> = Vec::new();
    for c in it: s.chars()
        invariant
            out@ == it.seq().take(it.index() as int),
    {
        out.push(c);
    }
    out
}

/// `String::push`: claims that `c` is appended after the characters already
/// in `s`, as std documents.
#[verifier::external_body]
pub(crate) fn push_char(s: &mut String, c: char)
    ensures
        final(s)@ == old(s)@.push(c),
{
    s.push(c);
}

/// A `String` holding exactly the given characters.
pub fn string_from(cs: &[char]) -> (r: String)
    ensures
        r@ == cs@,
{
    let mut out = String::new();
    let mut i: usize = 0;
    while i < cs.len()
        invariant
            i <= cs@.len(),
            out@ == cs@.take(i as int),
        decreases cs@.len() - i,
    {
        push_char(&mut out, cs[i]);
        i = i + 1;
        assert(out@ =~= cs@.take(i as int));
    }
    assert(cs@.take(cs@.len() as int) =~= cs@);
    out
}

/// Append characters to a string.
pub fn push_all(out: &mut String, src: &[char])
    ensures
        final(out)@ == old(out)@ + src@,
{
    let ghost start = out@;
    let ghost cs = src@;
    let mut i: usize = 0;
    while i < src.len()
        invariant
            i <= src@.len(),
            src@ == cs,
            out@ == start + cs.take(i as int),
        decreases src@.len() - i,
    {
        push_char(out, src[i]);
        i = i + 1;
        assert(out@ =~= start + cs.take(i as int));
    }
    assert(cs.take(cs.len() as int) =~= cs);
}

/// Index range `[start, end)` left after stripping whitespace from both ends.
pub fn trim_ws_range(s: &[char]) -> (r: (usize, usize))
    ensures
        r.0 <= r.1 <= s@.len(),
        trim_ws(s@) == s@.subrange(r.0 as int, r.1 as int),
{
    let ghost p = ws();
    let mut a: usize = 0;
    while a < s.len() && is_whitespace(s[a])
        invariant
            a <= s@.len(),
            forall|j: int| 0 <= j < a ==> is_ws(#[trigger] s@[j]),
        decreases s@.len() - a,
    {
        a = a + 1;
    }
    proof {
        lemma_trim_start_skip(s@, p, a as int);
    }
    let mut b: usize = s.len();
    while b > a && is_whitespace(s[b - 1])
        invariant
            a <= b <= s@.len(),
            forall|j: int| b <= j < s@.len() ==> is_ws(#[trigger] s@[j]),
        decreases b,
    {
        b = b - 1;
    }
    proof {
        let t = s@.skip(a as int);
        assert forall|j: int| (b - a) <= j < t.len() implies p(#[trigger] t[j]) by {
            assert(t[j] == s@[j + a]);
        }
        if b > a {
            assert(t[b - a - 1] == s@[b - 1]);
        }
        lemma_trim_end_take(t, p, (b - a) as int);
        assert(t.take((b - a) as int) =~= s@.subrange(a as int, b as int));
    }
    (a, b)
}

/// `str::trim` on a character vector.
pub fn trim_chars(s: &[char]) -> (r: Vec<char>)
    ensures
        r@ == trim_ws(s@),
{
    let (a, b) = trim_ws_range(s);
    slice_range(s, a, b)
}

/// The characters `s[a..b]` as a new vector.
pub fn slice_range(s: &[char], a: usize, b: usize) -> (r: Vec<char>)
    requires
        a <= b <= s@.len(),
    ensures
        r@ == s@.subrange(a as int, b as int),
{
    let mut out: Vec<char> = Vec::new();
    let mut i = a;
    while i < b
        invariant
            a <= i <= b,
            b <= s@.len(),
            out@ == s@.subrange(a as int, i as int),
        decreases b - i,
    {
        out.push(s[i]);
        i = i + 1;
        assert(out@ =~= s@.subrange(a as int, i as int));
    }
    out
}

/// `trim_start_matches(c)`: index of the first character that is not `c`.
pub fn trim_start_char_index(s: &[char], c: char) -> (r: usize)
    ensures
        r <= s@.len(),
        trim_start_by(s@, is_char(c)) == s@.skip(r as int),
{
    let mut a: usize = 0;
    while a < s.len() && s[a] == c
        invariant
            a <= s@.len(),
            forall|j: int| 0 <= j < a ==> #[trigger] s@[j] == c,
        decreases s@.len() - a,
    {
        a = a + 1;
    }
    proof {
        lemma_trim_start_skip(s@, is_char(c), a as int);
    }
    a
}

/// `trim_end_matches(c)`: length of what remains.
pub fn trim_end_char_index(s: &[char], c: char) -> (r: usize)
    ensures
        r <= s@.len(),
        trim_end_by(s@, is_char(c)) == s@.take(r as int),
{
    let mut b: usize = s.len();
    while b > 0 && s[b - 1] == c
        invariant
            b <= s@.len(),
            forall|j: int| b <= j < s@.len() ==> #[trigger] s@[j] == c,
        decreases b,
    {
        b = b - 1;
    }
    proof {
        lemma_trim_end_take(s@, is_char(c), b as int);
    }
    b
}

pub fn is_ascii_digit(c: char) -> (b: bool)
    ensures
        b == is_digit(c),
{
    '0' <= c && c <= '9'
}

pub fn all_ascii_digits(s: &[char]) -> (b: bool)
    ensures
        b == all_digits(s@),
{
    let mut i: usize = 0;
    while i < s.len()
        invariant
            i <= s@.len(),
            forall|j: int| 0 <= j < i ==> #[trigger] is_digit(s@[j]),
        decreases s@.len() - i,
    {
        if !is_ascii_digit(s[i]) {
            return false;
        }
        i = i + 1;
    }
    true
}

pub fn chars_equal(a: &[char], b: &[char]) -> (r: bool)
    ensures
        r == (a@ == b@),
{
    if a.len() != b.len() {
        return false;
    }
    let mut i: usize = 0;
    while i < a.len()
        invariant
            i <= a@.len(),
            a@.len() == b@.len(),
            forall|j: int| 0 <= j < i ==> a@[j] == b@[j],
        decreases a@.len() - i,
    {
        if a[i] != b[i] {
            return false;
        }
        i = i + 1;
    }
    assert(a@ =~= b@);
    true
}

/// Upper-case hexadecimal digit for a value below 16.
pub open spec fn hex_digit(v: u8) -> char {
    if v < 10 {
        ((v + 0x30) as u8) as char
    } else {
        ((v - 10 + 0x41) as u8) as char
    }
}

pub fn hex_digit_exec(v: u8) -> (c: char)
    requires
        v < 16,
    ensures
        c == hex_digit(v),
{
    if v < 10 {
        (v + 0x30) as char
    } else {
        (v - 10 + 0x41) as char
    }
}

/// `format!("{:02X}", b)` as two characters.
pub open spec fn hex2(b: u8) -> Seq<char> {
    seq![hex_digit(b / 16), hex_digit(b % 16)]
}

/// Two-digit upper-case hex of every byte, separated by single spaces
/// (`format!("{:02X}")` joined with `" "`).
pub open spec fn hex_join(bs: Seq<u8>) -> Seq<char>
    decreases bs.len(),
{
    if bs.len() == 0 {
        Seq::empty()
    } else if bs.len() == 1 {
        hex2(bs[0])
    } else {
        hex_join(bs.drop_last()) + seq![' '] + hex2(bs.last())
    }
}

pub fn hex_join_string(bs: &[u8]) -> (r: String)
    ensures
        r@ == hex_join(bs@),
{
    let mut out = String::new();
    let mut i: usize = 0;
    while i < bs.len()
        invariant
            i <= bs@.len(),
            out@ == hex_join(bs@.take(i as int)),
        decreases bs@.len() - i,
    {
        let b = bs[i];
        if i > 0 {
            push_char(&mut out, ' ');
        }
        push_char(&mut out, hex_digit_exec(b / 16));
        push_char(&mut out, hex_digit_exec(b % 16));
        proof {
            let t = bs@.take(i + 1);
            assert(t.drop_last() =~= bs@.take(i as int));
            assert(t.last() == b);
            if i == 0 {
                assert(out@ =~= hex2(b));
            } else {
                assert(out@ =~= hex_join(bs@.take(i as int)) + seq![' '] + hex2(b));
            }
        }
        i = i + 1;
    }
    assert(bs@.take(bs@.len() as int) =~= bs@);
    out
}


/// A two-byte chunk is valid UTF-8: two ASCII bytes, or one two-byte
/// character.
pub open spec fn pair_is_utf8(b0: u8, b1: u8) -> bool {
    ||| (b0 <= 0x7f && b1 <= 0x7f)
    ||| (0xc2 <= b0 && b0 <= 0xdf && 0x80 <= b1 && b1 <= 0xbf)
}

proof fn lemma_single_utf8(b: u8)
    ensures
        valid_utf8(seq![b]) == (b <= 0x7f),
{
    let s = seq![b];
    reveal_with_fuel(valid_utf8, 2);
    if b <= 0x7f {
        assert((b & 0x7f) as u32 <= 0x7f) by (bit_vector);
        assert(pop_first_scalar(s) =~= Seq::<u8>::empty());
    }
}

/// `pair_is_utf8` is what `str::from_utf8` accepts of two bytes.
pub proof fn lemma_pair_utf8(b0: u8, b1: u8)
    ensures
        valid_utf8(seq![b0, b1]) == pair_is_utf8(b0, b1),
{
    let s = seq![b0, b1];
    reveal_with_fuel(valid_utf8, 3);
    if b0 <= 0x7f {
        assert((b0 & 0x7f) as u32 <= 0x7f) by (bit_vector);
        assert(pop_first_scalar(s) =~= seq![b1]);
        lemma_single_utf8(b1);
    } else if 0xc0 <= b0 && b0 <= 0xdf {
        if 0x80 <= b1 && b1 <= 0xbf {
            assert((((b0 & 0x1f) as u32) << 6u32) | ((b1 & 0x3f) as u32) <= 0x7ff) by (bit_vector);
            assert(0x80 <= ((((b0 & 0x1f) as u32) << 6u32) | ((b1 & 0x3f) as u32)) <==> b0 >= 0xc2)
                by (bit_vector)
                requires
                    0xc0 <= b0 <= 0xdf,
                    0x80 <= b1 <= 0xbf,
            ;
            assert(pop_first_scalar(s) =~= Seq::<u8>::empty());
        }
    }
}

pub(crate) fn pair_is_utf8_exec(b0: u8, b1: u8) -> (r: bool)
    ensures
        r == pair_is_utf8(b0, b1),
{
    (b0 <= 0x7f && b1 <= 0x7f) || (0xc2 <= b0 && b0 <= 0xdf && 0x80 <= b1 && b1 <= 0xbf)
}


} // verus!
