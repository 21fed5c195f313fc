//! Character encodings of field bytes: Shift_JIS (CP932), UTF-8 and ASCII.
//!
//! Shift_JIS and UTF-8 decoding and Shift_JIS encoding are done by
//! `encoding_rs`; ASCII decoding and UTF-8/ASCII encoding are verified here.

use vstd::prelude::*;
use vstd::utf8::{decode_utf8, encode_utf8, is_ascii_chars, valid_utf8};

verus! {

broadcast use vstd::utf8::group_utf8_lib;

#[derive(Clone, Copy, Debug, PartialEq, Eq, Structural)]
pub enum Encoding {
    ShiftJis,
    Utf8,
    Ascii,
}

impl Default for Encoding {
    fn default() -> (r: Self)
        ensures
            r == Encoding::ShiftJis,
    {
        Encoding::ShiftJis
    }
}

/// The character shown for a byte in ASCII display: printable ASCII as
/// itself, anything else as a middle dot.
pub open spec fn ascii_display_char(b: u8) -> char {
    if 0x20 <= b && b < 0x7f {
        b as char
    } else {
        '\u{b7}'
    }
}

pub open spec fn ascii_display(bytes: Seq<u8>) -> Seq<char> {
    Seq::new(bytes.len(), |i: int| ascii_display_char(bytes[i]))
}

/// Every byte is below 0x80.
pub open spec fn ascii_bytes(bytes: Seq<u8>) -> bool {
    forall|i: int| 0 <= i < bytes.len() ==> #[trigger] bytes[i] < 0x80
}

/// Bytes read one for one as characters.
pub open spec fn bytes_as_chars(bytes: Seq<u8>) -> Seq<char> {
    Seq::new(bytes.len(), |i: int| bytes[i] as char)
}

pub open spec fn has_utf8_bom(bytes: Seq<u8>) -> bool {
    bytes.len() >= 3 && bytes[0] == 0xEF && bytes[1] == 0xBB && bytes[2] == 0xBF
}

/// What `encoding_rs::Encoding::decode` returns (the decoded text) for the
/// Shift_JIS or UTF-8 decoder and the given bytes.
pub uninterp spec fn rs_decode(enc: Encoding, bytes: Seq<u8>) -> Seq<char>;

/// What `encoding_rs::SHIFT_JIS.encode` returns: the encoded bytes and
/// whether some character could not be mapped.
pub uninterp spec fn rs_encode_shift_jis(text: Seq<char>) -> (Seq<u8>, bool);

/// Calls `encoding_rs::Encoding::decode` (on `SHIFT_JIS` or `UTF_8`) and
/// keeps the decoded text. Claims: the result is the named decoding of the
/// bytes; ASCII-only input decodes to the same characters (both decoders are
/// ASCII-compatible and no BOM starts below 0x80); valid UTF-8 without a BOM
/// decodes, under `UTF_8`, to its scalar values.
#[verifier::external_body]
fn decode_with_encoding_rs(enc: Encoding, bytes: &[u8]) -> (r: String)
    requires
        enc != Encoding::Ascii,
    ensures
        r@ == rs_decode(enc, bytes@),
        ascii_bytes(bytes@) ==> r@ == bytes_as_chars(bytes@),
        enc == Encoding::Utf8 && valid_utf8(bytes@) && !has_utf8_bom(bytes@) ==> r@
            == decode_utf8(bytes@),
{
    let e = match enc {
        Encoding::ShiftJis => encoding_rs::SHIFT_JIS,
        _ => encoding_rs::UTF_8,
    };
    e.decode(bytes).0.into_owned()
}

/// Calls `encoding_rs::SHIFT_JIS.encode` and keeps the bytes and the
/// "had unmappable characters" flag. Claims: the result is the named
/// encoding of the text, and ASCII text encodes to its own bytes without
/// errors.
#[verifier::external_body]
fn shift_jis_encode(text: &str) -> (r: (Vec<u8>, bool))
    ensures
        (r.0@, r.1) == rs_encode_shift_jis(text@),
        is_ascii_chars(text@) ==> r.0@ == encode_utf8(text@) && !r.1,
{
    let (out, _, had_unmappable) = encoding_rs::SHIFT_JIS.encode(text);
    (out.into_owned(), had_unmappable)
}

/// Display text of `bytes` in `enc`.
pub open spec fn spec_decode(enc: Encoding, bytes: Seq<u8>) -> Seq<char> {
    match enc {
        Encoding::Ascii => ascii_display(bytes),
        _ => rs_decode(enc, bytes),
    }
}

/// Exact bytes of `text` in `enc`, or `None` when some character has no
/// representation.
pub open spec fn spec_encode_exact(enc: Encoding, text: Seq<char>) -> Option<Seq<u8>> {
    match enc {
        Encoding::ShiftJis => if rs_encode_shift_jis(text).1 {
            None
        } else {
            Some(rs_encode_shift_jis(text).0)
        },
        Encoding::Utf8 => Some(encode_utf8(text)),
        Encoding::Ascii => if is_ascii_chars(text) {
            Some(encode_utf8(text))
        } else {
            None
        },
    }
}

/// `len` copies of `pad`.
pub open spec fn pad_run(len: int, pad: u8) -> Seq<u8> {
    Seq::new(len as nat, |i: int| pad)
}

/// The exact encoding right-padded with `pad` to `len` bytes, or `None`
/// when it cannot be encoded or is longer than `len`.
pub open spec fn spec_encode_fixed(enc: Encoding, text: Seq<char>, len: nat, pad: u8) -> Option<
    Seq<u8>,
> {
    match spec_encode_exact(enc, text) {
        None => None,
        Some(b) => if b.len() > len {
            None
        } else {
            Some(b + pad_run(len - b.len(), pad))
        },
    }
}

/// An exact encoding right-padded with `pad` to `len` bytes; `None` when
/// there is no encoding or it is longer than `len`.
pub fn fit_encoded(encoded: Option<Vec<u8>>, len: usize, pad: u8) -> (r: Option<Vec<u8>>)
    ensures
        match encoded {
            None => r is None,
            Some(e) => if e@.len() > len {
                r is None
            } else {
                r matches Some(v) && v@ == e@ + pad_run(len - e@.len(), pad)
            },
        },
{
    let encoded = match encoded {
        Some(e) => e,
        None => return None,
    };
    if encoded.len() > len {
        return None;
    }
    let mut buf = encoded;
    let ghost enc = buf@;
    while buf.len() < len
        invariant
            enc.len() <= buf@.len() <= len,
            buf@ == enc + pad_run(buf@.len() - enc.len(), pad),
        decreases len - buf@.len(),
    {
        buf.push(pad);
        assert(buf@ =~= enc + pad_run(buf@.len() - enc.len(), pad));
    }
    Some(buf)
}

impl Encoding {
    pub fn all() -> (r: [Encoding; 3])
        ensures
            r@ == seq![Encoding::ShiftJis, Encoding::Utf8, Encoding::Ascii],
    {
        [Encoding::ShiftJis, Encoding::Utf8, Encoding::Ascii]
    }

    /// Decode bytes to a display string. Invalid sequences are replaced with
    /// U+FFFD; in ASCII, non-printable bytes are shown as a middle dot.
    pub fn decode(self, bytes: &[u8]) -> (r: String)
        ensures
            r@ == spec_decode(self, bytes@),
            self != Encoding::Ascii && ascii_bytes(bytes@) ==> r@ == bytes_as_chars(bytes@),
            self == Encoding::Utf8 && valid_utf8(bytes@) && !has_utf8_bom(bytes@) ==> r@
                == decode_utf8(bytes@),
    {
        match self {
            Encoding::ShiftJis => decode_with_encoding_rs(self, bytes),
            Encoding::Utf8 => decode_with_encoding_rs(self, bytes),
            Encoding::Ascii => {
                let mut out = String::new();
                let mut i: usize = 0;
                while i < bytes.len()
                    invariant
                        i <= bytes@.len(),
                        out@ == ascii_display(bytes@.take(i as int)),
                    decreases bytes@.len() - i,
                {
                    let b = bytes[i];
                    let c = if 0x20 <= b && b < 0x7f {
                        b as char
                    } else {
                        '\u{b7}'
                    };
                    crate::text::push_char(&mut out, c);
                    i = i + 1;
                    assert(out@ =~= ascii_display(bytes@.take(i as int)));
                }
                assert(bytes@.take(bytes@.len() as int) =~= bytes@);
                out
            },
        }
    }

    /// Encode a string to its exact byte representation in this encoding.
    /// Returns `None` if any character cannot be mapped (e.g. emoji in CP932).
    /// Use this for search patterns where padding would corrupt the query.
    pub fn encode_exact(self, text: &str) -> (r: Option<Vec<u8>>)
        ensures
            r matches Some(v) ==> spec_encode_exact(self, text@) == Some(v@),
            r is None ==> spec_encode_exact(self, text@) is None,
    {
        match self {
            Encoding::ShiftJis => {
                let (out, had_unmappable) = shift_jis_encode(text);
                if had_unmappable {
                    return None;
                }
                Some(out)
            },
            Encoding::Utf8 => Some(vstd::slice::slice_to_vec(text.as_bytes())),
            Encoding::Ascii => {
                if !text.is_ascii() {
                    return None;
                }
                Some(vstd::slice::slice_to_vec(text.as_bytes()))
            },
        }
    }

    /// Encode a string into a fixed-length byte buffer.
    /// `pad` byte is appended to the right if the result is shorter than `len`.
    /// Returns `None` if the encoded form would overflow `len`.
    pub fn encode_fixed(self, text: &str, len: usize, pad: u8) -> (r: Option<Vec<u8>>)
        ensures
            r matches Some(v) ==> spec_encode_fixed(self, text@, len as nat, pad) == Some(v@),
            r is None ==> spec_encode_fixed(self, text@, len as nat, pad) is None,
            r matches Some(v) ==> v@.len() == len,
    {
        fit_encoded(self.encode_exact(text), len, pad)
    }

    /// The name shown for this encoding.
    pub fn label(self) -> (r: &'static str)
        ensures
            r@ == (match self {
                Encoding::ShiftJis => "Shift_JIS (CP932)"@,
                Encoding::Utf8 => "UTF-8"@,
                Encoding::Ascii => "ASCII"@,
            }),
    {
        match self {
            Encoding::ShiftJis => "Shift_JIS (CP932)",
            Encoding::Utf8 => "UTF-8",
            Encoding::Ascii => "ASCII",
        }
    }
}

/// Encoding ASCII text with any encoding and decoding the bytes as ASCII
/// gives the text back when every character is printable.
pub proof fn lemma_ascii_round_trip(enc: Encoding, text: Seq<char>)
    requires
        forall|i: int| 0 <= i < text.len() ==> ' ' <= #[trigger] text[i] && text[i] <= '~',
        enc != Encoding::ShiftJis,
    ensures
        spec_encode_exact(enc, text) matches Some(b) && spec_decode(Encoding::Ascii, b) == text,
{
    assert(is_ascii_chars(text));
    vstd::utf8::is_ascii_chars_encode_utf8(text);
    let b = encode_utf8(text);
    assert forall|i: int| 0 <= i < text.len() implies ascii_display(b)[i] == text[i] by {
        assert(b[i] == text[i] as u8);
    }
    assert(ascii_display(b) =~= text);
}

} // verus!
