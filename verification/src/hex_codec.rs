//! Hexadecimal text, as the `hex` crate reads and writes it.
//!
//! The two calls into `hex` are the only unverified code of this module. What
//! they return is stated in full over the spec functions below, and the
//! round trip between them is proved from those statements.

use vstd::prelude::*;
use vstd::utf8::*;

verus! {

/// Why a text is not the hexadecimal form of a byte string.
#[derive(Debug, Clone, Copy, PartialEq, Eq)]
pub enum HexError {
    /// The byte `c`, at byte offset `index` of the text, is no hex digit.
    InvalidHexCharacter { c: char, index: usize },
    /// The text has an odd number of bytes.
    OddLength,
    /// The text does not fill a container of fixed size.
    InvalidStringLength,
}

/// The value of one hex digit, upper or lower case.
pub open spec fn digit_value(c: u8) -> Option<u8> {
    if 0x30 <= c <= 0x39 {
        Some((c - 0x30) as u8)
    } else if 0x61 <= c <= 0x66 {
        Some((c - 0x61 + 10) as u8)
    } else if 0x41 <= c <= 0x46 {
        Some((c - 0x41 + 10) as u8)
    } else {
        None
    }
}

/// Every byte of `text` is a hex digit.
pub open spec fn all_digits(text: Seq<u8>) -> bool {
    forall|i: int| 0 <= i < text.len() ==> (#[trigger] digit_value(text[i])) is Some
}

/// `text` is the hex form of some byte string.
pub open spec fn is_hex(text: Seq<u8>) -> bool {
    text.len() % 2 == 0 && all_digits(text)
}

/// The byte that the digits `hi` and `lo` stand for.
pub open spec fn pair_value(hi: u8, lo: u8) -> u8 {
    (digit_value(hi).unwrap() * 16 + digit_value(lo).unwrap()) as u8
}

/// The bytes that a hex text stands for, two digits to a byte.
pub open spec fn decoded(text: Seq<u8>) -> Seq<u8> {
    Seq::new(text.len() / 2, |i: int| pair_value(text[2 * i], text[2 * i + 1]))
}

/// What decoding `text` gives: the bytes, or the first thing wrong with it.
/// An odd length is reported before any bad digit, and of several bad digits
/// the leftmost.
pub open spec fn decodes_to(text: Seq<u8>, outcome: Result<Seq<u8>, HexError>) -> bool {
    match outcome {
        Ok(bytes) => is_hex(text) && bytes == decoded(text),
        Err(HexError::OddLength) => text.len() % 2 == 1,
        Err(HexError::InvalidHexCharacter { c, index }) => {
            &&& text.len() % 2 == 0
            &&& index < text.len()
            &&& digit_value(text[index as int]) is None
            &&& c == text[index as int] as char
            &&& all_digits(text.take(index as int))
        },
        Err(HexError::InvalidStringLength) => false,
    }
}

/// The lower-case digit for a value below sixteen.
pub open spec fn digit_char(n: int) -> char {
    if n < 10 {
        ((0x30 + n) as u8) as char
    } else {
        ((0x61 + n - 10) as u8) as char
    }
}

/// The lower-case hex form of `data`: for each byte its high digit, then its
/// low digit.
pub open spec fn encoded(data: Seq<u8>) -> Seq<char> {
    Seq::new(
        2 * data.len(),
        |i: int| if i % 2 == 0 { digit_char(data[i / 2] as int / 16) } else { digit_char(data[i / 2] as int % 16) },
    )
}

/// Calls `hex::decode` on the text. The claim is the whole of what that
/// function does: it reads the text's UTF-8 bytes, refuses an odd length
/// first, then the leftmost byte that is no hex digit, naming that byte and
/// its offset, and otherwise returns one byte for each pair of digits, in
/// either case of the letters. It never reports a wrong container size.
#[verifier::external_body]
fn hex_decode(text: &str) -> (r: Result<Vec<u8>, HexError>)
    ensures
        decodes_to(
            encode_utf8(text@),
            match r {
                Ok(bytes) => Ok(bytes@),
                Err(e) => Err(e),
            },
        ),
{
    match ::hex::decode(text) {
        Ok(bytes) => Ok(bytes),
        Err(::hex::FromHexError::InvalidHexCharacter { c, index }) => Err(
            HexError::InvalidHexCharacter { c, index },
        ),
        Err(::hex::FromHexError::OddLength) => Err(HexError::OddLength),
        Err(::hex::FromHexError::InvalidStringLength) => Err(HexError::InvalidStringLength),
    }
}

/// Calls `hex::encode` on the bytes. The claim is the whole of what that
/// function does: two lower-case digits for each byte, high digit first.
#[verifier::external_body]
fn hex_encode(data: &[u8]) -> (text: String)
    ensures
        text@ == encoded(data@),
{
    ::hex::encode(data)
}

/// Decodes hex text into bytes.
///
/// Succeeds exactly on texts of even length made of hex digits; the error
/// says what is wrong with any other text.
pub fn decode(text: &str) -> (r: Result<Vec<u8>, HexError>)
    ensures
        r is Ok <==> is_hex(encode_utf8(text@)),
        r matches Ok(bytes) ==> bytes@ == decoded(encode_utf8(text@)),
        r matches Err(e) ==> decodes_to(encode_utf8(text@), Err(e)),
{
    hex_decode(text)
}

/// Encodes bytes as lower-case hex text.
pub fn encode(data: &[u8]) -> (text: String)
    ensures
        text@ == encoded(data@),
{
    hex_encode(data)
}

/// The hex form of any byte string is plain ASCII, so its UTF-8 bytes are its
/// characters.
pub proof fn lemma_encoded_bytes(data: Seq<u8>)
    ensures
        is_ascii_chars(encoded(data)),
        encode_utf8(encoded(data)) == Seq::new(2 * data.len(), |i: int| encoded(data)[i] as u8),
{
    let text = encoded(data);
    assert forall|i: int| 0 <= i < text.len() implies (text[i] as nat) < 128 by {
        let n: int = if i % 2 == 0 { data[i / 2] as int / 16 } else { data[i / 2] as int % 16 };
        assert(0 <= n < 16);
        assert(text[i] == digit_char(n));
    }
    is_ascii_chars_encode_utf8(text);
}

/// Decoding undoes encoding: the hex form of `data` is a hex text, and the
/// bytes it stands for are `data`.
pub proof fn lemma_decode_encode(data: Seq<u8>)
    ensures
        is_hex(encode_utf8(encoded(data))),
        decoded(encode_utf8(encoded(data))) == data,
{
    lemma_encoded_bytes(data);
    let text = encoded(data);
    let bytes = encode_utf8(text);
    assert forall|i: int| 0 <= i < bytes.len() implies (#[trigger] digit_value(bytes[i])) is Some by {
        let n: int = if i % 2 == 0 { data[i / 2] as int / 16 } else { data[i / 2] as int % 16 };
        assert(0 <= n < 16);
        assert(text[i] == digit_char(n));
        assert(bytes[i] == text[i] as u8);
    }
    assert forall|k: int| 0 <= k < data.len() implies decoded(bytes)[k] == data[k] by {
        let hi: int = data[k] as int / 16;
        let lo: int = data[k] as int % 16;
        assert(text[2 * k] == digit_char(hi));
        assert(text[2 * k + 1] == digit_char(lo));
        assert(bytes[2 * k] == text[2 * k] as u8);
        assert(bytes[2 * k + 1] == text[2 * k + 1] as u8);
        assert(digit_value(bytes[2 * k]) == Some(hi as u8));
        assert(digit_value(bytes[2 * k + 1]) == Some(lo as u8));
    }
    assert(decoded(bytes) =~= data);
}

} // verus!
