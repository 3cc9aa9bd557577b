//! Text and bytes: reading UTF-8, comparing strings, and turning ASCII bytes
//! into text.

use crate::decimal::{decimal, lemma_decimal_digits, push_decimal};
use vstd::prelude::*;
use vstd::string::StringSliceAdditionalSpecFns;
use vstd::utf8::{
    decode_utf8, encode_utf8, encode_utf8_decode_utf8, encode_utf8_valid_utf8, is_ascii_chars,
    is_ascii_chars_encode_utf8, valid_utf8,
};

verus! {

/// Every byte of `bytes` is below 128.
pub open spec fn is_ascii_bytes(bytes: Seq<u8>) -> bool {
    forall|i: int| 0 <= i < bytes.len() ==> #[trigger] bytes[i] < 0x80
}

/// The characters that ASCII bytes stand for, one per byte.
pub open spec fn ascii_chars(bytes: Seq<u8>) -> Seq<char> {
    Seq::new(bytes.len(), |i: int| bytes[i] as char)
}

/// ASCII bytes are UTF-8, and they encode the characters they stand for.
pub proof fn lemma_ascii_is_utf8(bytes: Seq<u8>)
    requires
        is_ascii_bytes(bytes),
    ensures
        valid_utf8(bytes),
        decode_utf8(bytes) == ascii_chars(bytes),
        encode_utf8(ascii_chars(bytes)) == bytes,
{
    let chars = ascii_chars(bytes);
    assert(is_ascii_chars(chars)) by {
        assert forall|i: int| 0 <= i < chars.len() implies '\0' <= #[trigger] chars[i]
            <= '\u{7f}' by {
            assert(bytes[i] < 0x80);
        }
    }
    is_ascii_chars_encode_utf8(chars);
    assert(encode_utf8(chars) =~= bytes) by {
        assert forall|i: int| 0 <= i < bytes.len() implies encode_utf8(chars)[i] == bytes[i] by {
            assert(chars[i] as u8 == encode_utf8(chars)[i]);
            assert(bytes[i] < 0x80);
        }
    }
    encode_utf8_valid_utf8(chars);
    encode_utf8_decode_utf8(chars);
}

/// `std::str::from_utf8`: the bytes as text where they are valid UTF-8, and
/// nothing where they are not. The text returned has exactly the bytes given.
#[verifier::external_body]
pub(crate) fn utf8_text(bytes: &[u8]) -> (r: Option<&str>)
    ensures
        r is Some <==> valid_utf8(bytes@),
        r matches Some(s) ==> s.spec_bytes() == bytes@,
{
    std::str::from_utf8(bytes).ok()
}

/// Reads bytes as text; `None` where they are not valid UTF-8.
pub fn text_of(bytes: &[u8]) -> (r: Option<String>)
    ensures
        r is Some <==> valid_utf8(bytes@),
        r matches Some(s) ==> s@ == decode_utf8(bytes@),
{
    match utf8_text(bytes) {
        Some(s) => {
            proof {
                encode_utf8_decode_utf8(s@);
            }
            Some(s.to_owned())
        },
        None => None,
    }
}

/// Reads ASCII bytes as text.
pub fn ascii_text(bytes: &[u8]) -> (s: String)
    requires
        is_ascii_bytes(bytes@),
    ensures
        s@ == ascii_chars(bytes@),
{
    proof {
        lemma_ascii_is_utf8(bytes@);
    }
    match text_of(bytes) {
        Some(s) => s,
        None => String::new(),
    }
}

/// A number as decimal text.
pub fn decimal_text(n: u64) -> (text: String)
    ensures
        text@ == ascii_chars(decimal(n as nat)),
{
    let mut digits: Vec<u8> = Vec::new();
    push_decimal(&mut digits, n);
    proof {
        lemma_decimal_digits(n as nat);
        assert(digits@ =~= decimal(n as nat));
    }
    ascii_text(digits.as_slice())
}

/// Whether two sequences of bytes are the same.
pub fn bytes_equal(a: &[u8], b: &[u8]) -> (same: bool)
    ensures
        same == (a@ == b@),
{
    if a.len() != b.len() {
        return false;
    }
    let mut i: usize = 0;
    while i < a.len()
        invariant
            i <= a@.len(),
            a@.len() == b@.len(),
            forall|j: int| 0 <= j < i ==> a@[j] == b@[j],
        decreases a@.len() - i,
    {
        if a[i] != b[i] {
            return false;
        }
        i += 1;
    }
    assert(a@ =~= b@);
    true
}

/// Whether two texts are the same, character for character.
pub fn str_equal(a: &str, b: &str) -> (same: bool)
    ensures
        same == (a@ == b@),
{
    proof {
        encode_utf8_decode_utf8(a@);
        encode_utf8_decode_utf8(b@);
    }
    bytes_equal(a.as_bytes(), b.as_bytes())
}

} // verus!
