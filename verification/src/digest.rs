//! SHA-1 digests and their hexadecimal form.

use sha1_smol::Sha1;
use vstd::prelude::*;

verus! {

/// The SHA-1 digest of `data`: twenty bytes.
pub uninterp spec fn sha1_digest(data: Seq<u8>) -> Seq<u8>;

/// The number of bytes from which on SHA-1's count of bits no longer fits
/// into 64 bits.
pub const SHA1_INPUT_LIMIT: u64 = 0x2000_0000_0000_0000;

/// The lower-case hexadecimal digit of a number below sixteen.
pub open spec fn hex_digit(n: int) -> char {
    if n < 10 {
        (0x30 + n) as char
    } else {
        (0x61 + n - 10) as char
    }
}

/// The bytes in lower-case hexadecimal: two digits for each byte, the high
/// half first.
pub open spec fn hex_chars(data: Seq<u8>) -> Seq<char> {
    Seq::new(
        2 * data.len(),
        |i: int|
            if i % 2 == 0 {
                hex_digit(data[i / 2] as int / 16)
            } else {
                hex_digit(data[i / 2] as int % 16)
            },
    )
}

/// `sha1_smol::Sha1`, fed `data` once and asked for its digest's bytes. The
/// outside code counts the input in bits in a `u64`, which the precondition
/// keeps from overflowing.
#[verifier::external_body]
pub(crate) fn sha1(data: &[u8]) -> (digest: [u8; 20])
    requires
        data@.len() < SHA1_INPUT_LIMIT,
    ensures
        digest@ == sha1_digest(data@),
{
    Sha1::from(data).digest().bytes()
}

/// `hex::encode`: the bytes as a string of lower-case hexadecimal digits, two
/// for each byte.
#[verifier::external_body]
pub(crate) fn hex_encode(data: &[u8]) -> (text: String)
    ensures
        text@ == hex_chars(data@),
{
    hex::encode(data)
}

} // verus!
