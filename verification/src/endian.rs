//! Big-endian 32-bit integers, as the peer wire protocol frames them.

use byteorder::{BigEndian, ByteOrder};
use vstd::prelude::*;

verus! {

/// The four bytes of `x`, most significant first.
pub open spec fn be_bytes(x: u32) -> Seq<u8> {
    seq![
        (x / 0x100_0000) as u8,
        ((x / 0x1_0000) % 0x100) as u8,
        ((x / 0x100) % 0x100) as u8,
        (x % 0x100) as u8,
    ]
}

/// The number that the first four bytes of `s` denote, most significant first.
pub open spec fn be_value(s: Seq<u8>) -> int
    recommends
        s.len() >= 4,
{
    s[0] * 0x100_0000 + s[1] * 0x1_0000 + s[2] * 0x100 + s[3]
}

/// Reading back the four bytes of a number gives the number.
pub proof fn lemma_be_value_of_bytes(x: u32)
    ensures
        be_bytes(x).len() == 4,
        be_value(be_bytes(x)) == x,
{
}

/// Appends the big-endian form of `x` to `out`.
pub fn push_be_u32(out: &mut Vec<u8>, x: u32)
    ensures
        final(out)@ == old(out)@ + be_bytes(x),
{
    let b0: u8 = (x >> 24) as u8;
    let b1: u8 = ((x >> 16) & 0xff) as u8;
    let b2: u8 = ((x >> 8) & 0xff) as u8;
    let b3: u8 = (x & 0xff) as u8;
    proof {
        assert(x >> 24 == x / 0x100_0000) by (bit_vector);
        assert((x >> 16) & 0xff == (x / 0x1_0000) % 0x100) by (bit_vector);
        assert((x >> 8) & 0xff == (x / 0x100) % 0x100) by (bit_vector);
        assert(x & 0xff == x % 0x100) by (bit_vector);
    }
    out.push(b0);
    out.push(b1);
    out.push(b2);
    out.push(b3);
    assert(out@ =~= old(out)@ + be_bytes(x));
}

/// `byteorder::BigEndian::read_u32`: the unsigned 32-bit number held in the
/// first four bytes of `buf`, most significant byte first. The outside
/// function panics on a shorter buffer, which the precondition rules out.
#[verifier::external_body]
pub(crate) fn read_be_u32(buf: &[u8]) -> (x: u32)
    requires
        buf@.len() >= 4,
    ensures
        x == be_value(buf@),
{
    BigEndian::read_u32(buf)
}

} // verus!
