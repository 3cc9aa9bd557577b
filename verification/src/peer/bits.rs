//! The set of blocks received, kept in a `bit_vec::BitVec`.

use bit_vec::BitVec;
use vstd::prelude::*;

verus! {

/// `bit_vec::BitVec`, a vector of bits; nothing of its inside is known here.
#[verifier::external_type_specification]
#[verifier::external_body]
#[verifier::reject_recursive_types(B)]
pub struct ExBitVec<B>(BitVec<B>);

/// The bits of a bit vector, in order.
pub uninterp spec fn bits_of(bits: BitVec<u32>) -> Seq<bool>;

/// Every bit is set.
pub open spec fn all_set(bits: Seq<bool>) -> bool {
    forall|i: int| 0 <= i < bits.len() ==> #[trigger] bits[i]
}

/// `BitVec::from_elem`: a bit vector of `nbits` bits, each of them `bit`.
#[verifier::external_body]
pub(crate) fn bits_from_elem(nbits: usize, bit: bool) -> (bits: BitVec<u32>)
    ensures
        bits_of(bits) == Seq::new(nbits as nat, |i: int| bit),
{
    BitVec::from_elem(nbits, bit)
}

/// `BitVec::len`: the number of bits.
#[verifier::external_body]
pub(crate) fn bits_len(bits: &BitVec<u32>) -> (n: usize)
    ensures
        n == bits_of(*bits).len(),
{
    bits.len()
}

/// `BitVec::set`: the bit at `i` becomes `x` and the others stay. The outside
/// function panics where `i` is out of bounds, which the precondition rules
/// out.
#[verifier::external_body]
pub(crate) fn bits_set(bits: &mut BitVec<u32>, i: usize, x: bool)
    requires
        i < bits_of(*old(bits)).len(),
    ensures
        bits_of(*final(bits)) == bits_of(*old(bits)).update(i as int, x),
{
    bits.set(i, x)
}

/// `BitVec::all`: whether every bit is set.
#[verifier::external_body]
pub(crate) fn bits_all(bits: &BitVec<u32>) -> (all: bool)
    ensures
        all == all_set(bits_of(*bits)),
{
    bits.all()
}

} // verus!
