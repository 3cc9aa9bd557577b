//! Equality and order of blocks. Two blocks are equal where index, offset
//! and bytes are; the order looks at index and offset alone.

use crate::peer::blocks::BlockData;
use std::cmp::Ordering;
use vstd::prelude::*;
use vstd::std_specs::cmp::PartialOrdSpec;

verus! {

impl PartialEq for BlockData {
    fn eq(&self, other: &Self) -> (r: bool) {
        let same_bytes = self.block == other.block;
        assert(same_bytes == (self.block@ =~= other.block@));
        self.index == other.index && self.begin == other.begin && same_bytes
    }
}

impl vstd::std_specs::cmp::PartialEqSpecImpl for BlockData {
    open spec fn obeys_eq_spec() -> bool {
        true
    }

    open spec fn eq_spec(&self, other: &Self) -> bool {
        self.index == other.index && self.begin == other.begin && self.block@ == other.block@
    }
}

impl PartialOrd for BlockData {
    fn partial_cmp(&self, other: &Self) -> (r: Option<Ordering>) {
        if self.index < other.index {
            Some(Ordering::Less)
        } else if self.index > other.index {
            Some(Ordering::Greater)
        } else if self.begin < other.begin {
            Some(Ordering::Less)
        } else if self.begin > other.begin {
            Some(Ordering::Greater)
        } else {
            Some(Ordering::Equal)
        }
    }
}

impl vstd::std_specs::cmp::PartialOrdSpecImpl for BlockData {
    open spec fn obeys_partial_cmp_spec() -> bool {
        true
    }

    open spec fn partial_cmp_spec(&self, other: &Self) -> Option<Ordering> {
        if self.index < other.index {
            Some(Ordering::Less)
        } else if self.index > other.index {
            Some(Ordering::Greater)
        } else if self.begin < other.begin {
            Some(Ordering::Less)
        } else if self.begin > other.begin {
            Some(Ordering::Greater)
        } else {
            Some(Ordering::Equal)
        }
    }
}

/// Whether `a` precedes or ties with `b`.
pub fn precedes_or_ties(a: &BlockData, b: &BlockData) -> (r: bool)
    ensures
        r == a@.precedes_or_ties(b@),
{
    proof {
        lemma_order_of_views(*a, *b);
    }
    a <= b
}

/// The order of blocks is the order of their views.
pub proof fn lemma_order_of_views(a: BlockData, b: BlockData)
    ensures
        a@.precedes_or_ties(b@) <==> (a.partial_cmp_spec(&b) matches Some(
            Ordering::Less
            | Ordering::Equal,
        )),
{
}

} // verus!
