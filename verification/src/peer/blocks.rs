//! The blocks of a piece as they come in: kept in the order of their piece
//! index and offset, and joined into the piece once all are there.

use crate::peer::order::precedes_or_ties;
use crate::peer::PeerError;
use vstd::prelude::*;
use vstd::seq_lib::{
    to_multiset_build, to_multiset_contains, to_multiset_insert, to_multiset_len,
    to_multiset_remove,
};

verus! {

/// The length of a block in bytes: 2^14.
pub const PIECE_BLOCK_LEN: usize = 16384;

/// A block of a piece: the piece's index, the block's offset in the piece,
/// and its bytes.
#[derive(Debug)]
pub struct BlockData {
    pub index: u32,
    pub begin: u32,
    pub block: Vec<u8>,
}

/// A block as a mathematical value.
pub struct BlockView {
    pub index: u32,
    pub begin: u32,
    pub block: Seq<u8>,
}

impl View for BlockData {
    type V = BlockView;

    open spec fn view(&self) -> BlockView {
        BlockView { index: self.index, begin: self.begin, block: self.block@ }
    }
}

impl BlockView {
    /// The order of blocks: by piece index, then by offset. The bytes play no
    /// part in it.
    pub open spec fn precedes_or_ties(self, other: BlockView) -> bool {
        self.index < other.index || (self.index == other.index && self.begin <= other.begin)
    }
}

/// The blocks of `blocks` as views.
pub open spec fn block_views(blocks: Seq<BlockData>) -> Seq<BlockView> {
    Seq::new(blocks.len(), |i: int| blocks[i]@)
}

/// Each block precedes or ties with those after it.
pub open spec fn ordered(blocks: Seq<BlockView>) -> bool {
    forall|i: int, j: int|
        0 <= i < j < blocks.len() ==> (#[trigger] blocks[i]).precedes_or_ties(#[trigger] blocks[j])
}

/// Where a new block goes: behind the last block that precedes or ties with
/// it.
pub open spec fn insertion_point(blocks: Seq<BlockView>, block: BlockView) -> int
    decreases blocks.len(),
{
    if blocks.len() == 0 {
        0
    } else if blocks.last().precedes_or_ties(block) {
        blocks.len() as int
    } else {
        insertion_point(blocks.drop_last(), block)
    }
}

/// The blocks with a new one put in its place.
pub open spec fn with_block(blocks: Seq<BlockView>, block: BlockView) -> Seq<BlockView> {
    blocks.insert(insertion_point(blocks, block), block)
}

/// The blocks that are kept after `arrivals` came in, in their order of
/// arrival, to `blocks`.
pub open spec fn with_blocks(blocks: Seq<BlockView>, arrivals: Seq<BlockView>) -> Seq<BlockView>
    decreases arrivals.len(),
{
    if arrivals.len() == 0 {
        blocks
    } else {
        with_block(with_blocks(blocks, arrivals.drop_last()), arrivals.last())
    }
}

/// Every block lies where a piece cut into blocks of 2^14 bytes has it: the
/// block at place `i` begins at `i * 2^14`.
pub open spec fn in_place(blocks: Seq<BlockView>) -> bool {
    forall|i: int| 0 <= i < blocks.len() ==> (#[trigger] blocks[i]).begin == i * PIECE_BLOCK_LEN
}

/// The bytes of the blocks, one block after the other.
pub open spec fn joined(blocks: Seq<BlockView>) -> Seq<u8>
    decreases blocks.len(),
{
    if blocks.len() == 0 {
        Seq::empty()
    } else {
        joined(blocks.drop_last()) + blocks.last().block
    }
}

/// The piece that the blocks make up, if each lies in its place.
pub open spec fn assembled(blocks: Seq<BlockView>) -> Option<Seq<u8>> {
    if in_place(blocks) {
        Some(joined(blocks))
    } else {
        None
    }
}

/// The insertion point lies behind all that precede or tie with the new
/// block and before all that come after it.
pub proof fn lemma_insertion_point(blocks: Seq<BlockView>, block: BlockView)
    requires
        ordered(blocks),
    ensures
        0 <= insertion_point(blocks, block) <= blocks.len(),
        forall|i: int|
            0 <= i < insertion_point(blocks, block) ==> (#[trigger] blocks[i]).precedes_or_ties(
                block,
            ),
        forall|i: int|
            insertion_point(blocks, block) <= i < blocks.len() ==> !(#[trigger] blocks[i])
                .precedes_or_ties(block),
    decreases blocks.len(),
{
    if blocks.len() == 0 {
    } else if blocks.last().precedes_or_ties(block) {
        assert forall|i: int| 0 <= i < blocks.len() implies (#[trigger] blocks[i])
            .precedes_or_ties(block) by {
            if i < blocks.len() - 1 {
                assert(blocks[i].precedes_or_ties(blocks[blocks.len() - 1]));
            }
        }
    } else {
        let front = blocks.drop_last();
        assert(ordered(front)) by {
            assert forall|i: int, j: int| 0 <= i < j < front.len() implies (#[trigger] front[i])
                .precedes_or_ties(#[trigger] front[j]) by {
                assert(blocks[i].precedes_or_ties(blocks[j]));
            }
        }
        lemma_insertion_point(front, block);
        assert forall|i: int| 0 <= i < insertion_point(blocks, block) implies (
        #[trigger] blocks[i]).precedes_or_ties(block) by {
            assert(blocks[i] == front[i]);
        }
        assert forall|i: int| insertion_point(blocks, block) <= i < blocks.len() implies !(
        #[trigger] blocks[i]).precedes_or_ties(block) by {
            if i < blocks.len() - 1 {
                assert(blocks[i] == front[i]);
            }
        }
    }
}

/// Putting a block in its place keeps the order.
pub proof fn lemma_with_block_ordered(blocks: Seq<BlockView>, block: BlockView)
    requires
        ordered(blocks),
    ensures
        ordered(with_block(blocks, block)),
{
    lemma_insertion_point(blocks, block);
    let at = insertion_point(blocks, block);
    let after = with_block(blocks, block);
    assert forall|i: int, j: int| 0 <= i < j < after.len() implies (#[trigger] after[i])
        .precedes_or_ties(#[trigger] after[j]) by {
        if j < at {
            assert(after[i] == blocks[i] && after[j] == blocks[j]);
        } else if j == at {
            assert(after[i] == blocks[i]);
        } else if i < at {
            assert(after[i] == blocks[i] && after[j] == blocks[j - 1]);
        } else if i == at {
            assert(after[j] == blocks[j - 1]);
            assert(!blocks[j - 1].precedes_or_ties(block));
        } else {
            assert(after[i] == blocks[i - 1] && after[j] == blocks[j - 1]);
        }
    }
}

/// The blocks of one piece, each in its place.
pub open spec fn blocks_of_piece(piece: Seq<BlockView>) -> bool {
    &&& in_place(piece)
    &&& forall|i: int, j: int|
        0 <= i < piece.len() && 0 <= j < piece.len() ==> (#[trigger] piece[i]).index == (
        #[trigger] piece[j]).index
}

/// The blocks kept are ordered, and they are the blocks that arrived.
pub proof fn lemma_with_blocks(arrivals: Seq<BlockView>)
    ensures
        ordered(with_blocks(Seq::empty(), arrivals)),
        with_blocks(Seq::empty(), arrivals).to_multiset() == arrivals.to_multiset(),
    decreases arrivals.len(),
{
    if arrivals.len() == 0 {
        assert(arrivals =~= Seq::<BlockView>::empty());
    } else {
        let earlier = arrivals.drop_last();
        let kept = with_blocks(Seq::empty(), earlier);
        lemma_with_blocks(earlier);
        lemma_with_block_ordered(kept, arrivals.last());
        lemma_insertion_point(kept, arrivals.last());
        to_multiset_insert(kept, insertion_point(kept, arrivals.last()), arrivals.last());
        to_multiset_build(earlier, arrivals.last());
        assert(earlier.push(arrivals.last()) =~= arrivals);
    }
}

/// Ordered blocks that are, taken together, the blocks of one piece are the
/// blocks of the piece in their places.
pub proof fn lemma_ordered_blocks_are_the_piece(kept: Seq<BlockView>, piece: Seq<BlockView>)
    requires
        ordered(kept),
        blocks_of_piece(piece),
        kept.to_multiset() == piece.to_multiset(),
    ensures
        kept == piece,
    decreases piece.len(),
{
    to_multiset_len(kept);
    to_multiset_len(piece);
    if piece.len() == 0 {
        assert(kept =~= piece);
    } else {
        let n = piece.len() as int;
        to_multiset_contains(kept, piece.last());
        to_multiset_contains(piece, piece.last());
        to_multiset_contains(kept, kept.last());
        to_multiset_contains(piece, kept.last());
        assert(piece.contains(piece.last())) by {
            assert(piece[n - 1] == piece.last());
        }
        assert(kept.contains(kept.last())) by {
            assert(kept[n - 1] == kept.last());
        }
        let k = choose|k: int| 0 <= k < kept.len() && kept[k] == piece.last();
        let j = choose|j: int| 0 <= j < piece.len() && piece[j] == kept.last();
        assert(kept[k].precedes_or_ties(kept[n - 1]) || k == n - 1);
        assert(piece[j].index == piece[n - 1].index);
        assert(piece[j].begin == j * PIECE_BLOCK_LEN);
        assert(piece[n - 1].begin == (n - 1) * PIECE_BLOCK_LEN);
        assert(j == n - 1);
        assert(kept.last() == piece.last());
        to_multiset_remove(kept, n - 1);
        to_multiset_remove(piece, n - 1);
        assert(kept.remove(n - 1) =~= kept.drop_last());
        assert(piece.remove(n - 1) =~= piece.drop_last());
        let kept_front = kept.drop_last();
        let piece_front = piece.drop_last();
        assert(ordered(kept_front)) by {
            assert forall|a: int, b: int| 0 <= a < b < kept_front.len() implies (
            #[trigger] kept_front[a]).precedes_or_ties(#[trigger] kept_front[b]) by {
                assert(kept[a].precedes_or_ties(kept[b]));
            }
        }
        assert(blocks_of_piece(piece_front)) by {
            assert forall|a: int| 0 <= a < piece_front.len() implies (
            #[trigger] piece_front[a]).begin == a * PIECE_BLOCK_LEN by {
                assert(piece[a].begin == a * PIECE_BLOCK_LEN);
            }
            assert forall|a: int, b: int|
                0 <= a < piece_front.len() && 0 <= b < piece_front.len() implies (
            #[trigger] piece_front[a]).index == (#[trigger] piece_front[b]).index by {
                assert(piece[a].index == piece[b].index);
            }
        }
        lemma_ordered_blocks_are_the_piece(kept_front, piece_front);
        assert(kept =~= kept_front.push(kept.last()));
        assert(piece =~= piece_front.push(piece.last()));
    }
}

/// The order in which the blocks of a piece arrive does not matter: whatever
/// it is, the blocks kept are the blocks of the piece in the order of their
/// offsets, and they join into the piece.
pub proof fn lemma_arrival_order_is_immaterial(arrivals: Seq<BlockView>, piece: Seq<BlockView>)
    requires
        blocks_of_piece(piece),
        arrivals.to_multiset() == piece.to_multiset(),
    ensures
        with_blocks(Seq::empty(), arrivals) == piece,
        assembled(with_blocks(Seq::empty(), arrivals)) == Some(joined(piece)),
{
    lemma_with_blocks(arrivals);
    lemma_ordered_blocks_are_the_piece(with_blocks(Seq::empty(), arrivals), piece);
}

/// Puts a block in its place among the blocks kept.
pub fn insert_block(blocks: &mut Vec<BlockData>, block: BlockData)
    ensures
        block_views(final(blocks)@) == with_block(block_views(old(blocks)@), block@),
{
    let ghost views = block_views(blocks@);
    let mut at: usize = blocks.len();
    assert(views.take(at as int) =~= views);
    while at > 0 && !precedes_or_ties(&blocks[at - 1], &block)
        invariant
            at <= blocks@.len(),
            blocks@ == old(blocks)@,
            views == block_views(blocks@),
            insertion_point(views, block@) == insertion_point(views.take(at as int), block@),
        decreases at,
    {
        proof {
            assert(views.take(at as int).last() == blocks@[at - 1]@);
            assert(views.take(at as int).drop_last() =~= views.take(at - 1));
        }
        at -= 1;
    }
    proof {
        assert(views.take(blocks@.len() as int) =~= views);
        if at > 0 {
            assert(views.take(at as int).last() == blocks@[at - 1]@);
        }
        assert(insertion_point(views, block@) == at);
    }
    blocks.insert(at, block);
    assert(block_views(blocks@) =~= with_block(views, block@));
}

/// Joins the blocks into the piece they make up. Fails where a block does
/// not lie in its place.
pub fn assemble(blocks: &Vec<BlockData>) -> (r: Result<Vec<u8>, PeerError>)
    ensures
        match (r, assembled(block_views(blocks@))) {
            (Ok(piece), Some(bytes)) => piece@ == bytes,
            (Err(PeerError::DownloadPieceFailed), None) => true,
            _ => false,
        },
{
    let ghost views = block_views(blocks@);
    let mut piece: Vec<u8> = Vec::new();
    let mut i: usize = 0;
    while i < blocks.len()
        invariant
            i <= blocks@.len(),
            views == block_views(blocks@),
            in_place(views.take(i as int)),
            piece@ == joined(views.take(i as int)),
        decreases blocks@.len() - i,
    {
        let block = &blocks[i];
        proof {
            assert(views[i as int] == block@);
            assert(views.take(i + 1).drop_last() =~= views.take(i as int));
        }
        if i > (u32::MAX as usize) / PIECE_BLOCK_LEN || block.begin as usize != i
            * PIECE_BLOCK_LEN {
            assert(views[i as int].begin != i * PIECE_BLOCK_LEN);
            return Err(PeerError::DownloadPieceFailed);
        }
        piece.extend_from_slice(block.block.as_slice());
        i += 1;
        proof {
            let next = views.take(i as int);
            assert forall|j: int| 0 <= j < next.len() implies (#[trigger] next[j]).begin == j
                * PIECE_BLOCK_LEN by {
                if j < i - 1 {
                    assert(next[j] == views.take(i - 1)[j]);
                }
            }
        }
    }
    assert(views.take(i as int) =~= views);
    Ok(piece)
}

} // verus!
