//! The download of one piece from one peer. The caller owns the connection:
//! it sends what it is told to send and hands over each message that comes
//! in; what to do next is decided here.

use crate::peer::bits::{all_set, bits_all, bits_from_elem, bits_len, bits_of, bits_set};
use crate::peer::blocks::{
    assemble, assembled, block_views, blocks_of_piece, insert_block, joined,
    lemma_arrival_order_is_immaterial, with_block, with_blocks, BlockData, BlockView,
    PIECE_BLOCK_LEN,
};
use crate::peer::message::{MessageView, PeerMessage};
use crate::peer::{PeerConnection, PeerError};
use crate::digest::{sha1, sha1_digest, SHA1_INPUT_LIMIT};
use crate::text::bytes_equal;
use crate::torrent::InfoView;
use bit_vec::BitVec;
use vstd::prelude::*;
use vstd::seq_lib::to_multiset_contains;

verus! {

/// A piece that was downloaded: its index and its bytes.
#[derive(Debug)]
pub struct PieceData {
    pub index: u32,
    pub piece: Vec<u8>,
}

/// The number of blocks that a piece is asked for in: the piece length in
/// blocks of 2^14 bytes, rounded up.
pub open spec fn block_count(info: InfoView) -> nat {
    (info.piece_length + PIECE_BLOCK_LEN - 1) as nat / (PIECE_BLOCK_LEN as nat)
}

/// The length asked for in the last block of a piece: the last block of the
/// last piece covers what the total length leaves over a whole number of
/// blocks, if it leaves anything; every other block is a whole one.
pub open spec fn last_block_length(info: InfoView, piece_index: u32) -> nat {
    let residual = info.file_type.total_length() % (PIECE_BLOCK_LEN as nat);
    if piece_index + 1 == info.pieces.len() && residual != 0 {
        residual
    } else {
        PIECE_BLOCK_LEN as nat
    }
}

/// Whether the offset of every block of a piece can be written as a `u32`.
pub open spec fn offsets_fit(info: InfoView) -> bool {
    (block_count(info) - 1) * PIECE_BLOCK_LEN <= u32::MAX
}

/// The state of a download: the piece, whether its blocks have been asked
/// for, which of them have come, and those that came, in order.
pub struct PieceDownload {
    piece_index: u32,
    last_length: u32,
    requested: bool,
    piece_received: BitVec<u32>,
    blocks: Vec<BlockData>,
}

/// The state of a download as a mathematical value.
pub struct DownloadView {
    pub piece_index: u32,
    pub last_length: u32,
    pub requested: bool,
    pub received: Seq<bool>,
    pub blocks: Seq<BlockView>,
}

/// What the caller is to do after a message.
#[derive(Debug)]
pub enum DownloadStep {
    /// Read the next message.
    Continue,
    /// Send these requests, then read the next message.
    Request(Vec<PeerMessage>),
    /// Every block has come: assemble the piece.
    Complete,
}

/// A step as a mathematical value.
pub enum StepView {
    Continue,
    Request(Seq<MessageView>),
    Complete,
}

impl View for DownloadStep {
    type V = StepView;

    open spec fn view(&self) -> StepView {
        match self {
            DownloadStep::Continue => StepView::Continue,
            DownloadStep::Request(messages) => StepView::Request(
                Seq::new(messages@.len(), |i: int| messages@[i]@),
            ),
            DownloadStep::Complete => StepView::Complete,
        }
    }
}

impl View for PieceDownload {
    type V = DownloadView;

    closed spec fn view(&self) -> DownloadView {
        DownloadView {
            piece_index: self.piece_index,
            last_length: self.last_length,
            requested: self.requested,
            received: bits_of(self.piece_received),
            blocks: block_views(self.blocks@),
        }
    }
}

impl DownloadView {
    /// The state in which the download of a piece begins.
    pub open spec fn start(info: InfoView, piece_index: u32) -> DownloadView {
        DownloadView {
            piece_index,
            last_length: last_block_length(info, piece_index) as u32,
            requested: false,
            received: Seq::new(block_count(info), |i: int| false),
            blocks: Seq::empty(),
        }
    }

    /// What holds of the state of every download: the offset of each block
    /// of the piece can be written as a `u32`.
    pub open spec fn wf(self) -> bool {
        self.received.len() * PIECE_BLOCK_LEN <= u32::MAX + PIECE_BLOCK_LEN
    }

    /// The request for the block at place `i`.
    pub open spec fn request(self, i: int) -> MessageView {
        MessageView::Request {
            index: self.piece_index,
            begin: (i * PIECE_BLOCK_LEN) as u32,
            length: if i + 1 == self.received.len() {
                self.last_length
            } else {
                PIECE_BLOCK_LEN as u32
            },
        }
    }

    /// The requests for all blocks of the piece, in order.
    pub open spec fn requests(self) -> Seq<MessageView> {
        Seq::new(self.received.len(), |i: int| self.request(i))
    }

    /// The place of the block that begins at `begin`.
    pub open spec fn slot(begin: u32) -> int {
        begin as int / PIECE_BLOCK_LEN as int
    }

    /// The state after a message. An unchoke marks the blocks as asked for. A
    /// block whose place is among the piece's blocks is kept and marked as
    /// come. Nothing else changes the state.
    pub open spec fn after(self, message: Option<MessageView>) -> DownloadView {
        match message {
            Some(MessageView::Unchoke) => DownloadView { requested: true, ..self },
            Some(MessageView::Piece { index, begin, block }) => if Self::slot(begin)
                < self.received.len() {
                DownloadView {
                    received: self.received.update(Self::slot(begin), true),
                    blocks: with_block(self.blocks, BlockView { index, begin, block }),
                    ..self
                }
            } else {
                self
            },
            _ => self,
        }
    }

    /// What the caller is to do after a message. The first unchoke calls for
    /// the requests. A block outside the piece fails the download; the block
    /// with which every block has come completes it.
    pub open spec fn answer(self, message: Option<MessageView>) -> Result<StepView, PeerError> {
        match message {
            Some(MessageView::Unchoke) => if self.requested {
                Ok(StepView::Continue)
            } else {
                Ok(StepView::Request(self.requests()))
            },
            Some(MessageView::Piece { index, begin, block }) => if Self::slot(begin)
                < self.received.len() {
                if all_set(self.after(message).received) {
                    Ok(StepView::Complete)
                } else {
                    Ok(StepView::Continue)
                }
            } else {
                Err(PeerError::DownloadPieceFailed)
            },
            _ => Ok(StepView::Continue),
        }
    }
}

impl DownloadView {
    /// The state after several messages, in their order.
    pub open spec fn after_all(self, messages: Seq<Option<MessageView>>) -> DownloadView
        decreases messages.len(),
    {
        if messages.len() == 0 {
            self
        } else {
            self.after_all(messages.drop_last()).after(messages.last())
        }
    }
}

/// The `Piece` messages that carry blocks.
pub open spec fn as_messages(blocks: Seq<BlockView>) -> Seq<Option<MessageView>> {
    Seq::new(
        blocks.len(),
        |i: int|
            Some(
                MessageView::Piece {
                    index: blocks[i].index,
                    begin: blocks[i].begin,
                    block: blocks[i].block,
                },
            ),
    )
}

/// After blocks that all have a place in the piece, the blocks kept are those
/// that came, each in its place in the order, and the blocks marked as come
/// are those marked before and those whose place a block that came has.
pub proof fn lemma_after_blocks(start: DownloadView, arrivals: Seq<BlockView>)
    requires
        forall|i: int|
            0 <= i < arrivals.len() ==> DownloadView::slot((#[trigger] arrivals[i]).begin)
                < start.received.len(),
    ensures
        start.after_all(as_messages(arrivals)).blocks == with_blocks(start.blocks, arrivals),
        start.after_all(as_messages(arrivals)).received.len() == start.received.len(),
        forall|j: int|
            0 <= j < start.received.len() ==> (#[trigger] start.after_all(
                as_messages(arrivals),
            ).received[j] <==> start.received[j] || exists|i: int|
                0 <= i < arrivals.len() && DownloadView::slot((#[trigger] arrivals[i]).begin) == j),
    decreases arrivals.len(),
{
    if arrivals.len() > 0 {
        let earlier = arrivals.drop_last();
        let last = arrivals.last();
        assert(as_messages(arrivals).drop_last() =~= as_messages(earlier));
        assert forall|i: int| 0 <= i < earlier.len() implies DownloadView::slot(
            (#[trigger] earlier[i]).begin,
        ) < start.received.len() by {
            assert(earlier[i] == arrivals[i]);
        }
        lemma_after_blocks(start, earlier);
        let before = start.after_all(as_messages(earlier));
        let end = start.after_all(as_messages(arrivals));
        assert(arrivals[arrivals.len() - 1] == last);
        assert(end == before.after(as_messages(arrivals).last()));
        assert forall|j: int| 0 <= j < start.received.len() implies (#[trigger] end.received[j]
            <==> start.received[j] || exists|i: int|
            0 <= i < arrivals.len() && DownloadView::slot((#[trigger] arrivals[i]).begin)
                == j) by {
            if before.received[j] && !start.received[j] {
                let i = choose|i: int|
                    0 <= i < earlier.len() && DownloadView::slot((#[trigger] earlier[i]).begin)
                        == j;
                assert(arrivals[i] == earlier[i]);
            }
            if end.received[j] && !before.received[j] {
                assert(DownloadView::slot(arrivals[arrivals.len() - 1].begin) == j);
            }
            if exists|i: int|
                0 <= i < arrivals.len() && DownloadView::slot((#[trigger] arrivals[i]).begin)
                    == j {
                let i = choose|i: int|
                    0 <= i < arrivals.len() && DownloadView::slot((#[trigger] arrivals[i]).begin)
                        == j;
                if i < earlier.len() {
                    assert(earlier[i] == arrivals[i]);
                }
            }
        }
    }
}

/// Block-assembly ordering: whatever the order in which the blocks of a
/// piece come in, once all have come every block is marked, the blocks kept
/// are the blocks of the piece in the order of their offsets, and they join
/// into the piece.
pub proof fn lemma_download_in_any_order(
    start: DownloadView,
    arrivals: Seq<BlockView>,
    piece: Seq<BlockView>,
)
    requires
        start.blocks == Seq::<BlockView>::empty(),
        start.received.len() == piece.len(),
        blocks_of_piece(piece),
        arrivals.to_multiset() == piece.to_multiset(),
    ensures
        all_set(start.after_all(as_messages(arrivals)).received),
        start.after_all(as_messages(arrivals)).blocks == piece,
        assembled(start.after_all(as_messages(arrivals)).blocks) == Some(joined(piece)),
{
    assert forall|i: int| 0 <= i < arrivals.len() implies DownloadView::slot(
        (#[trigger] arrivals[i]).begin,
    ) < start.received.len() by {
        to_multiset_contains(arrivals, arrivals[i]);
        to_multiset_contains(piece, arrivals[i]);
        assert(arrivals.contains(arrivals[i]));
        let j = choose|j: int| 0 <= j < piece.len() && piece[j] == arrivals[i];
        assert(piece[j].begin == j * PIECE_BLOCK_LEN);
    }
    lemma_after_blocks(start, arrivals);
    lemma_arrival_order_is_immaterial(arrivals, piece);
    let end = start.after_all(as_messages(arrivals));
    assert forall|j: int| 0 <= j < end.received.len() implies #[trigger] end.received[j] by {
        to_multiset_contains(arrivals, piece[j]);
        to_multiset_contains(piece, piece[j]);
        assert(piece.contains(piece[j]));
        let i = choose|i: int| 0 <= i < arrivals.len() && arrivals[i] == piece[j];
        assert(piece[j].begin == j * PIECE_BLOCK_LEN);
        assert(DownloadView::slot(arrivals[i].begin) == j);
    }
}

impl PieceDownload {
    /// The number of blocks of the piece.
    fn block_number(&self) -> (n: usize)
        ensures
            n == self@.received.len(),
    {
        bits_len(&self.piece_received)
    }

    /// Joins the blocks that came into the piece. Fails where they do not lie
    /// one behind the other from the start of the piece.
    pub fn assemble(&self) -> (r: Result<PieceData, PeerError>)
        ensures
            match (r, assembled(self@.blocks)) {
                (Ok(data), Some(bytes)) => data.index == self@.piece_index && data.piece@ == bytes,
                (Err(PeerError::DownloadPieceFailed), None) => true,
                _ => false,
            },
    {
        match assemble(&self.blocks) {
            Ok(piece) => Ok(PieceData { index: self.piece_index, piece }),
            Err(e) => Err(e),
        }
    }
}

/// Whether `piece` is the piece of `info` at `index`: there is such a piece,
/// and the SHA-1 digest of the bytes is the one that the torrent names for
/// it. Bytes too many for SHA-1 are no piece.
pub open spec fn is_piece(info: InfoView, index: u32, piece: Seq<u8>) -> bool {
    &&& index < info.pieces.len()
    &&& piece.len() < SHA1_INPUT_LIMIT
    &&& sha1_digest(piece) == info.pieces[index as int]
}

impl<'a> PeerConnection<'a> {
    /// Checks a downloaded piece against the digest that the torrent names
    /// for it.
    pub fn verify_piece(&self, data: &PieceData) -> (r: Result<(), PeerError>)
        ensures
            match r {
                Ok(()) => is_piece(self.info()@, data.index, data.piece@),
                Err(PeerError::PieceHashMismatch) => !is_piece(
                    self.info()@,
                    data.index,
                    data.piece@,
                ),
                Err(_) => false,
            },
    {
        if data.index as u64 >= self.info_table.pieces.len() as u64 {
            return Err(PeerError::PieceHashMismatch);
        }
        if data.piece.len() as u64 >= SHA1_INPUT_LIMIT {
            return Err(PeerError::PieceHashMismatch);
        }
        let digest = sha1(data.piece.as_slice());
        let expected = &self.info_table.pieces[data.index as usize];
        assert(self.info()@.pieces[data.index as int] == expected@);
        if bytes_equal(digest.as_slice(), expected.as_slice()) {
            Ok(())
        } else {
            Err(PeerError::PieceHashMismatch)
        }
    }

    /// Begins the download of a piece: gives the state in which it begins
    /// and the message to send first, which is `Interested`. After that the
    /// caller hands each message that comes in to `handle_message`. Fails
    /// where the piece is so long that a block's offset does not fit the
    /// protocol.
    pub fn begin_piece(&self, piece_index: u32) -> (r: Result<
        (PieceDownload, PeerMessage),
        PeerError,
    >)
        ensures
            match r {
                Ok((download, first)) => offsets_fit(self.info()@) && download@
                    == DownloadView::start(self.info()@, piece_index) && download@.wf() && first@
                    == MessageView::Interested,
                Err(PeerError::DownloadPieceFailed) => !offsets_fit(self.info()@),
                Err(_) => false,
            },
    {
        proof {
            use_type_invariant(self);
        }
        let piece_len = self.info_table.piece_length;
        let file_size = self.info_table.get_file_length();
        let block_number = piece_len / PIECE_BLOCK_LEN + if piece_len % PIECE_BLOCK_LEN != 0 {
            1usize
        } else {
            0usize
        };
        assert(block_number == block_count(self.info()@));
        if block_number - 1 > (u32::MAX as usize) / PIECE_BLOCK_LEN {
            return Err(PeerError::DownloadPieceFailed);
        }
        let residual = file_size % PIECE_BLOCK_LEN;
        let last_piece = piece_index as u64 + 1 == self.info_table.pieces.len() as u64;
        let last_length: u32 = if last_piece && residual != 0 {
            residual as u32
        } else {
            PIECE_BLOCK_LEN as u32
        };
        assert(self.info()@.pieces.len() == self.info_table.pieces@.len());
        let download = PieceDownload {
            piece_index,
            last_length,
            requested: false,
            piece_received: bits_from_elem(block_number, false),
            blocks: Vec::new(),
        };
        assert(download@.blocks =~= Seq::<BlockView>::empty());
        Ok((download, PeerMessage::Interested))
    }

    /// Takes a message that came in, or `None` for a keep-alive, and says
    /// what to do next. A bitfield is remembered with the session.
    pub fn handle_message(
        &mut self,
        download: &mut PieceDownload,
        message: Option<PeerMessage>,
    ) -> (r: Result<DownloadStep, PeerError>)
        requires
            old(download)@.wf(),
        ensures
            final(download)@.wf(),
            final(download)@ == old(download)@.after(
                match message {
                    Some(m) => Some(m@),
                    None => None,
                },
            ),
            match (
                r,
                old(download)@.answer(
                    match message {
                        Some(m) => Some(m@),
                        None => None,
                    },
                ),
            ) {
                (Ok(step), Ok(s)) => step@ == s,
                (Err(e), Err(x)) => e == x,
                _ => false,
            },
            final(self).info() == old(self).info(),
            final(self).remote_id() == old(self).remote_id(),
            final(self).bitfield_view() == match message {
                Some(PeerMessage::Bitfield(bits)) => Some(bits@),
                _ => old(self).bitfield_view(),
            },
    {
        proof {
            use_type_invariant(&*self);
        }
        match message {
            Some(PeerMessage::Bitfield(bitfield)) => {
                self.bitfield = Some(bitfield);
                Ok(DownloadStep::Continue)
            },
            Some(PeerMessage::Unchoke) => {
                if download.requested {
                    return Ok(DownloadStep::Continue);
                }
                let ghost state = download@;
                let block_number = download.block_number();
                let mut requests: Vec<PeerMessage> = Vec::new();
                let mut i: usize = 0;
                while i < block_number
                    invariant
                        i <= block_number,
                        block_number == state.received.len(),
                        block_number * PIECE_BLOCK_LEN <= u32::MAX + PIECE_BLOCK_LEN,
                        state == download@,
                        requests@.len() == i,
                        forall|j: int| 0 <= j < i ==> (#[trigger] requests@[j])@ == state.request(j),
                    decreases block_number - i,
                {
                    let length = if i + 1 == block_number {
                        download.last_length
                    } else {
                        PIECE_BLOCK_LEN as u32
                    };
                    requests.push(
                        PeerMessage::Request {
                            index: download.piece_index,
                            begin: (i * PIECE_BLOCK_LEN) as u32,
                            length,
                        },
                    );
                    i += 1;
                }
                download.requested = true;
                let step = DownloadStep::Request(requests);
                assert(step@->Request_0 =~= state.requests());
                Ok(step)
            },
            Some(PeerMessage::Piece { index, begin, block }) => {
                let slot = begin as usize / PIECE_BLOCK_LEN;
                if slot >= download.block_number() {
                    return Err(PeerError::DownloadPieceFailed);
                }
                bits_set(&mut download.piece_received, slot, true);
                insert_block(&mut download.blocks, BlockData { index, begin, block });
                if bits_all(&download.piece_received) {
                    Ok(DownloadStep::Complete)
                } else {
                    Ok(DownloadStep::Continue)
                }
            },
            _ => Ok(DownloadStep::Continue),
        }
    }
}

} // verus!
