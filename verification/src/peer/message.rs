//! The messages that follow the handshake. On the wire each is a frame: a
//! big-endian `u32` length, then that many bytes of payload. An empty payload
//! is a keep-alive; otherwise the first payload byte is the message type.

use crate::endian::{be_bytes, be_value, lemma_be_value_of_bytes, push_be_u32, read_be_u32};
use crate::peer::{PeerConnection, PeerError};
use vstd::prelude::*;
use vstd::slice::{slice_subrange, slice_to_vec};

verus! {

/// A peer message.
#[derive(Debug, PartialEq, Eq)]
pub enum PeerMessage {
    Choke,
    Unchoke,
    Interested,
    NotInterested,
    Have(u32),
    Bitfield(Vec<u8>),
    Request { index: u32, begin: u32, length: u32 },
    Piece { index: u32, begin: u32, block: Vec<u8> },
    Cancel { index: u32, begin: u32, length: u32 },
}

/// A peer message as a mathematical value.
pub enum MessageView {
    Choke,
    Unchoke,
    Interested,
    NotInterested,
    Have(u32),
    Bitfield(Seq<u8>),
    Request { index: u32, begin: u32, length: u32 },
    Piece { index: u32, begin: u32, block: Seq<u8> },
    Cancel { index: u32, begin: u32, length: u32 },
}

impl View for PeerMessage {
    type V = MessageView;

    open spec fn view(&self) -> MessageView {
        match self {
            PeerMessage::Choke => MessageView::Choke,
            PeerMessage::Unchoke => MessageView::Unchoke,
            PeerMessage::Interested => MessageView::Interested,
            PeerMessage::NotInterested => MessageView::NotInterested,
            PeerMessage::Have(index) => MessageView::Have(*index),
            PeerMessage::Bitfield(bits) => MessageView::Bitfield(bits@),
            PeerMessage::Request { index, begin, length } => MessageView::Request {
                index: *index,
                begin: *begin,
                length: *length,
            },
            PeerMessage::Piece { index, begin, block } => MessageView::Piece {
                index: *index,
                begin: *begin,
                block: block@,
            },
            PeerMessage::Cancel { index, begin, length } => MessageView::Cancel {
                index: *index,
                begin: *begin,
                length: *length,
            },
        }
    }
}

impl MessageView {
    /// The message type, the first byte of the payload.
    pub open spec fn tag(self) -> u8 {
        match self {
            MessageView::Choke => 0,
            MessageView::Unchoke => 1,
            MessageView::Interested => 2,
            MessageView::NotInterested => 3,
            MessageView::Have(_) => 4,
            MessageView::Bitfield(_) => 5,
            MessageView::Request { .. } => 6,
            MessageView::Piece { .. } => 7,
            MessageView::Cancel { .. } => 8,
        }
    }

    /// What follows the message type in the payload.
    pub open spec fn body(self) -> Seq<u8> {
        match self {
            MessageView::Choke => Seq::empty(),
            MessageView::Unchoke => Seq::empty(),
            MessageView::Interested => Seq::empty(),
            MessageView::NotInterested => Seq::empty(),
            MessageView::Have(index) => be_bytes(index),
            MessageView::Bitfield(bits) => bits,
            MessageView::Request { index, begin, length } => be_bytes(index) + be_bytes(begin)
                + be_bytes(length),
            MessageView::Piece { index, begin, block } => be_bytes(index) + be_bytes(begin) + block,
            MessageView::Cancel { index, begin, length } => be_bytes(index) + be_bytes(begin)
                + be_bytes(length),
        }
    }

    /// The payload of the message's frame: the type, then the body.
    pub open spec fn payload(self) -> Seq<u8> {
        seq![self.tag()] + self.body()
    }

    /// Whether the payload's length can be written as a `u32`.
    pub open spec fn fits_frame(self) -> bool {
        self.payload().len() <= u32::MAX
    }

    /// The whole frame: the payload's length, big-endian, then the payload.
    pub open spec fn frame(self) -> Seq<u8> {
        be_bytes(self.payload().len() as u32) + self.payload()
    }
}

/// What a frame's payload says. An empty payload is a keep-alive and carries
/// no message. A payload that is shorter or longer than its message type
/// allows is reported with its length, an unknown message type as garbage.
pub open spec fn parse_payload(p: Seq<u8>) -> Result<Option<MessageView>, PeerError> {
    let len = p.len() as u32;
    if p.len() == 0 {
        Ok(None)
    } else if p[0] <= 3 {
        if p.len() > 1 {
            Err(PeerError::PeerMessageTooLong(len))
        } else if p[0] == 0 {
            Ok(Some(MessageView::Choke))
        } else if p[0] == 1 {
            Ok(Some(MessageView::Unchoke))
        } else if p[0] == 2 {
            Ok(Some(MessageView::Interested))
        } else {
            Ok(Some(MessageView::NotInterested))
        }
    } else if p[0] == 4 {
        if p.len() < 5 {
            Err(PeerError::PeerMessageTooShort(len))
        } else if p.len() > 5 {
            Err(PeerError::PeerMessageTooLong(len))
        } else {
            Ok(Some(MessageView::Have(be_value(p.subrange(1, 5)) as u32)))
        }
    } else if p[0] == 5 {
        Ok(Some(MessageView::Bitfield(p.skip(1))))
    } else if p[0] == 6 || p[0] == 8 {
        if p.len() < 13 {
            Err(PeerError::PeerMessageTooShort(len))
        } else if p.len() > 13 {
            Err(PeerError::PeerMessageTooLong(len))
        } else {
            let index = be_value(p.subrange(1, 5)) as u32;
            let begin = be_value(p.subrange(5, 9)) as u32;
            let length = be_value(p.subrange(9, 13)) as u32;
            if p[0] == 6 {
                Ok(Some(MessageView::Request { index, begin, length }))
            } else {
                Ok(Some(MessageView::Cancel { index, begin, length }))
            }
        }
    } else if p[0] == 7 {
        if p.len() < 9 {
            Err(PeerError::PeerMessageTooShort(len))
        } else {
            Ok(
                Some(
                    MessageView::Piece {
                        index: be_value(p.subrange(1, 5)) as u32,
                        begin: be_value(p.subrange(5, 9)) as u32,
                        block: p.skip(9),
                    },
                ),
            )
        }
    } else {
        Err(PeerError::TcpStreamGarbageReceived)
    }
}

/// Whether a decoding result says what `parse_payload` says.
pub open spec fn decoded_as(
    r: Result<Option<PeerMessage>, PeerError>,
    expected: Result<Option<MessageView>, PeerError>,
) -> bool {
    match (r, expected) {
        (Ok(None), Ok(None)) => true,
        (Ok(Some(m)), Ok(Some(v))) => m@ == v,
        (Err(e), Err(x)) => e == x,
        _ => false,
    }
}

/// Every message that fits a frame is read back from its own payload.
pub proof fn lemma_parse_payload_of_message(m: MessageView)
    requires
        m.fits_frame(),
    ensures
        parse_payload(m.payload()) == Ok::<Option<MessageView>, PeerError>(Some(m)),
{
    let p = m.payload();
    assert(p[0] == m.tag());
    assert(p.skip(1) =~= m.body());
    match m {
        MessageView::Have(index) => {
            lemma_be_value_of_bytes(index);
            assert(p.subrange(1, 5) =~= be_bytes(index));
        },
        MessageView::Request { index, begin, length } => {
            lemma_be_value_of_bytes(index);
            lemma_be_value_of_bytes(begin);
            lemma_be_value_of_bytes(length);
            assert(p.subrange(1, 5) =~= be_bytes(index));
            assert(p.subrange(5, 9) =~= be_bytes(begin));
            assert(p.subrange(9, 13) =~= be_bytes(length));
        },
        MessageView::Cancel { index, begin, length } => {
            lemma_be_value_of_bytes(index);
            lemma_be_value_of_bytes(begin);
            lemma_be_value_of_bytes(length);
            assert(p.subrange(1, 5) =~= be_bytes(index));
            assert(p.subrange(5, 9) =~= be_bytes(begin));
            assert(p.subrange(9, 13) =~= be_bytes(length));
        },
        MessageView::Piece { index, begin, block } => {
            lemma_be_value_of_bytes(index);
            lemma_be_value_of_bytes(begin);
            assert(p.subrange(1, 5) =~= be_bytes(index));
            assert(p.subrange(5, 9) =~= be_bytes(begin));
            assert(p.skip(9) =~= block);
        },
        _ => {},
    }
}

/// Copies `src` to the end of `out`.
pub(crate) fn push_all(out: &mut Vec<u8>, src: &[u8])
    ensures
        final(out)@ == old(out)@ + src@,
{
    out.extend_from_slice(src);
}

/// Reads the big-endian number at `p[at..at + 4]`.
fn read_field(p: &[u8], at: usize) -> (x: u32)
    requires
        at + 4 <= p@.len(),
    ensures
        x == be_value(p@.subrange(at as int, at + 4)),
{
    let n = p.len();
    read_be_u32(slice_subrange(p, at, at + 4))
}

impl PeerConnection<'_> {
    /// The frame that carries a message: what is sent to the peer for it.
    pub fn message_payload(message: PeerMessage) -> (out: Vec<u8>)
        requires
            message@.fits_frame(),
        ensures
            out@ == message@.frame(),
    {
        let mut out: Vec<u8> = Vec::new();
        match &message {
            PeerMessage::Choke => {
                push_be_u32(&mut out, 1);
                out.push(0);
            },
            PeerMessage::Unchoke => {
                push_be_u32(&mut out, 1);
                out.push(1);
            },
            PeerMessage::Interested => {
                push_be_u32(&mut out, 1);
                out.push(2);
            },
            PeerMessage::NotInterested => {
                push_be_u32(&mut out, 1);
                out.push(3);
            },
            PeerMessage::Have(index) => {
                push_be_u32(&mut out, 5);
                out.push(4);
                push_be_u32(&mut out, *index);
            },
            PeerMessage::Bitfield(bits) => {
                push_be_u32(&mut out, 1 + bits.len() as u32);
                out.push(5);
                push_all(&mut out, bits.as_slice());
            },
            PeerMessage::Request { index, begin, length } => {
                push_be_u32(&mut out, 13);
                out.push(6);
                push_be_u32(&mut out, *index);
                push_be_u32(&mut out, *begin);
                push_be_u32(&mut out, *length);
            },
            PeerMessage::Piece { index, begin, block } => {
                push_be_u32(&mut out, 9 + block.len() as u32);
                out.push(7);
                push_be_u32(&mut out, *index);
                push_be_u32(&mut out, *begin);
                push_all(&mut out, block.as_slice());
            },
            PeerMessage::Cancel { index, begin, length } => {
                push_be_u32(&mut out, 13);
                out.push(8);
                push_be_u32(&mut out, *index);
                push_be_u32(&mut out, *begin);
                push_be_u32(&mut out, *length);
            },
        }
        assert(out@ =~= message@.frame());
        out
    }

    /// The length of the payload that follows the four bytes with which a
    /// frame begins.
    pub fn payload_length(prefix: &[u8; 4]) -> (length: u32)
        ensures
            length == be_value(prefix@),
    {
        read_be_u32(prefix.as_slice())
    }

    /// Reads the message that a frame's payload carries; `None` for the empty
    /// payload of a keep-alive. The payload is what follows the frame's
    /// length, and has that length.
    pub fn receive_decode(p: &[u8]) -> (r: Result<Option<PeerMessage>, PeerError>)
        requires
            p@.len() <= u32::MAX,
        ensures
            decoded_as(r, parse_payload(p@)),
    {
        let n = p.len();
        if n == 0 {
            return Ok(None);
        }
        let len = n as u32;
        let tag = p[0];
        if tag <= 3 {
            if n > 1 {
                Err(PeerError::PeerMessageTooLong(len))
            } else if tag == 0 {
                Ok(Some(PeerMessage::Choke))
            } else if tag == 1 {
                Ok(Some(PeerMessage::Unchoke))
            } else if tag == 2 {
                Ok(Some(PeerMessage::Interested))
            } else {
                Ok(Some(PeerMessage::NotInterested))
            }
        } else if tag == 4 {
            if n < 5 {
                Err(PeerError::PeerMessageTooShort(len))
            } else if n > 5 {
                Err(PeerError::PeerMessageTooLong(len))
            } else {
                Ok(Some(PeerMessage::Have(read_field(p, 1))))
            }
        } else if tag == 5 {
            let bits = slice_to_vec(slice_subrange(p, 1, n));
            assert(bits@ =~= p@.skip(1));
            Ok(Some(PeerMessage::Bitfield(bits)))
        } else if tag == 6 || tag == 8 {
            if n < 13 {
                Err(PeerError::PeerMessageTooShort(len))
            } else if n > 13 {
                Err(PeerError::PeerMessageTooLong(len))
            } else {
                let index = read_field(p, 1);
                let begin = read_field(p, 5);
                let length = read_field(p, 9);
                if tag == 6 {
                    Ok(Some(PeerMessage::Request { index, begin, length }))
                } else {
                    Ok(Some(PeerMessage::Cancel { index, begin, length }))
                }
            }
        } else if tag == 7 {
            if n < 9 {
                Err(PeerError::PeerMessageTooShort(len))
            } else {
                let index = read_field(p, 1);
                let begin = read_field(p, 5);
                let block = slice_to_vec(slice_subrange(p, 9, n));
                assert(block@ =~= p@.skip(9));
                Ok(Some(PeerMessage::Piece { index, begin, block }))
            }
        } else {
            Err(PeerError::TcpStreamGarbageReceived)
        }
    }
}

} // verus!
