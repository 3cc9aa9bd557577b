//! The peer wire protocol: compact peer addresses, the handshake, the
//! length-prefixed messages and the download of one piece, block by block.

use crate::decimal::{decimal, lemma_decimal_digits, push_decimal};
use crate::text::{ascii_chars, ascii_text, bytes_equal, decimal_text, is_ascii_bytes};
use crate::torrent::Info;
use vstd::prelude::*;
use vstd::slice::slice_subrange;
use vstd::string::StringExecFns;

pub mod bits;
pub mod blocks;
pub mod download;
pub mod message;
pub mod order;

pub use blocks::{BlockData, BlockView, PIECE_BLOCK_LEN};
pub use download::{DownloadStep, PieceData, PieceDownload};
pub use message::{MessageView, PeerMessage};

verus! {

/// What can go wrong while talking to a peer.
#[derive(Debug)]
pub enum PeerError {
    /// A compact peer entry that is not six bytes long.
    UnknownBytesListFormat,
    /// An info-hash that is not twenty bytes long.
    InvalidInfoHash,
    /// The handshake was not answered by a full handshake.
    PeerHandshakeFailed,
    /// The blocks received do not make up the piece.
    DownloadPieceFailed,
    /// A frame of the given length is too short for its message type.
    PeerMessageTooShort(u32),
    /// A frame of the given length is too long for its message type.
    PeerMessageTooLong(u32),
    /// The transport failed; the text is the transport's own.
    TcpStreamConnectionFailure(String),
    /// A frame with a message type that the protocol does not know.
    TcpStreamGarbageReceived,
    /// A piece whose digest is not the one that the torrent names for it.
    PieceHashMismatch,
}

impl PeerError {
    /// What the error says, in words.
    pub open spec fn message(self) -> Seq<char> {
        match self {
            PeerError::UnknownBytesListFormat => "Should have exactly 6 bytes in length"@,
            PeerError::InvalidInfoHash => "Invalid info hash"@,
            PeerError::PeerHandshakeFailed => "Handshake failed, just like in real life"@,
            PeerError::DownloadPieceFailed => "Piece download failed."@,
            PeerError::PeerMessageTooShort(length) => "Peer message is too short. (`"@
                + ascii_chars(decimal(length as nat)) + "`)"@,
            PeerError::PeerMessageTooLong(length) => "Peer message is too long. (`"@
                + ascii_chars(decimal(length as nat)) + "`)"@,
            PeerError::TcpStreamConnectionFailure(_) => "TcpStream somewhat failed."@,
            PeerError::TcpStreamGarbageReceived => "Unexpected garbage values received."@,
            PeerError::PieceHashMismatch => "Piece does not match its hash."@,
        }
    }

    /// What the error says, in words.
    pub fn to_string(&self) -> (text: String)
        ensures
            text@ == self.message(),
    {
        match self {
            PeerError::UnknownBytesListFormat => "Should have exactly 6 bytes in length".to_owned(),
            PeerError::InvalidInfoHash => "Invalid info hash".to_owned(),
            PeerError::PeerHandshakeFailed => "Handshake failed, just like in real life".to_owned(),
            PeerError::DownloadPieceFailed => "Piece download failed.".to_owned(),
            PeerError::PeerMessageTooShort(length) => {
                let mut text = "Peer message is too short. (`".to_owned();
                text.append(decimal_text(*length as u64).as_str());
                text.append("`)");
                text
            },
            PeerError::PeerMessageTooLong(length) => {
                let mut text = "Peer message is too long. (`".to_owned();
                text.append(decimal_text(*length as u64).as_str());
                text.append("`)");
                text
            },
            PeerError::TcpStreamConnectionFailure(_) => "TcpStream somewhat failed.".to_owned(),
            PeerError::TcpStreamGarbageReceived => "Unexpected garbage values received.".to_owned(),
            PeerError::PieceHashMismatch => "Piece does not match its hash.".to_owned(),
        }
    }
}

/// The identity under which this client speaks to trackers and peers.
pub const PEER_ID: &'static str = "1337cafebabedeadbeef";

/// A peer's address: an IPv4 address and a port.
#[derive(Debug)]
pub struct Peer {
    ip_addr: [u8; 4],
    port: u16,
}

/// A peer's address as a mathematical value.
pub struct PeerView {
    pub ip_addr: Seq<u8>,
    pub port: u16,
}

impl View for Peer {
    type V = PeerView;

    closed spec fn view(&self) -> PeerView {
        PeerView { ip_addr: self.ip_addr@, port: self.port }
    }
}

/// The peer that a compact entry of six bytes names: four bytes of address,
/// then the port, high byte first.
pub open spec fn compact_peer(bytes: Seq<u8>) -> PeerView {
    PeerView { ip_addr: bytes.take(4), port: (bytes[4] * 256 + bytes[5]) as u16 }
}

impl PeerView {
    /// The address as text: the four numbers with dots between them, a
    /// colon, and the port.
    pub open spec fn text(self) -> Seq<char> {
        ascii_chars(
            decimal(self.ip_addr[0] as nat) + seq![0x2eu8] + decimal(self.ip_addr[1] as nat)
                + seq![0x2eu8] + decimal(self.ip_addr[2] as nat) + seq![0x2eu8] + decimal(
                self.ip_addr[3] as nat,
            ) + seq![0x3au8] + decimal(self.port as nat),
        )
    }
}

/// What `try_from` returns is stated with the function itself, over the view
/// of the peer; nothing is claimed through the trait.
impl vstd::std_specs::convert::TryFromSpecImpl<&[u8]> for Peer {
    open spec fn obeys_try_from_spec() -> bool {
        false
    }

    open spec fn try_from_spec(v: &[u8]) -> Result<Self, PeerError> {
        Err(PeerError::UnknownBytesListFormat)
    }
}

impl TryFrom<&[u8]> for Peer {
    type Error = PeerError;

    /// Reads a compact peer entry, which has six bytes.
    fn try_from(value: &[u8]) -> (r: Result<Self, PeerError>)
        ensures
            match r {
                Ok(peer) => value@.len() == 6 && peer@ == compact_peer(value@),
                Err(PeerError::UnknownBytesListFormat) => value@.len() != 6,
                Err(_) => false,
            },
    {
        if value.len() != 6 {
            return Err(PeerError::UnknownBytesListFormat);
        }
        let hi = value[4];
        let lo = value[5];
        let port: u16 = ((hi as u16) << 8) | lo as u16;
        assert(port == hi * 256 + lo) by (bit_vector)
            requires
                port == ((hi as u16) << 8) | lo as u16,
        ;
        let peer = Peer { ip_addr: [value[0], value[1], value[2], value[3]], port };
        assert(peer@.ip_addr =~= value@.take(4));
        Ok(peer)
    }
}

impl Peer {
    /// The four bytes of the peer's IPv4 address.
    pub fn ip_addr(&self) -> (octets: [u8; 4])
        ensures
            octets@ == self@.ip_addr,
    {
        self.ip_addr
    }

    /// The peer's port.
    pub fn port(&self) -> (port: u16)
        ensures
            port == self@.port,
    {
        self.port
    }

    /// The address as text, such as `192.168.0.1:6881`.
    pub fn to_string(&self) -> (text: String)
        ensures
            text@ == self@.text(),
    {
        let mut out: Vec<u8> = Vec::new();
        proof {
            lemma_decimal_digits(self.ip_addr[0] as nat);
            lemma_decimal_digits(self.ip_addr[1] as nat);
            lemma_decimal_digits(self.ip_addr[2] as nat);
            lemma_decimal_digits(self.ip_addr[3] as nat);
            lemma_decimal_digits(self.port as nat);
        }
        push_decimal(&mut out, self.ip_addr[0] as u64);
        out.push(0x2e);
        push_decimal(&mut out, self.ip_addr[1] as u64);
        out.push(0x2e);
        push_decimal(&mut out, self.ip_addr[2] as u64);
        out.push(0x2e);
        push_decimal(&mut out, self.ip_addr[3] as u64);
        out.push(0x3a);
        push_decimal(&mut out, self.port as u64);
        let ghost expected = decimal(self.ip_addr[0] as nat) + seq![0x2eu8] + decimal(
            self.ip_addr[1] as nat,
        ) + seq![0x2eu8] + decimal(self.ip_addr[2] as nat) + seq![0x2eu8] + decimal(
            self.ip_addr[3] as nat,
        ) + seq![0x3au8] + decimal(self.port as nat);
        assert(out@ =~= expected);
        assert(is_ascii_bytes(out@));
        ascii_text(out.as_slice())
    }
}

/// The name of the protocol as the handshake carries it: `BitTorrent
/// protocol` in ASCII.
pub open spec fn protocol_name() -> Seq<u8> {
    seq![
        0x42u8, 0x69, 0x74, 0x54, 0x6f, 0x72, 0x72, 0x65, 0x6e, 0x74, 0x20, 0x70, 0x72, 0x6f, 0x74,
        0x6f, 0x63, 0x6f, 0x6c,
    ]
}

/// The name of the protocol.
fn protocol_name_bytes() -> (name: [u8; 19])
    ensures
        name@ == protocol_name(),
{
    let name: [u8; 19] = [
        0x42, 0x69, 0x74, 0x54, 0x6f, 0x72, 0x72, 0x65, 0x6e, 0x74, 0x20, 0x70, 0x72, 0x6f, 0x74,
        0x6f, 0x63, 0x6f, 0x6c,
    ];
    assert(name@ =~= protocol_name());
    name
}

/// The handshake: the length of the protocol's name, the name, eight zero
/// bytes, the info-hash and the sender's peer id; 68 bytes where the last two
/// have twenty bytes each.
pub open spec fn handshake_frame(info_hash: Seq<u8>, peer_id: Seq<u8>) -> Seq<u8> {
    seq![19u8] + protocol_name() + Seq::new(8, |i: int| 0u8) + info_hash + peer_id
}

/// The handshake to send for a torrent's info-hash under a peer id.
pub fn handshake_request(info_hash: &[u8], peer_id: &[u8]) -> (r: Result<Vec<u8>, PeerError>)
    ensures
        match r {
            Ok(frame) => info_hash@.len() == 20 && peer_id@.len() == 20 && frame@.len() == 68
                && frame@ == handshake_frame(info_hash@, peer_id@),
            Err(PeerError::InvalidInfoHash) => info_hash@.len() != 20,
            Err(PeerError::PeerHandshakeFailed) => info_hash@.len() == 20 && peer_id@.len() != 20,
            Err(_) => false,
        },
{
    if info_hash.len() != 20 {
        return Err(PeerError::InvalidInfoHash);
    }
    if peer_id.len() != 20 {
        return Err(PeerError::PeerHandshakeFailed);
    }
    let name = protocol_name_bytes();
    let reserved: [u8; 8] = [0, 0, 0, 0, 0, 0, 0, 0];
    let mut buf: Vec<u8> = Vec::new();
    buf.push(19);
    buf.extend_from_slice(name.as_slice());
    buf.extend_from_slice(reserved.as_slice());
    buf.extend_from_slice(info_hash);
    buf.extend_from_slice(peer_id);
    assert(reserved@ =~= Seq::new(8, |i: int| 0u8));
    assert(buf@ =~= handshake_frame(info_hash@, peer_id@));
    Ok(buf)
}

/// The identity of the peer at the other end.
#[derive(Debug)]
pub struct PeerId(pub [u8; 20]);

/// Whether `reply` is a handshake for the torrent with the info-hash
/// `info_hash`: 68 bytes that begin with the length and the name of the
/// protocol and carry the info-hash.
pub open spec fn answers_handshake(reply: Seq<u8>, info_hash: Seq<u8>) -> bool {
    &&& reply.len() == 68
    &&& reply[0] == 19
    &&& reply.subrange(1, 20) == protocol_name()
    &&& reply.subrange(28, 48) == info_hash
}

/// The peer id that a handshake carries: its last twenty bytes.
pub open spec fn handshake_peer_id(reply: Seq<u8>) -> Seq<u8> {
    reply.subrange(48, 68)
}

/// A handshake answers itself: a peer that sends back what it would send
/// for the same torrent is accepted, and its id is the one in the handshake.
pub proof fn lemma_handshake_answers(info_hash: Seq<u8>, peer_id: Seq<u8>)
    requires
        info_hash.len() == 20,
        peer_id.len() == 20,
    ensures
        handshake_frame(info_hash, peer_id).len() == 68,
        answers_handshake(handshake_frame(info_hash, peer_id), info_hash),
        handshake_peer_id(handshake_frame(info_hash, peer_id)) == peer_id,
{
    let frame = handshake_frame(info_hash, peer_id);
    assert(frame.subrange(1, 20) =~= protocol_name());
    assert(frame.subrange(28, 48) =~= info_hash);
    assert(frame.subrange(48, 68) =~= peer_id);
}

/// A session with a peer after the handshake: the torrent, who the peer is,
/// and the pieces that it last said it has.
pub struct PeerConnection<'a> {
    info_table: &'a Info,
    peer_id: PeerId,
    bitfield: Option<Vec<u8>>,
}

impl<'a> PeerConnection<'a> {
    #[verifier::type_invariant]
    spec fn inv(self) -> bool {
        self.info_table@.wf()
    }

    /// The torrent of the session.
    pub closed spec fn info(self) -> Info {
        *self.info_table
    }

    /// The peer's id.
    pub closed spec fn remote_id(self) -> Seq<u8> {
        self.peer_id.0@
    }

    /// The bitfield that the peer sent last, if it sent one.
    pub closed spec fn bitfield_view(self) -> Option<Seq<u8>> {
        match self.bitfield {
            Some(bits) => Some(bits@),
            None => None,
        }
    }

    /// The session that the peer's answer to the handshake opens. The answer
    /// must be a handshake for the same torrent; its last twenty bytes are
    /// the peer's id.
    pub fn new(info_table: &'a Info, info_hash: &[u8], handshake_reply: &[u8]) -> (r: Result<
        PeerConnection<'a>,
        PeerError,
    >)
        requires
            info_table@.wf(),
        ensures
            match r {
                Ok(connection) => answers_handshake(handshake_reply@, info_hash@)
                    && connection.info() == *info_table && connection.remote_id()
                    == handshake_peer_id(handshake_reply@) && connection.bitfield_view() is None,
                Err(PeerError::PeerHandshakeFailed) => !answers_handshake(
                    handshake_reply@,
                    info_hash@,
                ),
                Err(_) => false,
            },
    {
        if handshake_reply.len() != 68 {
            return Err(PeerError::PeerHandshakeFailed);
        }
        let name = protocol_name_bytes();
        if handshake_reply[0] != 19 || !bytes_equal(
            slice_subrange(handshake_reply, 1, 20),
            name.as_slice(),
        ) || !bytes_equal(slice_subrange(handshake_reply, 28, 48), info_hash) {
            return Err(PeerError::PeerHandshakeFailed);
        }
        let mut peer_id = [0u8; 20];
        let mut k: usize = 0;
        while k < 20
            invariant
                k <= 20,
                handshake_reply@.len() == 68,
                forall|j: int| 0 <= j < k ==> peer_id@[j] == handshake_reply@[48 + j],
            decreases 20 - k,
        {
            peer_id[k] = handshake_reply[48 + k];
            k += 1;
        }
        assert(peer_id@ =~= handshake_peer_id(handshake_reply@));
        Ok(PeerConnection { info_table, peer_id: PeerId(peer_id), bitfield: None })
    }

    /// The peer's id.
    pub fn peer_id(&self) -> (id: &[u8; 20])
        ensures
            id@ == self.remote_id(),
    {
        &self.peer_id.0
    }

    /// The bitfield that the peer sent last, if it sent one.
    pub fn bitfield(&self) -> (bits: Option<&Vec<u8>>)
        ensures
            match bits {
                Some(b) => self.bitfield_view() == Some(b@),
                None => self.bitfield_view() is None,
            },
    {
        self.bitfield.as_ref()
    }
}

} // verus!
