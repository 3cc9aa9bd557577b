//! The exchange with a tracker: the URL and the parameters of the request,
//! and what the tracker's answer says. Sending the request is the caller's.

use crate::bencode::decode::{decode, decoded_as, ByteMode};
use crate::bencode::{chunk_views, BenError, Bencode, BencodeDictValues, BencodeView};
use crate::decimal::decimal;
use crate::peer::{compact_peer, Peer, PeerView, PEER_ID};
use crate::text::{ascii_chars, decimal_text, str_equal};
use crate::torrent::parse::{chunks_at, number_at};
use crate::torrent::{percent_encoded, Torrent, TorrentError};
use crate::digest::SHA1_INPUT_LIMIT;
use vstd::prelude::*;
use vstd::string::StringExecFns;

verus! {

/// Why a tracker's answer gave no peers.
#[derive(Debug)]
pub enum TrackerError {
    /// The answer is no dictionary, or has no compact list of peers.
    MalformedTrackerResponse,
    /// The answer is not Bencode.
    InvalidBencode(BenError),
}

impl TrackerError {
    /// What the error says, in words.
    pub open spec fn message(self) -> Seq<char> {
        match self {
            TrackerError::MalformedTrackerResponse => "Malformed Tracker Response!"@,
            TrackerError::InvalidBencode(e) => e.message(),
        }
    }

    /// What the error says, in words.
    pub fn to_string(&self) -> (text: String)
        ensures
            text@ == self.message(),
    {
        match self {
            TrackerError::MalformedTrackerResponse => "Malformed Tracker Response!".to_owned(),
            TrackerError::InvalidBencode(e) => e.to_string(),
        }
    }
}

/// The rule for a tracker's answer: the value under `peers` is a raw byte
/// string in chunks of six bytes.
pub open spec fn peers_mode() -> ByteMode {
    |key: Seq<char>|
        if key == "peers"@ {
            Some(6usize)
        } else {
            None
        }
}

/// The rule for a tracker's answer, as a function.
pub fn peers_byte_mode(key: &str) -> (width: Option<usize>)
    ensures
        width == peers_mode()(key@),
{
    if str_equal(key, "peers") {
        Some(6)
    } else {
        None
    }
}

/// The refresh interval that an answer names: the integer under `interval`
/// of a dictionary.
pub open spec fn interval_of(v: BencodeView) -> Option<i64> {
    match v {
        BencodeView::Dict(entries) => number_at(entries, "interval"@),
        _ => None,
    }
}

/// The peers that an answer names: those of the chunks under `peers` of a
/// dictionary, each of six bytes.
pub open spec fn peers_of(v: BencodeView) -> Option<Seq<PeerView>> {
    match v {
        BencodeView::Dict(entries) => match chunks_at(entries, "peers"@) {
            Some(chunks) => if forall|i: int|
                0 <= i < chunks.len() ==> (#[trigger] chunks[i]).len() == 6 {
                Some(Seq::new(chunks.len(), |i: int| compact_peer(chunks[i])))
            } else {
                None
            },
            None => None,
        },
        _ => None,
    }
}

/// What the bytes of a tracker's answer say: the Bencode value at their
/// start, read under the rule for answers.
pub open spec fn answer_of(response: Seq<u8>) -> Result<BencodeView, BenError> {
    match decode(response, peers_mode()) {
        Ok((v, _)) => Ok(v),
        Err(e) => Err(e),
    }
}

/// The parameters of a request, name and value, in the order in which they
/// are sent.
pub open spec fn query_of(port: u16, uploaded: u64, downloaded: u64, left: u64) -> Seq<
    (Seq<char>, Seq<char>),
> {
    seq![
        ("peer_id"@, PEER_ID@),
        ("port"@, ascii_chars(decimal(port as nat))),
        ("uploaded"@, ascii_chars(decimal(uploaded as nat))),
        ("downloaded"@, ascii_chars(decimal(downloaded as nat))),
        ("left"@, ascii_chars(decimal(left as nat))),
        ("compact"@, "1"@),
    ]
}

/// The parameters of a request as sequences of characters.
pub open spec fn query_view(params: Seq<(String, String)>) -> Seq<(Seq<char>, Seq<char>)> {
    Seq::new(params.len(), |i: int| (params[i].0@, params[i].1@))
}

/// The parameters of a request for peers: the client's id and port, the
/// bytes uploaded, downloaded and left, and the wish for a compact answer.
pub fn query_params(port: u16, uploaded: u64, downloaded: u64, left: u64) -> (params: Vec<
    (String, String),
>)
    ensures
        query_view(params@) == query_of(port, uploaded, downloaded, left),
{
    let mut params: Vec<(String, String)> = Vec::new();
    params.push(("peer_id".to_owned(), PEER_ID.to_owned()));
    params.push(("port".to_owned(), decimal_text(port as u64)));
    params.push(("uploaded".to_owned(), decimal_text(uploaded)));
    params.push(("downloaded".to_owned(), decimal_text(downloaded)));
    params.push(("left".to_owned(), decimal_text(left)));
    params.push(("compact".to_owned(), "1".to_owned()));
    assert(query_view(params@) =~= query_of(port, uploaded, downloaded, left));
    params
}

/// The URL of a request: the tracker's URL, then the info-hash as the first
/// parameter, already written for a URL.
pub open spec fn request_url_of(tracker_url: Seq<char>, encoded_info_hash: Seq<char>) -> Seq<
    char,
> {
    tracker_url + "?info_hash="@ + encoded_info_hash
}

/// The URL of a request for peers.
pub fn request_url(tracker_url: &str, encoded_info_hash: &str) -> (url: String)
    ensures
        url@ == request_url_of(tracker_url@, encoded_info_hash@),
{
    let mut url = tracker_url.to_owned();
    url.append("?info_hash=");
    url.append(encoded_info_hash);
    url
}

/// Reads the peers out of a tracker's answer.
#[verifier::loop_isolation(false)]
pub fn read_peers(answer: &Bencode) -> (r: Result<Vec<Peer>, TrackerError>)
    ensures
        match (r, peers_of(answer@)) {
            (Ok(peers), Some(p)) => Seq::new(peers@.len(), |i: int| peers@[i]@) == p,
            (Err(TrackerError::MalformedTrackerResponse), None) => true,
            _ => false,
        },
{
    let table = match answer {
        Bencode::Dict(table) => table,
        _ => {
            return Err(TrackerError::MalformedTrackerResponse);
        },
    };
    let peer_table = match table.get("peers") {
        Some(BencodeDictValues::Bytes(peer_table)) => peer_table,
        _ => {
            return Err(TrackerError::MalformedTrackerResponse);
        },
    };
    let ghost chunks = chunk_views(peer_table@);
    let mut peers: Vec<Peer> = Vec::new();
    let mut i: usize = 0;
    while i < peer_table.len()
        invariant
            i <= peer_table@.len(),
            chunks == chunk_views(peer_table@),
            peers@.len() == i,
            forall|j: int| 0 <= j < i ==> (#[trigger] chunks[j]).len() == 6,
            forall|j: int| 0 <= j < i ==> (#[trigger] peers@[j])@ == compact_peer(chunks[j]),
        decreases peer_table@.len() - i,
    {
        match Peer::try_from(peer_table[i].as_slice()) {
            Ok(peer) => {
                peers.push(peer);
            },
            Err(_) => {
                assert(chunks[i as int].len() != 6);
                return Err(TrackerError::MalformedTrackerResponse);
            },
        }
        i += 1;
    }
    assert(Seq::new(peers@.len(), |i: int| peers@[i]@) =~= Seq::new(
        chunks.len(),
        |i: int| compact_peer(chunks[i]),
    ));
    Ok(peers)
}

/// Reads the refresh interval out of a tracker's answer.
pub fn read_interval(answer: &Bencode) -> (r: Option<i64>)
    ensures
        r == interval_of(answer@),
{
    match answer {
        Bencode::Dict(table) => match table.get("interval") {
            Some(BencodeDictValues::Bencode(Bencode::Number(n))) => Some(*n),
            _ => None,
        },
        _ => None,
    }
}

/// Reads a tracker's answer from its bytes.
pub fn read_answer(response: &[u8]) -> (r: Result<Bencode, TrackerError>)
    ensures
        match (r, answer_of(response@)) {
            (Ok(answer), Ok(v)) => answer@ == v,
            (Err(TrackerError::InvalidBencode(e)), Err(x)) => e == x,
            _ => false,
        },
{
    let read = Bencode::from_bytes(response, peers_byte_mode);
    assert(decoded_as(read, decode(response@, peers_mode())));
    match read {
        Ok((answer, _)) => Ok(answer),
        Err(e) => Err(TrackerError::InvalidBencode(e)),
    }
}

/// What a client keeps of its exchange with the tracker of one torrent: the
/// port it listens on and the refresh interval that the tracker last named,
/// in seconds.
#[derive(Debug)]
pub struct TrackerService<'a> {
    interval: u64,
    port: u16,
    torrent: &'a Torrent,
}

impl<'a> TrackerService<'a> {
    /// The refresh interval that the tracker last named, in seconds.
    pub closed spec fn interval_secs(self) -> u64 {
        self.interval
    }

    /// The port that the client listens on.
    pub closed spec fn listen_port(self) -> u16 {
        self.port
    }

    /// The torrent.
    pub closed spec fn torrent_of(self) -> Torrent {
        *self.torrent
    }

    /// The state before the first request: no interval is known.
    pub fn new(port: u16, torrent: &'a Torrent) -> (service: Self)
        ensures
            service.interval_secs() == 0,
            service.listen_port() == port,
            service.torrent_of() == *torrent,
    {
        TrackerService { interval: 0, port, torrent }
    }

    /// The refresh interval that the tracker last named, in seconds.
    pub fn interval(&self) -> (secs: u64)
        ensures
            secs == self.interval_secs(),
    {
        self.interval
    }

    /// The URL to ask for peers. Fails where the torrent names no tracker.
    pub fn request_url(&self) -> (r: Result<String, TorrentError>)
        requires
            self.torrent_of()@.info.canonical_bytes().len() < SHA1_INPUT_LIMIT,
        ensures
            match (r, self.torrent_of()@.announce) {
                (Ok(url), Some(tracker_url)) => url@ == request_url_of(
                    tracker_url,
                    percent_encoded(self.torrent_of()@.info.info_hash()),
                ),
                (Err(TorrentError::InvalidAnnounceUrl), None) => true,
                _ => false,
            },
    {
        match &self.torrent.announce {
            Some(tracker_url) => {
                let encoded_info_hash = self.torrent.info.get_url_encoded_hash();
                Ok(request_url(tracker_url.as_str(), encoded_info_hash.as_str()))
            },
            None => Err(TorrentError::InvalidAnnounceUrl),
        }
    }

    /// The parameters that go with the URL.
    pub fn query_params(&self, uploaded: u64, downloaded: u64, left: u64) -> (params: Vec<
        (String, String),
    >)
        ensures
            query_view(params@) == query_of(self.listen_port(), uploaded, downloaded, left),
    {
        query_params(self.port, uploaded, downloaded, left)
    }

    /// Takes the tracker's answer: remembers the interval, if the answer
    /// names one, and gives the peers.
    pub fn get_peers(&mut self, response: &[u8]) -> (r: Result<Vec<Peer>, TrackerError>)
        ensures
            final(self).listen_port() == old(self).listen_port(),
            final(self).torrent_of() == old(self).torrent_of(),
            match answer_of(response@) {
                Err(x) => {
                    &&& r matches Err(TrackerError::InvalidBencode(e)) && e == x
                    &&& final(self).interval_secs() == old(self).interval_secs()
                },
                Ok(v) => {
                    &&& final(self).interval_secs() == match interval_of(v) {
                        Some(n) => n as u64,
                        None => old(self).interval_secs(),
                    }
                    &&& match (r, peers_of(v)) {
                        (Ok(peers), Some(p)) => Seq::new(peers@.len(), |i: int| peers@[i]@) == p,
                        (Err(TrackerError::MalformedTrackerResponse), None) => true,
                        _ => false,
                    }
                },
            },
    {
        let answer = match read_answer(response) {
            Ok(answer) => answer,
            Err(e) => {
                return Err(e);
            },
        };
        if let Some(n) = read_interval(&answer) {
            self.interval = n as u64;
        }
        read_peers(&answer)
    }
}

} // verus!
