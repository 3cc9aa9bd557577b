//! A tracker client that is given the tracker's URL and the encoded info-hash
//! as text and keeps the peers that the tracker named last.

use crate::peer::{Peer, PeerView};
use crate::tracker::{
    answer_of, interval_of, peers_of, query_of, query_params, query_view, read_answer,
    read_interval, read_peers, request_url, request_url_of, TrackerError,
};
use vstd::prelude::*;

verus! {

/// What the client keeps of its exchange with one tracker.
#[derive(Debug)]
pub struct TrackerService {
    interval: u64,
    tracker_url: String,
    peers: Vec<Peer>,
    port: u16,
    encoded_info_hash: String,
}

/// The state of a `TrackerService` as a mathematical value.
pub struct ServiceView {
    pub interval: u64,
    pub tracker_url: Seq<char>,
    pub peers: Seq<PeerView>,
    pub port: u16,
    pub encoded_info_hash: Seq<char>,
}

impl View for TrackerService {
    type V = ServiceView;

    closed spec fn view(&self) -> ServiceView {
        ServiceView {
            interval: self.interval,
            tracker_url: self.tracker_url@,
            peers: Seq::new(self.peers@.len(), |i: int| self.peers@[i]@),
            port: self.port,
            encoded_info_hash: self.encoded_info_hash@,
        }
    }
}

impl ServiceView {
    /// The state after an answer of the tracker: the interval is the one that
    /// the answer names, the peers are those that it names; what it does not
    /// name stays.
    pub open spec fn after(self, answer: crate::bencode::BencodeView) -> ServiceView {
        ServiceView {
            interval: match interval_of(answer) {
                Some(n) => n as u64,
                None => self.interval,
            },
            peers: match peers_of(answer) {
                Some(peers) => peers,
                None => self.peers,
            },
            ..self
        }
    }
}

impl TrackerService {
    /// The state before the first request: no interval and no peers are
    /// known.
    pub fn new(url: &str, port: u16, url_encoded_hash: &str) -> (service: Self)
        ensures
            service@ == (ServiceView {
                interval: 0,
                tracker_url: url@,
                peers: Seq::empty(),
                port,
                encoded_info_hash: url_encoded_hash@,
            }),
    {
        let service = TrackerService {
            interval: 0,
            tracker_url: url.to_owned(),
            peers: Vec::new(),
            port,
            encoded_info_hash: url_encoded_hash.to_owned(),
        };
        assert(service@.peers =~= Seq::<PeerView>::empty());
        service
    }

    /// The URL to ask for peers.
    pub fn request_url(&self) -> (url: String)
        ensures
            url@ == request_url_of(self@.tracker_url, self@.encoded_info_hash),
    {
        request_url(self.tracker_url.as_str(), self.encoded_info_hash.as_str())
    }

    /// The parameters that go with the URL.
    pub fn query_params(&self, uploaded: u64, downloaded: u64, left: u64) -> (params: Vec<
        (String, String),
    >)
        ensures
            query_view(params@) == query_of(self@.port, uploaded, downloaded, left),
    {
        query_params(self.port, uploaded, downloaded, left)
    }

    /// The refresh interval that the tracker last named, in seconds.
    pub fn interval(&self) -> (secs: u64)
        ensures
            secs == self@.interval,
    {
        self.interval
    }

    /// The peers that the tracker last named.
    pub fn peers(&self) -> (peers: &Vec<Peer>)
        ensures
            Seq::new(peers@.len(), |i: int| peers@[i]@) == self@.peers,
    {
        &self.peers
    }

    /// Takes the tracker's answer. Fails, and changes nothing, where the
    /// answer is not Bencode. Fails as malformed, and keeps the peers it
    /// had, where the answer has no compact list of peers.
    pub fn update(&mut self, response: &[u8]) -> (r: Result<(), TrackerError>)
        ensures
            match answer_of(response@) {
                Err(x) => {
                    &&& r matches Err(TrackerError::InvalidBencode(e)) && e == x
                    &&& final(self)@ == old(self)@
                },
                Ok(v) => {
                    &&& final(self)@ == old(self)@.after(v)
                    &&& match peers_of(v) {
                        Some(_) => r is Ok,
                        None => r matches Err(TrackerError::MalformedTrackerResponse),
                    }
                },
            },
    {
        let answer = match read_answer(response) {
            Ok(answer) => answer,
            Err(e) => {
                return Err(e);
            },
        };
        if let Some(n) = read_interval(&answer) {
            self.interval = n as u64;
        }
        match read_peers(&answer) {
            Ok(peers) => {
                self.peers = peers;
                Ok(())
            },
            Err(e) => Err(e),
        }
    }
}

} // verus!
