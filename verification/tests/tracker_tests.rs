use bit_torrust::torrent::{FileType, Info, Torrent, TorrentError};
use bit_torrust::bencode::BenError;
use bit_torrust::torrent_client::TrackerService as Client;
use bit_torrust::tracker::{query_params, TrackerError, TrackerService};

fn torrent(announce: Option<&str>) -> Torrent {
    Torrent {
        announce: announce.map(|s| s.to_string()),
        info: Info {
            file_type: FileType::SingleFile { length: 10000 },
            name: "a.bin".to_string(),
            piece_length: 16384,
            pieces: vec![[7u8; 20]],
        },
    }
}

#[test]
fn tracker_response_gives_peers_and_interval() {
    let torrent = torrent(Some("http://t/"));
    let mut service = TrackerService::new(6881, &torrent);
    assert_eq!(service.interval(), 0);
    let mut response: Vec<u8> = b"d8:intervali1800e5:peers12:".to_vec();
    response.extend_from_slice(&[192, 168, 0, 1, 0x1A, 0xE1, 10, 0, 0, 2, 0, 80]);
    response.push(b'e');
    let peers = service.get_peers(&response).unwrap();
    assert_eq!(peers.len(), 2);
    assert_eq!(peers[0].to_string(), "192.168.0.1:6881");
    assert_eq!(peers[1].to_string(), "10.0.0.2:80");
    assert_eq!(service.interval(), 1800);
}

#[test]
fn response_without_compact_peers_is_malformed() {
    let torrent = torrent(Some("http://t/"));
    let mut service = TrackerService::new(6881, &torrent);
    assert!(matches!(
        service.get_peers(b"d8:intervali900ee"),
        Err(TrackerError::MalformedTrackerResponse)
    ));
    assert_eq!(service.interval(), 900);
    assert!(matches!(
        service.get_peers(b"d5:peersl4:spamee"),
        Err(TrackerError::InvalidBencode(_))
    ));
    assert!(matches!(
        service.get_peers(b"i5e"),
        Err(TrackerError::MalformedTrackerResponse)
    ));
    assert!(matches!(
        service.get_peers(b"d5:peers5:abcdee"),
        Err(TrackerError::InvalidBencode(_))
    ));
}

#[test]
fn request_url_carries_the_encoded_hash() {
    let with_tracker = torrent(Some("http://t/announce"));
    let service = TrackerService::new(6881, &with_tracker);
    let url = service.request_url().unwrap();
    let expected = format!(
        "http://t/announce?info_hash={}",
        with_tracker.info.get_url_encoded_hash()
    );
    assert_eq!(url, expected);
    let without = torrent(None);
    assert!(matches!(
        TrackerService::new(6881, &without).request_url(),
        Err(TorrentError::InvalidAnnounceUrl)
    ));
}

#[test]
fn query_parameters_in_order() {
    let params = query_params(6881, 0, 12, 10000);
    let expected: Vec<(String, String)> = vec![
        ("peer_id", "1337cafebabedeadbeef"),
        ("port", "6881"),
        ("uploaded", "0"),
        ("downloaded", "12"),
        ("left", "10000"),
        ("compact", "1"),
    ]
    .into_iter()
    .map(|(k, v)| (k.to_string(), v.to_string()))
    .collect();
    assert_eq!(params, expected);
}

#[test]
fn tracker_errors_say_what_went_wrong() {
    assert_eq!(
        TrackerError::MalformedTrackerResponse.to_string(),
        "Malformed Tracker Response!"
    );
    assert_eq!(
        TrackerError::InvalidBencode(BenError::MisplacedClosingError)
            .to_string(),
        "Unexpected closing tag 'e' found."
    );
}

#[test]
fn client_keeps_the_peers_of_the_last_answer() {
    let mut client = Client::new("http://t/announce", 6881, "%01%02");
    assert_eq!(client.request_url(), "http://t/announce?info_hash=%01%02");
    assert_eq!(client.query_params(1, 2, 3)[1], ("port".to_string(), "6881".to_string()));
    assert!(client.peers().is_empty());
    assert_eq!(client.interval(), 0);
    let mut response: Vec<u8> = b"d5:peers6:".to_vec();
    response.extend_from_slice(&[1, 2, 3, 4, 1, 0]);
    response.extend_from_slice(b"8:intervali60ee");
    client.update(&response).unwrap();
    assert_eq!(client.interval(), 60);
    assert_eq!(client.peers().len(), 1);
    assert_eq!(client.peers()[0].to_string(), "1.2.3.4:256");
    assert!(matches!(
        client.update(b"d8:intervali90ee"),
        Err(TrackerError::MalformedTrackerResponse)
    ));
    assert_eq!(client.interval(), 90);
    assert_eq!(client.peers().len(), 1);
    assert!(matches!(
        client.update(b"le"),
        Err(TrackerError::MalformedTrackerResponse)
    ));
    assert_eq!(client.interval(), 90);
    client.update(b"d5:peers0:e").unwrap();
    assert!(client.peers().is_empty());
    client.update(&response).unwrap();
    assert!(matches!(client.update(b"d"), Err(TrackerError::InvalidBencode(_))));
    assert_eq!(client.peers().len(), 1);
}

#[test]
fn negative_interval_wraps_as_a_cast_does() {
    let torrent = torrent(Some("http://t/"));
    let mut service = TrackerService::new(6881, &torrent);
    let _ = service.get_peers(b"d8:intervali-1e5:peers0:e").unwrap();
    assert_eq!(service.interval(), u64::MAX);
}
