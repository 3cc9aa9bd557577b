use bit_torrust::peer::blocks::{assemble, insert_block};
use bit_torrust::peer::{
    handshake_request, BlockData, DownloadStep, Peer, PeerConnection, PeerError, PeerMessage,
    PieceData, PEER_ID,
};
use bit_torrust::torrent::{FileType, Info};

fn info(piece_length: usize, pieces: usize, length: usize) -> Info {
    Info {
        file_type: FileType::SingleFile { length },
        name: "a.bin".to_string(),
        piece_length,
        pieces: vec![[0u8; 20]; pieces],
    }
}

fn reply(remote: &[u8; 20]) -> Vec<u8> {
    let mut bytes = handshake_request(&[9u8; 20], PEER_ID.as_bytes()).unwrap();
    bytes.truncate(48);
    bytes.extend_from_slice(remote);
    bytes
}

#[test]
fn compact_peer_is_decoded() {
    let peer = Peer::try_from(&[192u8, 168, 0, 1, 0x1A, 0xE1][..]).unwrap();
    assert_eq!(peer.ip_addr(), [192, 168, 0, 1]);
    assert_eq!(peer.port(), 6881);
    assert_eq!(peer.to_string(), "192.168.0.1:6881");
}

#[test]
fn compact_peer_of_wrong_length_is_refused() {
    assert!(matches!(
        Peer::try_from(&[1u8, 2, 3, 4, 5][..]),
        Err(PeerError::UnknownBytesListFormat)
    ));
}

#[test]
fn handshake_frame_has_the_documented_layout() {
    let hash: Vec<u8> = (100u8..120).collect();
    let id: Vec<u8> = (1u8..21).collect();
    let frame = handshake_request(&hash, &id).unwrap();
    assert_eq!(frame.len(), 68);
    assert_eq!(frame[0], 0x13);
    assert_eq!(&frame[1..20], b"BitTorrent protocol");
    assert_eq!(&frame[20..28], &[0u8; 8]);
    assert_eq!(&frame[28..48], &hash[..]);
    assert_eq!(&frame[48..68], &id[..]);
}

#[test]
fn handshake_refuses_a_short_info_hash() {
    assert!(matches!(
        handshake_request(&[0u8; 19], PEER_ID.as_bytes()),
        Err(PeerError::InvalidInfoHash)
    ));
}

#[test]
fn handshake_reply_gives_the_remote_id() {
    let info = info(16384, 1, 10000);
    let remote = *b"-XX0001-abcdefghijkl";
    let connection = PeerConnection::new(&info, &[9u8; 20], &reply(&remote)).unwrap();
    assert_eq!(connection.peer_id(), &remote);
    assert!(connection.bitfield().is_none());
    assert!(matches!(
        PeerConnection::new(&info, &[9u8; 20], &[0u8; 67]),
        Err(PeerError::PeerHandshakeFailed)
    ));
    assert!(matches!(
        PeerConnection::new(&info, &[8u8; 20], &reply(&remote)),
        Err(PeerError::PeerHandshakeFailed)
    ));
    let mut wrong_name = reply(&remote);
    wrong_name[5] = b'X';
    assert!(matches!(
        PeerConnection::new(&info, &[9u8; 20], &wrong_name),
        Err(PeerError::PeerHandshakeFailed)
    ));
}

#[test]
fn messages_are_framed_with_their_tags() {
    assert_eq!(PeerConnection::message_payload(PeerMessage::Choke), vec![0, 0, 0, 1, 0]);
    assert_eq!(PeerConnection::message_payload(PeerMessage::Unchoke), vec![0, 0, 0, 1, 1]);
    assert_eq!(PeerConnection::message_payload(PeerMessage::Interested), vec![0, 0, 0, 1, 2]);
    assert_eq!(PeerConnection::message_payload(PeerMessage::NotInterested), vec![0, 0, 0, 1, 3]);
    assert_eq!(
        PeerConnection::message_payload(PeerMessage::Have(0x01020304)),
        vec![0, 0, 0, 5, 4, 1, 2, 3, 4]
    );
    assert_eq!(
        PeerConnection::message_payload(PeerMessage::Bitfield(vec![0xff, 0x80])),
        vec![0, 0, 0, 3, 5, 0xff, 0x80]
    );
    assert_eq!(
        PeerConnection::message_payload(PeerMessage::Request { index: 1, begin: 16384, length: 16384 }),
        vec![0, 0, 0, 13, 6, 0, 0, 0, 1, 0, 0, 0x40, 0, 0, 0, 0x40, 0]
    );
    assert_eq!(
        PeerConnection::message_payload(PeerMessage::Piece { index: 2, begin: 3, block: vec![7, 8] }),
        vec![0, 0, 0, 11, 7, 0, 0, 0, 2, 0, 0, 0, 3, 7, 8]
    );
    assert_eq!(
        PeerConnection::message_payload(PeerMessage::Cancel { index: 1, begin: 2, length: 3 }),
        vec![0, 0, 0, 13, 8, 0, 0, 0, 1, 0, 0, 0, 2, 0, 0, 0, 3]
    );
}

#[test]
fn payloads_are_read_back() {
    let messages = vec![
        PeerMessage::Choke,
        PeerMessage::Unchoke,
        PeerMessage::Interested,
        PeerMessage::NotInterested,
        PeerMessage::Have(77),
        PeerMessage::Bitfield(vec![1, 2, 3]),
        PeerMessage::Request { index: 5, begin: 6, length: 7 },
        PeerMessage::Piece { index: 8, begin: 9, block: vec![10, 11, 12] },
        PeerMessage::Cancel { index: 13, begin: 14, length: 15 },
    ];
    let copies = vec![
        PeerMessage::Choke,
        PeerMessage::Unchoke,
        PeerMessage::Interested,
        PeerMessage::NotInterested,
        PeerMessage::Have(77),
        PeerMessage::Bitfield(vec![1, 2, 3]),
        PeerMessage::Request { index: 5, begin: 6, length: 7 },
        PeerMessage::Piece { index: 8, begin: 9, block: vec![10, 11, 12] },
        PeerMessage::Cancel { index: 13, begin: 14, length: 15 },
    ];
    for (message, copy) in messages.into_iter().zip(copies) {
        let frame = PeerConnection::message_payload(message);
        let length =
            PeerConnection::payload_length(&[frame[0], frame[1], frame[2], frame[3]]) as usize;
        assert_eq!(length, frame.len() - 4);
        assert_eq!(PeerConnection::receive_decode(&frame[4..]).unwrap(), Some(copy));
    }
}

#[test]
fn frame_prefix_is_a_big_endian_length() {
    assert_eq!(PeerConnection::payload_length(&[0, 0, 0, 0]), 0);
    assert_eq!(PeerConnection::payload_length(&[0, 0, 1, 2]), 258);
    assert_eq!(PeerConnection::payload_length(&[0x12, 0x34, 0x56, 0x78]), 0x12345678);
    assert_eq!(PeerConnection::payload_length(&[255, 255, 255, 255]), u32::MAX);
}

#[test]
fn keep_alive_and_bad_payloads() {
    assert_eq!(PeerConnection::receive_decode(&[]).unwrap(), None);
    assert!(matches!(
        PeerConnection::receive_decode(&[9]),
        Err(PeerError::TcpStreamGarbageReceived)
    ));
    assert!(matches!(
        PeerConnection::receive_decode(&[4, 0, 0]),
        Err(PeerError::PeerMessageTooShort(3))
    ));
    assert!(matches!(
        PeerConnection::receive_decode(&[0, 0]),
        Err(PeerError::PeerMessageTooLong(2))
    ));
    assert!(matches!(
        PeerConnection::receive_decode(&[7, 0, 0, 0, 0, 0, 0, 0]),
        Err(PeerError::PeerMessageTooShort(8))
    ));
}

fn block(begin: u32, fill: u8, len: usize) -> PeerMessage {
    PeerMessage::Piece { index: 0, begin, block: vec![fill; len] }
}

#[test]
fn piece_is_reassembled_from_blocks_in_any_order() {
    let info = info(3 * 16384, 1, 2 * 16384 + 100);
    let remote = [1u8; 20];
    let orders: Vec<Vec<u32>> = vec![
        vec![0, 1, 2],
        vec![0, 2, 1],
        vec![1, 0, 2],
        vec![1, 2, 0],
        vec![2, 0, 1],
        vec![2, 1, 0],
    ];
    for order in orders {
        let mut connection = PeerConnection::new(&info, &[9u8; 20], &reply(&remote)).unwrap();
        let (mut download, first) = connection.begin_piece(0).unwrap();
        assert_eq!(first, PeerMessage::Interested);
        assert!(matches!(
            connection.handle_message(&mut download, None).unwrap(),
            DownloadStep::Continue
        ));
        match connection.handle_message(&mut download, Some(PeerMessage::Unchoke)).unwrap() {
            DownloadStep::Request(requests) => {
                assert_eq!(
                    requests,
                    vec![
                        PeerMessage::Request { index: 0, begin: 0, length: 16384 },
                        PeerMessage::Request { index: 0, begin: 16384, length: 16384 },
                        PeerMessage::Request { index: 0, begin: 32768, length: 100 },
                    ]
                );
            }
            other => panic!("unexpected step: {:?}", other),
        }
        assert!(matches!(
            connection.handle_message(&mut download, Some(PeerMessage::Unchoke)).unwrap(),
            DownloadStep::Continue
        ));
        for (n, slot) in order.iter().enumerate() {
            let len = if *slot == 2 { 100 } else { 16384 };
            let step = connection
                .handle_message(&mut download, Some(block(slot * 16384, *slot as u8 + 1, len)))
                .unwrap();
            if n == 2 {
                assert!(matches!(step, DownloadStep::Complete));
            } else {
                assert!(matches!(step, DownloadStep::Continue));
            }
        }
        let data = download.assemble().unwrap();
        assert_eq!(data.index, 0);
        let mut expected = vec![1u8; 16384];
        expected.extend_from_slice(&vec![2u8; 16384]);
        expected.extend_from_slice(&vec![3u8; 100]);
        assert_eq!(data.piece, expected);
    }
}

#[test]
fn bitfield_is_remembered() {
    let info = info(16384, 1, 16384);
    let mut connection = PeerConnection::new(&info, &[9u8; 20], &reply(&[2u8; 20])).unwrap();
    let (mut download, _) = connection.begin_piece(0).unwrap();
    let step = connection
        .handle_message(&mut download, Some(PeerMessage::Bitfield(vec![0x80])))
        .unwrap();
    assert!(matches!(step, DownloadStep::Continue));
    assert_eq!(connection.bitfield(), Some(&vec![0x80u8]));
}

#[test]
fn block_outside_the_piece_fails_the_download() {
    let info = info(16384, 1, 16384);
    let mut connection = PeerConnection::new(&info, &[9u8; 20], &reply(&[2u8; 20])).unwrap();
    let (mut download, _) = connection.begin_piece(0).unwrap();
    assert!(matches!(
        connection.handle_message(&mut download, Some(block(16384, 1, 10))),
        Err(PeerError::DownloadPieceFailed)
    ));
}

#[test]
fn repeated_block_fails_the_assembly() {
    let info = info(2 * 16384, 1, 2 * 16384);
    let mut connection = PeerConnection::new(&info, &[9u8; 20], &reply(&[2u8; 20])).unwrap();
    let (mut download, _) = connection.begin_piece(0).unwrap();
    connection.handle_message(&mut download, Some(block(0, 1, 16384))).unwrap();
    connection.handle_message(&mut download, Some(block(0, 1, 16384))).unwrap();
    let step = connection.handle_message(&mut download, Some(block(16384, 2, 16384))).unwrap();
    assert!(matches!(step, DownloadStep::Complete));
    assert!(matches!(download.assemble(), Err(PeerError::DownloadPieceFailed)));
}

#[test]
fn whole_last_block_when_the_length_divides() {
    let info = info(2 * 16384, 2, 4 * 16384);
    let mut connection = PeerConnection::new(&info, &[9u8; 20], &reply(&[2u8; 20])).unwrap();
    let (mut download, _) = connection.begin_piece(1).unwrap();
    match connection.handle_message(&mut download, Some(PeerMessage::Unchoke)).unwrap() {
        DownloadStep::Request(requests) => assert_eq!(
            requests,
            vec![
                PeerMessage::Request { index: 1, begin: 0, length: 16384 },
                PeerMessage::Request { index: 1, begin: 16384, length: 16384 },
            ]
        ),
        other => panic!("unexpected step: {:?}", other),
    }
}

#[test]
fn downloaded_piece_is_checked_against_its_digest() {
    let abc: [u8; 20] = [
        0xa9, 0x99, 0x3e, 0x36, 0x47, 0x06, 0x81, 0x6a, 0xba, 0x3e, 0x25, 0x71, 0x78, 0x50, 0xc2,
        0x6c, 0x9c, 0xd0, 0xd8, 0x9d,
    ];
    let info = Info {
        file_type: FileType::SingleFile { length: 3 },
        name: "a.bin".to_string(),
        piece_length: 16384,
        pieces: vec![abc],
    };
    let connection = PeerConnection::new(&info, &[9u8; 20], &reply(&[3u8; 20])).unwrap();
    assert!(connection
        .verify_piece(&PieceData { index: 0, piece: b"abc".to_vec() })
        .is_ok());
    assert!(matches!(
        connection.verify_piece(&PieceData { index: 0, piece: b"abd".to_vec() }),
        Err(PeerError::PieceHashMismatch)
    ));
    assert!(matches!(
        connection.verify_piece(&PieceData { index: 1, piece: b"abc".to_vec() }),
        Err(PeerError::PieceHashMismatch)
    ));
}

#[test]
fn blocks_are_kept_in_the_order_of_index_and_offset() {
    let mut blocks: Vec<BlockData> = Vec::new();
    for (index, begin, fill) in [(1u32, 0u32, 5u8), (0, 16384, 2), (0, 0, 1), (0, 16384, 3)] {
        insert_block(&mut blocks, BlockData { index, begin, block: vec![fill; 2] });
    }
    let order: Vec<(u32, u32, u8)> =
        blocks.iter().map(|b| (b.index, b.begin, b.block[0])).collect();
    assert_eq!(order, vec![(0, 0, 1), (0, 16384, 2), (0, 16384, 3), (1, 0, 5)]);
    assert!(matches!(assemble(&blocks), Err(PeerError::DownloadPieceFailed)));
    blocks.truncate(2);
    assert_eq!(assemble(&blocks).unwrap(), vec![1, 1, 2, 2]);
    assert_eq!(assemble(&Vec::new()).unwrap(), Vec::<u8>::new());
    assert!(blocks[0] < blocks[1]);
    assert!(blocks[0] == blocks[0]);
    assert!(blocks[0] != blocks[1]);
}

#[test]
fn piece_too_long_for_the_protocol_is_refused() {
    if usize::BITS >= 64 {
        let long = info((1usize << 32) + 2 * 16384 + 1, 1, 10);
        let connection = PeerConnection::new(&long, &[9u8; 20], &reply(&[3u8; 20])).unwrap();
        assert!(matches!(
            connection.begin_piece(0),
            Err(PeerError::DownloadPieceFailed)
        ));
        let fits = info(1usize << 32, 1, 10);
        let connection = PeerConnection::new(&fits, &[9u8; 20], &reply(&[3u8; 20])).unwrap();
        assert!(connection.begin_piece(0).is_ok());
    }
}

#[test]
fn peer_errors_say_what_went_wrong() {
    assert_eq!(
        PeerError::UnknownBytesListFormat.to_string(),
        "Should have exactly 6 bytes in length"
    );
    assert_eq!(PeerError::InvalidInfoHash.to_string(), "Invalid info hash");
    assert_eq!(
        PeerError::PeerHandshakeFailed.to_string(),
        "Handshake failed, just like in real life"
    );
    assert_eq!(PeerError::DownloadPieceFailed.to_string(), "Piece download failed.");
    assert_eq!(
        PeerError::PeerMessageTooShort(3).to_string(),
        "Peer message is too short. (`3`)"
    );
    assert_eq!(
        PeerError::PeerMessageTooLong(4294967295).to_string(),
        "Peer message is too long. (`4294967295`)"
    );
    assert_eq!(
        PeerError::TcpStreamConnectionFailure("reset".to_string()).to_string(),
        "TcpStream somewhat failed."
    );
    assert_eq!(
        PeerError::TcpStreamGarbageReceived.to_string(),
        "Unexpected garbage values received."
    );
    assert_eq!(PeerError::PieceHashMismatch.to_string(), "Piece does not match its hash.");
}

#[test]
fn handshake_refuses_a_peer_id_of_wrong_length() {
    assert!(matches!(
        handshake_request(&[0u8; 20], b"short"),
        Err(PeerError::PeerHandshakeFailed)
    ));
}
