use bit_torrust::bencode::{BenError, Bencode, BencodeDict, BencodeDictValues};
use bit_torrust::torrent::{File, FileType, Info, Torrent, TorrentError};

fn single_file_metainfo() -> Vec<u8> {
    let mut bytes: Vec<u8> = Vec::new();
    bytes.extend_from_slice(b"d8:announce9:http://t/4:infod");
    bytes.extend_from_slice(b"6:lengthi10000e4:name5:a.bin12:piece lengthi16384e6:pieces20:");
    bytes.extend_from_slice(&[7u8; 20]);
    bytes.extend_from_slice(b"ee");
    bytes
}

#[test]
fn single_file_metainfo_is_projected() {
    let torrent = Torrent::from_bytes(&single_file_metainfo()).unwrap();
    assert_eq!(torrent.announce.as_deref(), Some("http://t/"));
    assert_eq!(torrent.info.name, "a.bin");
    assert_eq!(torrent.info.piece_length, 16384);
    assert_eq!(torrent.info.pieces, vec![[7u8; 20]]);
    assert!(matches!(torrent.info.file_type, FileType::SingleFile { length: 10000 }));
    assert_eq!(torrent.info.get_file_length(), 10000);
}

#[test]
fn canonical_bytes_of_single_file_info() {
    let torrent = Torrent::from_bytes(&single_file_metainfo()).unwrap();
    let mut expected: Vec<u8> = Vec::new();
    expected.extend_from_slice(b"d6:lengthi10000e4:name5:a.bin12:piece lengthi16384e6:pieces20:");
    expected.extend_from_slice(&[7u8; 20]);
    expected.push(b'e');
    assert_eq!(torrent.info.to_bytes(), expected);
}

#[test]
fn info_hash_is_sha1_of_canonical_bytes() {
    let torrent = Torrent::from_bytes(&single_file_metainfo()).unwrap();
    let expected = sha1_smol::Sha1::from(torrent.info.to_bytes()).digest().bytes();
    assert_eq!(torrent.info.get_hash(), expected);
    let url = torrent.info.get_url_encoded_hash();
    assert_eq!(url.len(), 60);
    let mut text = String::new();
    for b in expected.iter() {
        text.push_str(&format!("%{:02x}", b));
    }
    assert_eq!(url, text);
}

#[test]
fn missing_info_is_reported() {
    match Torrent::from_bytes(b"d8:announce9:http://t/e") {
        Err(TorrentError::InvalidTorrentFile(reason)) => {
            assert_eq!(reason, "Info dictionary does not exist.")
        }
        other => panic!("unexpected: {:?}", other),
    }
}

fn reason_of(bytes: &[u8]) -> String {
    match Torrent::from_bytes(bytes) {
        Err(TorrentError::InvalidTorrentFile(reason)) => reason,
        other => panic!("unexpected: {:?}", other),
    }
}

fn info_with(body: &[u8]) -> Vec<u8> {
    let mut bytes: Vec<u8> = b"d4:infod".to_vec();
    bytes.extend_from_slice(body);
    bytes.extend_from_slice(b"ee");
    bytes
}

fn tail() -> Vec<u8> {
    let mut bytes = b"4:name1:n12:piece lengthi4e6:pieces20:".to_vec();
    bytes.extend_from_slice(&[1u8; 20]);
    bytes
}

fn with_tail(head: &[u8]) -> Vec<u8> {
    let mut body = head.to_vec();
    body.extend_from_slice(&tail());
    info_with(&body)
}

#[test]
fn info_hash_of_a_known_descriptor() {
    let torrent = Torrent::from_bytes(&single_file_metainfo()).unwrap();
    let expected: [u8; 20] = [
        0xe5, 0xdd, 0xd6, 0x66, 0x5f, 0x39, 0x99, 0xfc, 0x03, 0xba, 0xdf, 0xfc, 0xaf, 0xcc, 0x2d,
        0x35, 0x0e, 0x27, 0x0f, 0x3f,
    ];
    assert_eq!(torrent.info.get_hash(), expected);
    assert_eq!(
        torrent.info.get_url_encoded_hash(),
        "%e5%dd%d6%66%5f%39%99%fc%03%ba%df%fc%af%cc%2d%35%0e%27%0f%3f"
    );
}

#[test]
fn info_hash_does_not_depend_on_the_order_of_the_outer_keys() {
    let first = Torrent::from_bytes(&single_file_metainfo()).unwrap();
    let mut swapped: Vec<u8> = Vec::new();
    swapped.extend_from_slice(b"d4:infod");
    swapped.extend_from_slice(b"6:lengthi10000e4:name5:a.bin12:piece lengthi16384e6:pieces20:");
    swapped.extend_from_slice(&[7u8; 20]);
    swapped.extend_from_slice(b"e7:comment1:x8:announce9:http://t/e");
    let second = Torrent::from_bytes(&swapped).unwrap();
    assert_eq!(first.info.get_hash(), second.info.get_hash());
    assert_eq!(first.announce, second.announce);
    let mut inner_swapped: Vec<u8> = Vec::new();
    inner_swapped.extend_from_slice(b"d4:infod6:pieces20:");
    inner_swapped.extend_from_slice(&[7u8; 20]);
    inner_swapped.extend_from_slice(b"4:name5:a.bin6:lengthi10000e12:piece lengthi16384eee");
    let third = Torrent::from_bytes(&inner_swapped).unwrap();
    assert_eq!(first.info.to_bytes(), third.info.to_bytes());
}

#[test]
fn several_files_are_projected_and_written() {
    let bytes =
        with_tail(b"5:filesld6:lengthi3e4:pathl1:a5:b.txteed4:pathl1:ce6:lengthi5eee");
    let torrent = Torrent::from_bytes(&bytes).unwrap();
    assert!(torrent.announce.is_none());
    match &torrent.info.file_type {
        FileType::MultiFile { files } => {
            assert_eq!(files.len(), 2);
            assert_eq!(files[0].length, 3);
            assert_eq!(files[0].path, vec!["a".to_string(), "b.txt".to_string()]);
            assert_eq!(files[1].length, 5);
            assert_eq!(files[1].path, vec!["c".to_string()]);
        }
        other => panic!("unexpected: {:?}", other),
    }
    assert_eq!(torrent.info.get_file_length(), 8);
    assert!(torrent.info.is_well_formed());
    assert_eq!(
        torrent.info.file_type.to_bytes(),
        b"5:filesld6:lengthi3e4:pathl1:a5:b.txteed6:lengthi5e4:pathl1:ceee".to_vec()
    );
    let mut expected =
        b"d5:filesld6:lengthi3e4:pathl1:a5:b.txteed6:lengthi5e4:pathl1:ceee".to_vec();
    expected.extend_from_slice(&tail());
    expected.push(b'e');
    assert_eq!(torrent.info.to_bytes(), expected);
}

#[test]
fn length_and_files_together_are_refused() {
    assert_eq!(
        reason_of(&with_tail(b"5:filesle6:lengthi9e")),
        "Either length or files, not both"
    );
    assert_eq!(
        reason_of(&with_tail(b"5:filesld6:lengthi3e4:pathl1:aeee6:lengthi9e")),
        "Either length or files, not both"
    );
    assert_eq!(
        reason_of(&with_tail(b"6:length1:x5:filesle")),
        "Either length or files, not both"
    );
    let (value, _) =
        Bencode::from_bytes(b"d5:filesld6:lengthi3e4:pathl1:aeee6:lengthi9ee", |_| None).unwrap();
    assert!(matches!(
        Info::resolve_file_type(&value),
        Err(TorrentError::InvalidTorrentFile(_))
    ));
}

fn several_files() -> Info {
    Info {
        file_type: FileType::MultiFile {
            files: vec![
                File { length: 3, path: vec!["a".to_string(), "b".to_string()] },
                File { length: 5, path: vec!["c".to_string()] },
            ],
        },
        name: "x".to_string(),
        piece_length: 1,
        pieces: vec![[b'a'; 20]],
    }
}

#[test]
fn canonical_form_of_several_files_is_bencode() {
    let info = several_files();
    assert_eq!(
        info.file_type.to_bytes(),
        b"5:filesld6:lengthi3e4:pathl1:a1:beed6:lengthi5e4:pathl1:ceee".to_vec()
    );
    let one = Info {
        file_type: FileType::MultiFile {
            files: vec![File { length: 3, path: vec!["a".to_string(), "b".to_string()] }],
        },
        name: "x".to_string(),
        piece_length: 1,
        pieces: vec![[b'a'; 20]],
    };
    assert_eq!(
        one.to_bytes(),
        b"d5:filesld6:lengthi3e4:pathl1:a1:beee4:name1:x12:piece lengthi1e6:pieces20:aaaaaaaaaaaaaaaaaaaae"
            .to_vec()
    );
}

fn read_back(info: &Info) -> Torrent {
    let mut bytes = b"d4:info".to_vec();
    bytes.extend_from_slice(&info.to_bytes());
    bytes.push(b'e');
    Torrent::from_bytes(&bytes).unwrap()
}

#[test]
fn canonical_form_is_read_back() {
    let info = several_files();
    let torrent = read_back(&info);
    assert!(torrent.announce.is_none());
    assert_eq!(format!("{:?}", torrent.info), format!("{:?}", info));
    assert_eq!(torrent.info.to_bytes(), info.to_bytes());
    let single = Torrent::from_bytes(&single_file_metainfo()).unwrap().info;
    let torrent = read_back(&single);
    assert_eq!(format!("{:?}", torrent.info), format!("{:?}", single));
    let canonical = info.to_bytes();
    let (value, rest) = Bencode::from_bytes(&canonical, |key| match key {
        "pieces" => Some(20),
        _ => None,
    })
    .unwrap();
    assert!(rest.is_empty());
    assert_eq!(value.to_bytes().unwrap(), canonical);
}

#[test]
fn announce_that_is_no_string_is_left_out() {
    let mut bytes = b"d8:announcei1e4:infod6:lengthi9e".to_vec();
    bytes.extend_from_slice(&tail());
    bytes.extend_from_slice(b"ee");
    let torrent = Torrent::from_bytes(&bytes).unwrap();
    assert!(torrent.announce.is_none());
}

#[test]
fn what_is_no_descriptor_is_reported_with_its_reason() {
    assert_eq!(
        reason_of(b"i1e"),
        "Torrent metainfo file should have a bencoded dictionary."
    );
    assert_eq!(reason_of(b"de"), "Info dictionary does not exist.");
    assert_eq!(
        reason_of(b"d4:infoi1ee"),
        "Files list is not a valid bencoded dictionary."
    );
    assert_eq!(reason_of(&info_with(b"")), "Could not determine file type");
    assert_eq!(
        reason_of(&info_with(b"6:lengthi-1e")),
        "File does not have valid file length."
    );
    assert_eq!(reason_of(&info_with(b"5:filesli1ee")), "Invalid files list.");
    assert_eq!(
        reason_of(&info_with(b"5:filesld4:pathl1:aeee")),
        "File does not have valid file length."
    );
    assert_eq!(
        reason_of(&info_with(b"5:filesld6:lengthi1eee")),
        "File does not have a valid file path."
    );
    assert_eq!(
        reason_of(&info_with(b"5:filesld6:lengthi1e4:pathleee")),
        "File does not have a valid file path."
    );
    assert_eq!(
        reason_of(&info_with(b"5:filesld6:lengthi1e4:pathli1eeee")),
        "Invalid file path"
    );
    assert_eq!(reason_of(&info_with(b"6:lengthi9e")), "Should have advisory name");
    assert_eq!(
        reason_of(&info_with(b"6:lengthi9e4:name1:n")),
        "Should have piece length information."
    );
    assert_eq!(
        reason_of(&info_with(b"6:lengthi9e4:name1:n12:piece lengthi0e")),
        "Should have piece length information."
    );
    assert_eq!(
        reason_of(&info_with(b"6:lengthi9e4:name1:n12:piece lengthi4e")),
        "No pieces found"
    );
    assert_eq!(
        reason_of(&info_with(b"6:lengthi9e4:name1:n12:piece lengthi4e6:pieces0:")),
        "No pieces found"
    );
}

#[test]
fn bytes_that_are_no_bencode_are_reported() {
    assert!(matches!(
        Torrent::from_bytes(b"d4:info"),
        Err(TorrentError::InvalidBencode(BenError::UnexpectedTruncationError))
    ));
    assert!(matches!(
        Torrent::from_bytes(b"d4:infod6:pieces19:aaaaaaaaaaaaaaaaaaaee"),
        Err(TorrentError::InvalidBencode(BenError::UnexpectedTruncationError))
    ));
}

#[test]
fn torrent_errors_say_what_went_wrong() {
    assert_eq!(
        TorrentError::InvalidTorrentFile("No pieces found".to_string()).to_string(),
        "Not a valid torrent file, missing No pieces found"
    );
    assert_eq!(TorrentError::InvalidAnnounceUrl.to_string(), "Not a valid announce URL");
    assert_eq!(
        TorrentError::InvalidBencode(BenError::NonUtf8String).to_string(),
        "String is not valid UTF-8."
    );
}

#[test]
fn digests_of_another_width_are_refused() {
    let mut table = BencodeDict::new();
    table.insert("length".to_string(), BencodeDictValues::Bencode(Bencode::Number(1)));
    table.insert(
        "name".to_string(),
        BencodeDictValues::Bencode(Bencode::String("n".to_string())),
    );
    table.insert("piece length".to_string(), BencodeDictValues::Bencode(Bencode::Number(1)));
    table.insert("pieces".to_string(), BencodeDictValues::Bytes(vec![vec![0u8; 19]]));
    match Info::parse_info(&Bencode::Dict(table)) {
        Err(TorrentError::InvalidTorrentFile(reason)) => assert_eq!(reason, "Invalid file hash."),
        other => panic!("unexpected: {:?}", other),
    }
}

#[test]
fn info_by_hand_need_not_be_well_formed() {
    let info = Info {
        file_type: FileType::MultiFile {
            files: vec![File { length: usize::MAX, path: vec!["a".to_string()] }, File {
                length: 1,
                path: vec!["b".to_string()],
            }],
        },
        name: "n".to_string(),
        piece_length: 1,
        pieces: vec![[0u8; 20]],
    };
    assert!(!info.is_well_formed());
    let no_pieces = Info {
        file_type: FileType::SingleFile { length: 1 },
        name: "n".to_string(),
        piece_length: 1,
        pieces: vec![],
    };
    assert!(!no_pieces.is_well_formed());
}
