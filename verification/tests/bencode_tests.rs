use bit_torrust::bencode::{BenError, Bencode, BencodeDict, BencodeDictValues};

fn pieces_mode(key: &str) -> Option<usize> {
    match key {
        "pieces" => Some(20),
        _ => None,
    }
}

fn no_mode(_key: &str) -> Option<usize> {
    None
}

#[test]
fn decode_dictionary_literal_keeps_insertion_order() {
    let (value, rest) = Bencode::from_bytes(b"d3:cow3:moo4:spam4:eggse", no_mode).unwrap();
    assert!(rest.is_empty());
    let mut expected = BencodeDict::new();
    expected.insert(
        "cow".to_string(),
        BencodeDictValues::Bencode(Bencode::String("moo".to_string())),
    );
    expected.insert(
        "spam".to_string(),
        BencodeDictValues::Bencode(Bencode::String("eggs".to_string())),
    );
    match &value {
        Bencode::Dict(d) => {
            assert_eq!(d.len(), 2);
            let (k0, _) = d.get_index(0).unwrap();
            let (k1, _) = d.get_index(1).unwrap();
            assert_eq!(k0, "cow");
            assert_eq!(k1, "spam");
        }
        other => panic!("not a dictionary: {:?}", other),
    }
    assert_eq!(value, Bencode::Dict(expected));
}

#[test]
fn decode_negative_integer() {
    let (value, rest) = Bencode::from_bytes(b"i-42e", no_mode).unwrap();
    assert_eq!(value, Bencode::Number(-42));
    assert!(rest.is_empty());
}

#[test]
fn pieces_are_chunked_and_written_back_unchanged() {
    let mut input: Vec<u8> = b"d6:pieces40:".to_vec();
    let payload: Vec<u8> = (0u8..40).map(|b| b.wrapping_mul(7).wrapping_add(200)).collect();
    input.extend_from_slice(&payload);
    input.push(b'e');
    let (value, rest) = Bencode::from_bytes(&input, pieces_mode).unwrap();
    assert!(rest.is_empty());
    match &value {
        Bencode::Dict(d) => match d.get("pieces") {
            Some(BencodeDictValues::Bytes(chunks)) => {
                assert_eq!(chunks.len(), 2);
                assert_eq!(chunks[0], payload[..20].to_vec());
                assert_eq!(chunks[1], payload[20..].to_vec());
            }
            other => panic!("not chunks: {:?}", other),
        },
        other => panic!("not a dictionary: {:?}", other),
    }
    let written = value.to_bytes().unwrap();
    assert_eq!(written, input);
    assert_eq!(&written[9..12], b"40:");
    assert_eq!(&written[12..52], &payload[..]);
}

#[test]
fn misplaced_closing_is_reported() {
    assert_eq!(
        Bencode::from_bytes(b"e", no_mode).unwrap_err(),
        BenError::MisplacedClosingError
    );
}

fn width_zero(key: &str) -> Option<usize> {
    match key {
        "raw" => Some(0),
        _ => None,
    }
}

fn text(s: &str) -> Bencode {
    Bencode::String(s.to_string())
}

fn nested_value() -> Bencode {
    let mut inner = BencodeDict::new();
    inner.insert("zeta".to_string(), BencodeDictValues::Bencode(Bencode::Number(-7)));
    inner.insert(
        "pieces".to_string(),
        BencodeDictValues::Bytes(vec![vec![0xffu8; 20], vec![0x00u8; 20], vec![0x65u8; 20]]),
    );
    inner.insert("alpha".to_string(), BencodeDictValues::Bencode(text("h\u{e9}llo")));
    let mut outer = BencodeDict::new();
    outer.insert(
        "list".to_string(),
        BencodeDictValues::Bencode(Bencode::List(vec![
            Bencode::Number(i64::MIN),
            Bencode::Number(i64::MAX),
            Bencode::Number(0),
            text(""),
            Bencode::List(vec![]),
            Bencode::Dict(BencodeDict::new()),
            Bencode::Dict(inner),
        ])),
    );
    outer.insert("e".to_string(), BencodeDictValues::Bencode(text("e")));
    Bencode::Dict(outer)
}

#[test]
fn written_values_are_read_back() {
    let value = nested_value();
    let bytes = value.to_bytes().unwrap();
    let (read, rest) = Bencode::from_bytes(&bytes, pieces_mode).unwrap();
    assert!(rest.is_empty());
    assert_eq!(read, value);
    assert_eq!(read.to_bytes().unwrap(), bytes);
}

#[test]
fn each_kind_is_written_as_documented() {
    assert_eq!(text("spam").to_bytes().unwrap(), b"4:spam".to_vec());
    assert_eq!(text("").to_bytes().unwrap(), b"0:".to_vec());
    assert_eq!(text("h\u{e9}").to_bytes().unwrap(), "3:h\u{e9}".as_bytes().to_vec());
    assert_eq!(Bencode::Number(0).to_bytes().unwrap(), b"i0e".to_vec());
    assert_eq!(Bencode::Number(-42).to_bytes().unwrap(), b"i-42e".to_vec());
    assert_eq!(
        Bencode::Number(i64::MIN).to_bytes().unwrap(),
        b"i-9223372036854775808e".to_vec()
    );
    assert_eq!(
        Bencode::List(vec![text("a"), Bencode::Number(12)]).to_bytes().unwrap(),
        b"l1:ai12ee".to_vec()
    );
    let mut dict = BencodeDict::new();
    dict.insert("b".to_string(), BencodeDictValues::Bencode(Bencode::Number(1)));
    dict.insert("a".to_string(), BencodeDictValues::Bytes(vec![vec![1, 2], vec![3, 4]]));
    assert_eq!(
        Bencode::Dict(dict).to_bytes().unwrap(),
        vec![b'd', b'1', b':', b'b', b'i', b'1', b'e', b'1', b':', b'a', b'4', b':', 1, 2, 3, 4, b'e']
    );
}

#[test]
fn chunks_are_written_as_one_byte_string() {
    let mut dict = BencodeDict::new();
    let chunks: Vec<Vec<u8>> = (0u8..12).map(|n| vec![n; 20]).collect();
    dict.insert("pieces".to_string(), BencodeDictValues::Bytes(chunks.clone()));
    let bytes = Bencode::Dict(dict).to_bytes().unwrap();
    assert_eq!(&bytes[..13], b"d6:pieces240:");
    assert_eq!(bytes.len(), 13 + 240 + 1);
    assert_eq!(&bytes[13..253], &chunks.concat()[..]);
}

#[test]
fn what_follows_a_value_is_left_over() {
    let (value, rest) = Bencode::from_bytes(b"i1ei2e", no_mode).unwrap();
    assert_eq!(value, Bencode::Number(1));
    assert_eq!(rest, b"i2e");
    let (value, rest) = Bencode::from_bytes(b"3:abcdef", no_mode).unwrap();
    assert_eq!(value, text("abc"));
    assert_eq!(rest, b"def");
}

#[test]
fn numbers_are_read_with_signs_and_leading_zeros() {
    assert_eq!(Bencode::from_bytes(b"i+5e", no_mode).unwrap().0, Bencode::Number(5));
    assert_eq!(Bencode::from_bytes(b"i-0e", no_mode).unwrap().0, Bencode::Number(0));
    assert_eq!(Bencode::from_bytes(b"i007e", no_mode).unwrap().0, Bencode::Number(7));
    assert_eq!(Bencode::from_bytes(b"03:abc", no_mode).unwrap().0, text("abc"));
    assert_eq!(
        Bencode::from_bytes(b"i9223372036854775807e", no_mode).unwrap().0,
        Bencode::Number(i64::MAX)
    );
    assert_eq!(
        Bencode::from_bytes(b"i-9223372036854775808e", no_mode).unwrap().0,
        Bencode::Number(i64::MIN)
    );
}

#[test]
fn a_key_that_comes_twice_keeps_its_place_and_takes_the_later_value() {
    let (value, _) = Bencode::from_bytes(b"d1:ai1e1:bi2e1:ai3ee", no_mode).unwrap();
    let mut expected = BencodeDict::new();
    expected.insert("a".to_string(), BencodeDictValues::Bencode(Bencode::Number(3)));
    expected.insert("b".to_string(), BencodeDictValues::Bencode(Bencode::Number(2)));
    assert_eq!(value, Bencode::Dict(expected));
    match value {
        Bencode::Dict(d) => {
            assert_eq!(d.len(), 2);
            assert_eq!(d.get_index(0).unwrap().0, "a");
            assert!(d.get_index(2).is_none());
            assert!(d.get("c").is_none());
        }
        other => panic!("not a dictionary: {:?}", other),
    }
}

#[test]
fn empty_raw_byte_string_has_no_chunks() {
    let (value, _) = Bencode::from_bytes(b"d6:pieces0:e", pieces_mode).unwrap();
    let mut expected = BencodeDict::new();
    expected.insert("pieces".to_string(), BencodeDictValues::Bytes(vec![]));
    assert_eq!(value, Bencode::Dict(expected));
}

fn error_of(bytes: &[u8]) -> BenError {
    Bencode::from_bytes(bytes, pieces_mode).unwrap_err()
}

#[test]
fn truncation_is_reported() {
    assert_eq!(error_of(b""), BenError::UnexpectedTruncationError);
    assert_eq!(error_of(b"5:abc"), BenError::UnexpectedTruncationError);
    assert_eq!(error_of(b"d6:pieces3:abce"), BenError::UnexpectedTruncationError);
    assert_eq!(error_of(b"d6:pieces21:aaaaaaaaaaaaaaaaaaaaae"), BenError::UnexpectedTruncationError);
    assert_eq!(
        Bencode::from_bytes(b"d3:raw0:e", width_zero).unwrap_err(),
        BenError::UnexpectedTruncationError
    );
}

#[test]
fn unexpected_token_is_reported() {
    assert_eq!(error_of(b"x"), BenError::UnexpectedToken { token: b'x' });
    assert_eq!(error_of(b"l-1ee"), BenError::UnexpectedToken { token: b'-' });
}

#[test]
fn missing_token_is_reported() {
    assert_eq!(error_of(b"5abc"), BenError::MissingToken { token: b':' });
    assert_eq!(error_of(b"i42"), BenError::MissingToken { token: b'e' });
    assert_eq!(error_of(b"l"), BenError::MissingToken { token: b'e' });
    assert_eq!(error_of(b"li1e"), BenError::MissingToken { token: b'e' });
    assert_eq!(error_of(b"d"), BenError::MissingToken { token: b'e' });
    assert_eq!(error_of(b"d1:ai1e"), BenError::MissingToken { token: b'e' });
    assert_eq!(error_of(b"di1ei2ee"), BenError::MissingToken { token: b':' });
}

#[test]
fn text_that_is_not_utf8_is_reported() {
    assert_eq!(error_of(&[b'2', b':', 0xff, 0xfe]), BenError::NonUtf8String);
    assert_eq!(error_of(&[b'd', b'1', b':', 0x80, b'i', b'1', b'e', b'e']), BenError::NonUtf8String);
}

#[test]
fn numbers_that_are_none_are_reported() {
    assert_eq!(error_of(b"i4xe"), BenError::InvalidNumber);
    assert_eq!(error_of(b"ie"), BenError::InvalidNumber);
    assert_eq!(error_of(b"i-e"), BenError::InvalidNumber);
    assert_eq!(error_of(b"i--1e"), BenError::InvalidNumber);
    assert_eq!(error_of(b"i9223372036854775808e"), BenError::InvalidNumber);
    assert_eq!(error_of(b"1x:a"), BenError::InvalidNumber);
    assert_eq!(error_of(b"99999999999999999999999:a"), BenError::InvalidNumber);
    assert_eq!(error_of(b"d-1:ai1ee"), BenError::InvalidNumber);
    assert_eq!(error_of(b"di1e1:ae"), BenError::InvalidNumber);
}

#[test]
fn errors_say_what_went_wrong() {
    assert_eq!(
        BenError::MisplacedClosingError.to_string(),
        "Unexpected closing tag 'e' found."
    );
    assert_eq!(
        BenError::UnexpectedTruncationError.to_string(),
        "Unexpected ending of byte stream."
    );
    assert_eq!(
        BenError::UnexpectedToken { token: 120 }.to_string(),
        "Unexpected token : 120."
    );
    assert_eq!(
        BenError::MissingToken { token: 58 }.to_string(),
        "Missing token in stream : 58."
    );
    assert_eq!(BenError::NonUtf8String.to_string(), "String is not valid UTF-8.");
    assert_eq!(
        BenError::InvalidNumber.to_string(),
        "Number is not a decimal number in range."
    );
}
