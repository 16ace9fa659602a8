use bittorrent_rust::decode::DecodeError;
use bittorrent_rust::encode::Encoder;
use bittorrent_rust::parse::{ParseError, Parser};

fn metainfo(announce: &[u8], name: &[u8]) -> Vec<u8> {
    let pieces: Vec<u8> = (0u8..20u8).collect();
    let mut m = Vec::new();
    m.extend_from_slice(b"d8:announce");
    m.extend_from_slice(format!("{}", announce.len()).as_bytes());
    m.push(b':');
    m.extend_from_slice(announce);
    m.extend_from_slice(b"4:infod6:lengthi71e4:name");
    m.extend_from_slice(format!("{}", name.len()).as_bytes());
    m.push(b':');
    m.extend_from_slice(name);
    m.extend_from_slice(b"12:piece lengthi40e6:pieces20:");
    m.extend_from_slice(&pieces);
    m.extend_from_slice(b"ee");
    m
}

#[test]
fn parse_metainfo_fields_and_hash() {
    let bytes = metainfo(b"http://tracker.example/announce", b"file.txt");
    let dict = Parser::decode_torrent_dict(&bytes).unwrap();
    let t = Parser::parse_torrent_file(dict).unwrap();
    assert_eq!(t.announce_url, "http://tracker.example/announce");
    assert_eq!(t.info.length, 71);
    assert_eq!(t.info.name, "file.txt");
    assert_eq!(t.info.piece_length, 40);
    assert_eq!(t.info.pieces, (0u8..20u8).collect::<Vec<u8>>());
    // SHA-1 over the canonical re-encoding of the decoded info value
    assert_eq!(t.hash, "d304346304ed4058c40637126ca58c572a7b52d4");
}

#[test]
fn info_hash_determinism() {
    // identical metainfo bytes yield the identical hash
    let b1 = metainfo(b"http://tracker.example/announce", b"file.txt");
    let t1 = Parser::parse_torrent_file(Parser::decode_torrent_dict(&b1).unwrap()).unwrap();
    let t1b = Parser::parse_torrent_file(Parser::decode_torrent_dict(&b1).unwrap()).unwrap();
    assert_eq!(t1.hash, t1b.hash);
    // bytes outside the info dict (the announce URL) leave the hash alone
    let b2 = metainfo(b"http://other.example/announce", b"file.txt");
    let t2 = Parser::parse_torrent_file(Parser::decode_torrent_dict(&b2).unwrap()).unwrap();
    assert_eq!(t1.hash, t2.hash);
    // a byte inside the info dict changes the hash
    let b3 = metainfo(b"http://tracker.example/announce", b"other.txt");
    let t3 = Parser::parse_torrent_file(Parser::decode_torrent_dict(&b3).unwrap()).unwrap();
    assert_ne!(t1.hash, t3.hash);
    assert_eq!(t3.hash, "95e6162e23cd78917cce48fa13ce3523c6430bae");
}

#[test]
fn parse_rejects_bad_metainfo() {
    // not bencode at all
    assert_eq!(
        Parser::decode_torrent_dict(b"x").unwrap_err(),
        ParseError::Decode { err: DecodeError::UnexpectedByte { at: 0 } }
    );
    // a well-formed value that is no dictionary
    assert_eq!(Parser::decode_torrent_dict(b"i1e").unwrap_err(), ParseError::NotADictionary);
    // missing announce
    let d = Parser::decode_torrent_dict(b"d4:infodee").unwrap();
    assert_eq!(
        Parser::parse_torrent_file(d).unwrap_err(),
        ParseError::MissingField { field: "announce".to_string() }
    );
    // announce of the wrong kind
    let d = Parser::decode_torrent_dict(b"d8:announcei1e4:infodee").unwrap();
    assert_eq!(
        Parser::parse_torrent_file(d).unwrap_err(),
        ParseError::WrongType { field: "announce".to_string() }
    );
    // missing info
    let d = Parser::decode_torrent_dict(b"d8:announce3:urle").unwrap();
    assert_eq!(
        Parser::parse_torrent_file(d).unwrap_err(),
        ParseError::MissingField { field: "info".to_string() }
    );
    // pieces bytes that are no multiple of twenty
    let d = Parser::decode_torrent_dict(
        b"d8:announce3:url4:infod6:lengthi1e4:name1:n12:piece lengthi1e6:pieces3:abcee",
    )
    .unwrap();
    assert_eq!(
        Parser::parse_torrent_file(d).unwrap_err(),
        ParseError::MalformedPiecesLength { field: "pieces".to_string() }
    );
}

#[test]
fn split_hashes_hex() {
    let pieces: Vec<u8> = vec![0u8; 20];
    let hs = Parser::split_sha1_hashes(&pieces);
    assert_eq!(hs.len(), 1);
    assert_eq!(hs[0], "0000000000000000000000000000000000000000");
    let mut two: Vec<u8> = vec![0xabu8; 20];
    two.extend_from_slice(&[0x01u8; 20]);
    let hs = Parser::split_sha1_hashes(&two);
    assert_eq!(hs.len(), 2);
    assert_eq!(hs[0], "abababababababababababababababababababab");
    assert_eq!(hs[1], "0101010101010101010101010101010101010101");
}

#[test]
fn build_torrent_bytes() {
    let contents = b"hello world!".to_vec();
    let bytes = Encoder::build_torrent("a.txt", &contents, "http://t/a", 5);
    let expected: Vec<u8> = vec![
        100, 56, 58, 97, 110, 110, 111, 117, 110, 99, 101, 49, 48, 58, 104, 116, 116, 112, 58,
        47, 47, 116, 47, 97, 52, 58, 105, 110, 102, 111, 100, 54, 58, 108, 101, 110, 103, 116,
        104, 105, 49, 50, 101, 52, 58, 110, 97, 109, 101, 53, 58, 97, 46, 116, 120, 116, 49, 50,
        58, 112, 105, 101, 99, 101, 32, 108, 101, 110, 103, 116, 104, 105, 53, 101, 54, 58, 112,
        105, 101, 99, 101, 115, 54, 48, 58, 170, 244, 198, 29, 220, 197, 232, 162, 218, 190, 222,
        15, 59, 72, 44, 217, 174, 169, 67, 77, 131, 201, 138, 53, 189, 86, 137, 149, 68, 191, 25,
        45, 176, 206, 28, 89, 230, 250, 22, 245, 239, 2, 149, 243, 64, 118, 203, 89, 40, 24, 53,
        83, 228, 147, 173, 138, 204, 141, 96, 158, 101, 101,
    ];
    assert_eq!(bytes, expected);
    // and the built metainfo parses back
    let t = Parser::parse_torrent_file(Parser::decode_torrent_dict(&bytes).unwrap()).unwrap();
    assert_eq!(t.info.length, 12);
    assert_eq!(t.info.name, "a.txt");
    assert_eq!(t.info.piece_length, 5);
    assert_eq!(t.info.pieces.len(), 60);
    assert_eq!(t.announce_url, "http://t/a");
}
