use bittorrent_rust::downloader::{
    DownloadState, Downloader, IntegrityError, PieceDownload, StepAction,
};
use bittorrent_rust::handshake::{Handshake, HandshakeError};
use bittorrent_rust::peer_message::{decode_message, Frame, FrameError, Message, MESSAGE};
use bittorrent_rust::{Info, TorrentResponse};

const SHA1_ABC: [u8; 20] = [
    169, 153, 62, 54, 71, 6, 129, 106, 186, 62, 37, 113, 120, 80, 194, 108, 156, 208, 216, 157,
];

fn tiny_torrent() -> TorrentResponse {
    TorrentResponse {
        info: Info {
            name: "tiny".to_string(),
            length: 3,
            piece_length: 3,
            pieces: SHA1_ABC.to_vec(),
        },
        announce_url: "http://t/a".to_string(),
        hash: String::new(),
    }
}

#[test]
fn handshake_frame_layout() {
    let h = Handshake::new([7u8; 20], [9u8; 20]);
    let bytes = h.to_bytes();
    assert_eq!(bytes.len(), 68);
    assert_eq!(bytes[0], 19);
    assert_eq!(&bytes[1..20], b"BitTorrent protocol");
    assert_eq!(&bytes[20..28], &[0u8; 8]);
    assert_eq!(&bytes[28..48], &[7u8; 20]);
    assert_eq!(&bytes[48..68], &[9u8; 20]);
}

#[test]
fn handshake_parse_round_trip() {
    let h = Handshake::new([7u8; 20], [9u8; 20]);
    let bytes = h.to_bytes();
    let back = Handshake::parse(&bytes).unwrap();
    assert_eq!(back.length, 19);
    assert_eq!(back.info_hash, [7u8; 20]);
    assert_eq!(back.peer_id, [9u8; 20]);
}

#[test]
fn handshake_rejection() {
    // a wrong protocol literal must fail, never proceed
    let mut bytes = Handshake::new([7u8; 20], [9u8; 20]).to_bytes();
    bytes[5] ^= 0xff;
    assert_eq!(Handshake::parse(&bytes).unwrap_err(), HandshakeError::ProtocolMismatch);
    // a length byte other than 19 must fail
    let mut bytes = Handshake::new([7u8; 20], [9u8; 20]).to_bytes();
    bytes[0] = 20;
    assert_eq!(Handshake::parse(&bytes).unwrap_err(), HandshakeError::ProtocolMismatch);
}

#[test]
fn message_wire_form() {
    let m = Message::new(MESSAGE::REQUEST, vec![1, 2, 3]);
    assert_eq!(m.prefix, 4);
    assert_eq!(m.to_bytes(), vec![0, 0, 0, 4, 6, 1, 2, 3]);
    let m = Message::new(MESSAGE::INTERESTED, Vec::new());
    assert_eq!(m.to_bytes(), vec![0, 0, 0, 1, 2]);
}

#[test]
fn message_id_space_is_closed() {
    assert!(matches!(MESSAGE::try_from(1), Ok(MESSAGE::UNCHOKE)));
    assert!(matches!(MESSAGE::try_from(2), Ok(MESSAGE::INTERESTED)));
    assert!(matches!(MESSAGE::try_from(5), Ok(MESSAGE::BITFIELD)));
    assert!(matches!(MESSAGE::try_from(6), Ok(MESSAGE::REQUEST)));
    assert!(matches!(MESSAGE::try_from(7), Ok(MESSAGE::PIECE)));
    assert_eq!(MESSAGE::try_from(0).unwrap_err(), FrameError::UnknownId { id: 0 });
    assert_eq!(MESSAGE::try_from(9).unwrap_err(), FrameError::UnknownId { id: 9 });
}

#[test]
fn frame_truncation() {
    // fewer bytes than the declared length prefix: Truncated, no overread
    assert_eq!(decode_message(&[0, 0, 0, 5, 7, 1]).unwrap_err(), FrameError::Truncated);
    // not even a whole prefix
    assert_eq!(decode_message(&[0, 0]).unwrap_err(), FrameError::Truncated);
}

#[test]
fn frame_decoding() {
    // keep-alive: zero prefix, a no-op
    let (f, used) = decode_message(&[0, 0, 0, 0, 9, 9]).unwrap();
    assert!(matches!(f, Frame::KeepAlive));
    assert_eq!(used, 4);
    // a whole UNCHOKE frame
    let (f, used) = decode_message(&[0, 0, 0, 1, 1]).unwrap();
    match f {
        Frame::Msg(m) => {
            assert!(matches!(m.id, MESSAGE::UNCHOKE));
            assert!(m.payload.is_empty());
        }
        other => panic!("expected a message, got {:?}", other),
    }
    assert_eq!(used, 5);
    // an unknown id byte is rejected by name
    assert_eq!(decode_message(&[0, 0, 0, 1, 3]).unwrap_err(), FrameError::UnknownId { id: 3 });
}

#[test]
fn bitfield_decoding() {
    // byte 0x80 on an 8-piece torrent: piece 0 present, pieces 1..=7 absent
    let pieces = Downloader::get_pieces(&vec![0x80u8]);
    assert_eq!(pieces, vec![0]);
    let pieces = Downloader::get_pieces(&vec![0xa0u8, 0x01u8]);
    assert_eq!(pieces, vec![0, 2, 15]);
}

#[test]
fn piece_sizing() {
    // total length 71, piece length 40: piece 0 is 40 bytes, piece 1 is 31
    let t = TorrentResponse {
        info: Info {
            name: "f".to_string(),
            length: 71,
            piece_length: 40,
            pieces: vec![0u8; 40],
        },
        announce_url: String::new(),
        hash: String::new(),
    };
    assert_eq!(Downloader::piece_size(&t, 0), 40);
    assert_eq!(Downloader::piece_size(&t, 1), 31);
}

#[test]
fn piece_hash_slices() {
    let mut pieces = vec![0x11u8; 20];
    pieces.extend_from_slice(&[0x22u8; 20]);
    let t = TorrentResponse {
        info: Info { name: String::new(), length: 2, piece_length: 1, pieces },
        announce_url: String::new(),
        hash: String::new(),
    };
    assert_eq!(Downloader::get_piece_hash(0, &t), [0x11u8; 20]);
    assert_eq!(Downloader::get_piece_hash(1, &t), [0x22u8; 20]);
}

#[test]
fn integrity_check() {
    // the digest of b"abc" matches its known hash: no error
    assert!(Downloader::verify_piece(&b"abc".to_vec(), &SHA1_ABC).is_ok());
    // a buffer whose hash differs yields IntegrityError and nothing else
    let wrong = [0u8; 20];
    assert_eq!(
        Downloader::verify_piece(&b"abc".to_vec(), &wrong).unwrap_err(),
        IntegrityError::HashMismatch
    );
}

#[test]
fn download_state_machine_happy_path() {
    let t = tiny_torrent();
    let mut d = PieceDownload::start(&t, 0);
    assert_eq!(d.state, DownloadState::AwaitBitfield);
    assert_eq!(d.piece_size, 3);
    // first message must be BITFIELD holding the piece
    let act = d.on_frame(&Frame::Msg(Message::new(MESSAGE::BITFIELD, vec![0x80])));
    match act {
        StepAction::Send(m) => {
            assert!(matches!(m.id, MESSAGE::INTERESTED));
            assert!(m.payload.is_empty());
        }
        other => panic!("expected to send INTERESTED, got {:?}", other),
    }
    assert_eq!(d.state, DownloadState::AwaitUnchoke);
    // a keep-alive in between is a no-op
    assert!(matches!(d.on_frame(&Frame::KeepAlive), StepAction::Idle));
    assert_eq!(d.state, DownloadState::AwaitUnchoke);
    // UNCHOKE starts the one-in-flight request loop
    let act = d.on_frame(&Frame::Msg(Message::new(MESSAGE::UNCHOKE, Vec::new())));
    match act {
        StepAction::Send(m) => {
            assert!(matches!(m.id, MESSAGE::REQUEST));
            assert_eq!(m.payload, vec![0, 0, 0, 0, 0, 0, 0, 0, 0, 0, 0, 3]);
        }
        other => panic!("expected to send REQUEST, got {:?}", other),
    }
    assert_eq!(d.state, DownloadState::Requesting { begin: 0 });
    // the matching PIECE block completes and verifies the piece
    let mut payload = vec![0u8, 0, 0, 0, 0, 0, 0, 0];
    payload.extend_from_slice(b"abc");
    let act = d.on_frame(&Frame::Msg(Message::new(MESSAGE::PIECE, payload)));
    assert!(matches!(act, StepAction::Complete));
    assert_eq!(d.state, DownloadState::Done);
    assert_eq!(d.buffer, b"abc".to_vec());
}

#[test]
fn download_state_machine_protocol_errors() {
    let t = tiny_torrent();
    // anything but BITFIELD first is fatal
    let mut d = PieceDownload::start(&t, 0);
    let act = d.on_frame(&Frame::Msg(Message::new(MESSAGE::INTERESTED, Vec::new())));
    assert!(matches!(act, StepAction::Fail));
    assert_eq!(d.state, DownloadState::Failed);
    // a bitfield without this piece is fatal too
    let mut d = PieceDownload::start(&t, 0);
    let act = d.on_frame(&Frame::Msg(Message::new(MESSAGE::BITFIELD, vec![0x00])));
    assert!(matches!(act, StepAction::Fail));
    // while awaiting UNCHOKE, any other message is a protocol error
    let mut d = PieceDownload::start(&t, 0);
    d.on_frame(&Frame::Msg(Message::new(MESSAGE::BITFIELD, vec![0x80])));
    let act = d.on_frame(&Frame::Msg(Message::new(MESSAGE::PIECE, vec![0u8; 11])));
    assert!(matches!(act, StepAction::Fail));
    assert_eq!(d.state, DownloadState::Failed);
}

#[test]
fn download_state_machine_integrity_failure() {
    // a block whose bytes hash differently is fatal, with no completion
    let mut t = tiny_torrent();
    t.info.pieces = vec![0u8; 20];
    let mut d = PieceDownload::start(&t, 0);
    d.on_frame(&Frame::Msg(Message::new(MESSAGE::BITFIELD, vec![0x80])));
    d.on_frame(&Frame::Msg(Message::new(MESSAGE::UNCHOKE, Vec::new())));
    let mut payload = vec![0u8, 0, 0, 0, 0, 0, 0, 0];
    payload.extend_from_slice(b"abc");
    let act = d.on_frame(&Frame::Msg(Message::new(MESSAGE::PIECE, payload)));
    assert!(matches!(act, StepAction::Fail));
    assert_eq!(d.state, DownloadState::Failed);
}

#[test]
fn download_splits_piece_into_blocks() {
    // a piece larger than 16 KiB is requested in consecutive blocks
    let blob: Vec<u8> = (0u32..20000u32).map(|i| (i % 251) as u8).collect();
    let mut pieces = vec![0u8; 20];
    // compute the real hash through the public integrity check by building
    // the torrent bytes first
    let torrent_bytes =
        bittorrent_rust::encode::Encoder::build_torrent("b", &blob, "http://t/a", 20000);
    let parsed = bittorrent_rust::parse::Parser::parse_torrent_file(
        bittorrent_rust::parse::Parser::decode_torrent_dict(&torrent_bytes).unwrap(),
    )
    .unwrap();
    pieces.copy_from_slice(&parsed.info.pieces[0..20]);
    let t = TorrentResponse {
        info: Info {
            name: "b".to_string(),
            length: 20000,
            piece_length: 20000,
            pieces: pieces.to_vec(),
        },
        announce_url: String::new(),
        hash: String::new(),
    };
    let mut d = PieceDownload::start(&t, 0);
    d.on_frame(&Frame::Msg(Message::new(MESSAGE::BITFIELD, vec![0x80])));
    let act = d.on_frame(&Frame::Msg(Message::new(MESSAGE::UNCHOKE, Vec::new())));
    // first request asks for exactly 16 KiB at offset 0
    let first = match act {
        StepAction::Send(m) => m,
        other => panic!("expected a REQUEST, got {:?}", other),
    };
    assert_eq!(first.payload[4..8], [0, 0, 0, 0]);
    assert_eq!(first.payload[8..12], [0, 0, 0x40, 0]);
    // answer it; the machine asks for the short remainder next
    let mut p1 = vec![0u8, 0, 0, 0, 0, 0, 0, 0];
    p1.extend_from_slice(&blob[0..16384]);
    let act = d.on_frame(&Frame::Msg(Message::new(MESSAGE::PIECE, p1)));
    let second = match act {
        StepAction::Send(m) => m,
        other => panic!("expected a second REQUEST, got {:?}", other),
    };
    assert_eq!(second.payload[4..8], [0, 0, 0x40, 0]);
    assert_eq!(second.payload[8..12], [0, 0, 0x0e, 0x20]);
    let mut p2 = vec![0u8, 0, 0, 0, 0, 0, 0x40, 0];
    p2.extend_from_slice(&blob[16384..20000]);
    let act = d.on_frame(&Frame::Msg(Message::new(MESSAGE::PIECE, p2)));
    assert!(matches!(act, StepAction::Complete));
    assert_eq!(d.buffer, blob);
}
