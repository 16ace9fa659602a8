use vstd::prelude::*;

pub mod bencode;
pub mod decode;
pub mod downloader;
pub mod handshake;
pub mod hashing;
pub mod parse;
pub mod peer_message;
pub mod peers;
pub mod text;
pub mod encode;

verus! {

/// The `info` dictionary of a single-file torrent: the file's name, its total
/// length in bytes, the piece length in bytes, and the concatenated 20-byte
/// SHA-1 hashes of the pieces.
#[derive(Debug)]
pub struct Info {
    pub name: String,
    pub length: i64,
    pub piece_length: i64,
    pub pieces: Vec<u8>,
}

/// A parsed torrent descriptor: the info fields, the announce URL and the
/// hex-encoded 20-byte info-hash, computed once from the canonical re-encoding
/// of the decoded `info` value.
#[derive(Debug)]
pub struct TorrentResponse {
    pub info: Info,
    pub announce_url: String,
    pub hash: String,
}

/// The fields written into a new metainfo file.
#[derive(Debug)]
pub struct TorrentRequest {
    pub info: Info,
    pub announce_url: String,
}

/// An announce answer: the advisory interval in seconds and the candidate
/// peers decoded from the compact list.
#[derive(Debug, Clone)]
pub struct TrackerResponse {
    pub interval: usize,
    pub peers: crate::peers::Peers,
}

/// The parameters of a tracker announce: a fixed-format 20-byte peer id, the
/// listen port, the transfer counters, and the compact flag (always 1).
#[derive(Debug, Clone)]
pub struct TrackerRequest {
    pub peer_id: String,
    pub port: u16,
    pub uploaded: usize,
    pub downloaded: usize,
    pub left: usize,
    pub compact: u8,
}

} // verus!
