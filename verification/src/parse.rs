use vstd::prelude::*;
use vstd::string::StringSliceAdditionalSpecFns;
use vstd::utf8::{decode_utf8, valid_utf8};

use crate::bencode::{dict_lookup, model_entries, spec_encode, wf, BencodeValue, Bval};
use crate::decode::{spec_decode, DecodeError, Decoder};
use crate::encode::Encoder;
use crate::hashing::{hex_encode, hex_of, sha1_digest, sha1_of};
use crate::{Info, TorrentResponse};

verus! {

/// Why metainfo could not be turned into a torrent descriptor: each variant
/// names the offending field or carries the underlying decode fault.
#[derive(Debug, Clone, PartialEq, Eq)]
pub enum ParseError {
    /// The named field is absent.
    MissingField { field: String },
    /// The named field holds a value of the wrong kind (or text that is not
    /// UTF-8).
    WrongType { field: String },
    /// The named field's hash bytes are no multiple of twenty.
    MalformedPiecesLength { field: String },
    /// The top-level value is not a dictionary.
    NotADictionary,
    /// The bytes are not well-formed bencode.
    Decode { err: DecodeError },
}

/// The `announce` entry is text.
pub open spec fn torrent_announce_ok(d: Seq<(Seq<u8>, Bval)>) -> bool {
    dict_lookup(d, "announce".spec_bytes()) matches Some(Bval::Bytes(b)) && valid_utf8(b)
}

/// The `info` entry's dictionary, if it is one.
pub open spec fn torrent_info_of(d: Seq<(Seq<u8>, Bval)>) -> Option<Seq<(Seq<u8>, Bval)>> {
    match dict_lookup(d, "info".spec_bytes()) {
        Some(Bval::Dict(ie)) => Some(ie),
        _ => None,
    }
}

/// The info dictionary carries text `name`, integers `length` and
/// `piece length`, and a `pieces` byte string of whole 20-byte hashes.
pub open spec fn info_fields_ok(ie: Seq<(Seq<u8>, Bval)>) -> bool {
    &&& dict_lookup(ie, "length".spec_bytes()) matches Some(Bval::Int(x))
    &&& dict_lookup(ie, "name".spec_bytes()) matches Some(Bval::Bytes(nb)) && valid_utf8(nb)
    &&& dict_lookup(ie, "piece length".spec_bytes()) matches Some(Bval::Int(p))
    &&& dict_lookup(ie, "pieces".spec_bytes()) matches Some(Bval::Bytes(hb)) && hb.len() % 20 == 0
}

/// A metainfo dictionary that parses into a torrent descriptor.
pub open spec fn spec_torrent_ok(d: Seq<(Seq<u8>, Bval)>) -> bool {
    &&& torrent_announce_ok(d)
    &&& torrent_info_of(d) matches Some(ie) && info_fields_ok(ie)
}

/// The error owed for a metainfo dictionary that does not parse: the first
/// fault in field order, naming the offending field.
pub open spec fn parse_error_for(d: Seq<(Seq<u8>, Bval)>, e: ParseError) -> bool {
    match dict_lookup(d, "announce".spec_bytes()) {
        None => e matches ParseError::MissingField { field } && field@ == "announce"@,
        Some(av) => if !(av matches Bval::Bytes(ab) && valid_utf8(ab)) {
            e matches ParseError::WrongType { field } && field@ == "announce"@
        } else {
            match dict_lookup(d, "info".spec_bytes()) {
                None => e matches ParseError::MissingField { field } && field@ == "info"@,
                Some(iv) => if !(iv is Dict) {
                    e matches ParseError::WrongType { field } && field@ == "info"@
                } else {
                    parse_info_error_for(iv->Dict_0, e)
                },
            }
        },
    }
}

/// The error owed for an info dictionary that does not parse, checked in
/// the order length, name, piece length, pieces.
pub open spec fn parse_info_error_for(ie: Seq<(Seq<u8>, Bval)>, e: ParseError) -> bool {
    match dict_lookup(ie, "length".spec_bytes()) {
        None => e matches ParseError::MissingField { field } && field@ == "length"@,
        Some(lv) => if !(lv is Int) {
            e matches ParseError::WrongType { field } && field@ == "length"@
        } else {
            match dict_lookup(ie, "name".spec_bytes()) {
                None => e matches ParseError::MissingField { field } && field@ == "name"@,
                Some(nv) => if !(nv matches Bval::Bytes(nb) && valid_utf8(nb)) {
                    e matches ParseError::WrongType { field } && field@ == "name"@
                } else {
                    match dict_lookup(ie, "piece length".spec_bytes()) {
                        None => e matches ParseError::MissingField { field } && field@
                            == "piece length"@,
                        Some(pv) => if !(pv is Int) {
                            e matches ParseError::WrongType { field } && field@
                                == "piece length"@
                        } else {
                            match dict_lookup(ie, "pieces".spec_bytes()) {
                                None => e matches ParseError::MissingField { field } && field@
                                    == "pieces"@,
                                Some(hv) => if !(hv is Bytes) {
                                    e matches ParseError::WrongType { field } && field@
                                        == "pieces"@
                                } else if hv->Bytes_0.len() % 20 != 0 {
                                    e matches ParseError::MalformedPiecesLength { field }
                                        && field@ == "pieces"@
                                } else {
                                    false
                                },
                            }
                        },
                    }
                },
            }
        },
    }
}

/// The decoded `info` value of metainfo bytes, if the bytes decode to a
/// dictionary holding one.
pub open spec fn spec_info_value(bytes: Seq<u8>) -> Option<Bval> {
    match spec_decode(bytes) {
        Ok(Bval::Dict(d)) => dict_lookup(d, "info".spec_bytes()),
        _ => None,
    }
}

/// The hex info-hash of metainfo bytes: SHA-1 over the canonical re-encoding
/// of the decoded `info` value.
pub open spec fn spec_info_hash(bytes: Seq<u8>) -> Option<Seq<char>> {
    match spec_info_value(bytes) {
        Some(iv) => Some(hex_of(sha1_of(spec_encode(iv)))),
        None => None,
    }
}

/// Info-hash determinism: the hash is a function of the decoded `info` value
/// alone. Two metainfo byte strings whose `info` values are equal — however
/// the bytes around them differ, say in the announce URL — carry the same
/// 20-byte hash; identical bytes do so in particular.
pub proof fn lemma_info_hash_determinism(b1: Seq<u8>, b2: Seq<u8>)
    requires
        spec_info_value(b1) is Some,
        spec_info_value(b1) == spec_info_value(b2),
    ensures
        spec_info_hash(b1) is Some,
        spec_info_hash(b1) == spec_info_hash(b2),
{
}

/// A value looked up in a well-formed dictionary is well formed.
pub proof fn lemma_dict_lookup_wf(d: Seq<(Seq<u8>, Bval)>, k: Seq<u8>)
    requires
        wf(Bval::Dict(d)),
        dict_lookup(d, k) is Some,
    ensures
        wf(dict_lookup(d, k).unwrap()),
    decreases d.len(),
{
    if d.len() > 0 && d[0].0 != k {
        assert(wf(Bval::Dict(d.drop_first()))) by {
            let dd = d.drop_first();
            assert(forall|i: int| 0 <= i < dd.len() ==> #[trigger] dd[i] == d[i + 1]);
        }
        lemma_dict_lookup_wf(d.drop_first(), k);
    } else if d.len() > 0 {
        assert(wf(d[0].1));
    }
}

/// Turning metainfo into a torrent descriptor.
pub struct Parser;

impl Parser {
    /// Decodes metainfo bytes and yields the top-level dictionary's entries.
    pub fn decode_torrent_dict(content: &[u8]) -> (r: Result<
        Vec<(Vec<u8>, BencodeValue)>,
        ParseError,
    >)
        ensures
            (match r {
                Ok(d) => spec_decode(content@) == Ok::<Bval, DecodeError>(
                    Bval::Dict(model_entries(d@)),
                ) && wf(Bval::Dict(model_entries(d@))),
                Err(e) => (match spec_decode(content@) {
                    Ok(v) => !(v is Dict) && e == ParseError::NotADictionary,
                    Err(de) => e == ParseError::Decode { err: de },
                }),
            }),
    {
        match Decoder::decode_bencoded_bytes(content) {
            Err(de) => Err(ParseError::Decode { err: de }),
            Ok(v) => match v {
                BencodeValue::Dict(d) => Ok(d),
                _ => Err(ParseError::NotADictionary),
            },
        }
    }

    /// Extracts the announce URL and the info fields, and computes the hex
    /// info-hash from the canonical re-encoding of the original `info` value
    /// with its unknown fields kept. Succeeds exactly on dictionaries whose
    /// `announce` is text and whose info dictionary holds text `name`,
    /// integers `length` and `piece length`, and whole 20-byte `pieces`.
    pub fn parse_torrent_file(dictionary: Vec<(Vec<u8>, BencodeValue)>) -> (r: Result<
        TorrentResponse,
        ParseError,
    >)
        requires
            wf(Bval::Dict(model_entries(dictionary@))),
        ensures
            r is Ok <==> spec_torrent_ok(model_entries(dictionary@)),
            (match r {
                Ok(t) => ({
                    let dm = model_entries(dictionary@);
                    &&& dict_lookup(dm, "announce".spec_bytes()) matches Some(Bval::Bytes(ab))
                        && valid_utf8(ab) && t.announce_url@ == decode_utf8(ab)
                    &&& torrent_info_of(dm) matches Some(ie) && ({
                        &&& dict_lookup(ie, "length".spec_bytes()) == Some(
                            Bval::Int(t.info.length as int),
                        )
                        &&& dict_lookup(ie, "name".spec_bytes()) matches Some(Bval::Bytes(nb))
                            && valid_utf8(nb) && t.info.name@ == decode_utf8(nb)
                        &&& dict_lookup(ie, "piece length".spec_bytes()) == Some(
                            Bval::Int(t.info.piece_length as int),
                        )
                        &&& dict_lookup(ie, "pieces".spec_bytes()) == Some(
                            Bval::Bytes(t.info.pieces@),
                        )
                        &&& t.info.pieces@.len() % 20 == 0
                        &&& t.hash@ == hex_of(sha1_of(spec_encode(Bval::Dict(ie))))
                    })
                }),
                Err(e) => parse_error_for(model_entries(dictionary@), e),
            }),
    {
        let ghost dm = model_entries(dictionary@);
        let announce = match Decoder::extract_string("announce", &dictionary) {
            Ok(s) => s,
            Err(e) => {
                return Err(e);
            },
        };
        let info = match Decoder::extract_dict("info", &dictionary) {
            Ok(d) => d,
            Err(e) => {
                return Err(e);
            },
        };
        proof {
            lemma_dict_lookup_wf(dm, "info".spec_bytes());
        }
        let length = match Decoder::extract_int("length", &info) {
            Ok(x) => x,
            Err(e) => {
                return Err(e);
            },
        };
        let name = match Decoder::extract_string("name", &info) {
            Ok(s) => s,
            Err(e) => {
                return Err(e);
            },
        };
        let piece_length = match Decoder::extract_int("piece length", &info) {
            Ok(x) => x,
            Err(e) => {
                return Err(e);
            },
        };
        let pieces = match Decoder::extract_bytes("pieces", &info) {
            Ok(b) => b,
            Err(e) => {
                return Err(e);
            },
        };
        if pieces.len() % 20 != 0 {
            return Err(ParseError::MalformedPiecesLength { field: "pieces".to_owned() });
        }
        let info_val = BencodeValue::Dict(info);
        let hash_bytes = match Parser::get_info_hash_array(&info_val) {
            Ok(h) => h,
            Err(e) => {
                return Err(e);
            },
        };
        let hash = hex_encode(hash_bytes.as_slice());
        Ok(
            TorrentResponse {
                announce_url: announce,
                info: Info { length, name, piece_length, pieces },
                hash,
            },
        )
    }

    /// The 20-byte SHA-1 info-hash of a decoded value's canonical
    /// re-encoding. The `Result` form mirrors the callers' plumbing: this
    /// computation itself always succeeds.
    pub fn get_info_hash_array(info_hash: &BencodeValue) -> (r: Result<[u8; 20], ParseError>)
        requires
            wf(info_hash@),
        ensures
            r matches Ok(h) && h@ == sha1_of(spec_encode(info_hash@)),
    {
        let encoded = Encoder::encode(info_hash);
        let digest = sha1_digest(encoded.as_slice());
        Ok(digest)
    }

    /// The hex text of each consecutive 20-byte piece hash.
    #[verifier::loop_isolation(false)]
    pub fn split_sha1_hashes(pieces: &Vec<u8>) -> (r: Vec<String>)
        requires
            pieces@.len() % 20 == 0,
        ensures
            r@.len() == pieces@.len() / 20,
            forall|i: int| 0 <= i < r@.len() ==> (#[trigger] r@[i])@ == hex_of(
                pieces@.subrange(20 * i, 20 * i + 20),
            ),
    {
        let mut out: Vec<String> = Vec::new();
        let count: usize = pieces.len() / 20;
        let mut k: usize = 0;
        while k < count
            invariant
                0 <= k <= count,
                out@.len() == k,
                forall|i: int| 0 <= i < k ==> (#[trigger] out@[i])@ == hex_of(
                    pieces@.subrange(20 * i, 20 * i + 20),
                ),
            decreases count - k,
        {
            let chunk = &pieces.as_slice()[20 * k..20 * k + 20];
            let h = hex_encode(chunk);
            out.push(h);
            k = k + 1;
        }
        out
    }
}

} // verus!
