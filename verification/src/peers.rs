use vstd::prelude::*;
use vstd::string::{StrSliceExecFns, StringExecFns, StringSliceAdditionalSpecFns};
use vstd::utf8::encode_utf8;

use crate::bencode::{dec_u, dict_lookup, BencodeValue, Bval};
use crate::peer_message::{be4, push_be4};
use crate::decode::{lemma_dec_u_shape, spec_decode, Decoder};
use crate::text::ascii_to_string;
use crate::{TrackerRequest, TrackerResponse};

verus! {

/// Why a tracker gave no usable peer list.
#[derive(PartialEq, Eq, Structural, Clone, Copy, Debug)]
pub enum TrackerError {
    /// No response within the bounded read timeout.
    Timeout,
    /// A response that is not a well-formed announce answer.
    BadResponse,
    /// The request could not be sent or the transport failed.
    Network,
}

/// One candidate peer: an IPv4 address and a port, as the six compact bytes
/// carry them.
#[derive(Clone, Copy, Debug)]
pub struct Peer {
    pub ip: [u8; 4],
    pub port: u16,
}

/// The peers of an announce answer, in the order the tracker sent them;
/// the caller treats the set as unordered.
#[derive(Clone, Debug)]
pub struct Peers(pub Vec<Peer>);

/// The peer decoded from one six-byte group: four address bytes, then a
/// big-endian port.
pub open spec fn compact_peer(b: Seq<u8>, i: int) -> Peer {
    Peer {
        ip: [b[6 * i], b[6 * i + 1], b[6 * i + 2], b[6 * i + 3]],
        port: (b[6 * i + 4] * 256 + b[6 * i + 5]) as u16,
    }
}

impl Peers {
    /// Decodes a compact peer list: consecutive six-byte groups, four IPv4
    /// bytes then a big-endian port; any other length is rejected.
    #[verifier::loop_isolation(false)]
    pub fn from_compact(bytes: &[u8]) -> (r: Result<Peers, TrackerError>)
        ensures
            (match r {
                Ok(ps) => bytes@.len() % 6 == 0 && ps.0@.len() == bytes@.len() / 6 && forall|i: int|
                    0 <= i < ps.0@.len() ==> ps.0@[i] == compact_peer(bytes@, i),
                Err(e) => e == TrackerError::BadResponse && bytes@.len() % 6 != 0,
            }),
    {
        if bytes.len() % 6 != 0 {
            return Err(TrackerError::BadResponse);
        }
        let count: usize = bytes.len() / 6;
        let mut out: Vec<Peer> = Vec::new();
        let mut i: usize = 0;
        while i < count
            invariant
                0 <= i <= count,
                out@.len() == i,
                forall|t: int| 0 <= t < i ==> out@[t] == compact_peer(bytes@, t),
            decreases count - i,
        {
            let base: usize = 6 * i;
            let ip: [u8; 4] = [bytes[base], bytes[base + 1], bytes[base + 2], bytes[base + 3]];
            let port: u16 = (bytes[base + 4] as u16) * 256 + (bytes[base + 5] as u16);
            let p = Peer { ip, port };
            proof {
                assert(p.ip@ =~= compact_peer(bytes@, i as int).ip@);
                assert(p == compact_peer(bytes@, i as int));
            }
            out.push(p);
            i = i + 1;
        }
        Ok(Peers(out))
    }

    /// The compact six-bytes-per-peer form of this list.
    #[verifier::loop_isolation(false)]
    pub fn to_compact(&self) -> (r: Vec<u8>)
        ensures
            r@.len() == 6 * self.0@.len(),
            forall|i: int| 0 <= i < self.0@.len() ==> compact_peer(r@, i) == self.0@[i],
    {
        let mut out: Vec<u8> = Vec::new();
        let mut i: usize = 0;
        while i < self.0.len()
            invariant
                0 <= i <= self.0@.len(),
                out@.len() == 6 * i,
                forall|t: int| 0 <= t < i ==> compact_peer(out@, t) == self.0@[t],
            decreases self.0@.len() - i,
        {
            let ghost oldout = out@;
            let p = self.0[i];
            out.push(p.ip[0]);
            out.push(p.ip[1]);
            out.push(p.ip[2]);
            out.push(p.ip[3]);
            out.push((p.port / 256) as u8);
            out.push((p.port % 256) as u8);
            proof {
                assert forall|t: int| 0 <= t < i + 1 implies compact_peer(out@, t)
                    == self.0@[t] by {
                    if t < i {
                        assert(compact_peer(oldout, t) == self.0@[t]);
                        assert(out@[6 * t] == oldout[6 * t]);
                        assert(out@[6 * t + 1] == oldout[6 * t + 1]);
                        assert(out@[6 * t + 2] == oldout[6 * t + 2]);
                        assert(out@[6 * t + 3] == oldout[6 * t + 3]);
                        assert(out@[6 * t + 4] == oldout[6 * t + 4]);
                        assert(out@[6 * t + 5] == oldout[6 * t + 5]);
                        assert(compact_peer(out@, t).ip =~= compact_peer(oldout, t).ip);
                    } else {
                        assert(out@[6 * t] == p.ip[0]);
                        assert(out@[6 * t + 1] == p.ip[1]);
                        assert(out@[6 * t + 2] == p.ip[2]);
                        assert(out@[6 * t + 3] == p.ip[3]);
                        assert(compact_peer(out@, t).ip =~= self.0@[t].ip);
                        assert(out@[6 * t + 4] == (p.port / 256) as u8);
                        assert(out@[6 * t + 5] == (p.port % 256) as u8);
                        assert(((p.port / 256) as u8) * 256 + ((p.port % 256) as u8)
                            == p.port) by (nonlinear_arith);
                        assert(compact_peer(out@, t).port == self.0@[t].port);
                    }
                }
            }
            i = i + 1;
        }
        out
    }
}

/// A byte the form-urlencoded serializer passes through unchanged:
/// alphanumerics and `*`, `-`, `.`, `_`.
pub open spec fn form_unchanged(b: u8) -> bool {
    b == 42 || b == 45 || b == 46 || b == 95 || (48 <= b <= 57) || (65 <= b <= 90) || (97 <= b
        <= 122)
}

/// An uppercase hexadecimal digit.
pub open spec fn up_hex(n: u8) -> char {
    if n < 10 {
        (48 + n) as char
    } else {
        (55 + n) as char
    }
}

/// How the form-urlencoded byte serializer writes one byte: unchanged,
/// `+` for a space, uppercase `%XX` otherwise.
pub open spec fn form_byte(b: u8) -> Seq<char> {
    if b == 32 {
        seq!['+']
    } else if form_unchanged(b) {
        seq![b as char]
    } else {
        seq!['%', up_hex(b / 16), up_hex(b % 16)]
    }
}

/// A whole byte string, form-urlencoded.
pub open spec fn form_enc(bytes: Seq<u8>) -> Seq<char>
    decreases bytes.len(),
{
    if bytes.len() == 0 {
        Seq::<char>::empty()
    } else {
        form_byte(bytes[0]) + form_enc(bytes.drop_first())
    }
}

/// `name=value` pairs joined by `&`, each side form-urlencoded over its
/// UTF-8 bytes.
pub open spec fn query_of(ps: Seq<(String, String)>) -> Seq<char>
    decreases ps.len(),
{
    if ps.len() == 0 {
        Seq::<char>::empty()
    } else {
        let head = form_enc(encode_utf8(ps[0].0@)) + seq!['='] + form_enc(encode_utf8(ps[0].1@));
        if ps.len() == 1 {
            head
        } else {
            head + seq!['&'] + query_of(ps.drop_first())
        }
    }
}

/// Relies on serde_urlencoded::to_string, which drives url's form
/// serializer: the pairs in order as `name=value` joined by `&`, each side
/// byte-serialized (alphanumerics and `*-._` unchanged, space as `+`, every
/// other byte as uppercase `%XX`). Serialization of string pairs cannot
/// fail.
#[verifier::external_body]
fn urlencode_pairs(pairs: &Vec<(String, String)>) -> (r: String)
    ensures
        r@ == query_of(pairs@),
{
    serde_urlencoded::to_string(pairs).unwrap_or_default()
}

/// Relies on url's form_urlencoded::byte_serialize: the same byte
/// serializer applied to raw bytes — the percent form the tracker expects
/// for the info-hash, never hex.
#[verifier::external_body]
fn byte_serialize_str(bytes: &[u8]) -> (r: String)
    ensures
        r@ == form_enc(bytes@),
{
    url::form_urlencoded::byte_serialize(bytes).collect()
}

/// The decimal text of a number.
pub open spec fn dec_chars(n: nat) -> Seq<char> {
    dec_u(n).map_values(|b: u8| b as char)
}

/// The decimal text of a 64-bit value.
fn u64_to_string(n: u64) -> (r: String)
    ensures
        r@ == dec_chars(n as nat),
{
    let mut digits: Vec<u8> = Vec::new();
    crate::encode::push_dec_u64(n, &mut digits);
    proof {
        lemma_dec_u_shape(n as nat);
        assert(forall|i: int| 0 <= i < digits@.len() ==> digits@[i] < 128);
    }
    let r = ascii_to_string(digits);
    proof {
        assert(r@ =~= dec_chars(n as nat));
    }
    r
}

/// The announce parameters the client sends: the fixed 20-byte peer id,
/// listen port 6881, zeroed transfer counters, `left` from the torrent, and
/// the compact flag.
pub fn build_tracker_request(left: usize) -> (r: TrackerRequest)
    ensures
        r.peer_id@ == "00112233445566778899"@,
        r.port == 6881,
        r.uploaded == 0,
        r.downloaded == 0,
        r.left == left,
        r.compact == 1,
{
    TrackerRequest {
        peer_id: "00112233445566778899".to_owned(),
        port: 6881,
        uploaded: 0,
        downloaded: 0,
        left,
        compact: 1,
    }
}

/// One `name=value` query pair, each side form-urlencoded over its UTF-8
/// bytes.
pub open spec fn pair_q(k: Seq<char>, v: Seq<char>) -> Seq<char> {
    form_enc(encode_utf8(k)) + seq!['='] + form_enc(encode_utf8(v))
}

/// The url-encoded announce query for a tracker request: the six parameters
/// in order, each value as decimal text but the peer id as given.
pub open spec fn spec_tracker_params(req: TrackerRequest) -> Seq<char> {
    pair_q("peer_id"@, req.peer_id@) + seq!['&'] + (pair_q("port"@, dec_chars(req.port as nat))
        + seq!['&'] + (pair_q("uploaded"@, dec_chars(req.uploaded as nat)) + seq!['&'] + (pair_q(
        "downloaded"@,
        dec_chars(req.downloaded as nat),
    ) + seq!['&'] + (pair_q("left"@, dec_chars(req.left as nat)) + seq!['&'] + pair_q(
        "compact"@,
        dec_chars(req.compact as nat),
    )))))
}

/// Builds the url-encoded query of an announce over HTTP(S).
#[verifier::rlimit(100)]
pub fn tracker_params(request: &TrackerRequest) -> (r: String)
    ensures
        r@ == spec_tracker_params(*request),
{
    let mut pairs: Vec<(String, String)> = Vec::new();
    pairs.push(("peer_id".to_owned(), request.peer_id.clone()));
    pairs.push(("port".to_owned(), u64_to_string(request.port as u64)));
    pairs.push(("uploaded".to_owned(), u64_to_string(request.uploaded as u64)));
    pairs.push(("downloaded".to_owned(), u64_to_string(request.downloaded as u64)));
    pairs.push(("left".to_owned(), u64_to_string(request.left as u64)));
    pairs.push(("compact".to_owned(), u64_to_string(request.compact as u64)));
    let r = urlencode_pairs(&pairs);
    proof {
        let q = pairs@;
        assert(q.len() == 6);
        let s5 = seq![q[5]];
        let s4 = seq![q[4], q[5]];
        let s3 = seq![q[3], q[4], q[5]];
        let s2 = seq![q[2], q[3], q[4], q[5]];
        let s1 = seq![q[1], q[2], q[3], q[4], q[5]];
        assert(s5.drop_first() =~= Seq::<(String, String)>::empty());
        assert(s4.drop_first() =~= s5);
        assert(s3.drop_first() =~= s4);
        assert(s2.drop_first() =~= s3);
        assert(s1.drop_first() =~= s2);
        assert(q.drop_first() =~= s1);
        assert(query_of(s5) == pair_q(q[5].0@, q[5].1@));
        assert(query_of(s4) == pair_q(q[4].0@, q[4].1@) + seq!['&'] + query_of(s5));
        assert(query_of(s3) == pair_q(q[3].0@, q[3].1@) + seq!['&'] + query_of(s4));
        assert(query_of(s2) == pair_q(q[2].0@, q[2].1@) + seq!['&'] + query_of(s3));
        assert(query_of(s1) == pair_q(q[1].0@, q[1].1@) + seq!['&'] + query_of(s2));
        assert(query_of(q) == pair_q(q[0].0@, q[0].1@) + seq!['&'] + query_of(s1));
        assert(q[0].0@ == "peer_id"@ && q[0].1@ == request.peer_id@);
        assert(q[1].0@ == "port"@ && q[1].1@ == dec_chars(request.port as nat));
        assert(q[2].0@ == "uploaded"@ && q[2].1@ == dec_chars(request.uploaded as nat));
        assert(q[3].0@ == "downloaded"@ && q[3].1@ == dec_chars(request.downloaded as nat));
        assert(q[4].0@ == "left"@ && q[4].1@ == dec_chars(request.left as nat));
        assert(q[5].0@ == "compact"@ && q[5].1@ == dec_chars(request.compact as nat));
        assert(r@ == spec_tracker_params(*request));
    }
    r
}

/// The full announce URL: the announce base, the query, and the raw-byte
/// percent-encoded info-hash appended separately.
pub open spec fn spec_tracker_url(announce: Seq<char>, params: Seq<char>, ih: Seq<u8>) -> Seq<
    char,
> {
    announce + seq!['?'] + params + seq!['&', 'i', 'n', 'f', 'o', '_', 'h', 'a', 's', 'h', '=']
        + form_enc(ih)
}

/// Builds the announce URL for an HTTP(S) tracker.
pub fn tracker_url(announce: &str, params: &str, info_hash: &[u8; 20]) -> (r: String)
    ensures
        r@ == spec_tracker_url(announce@, params@, info_hash@),
{
    let mut url: String = announce.to_owned();
    url.append("?");
    url.append(params);
    url.append("&info_hash=");
    let enc = byte_serialize_str(info_hash.as_slice());
    url.append(enc.as_str());
    proof {
        reveal_strlit("?");
        reveal_strlit("&info_hash=");
        assert("?"@ =~= seq!['?']);
        assert("&info_hash="@ =~= seq!['&', 'i', 'n', 'f', 'o', '_', 'h', 'a', 's', 'h', '=']);
        assert(url@ =~= spec_tracker_url(announce@, params@, info_hash@));
    }
    url
}

/// The scheme prefix that selects the UDP tracker protocol.
pub open spec fn udp_prefix() -> Seq<char> {
    seq!['u', 'd', 'p', ':', '/', '/']
}

/// Whether an announce URL names a UDP tracker.
pub fn is_udp(announce: &str) -> (r: bool)
    ensures
        r == (announce@.len() >= 6 && announce@.subrange(0, 6) == udp_prefix()),
{
    if announce.unicode_len() < 6 {
        return false;
    }
    let ok = announce.get_char(0) == 'u' && announce.get_char(1) == 'd' && announce.get_char(2)
        == 'p' && announce.get_char(3) == ':' && announce.get_char(4) == '/' && announce.get_char(
        5,
    ) == '/';
    proof {
        if ok {
            assert(announce@.subrange(0, 6) =~= udp_prefix());
        } else {
            assert(announce@.subrange(0, 6) != udp_prefix()) by {
                if announce@.subrange(0, 6) == udp_prefix() {
                    assert(announce@[0] == udp_prefix()[0]) by {
                        assert(announce@.subrange(0, 6)[0] == announce@[0]);
                    }
                    assert(announce@[1] == announce@.subrange(0, 6)[1]);
                    assert(announce@[2] == announce@.subrange(0, 6)[2]);
                    assert(announce@[3] == announce@.subrange(0, 6)[3]);
                    assert(announce@[4] == announce@.subrange(0, 6)[4]);
                    assert(announce@[5] == announce@.subrange(0, 6)[5]);
                }
            }
        }
    }
    ok
}

/// The big-endian bytes of a 64-bit value, most significant first.
pub open spec fn be8(n: u64) -> Seq<u8> {
    seq![
        (n / 0x100000000000000) as u8,
        (n / 0x1000000000000 % 0x100) as u8,
        (n / 0x10000000000 % 0x100) as u8,
        (n / 0x100000000 % 0x100) as u8,
        (n / 0x1000000 % 0x100) as u8,
        (n / 0x10000 % 0x100) as u8,
        (n / 0x100 % 0x100) as u8,
        (n % 0x100) as u8,
    ]
}

/// The value of eight big-endian bytes starting at `i`.
pub open spec fn be8_val_at(b: Seq<u8>, i: int) -> u64 {
    (b[i] * 0x100000000000000 + b[i + 1] * 0x1000000000000 + b[i + 2] * 0x10000000000 + b[i + 3]
        * 0x100000000 + b[i + 4] * 0x1000000 + b[i + 5] * 0x10000 + b[i + 6] * 0x100 + b[i
        + 7]) as u64
}

/// The value of four big-endian bytes starting at `i`.
pub open spec fn be4_val_at(b: Seq<u8>, i: int) -> u32 {
    (b[i] * 0x1000000 + b[i + 1] * 0x10000 + b[i + 2] * 0x100 + b[i + 3]) as u32
}

/// Appends the big-endian bytes of a 64-bit value.
fn push_be8(n: u64, out: &mut Vec<u8>)
    ensures
        final(out)@ == old(out)@ + be8(n),
{
    out.push((n / 0x100000000000000) as u8);
    out.push((n / 0x1000000000000 % 0x100) as u8);
    out.push((n / 0x10000000000 % 0x100) as u8);
    out.push((n / 0x100000000 % 0x100) as u8);
    out.push((n / 0x1000000 % 0x100) as u8);
    out.push((n / 0x10000 % 0x100) as u8);
    out.push((n / 0x100 % 0x100) as u8);
    out.push((n % 0x100) as u8);
    proof {
        assert(out@ =~= old(out)@ + be8(n));
    }
}

/// Reads eight big-endian bytes starting at `i`.
fn read_be8(buf: &[u8], i: usize) -> (n: u64)
    requires
        i + 8 <= buf@.len(),
    ensures
        n == be8_val_at(buf@, i as int),
{
    (buf[i] as u64) * 0x100000000000000 + (buf[i + 1] as u64) * 0x1000000000000 + (buf[i
        + 2] as u64) * 0x10000000000 + (buf[i + 3] as u64) * 0x100000000 + (buf[i + 4] as u64)
        * 0x1000000 + (buf[i + 5] as u64) * 0x10000 + (buf[i + 6] as u64) * 0x100 + (buf[i
        + 7] as u64)
}

/// Reads four big-endian bytes starting at `i`.
fn read_be4(buf: &[u8], i: usize) -> (n: u32)
    requires
        i + 4 <= buf@.len(),
    ensures
        n == be4_val_at(buf@, i as int),
{
    (buf[i] as u32) * 0x1000000 + (buf[i + 1] as u32) * 0x10000 + (buf[i + 2] as u32) * 0x100 + (
    buf[i + 3] as u32)
}

/// The parsed fields of a UDP announce answer.
#[derive(Debug, Clone)]
pub struct UdpAnnounce {
    pub interval: u32,
    pub leechers: u32,
    pub seeders: u32,
    pub peers: Peers,
}

/// The 16-byte UDP connect request: the protocol magic, action zero, and
/// the caller's transaction id.
pub fn build_connect_request(transaction_id: u32) -> (r: Vec<u8>)
    ensures
        r@ == be8(0x41727101980u64) + be4(0u32) + be4(transaction_id),
        r@.len() == 16,
{
    let mut out: Vec<u8> = Vec::new();
    push_be8(0x41727101980u64, &mut out);
    push_be4(0u32, &mut out);
    push_be4(transaction_id, &mut out);
    proof {
        assert(out@ =~= be8(0x41727101980u64) + be4(0u32) + be4(transaction_id));
    }
    out
}

/// Validates a UDP connect answer: at least 16 bytes, action zero, the
/// matching transaction id; yields the connection id for the announce.
pub fn parse_connect_response(buf: &[u8], transaction_id: u32) -> (r: Result<u64, TrackerError>)
    ensures
        (match r {
            Ok(cid) => buf@.len() >= 16 && be4_val_at(buf@, 0) == 0 && be4_val_at(buf@, 4)
                == transaction_id && cid == be8_val_at(buf@, 8),
            Err(e) => e == TrackerError::BadResponse && !(buf@.len() >= 16 && be4_val_at(buf@, 0)
                == 0 && be4_val_at(buf@, 4) == transaction_id),
        }),
{
    if buf.len() < 16 {
        return Err(TrackerError::BadResponse);
    }
    let action = read_be4(buf, 0);
    let txid = read_be4(buf, 4);
    if action != 0 || txid != transaction_id {
        return Err(TrackerError::BadResponse);
    }
    Ok(read_be8(buf, 8))
}

/// The 98-byte UDP announce request: connection id, action one, transaction
/// id, info-hash, peer id, the three counters, event and ip zero, the key,
/// `num_want` of all ones (none requested by count), and the listen port.
pub fn build_announce_request(
    connection_id: u64,
    transaction_id: u32,
    info_hash: &[u8; 20],
    peer_id: &[u8; 20],
    downloaded: u64,
    left: u64,
    uploaded: u64,
    key: u32,
    port: u16,
) -> (r: Vec<u8>)
    ensures
        r@ == be8(connection_id) + be4(1u32) + be4(transaction_id) + info_hash@ + peer_id@ + be8(
            downloaded,
        ) + be8(left) + be8(uploaded) + be4(0u32) + be4(0u32) + be4(key) + be4(0xffffffffu32)
            + seq![(port / 256) as u8, (port % 256) as u8],
        r@.len() == 98,
{
    let mut out: Vec<u8> = Vec::new();
    push_be8(connection_id, &mut out);
    push_be4(1u32, &mut out);
    push_be4(transaction_id, &mut out);
    out.extend_from_slice(info_hash.as_slice());
    out.extend_from_slice(peer_id.as_slice());
    push_be8(downloaded, &mut out);
    push_be8(left, &mut out);
    push_be8(uploaded, &mut out);
    push_be4(0u32, &mut out);
    push_be4(0u32, &mut out);
    push_be4(key, &mut out);
    push_be4(0xffffffffu32, &mut out);
    out.push((port / 256) as u8);
    out.push((port % 256) as u8);
    proof {
        assert(out@ =~= be8(connection_id) + be4(1u32) + be4(transaction_id) + info_hash@
            + peer_id@ + be8(downloaded) + be8(left) + be8(uploaded) + be4(0u32) + be4(0u32) + be4(
            key,
        ) + be4(0xffffffffu32) + seq![(port / 256) as u8, (port % 256) as u8]);
    }
    out
}

/// Parses a UDP announce answer: at least 20 bytes, action one, the
/// matching transaction id, then interval, leechers and seeders, and the
/// compact peer list in the remaining whole six-byte groups.
pub fn parse_announce_response(buf: &[u8], transaction_id: u32) -> (r: Result<
    UdpAnnounce,
    TrackerError,
>)
    ensures
        (match r {
            Ok(u) => ({
                &&& buf@.len() >= 20
                &&& be4_val_at(buf@, 0) == 1 && be4_val_at(buf@, 4) == transaction_id
                &&& (buf@.len() - 20) % 6 == 0
                &&& u.interval == be4_val_at(buf@, 8)
                &&& u.leechers == be4_val_at(buf@, 12)
                &&& u.seeders == be4_val_at(buf@, 16)
                &&& u.peers.0@.len() == (buf@.len() - 20) / 6
                &&& forall|i: int|
                    0 <= i < u.peers.0@.len() ==> u.peers.0@[i] == compact_peer(buf@.skip(20), i)
            }),
            Err(e) => e == TrackerError::BadResponse && !(buf@.len() >= 20 && be4_val_at(buf@, 0)
                == 1 && be4_val_at(buf@, 4) == transaction_id && (buf@.len() - 20) % 6 == 0),
        }),
{
    if buf.len() < 20 {
        return Err(TrackerError::BadResponse);
    }
    let action = read_be4(buf, 0);
    let txid = read_be4(buf, 4);
    if action != 1 || txid != transaction_id {
        return Err(TrackerError::BadResponse);
    }
    let interval = read_be4(buf, 8);
    let leechers = read_be4(buf, 12);
    let seeders = read_be4(buf, 16);
    let tail = &buf[20..buf.len()];
    proof {
        assert(tail@ == buf@.subrange(20, buf@.len() as int));
        assert(tail@ =~= buf@.skip(20));
    }
    match Peers::from_compact(tail) {
        Ok(peers) => Ok(UdpAnnounce { interval, leechers, seeders, peers }),
        Err(e) => Err(TrackerError::BadResponse),
    }
}

/// An ASCII decimal digit character.
pub open spec fn is_digit_char(c: char) -> bool {
    48 <= c as u32 <= 57
}

/// The value of the decimal digit characters in `s[i..j)`.
pub open spec fn char_digits_val(s: Seq<char>, i: int, j: int) -> nat
    decreases j - i,
{
    if i >= j {
        0
    } else {
        char_digits_val(s, i, j - 1) * 10 + ((s[j - 1] as u32) - 48) as nat
    }
}

/// A longer digit run never has a smaller value.
pub proof fn lemma_char_digits_mono(s: Seq<char>, i: int, m: int, j: int)
    requires
        i <= m <= j,
    ensures
        char_digits_val(s, i, j) >= char_digits_val(s, i, m),
    decreases j - m,
{
    if m < j {
        lemma_char_digits_mono(s, i, m, j - 1);
    }
}

/// The one place a UDP announce URL splits: a colon after a colon-free
/// host, followed by at least one decimal digit, the digits valuing a
/// 16-bit port.
pub open spec fn udp_colon_at(a: Seq<char>, c: int) -> bool {
    &&& 6 <= c < a.len()
    &&& a[c] == ':'
    &&& forall|k: int| 6 <= k < c ==> a[k] != ':'
    &&& c + 1 < a.len()
    &&& forall|k: int| c < k < a.len() ==> is_digit_char(#[trigger] a[k])
    &&& char_digits_val(a, c + 1, a.len() as int) <= 65535
}

/// A UDP announce URL that splits into host and port.
pub open spec fn udp_split_valid(a: Seq<char>) -> bool {
    &&& a.len() >= 6 && a.subrange(0, 6) == udp_prefix()
    &&& exists|c: int| udp_colon_at(a, c)
}

/// Splits `udp://host:port` into the host and the port value; succeeds
/// exactly on URLs of that shape with a 16-bit decimal port.
#[verifier::loop_isolation(false)]
#[verifier::rlimit(60)]
pub fn split_udp_announce(announce: &str) -> (r: Result<(String, u16), TrackerError>)
    ensures
        r is Ok <==> udp_split_valid(announce@),
        (match r {
            Ok(p) => ({
                &&& udp_colon_at(announce@, 6 + p.0@.len() as int)
                &&& p.0@ == announce@.subrange(6, 6 + p.0@.len() as int)
                &&& p.1 == char_digits_val(
                    announce@,
                    7 + p.0@.len() as int,
                    announce@.len() as int,
                )
            }),
            Err(e) => e == TrackerError::BadResponse,
        }),
{
    let a_len = announce.unicode_len();
    if !is_udp(announce) {
        return Err(TrackerError::BadResponse);
    }
    let mut cpos: usize = 0;
    let mut found = false;
    let mut i: usize = 6;
    while i < a_len
        invariant
            6 <= i <= a_len,
            a_len == announce@.len(),
            !found ==> forall|k: int| 6 <= k < i ==> announce@[k] != ':',
            found ==> 6 <= cpos < i && announce@[cpos as int] == ':' && (forall|k: int|
                6 <= k < cpos ==> announce@[k] != ':') && (forall|k: int|
                cpos < k < i ==> announce@[k] != ':'),
        decreases a_len - i,
    {
        let ch = announce.get_char(i);
        if ch == ':' {
            if found {
                proof {
                    assert(!udp_split_valid(announce@)) by {
                        if udp_split_valid(announce@) {
                            let c = choose|c: int| udp_colon_at(announce@, c);
                            if c < cpos {
                                assert(announce@[c] != ':');
                            } else if c > cpos {
                                assert(announce@[cpos as int] != ':');
                            }
                            assert(c == cpos);
                            assert(is_digit_char(announce@[i as int]));
                        }
                    }
                }
                return Err(TrackerError::BadResponse);
            }
            found = true;
            cpos = i;
        }
        i = i + 1;
    }
    if !found {
        proof {
            assert(!udp_split_valid(announce@)) by {
                if udp_split_valid(announce@) {
                    let c = choose|c: int| udp_colon_at(announce@, c);
                    assert(announce@[c] != ':');
                }
            }
        }
        return Err(TrackerError::BadResponse);
    }
    if cpos + 1 >= a_len {
        proof {
            assert(!udp_split_valid(announce@)) by {
                if udp_split_valid(announce@) {
                    let c = choose|c: int| udp_colon_at(announce@, c);
                    if c < cpos {
                        assert(announce@[c] != ':');
                    } else if c > cpos {
                        assert(announce@[cpos as int] != ':');
                    }
                    assert(c == cpos);
                }
            }
        }
        return Err(TrackerError::BadResponse);
    }
    let mut acc: u32 = 0;
    let mut j: usize = cpos + 1;
    while j < a_len
        invariant
            cpos + 1 <= j <= a_len,
            acc == char_digits_val(announce@, cpos as int + 1, j as int),
            acc <= 65535,
            forall|k: int| cpos < k < j ==> is_digit_char(#[trigger] announce@[k]),
        decreases a_len - j,
    {
        let ch = announce.get_char(j);
        let cv = ch as u32;
        if cv < 48 || cv > 57 {
            proof {
                assert(!udp_split_valid(announce@)) by {
                    if udp_split_valid(announce@) {
                        let c = choose|c: int| udp_colon_at(announce@, c);
                        if c < cpos {
                            assert(announce@[c] != ':');
                        } else if c > cpos {
                            assert(announce@[cpos as int] != ':');
                        }
                        assert(c == cpos);
                        assert(is_digit_char(announce@[j as int]));
                    }
                }
            }
            return Err(TrackerError::BadResponse);
        }
        acc = acc * 10 + (cv - 48);
        if acc > 65535 {
            proof {
                lemma_char_digits_mono(
                    announce@,
                    cpos as int + 1,
                    j as int + 1,
                    announce@.len() as int,
                );
                assert(!udp_split_valid(announce@)) by {
                    if udp_split_valid(announce@) {
                        let c = choose|c: int| udp_colon_at(announce@, c);
                        if c < cpos {
                            assert(announce@[c] != ':');
                        } else if c > cpos {
                            assert(announce@[cpos as int] != ':');
                        }
                        assert(c == cpos);
                    }
                }
            }
            return Err(TrackerError::BadResponse);
        }
        j = j + 1;
    }
    let host_str = announce.substring_char(6, cpos);
    let host: String = host_str.to_owned();
    proof {
        assert(host@.len() == cpos - 6);
        assert(udp_colon_at(announce@, cpos as int));
        assert(udp_split_valid(announce@));
    }
    Ok((host, acc as u16))
}

/// The entries of a usable HTTP announce answer: a non-negative integer
/// `interval` that fits the machine, and whole six-byte compact `peers`.
pub open spec fn tracker_response_ok(d: Seq<(Seq<u8>, Bval)>) -> bool {
    &&& dict_lookup(d, "interval".spec_bytes()) matches Some(Bval::Int(x)) && 0 <= x
        <= usize::MAX
    &&& dict_lookup(d, "peers".spec_bytes()) matches Some(Bval::Bytes(b)) && b.len() % 6 == 0
}

/// Decodes a tracker's HTTP announce answer: a bencoded dictionary with an
/// integer `interval` and a compact `peers` byte string; anything else is
/// `BadResponse`.
pub fn parse_tracker_response(bytes: &[u8]) -> (r: Result<TrackerResponse, TrackerError>)
    ensures
        (match r {
            Ok(t) => (match spec_decode(bytes@) {
                Ok(v) => v matches Bval::Dict(d) && tracker_response_ok(d) && dict_lookup(
                    d,
                    "interval".spec_bytes(),
                ) == Some(Bval::Int(t.interval as int)) && (dict_lookup(
                    d,
                    "peers".spec_bytes(),
                ) matches Some(Bval::Bytes(pb)) && t.peers.0@.len() == pb.len() / 6 && forall|
                    i: int,
                |
                    0 <= i < t.peers.0@.len() ==> t.peers.0@[i] == compact_peer(pb, i)),
                Err(de) => false,
            }),
            Err(e) => e == TrackerError::BadResponse && !(spec_decode(bytes@) matches Ok(v) && v
                matches Bval::Dict(d) && tracker_response_ok(d)),
        }),
{
    let dict = match Decoder::decode_bencoded_bytes(bytes) {
        Ok(BencodeValue::Dict(d)) => d,
        _ => {
            return Err(TrackerError::BadResponse);
        },
    };
    let interval = match Decoder::extract_int("interval", &dict) {
        Ok(x) => x,
        Err(e) => {
            return Err(TrackerError::BadResponse);
        },
    };
    if interval < 0 {
        return Err(TrackerError::BadResponse);
    }
    if (interval as u64) > (usize::MAX as u64) {
        return Err(TrackerError::BadResponse);
    }
    let peers_bytes = match Decoder::extract_bytes("peers", &dict) {
        Ok(b) => b,
        Err(e) => {
            return Err(TrackerError::BadResponse);
        },
    };
    let peers = match Peers::from_compact(peers_bytes.as_slice()) {
        Ok(ps) => ps,
        Err(e) => {
            return Err(TrackerError::BadResponse);
        },
    };
    Ok(TrackerResponse { interval: interval as usize, peers })
}

} // verus!
