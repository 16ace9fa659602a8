use vstd::prelude::*;

verus! {

/// Why a handshake response was rejected.
#[derive(PartialEq, Eq, Structural, Clone, Copy, Debug)]
pub enum HandshakeError {
    /// The length byte is not 19 or the protocol literal differs.
    ProtocolMismatch,
}

/// The 19 bytes of the protocol literal `BitTorrent protocol`.
pub open spec fn protocol_bytes() -> Seq<u8> {
    seq![
        66u8,
        105u8,
        116u8,
        84u8,
        111u8,
        114u8,
        114u8,
        101u8,
        110u8,
        116u8,
        32u8,
        112u8,
        114u8,
        111u8,
        116u8,
        111u8,
        99u8,
        111u8,
        108u8,
    ]
}

/// The fixed 68-byte protocol handshake frame: one length byte (19), the
/// 19-byte protocol literal, 8 reserved zero bytes, the 20-byte info-hash and
/// the 20-byte peer id.
#[derive(Debug)]
pub struct Handshake {
    pub length: u8,
    pub bittorrent: [u8; 19],
    pub reserved: [u8; 8],
    pub info_hash: [u8; 20],
    pub peer_id: [u8; 20],
}

/// The 68 wire bytes of a handshake, in field order.
pub open spec fn spec_handshake_bytes(h: Handshake) -> Seq<u8> {
    seq![h.length] + h.bittorrent@ + h.reserved@ + h.info_hash@ + h.peer_id@
}

/// A frame that opens correctly: length byte 19 and the exact literal.
pub open spec fn handshake_ok(h: Handshake) -> bool {
    h.length == 19 && h.bittorrent@ == protocol_bytes()
}

/// The protocol literal as an array.
fn protocol_literal() -> (r: [u8; 19])
    ensures
        r@ == protocol_bytes(),
{
    let r: [u8; 19] = [
        66u8,
        105,
        116,
        84,
        111,
        114,
        114,
        101,
        110,
        116,
        32,
        112,
        114,
        111,
        116,
        111,
        99,
        111,
        108,
    ];
    proof {
        assert(r@ =~= protocol_bytes());
    }
    r
}

impl Handshake {
    /// A handshake frame for the given info-hash and peer id, with the fixed
    /// length byte, literal and zeroed reserved bytes.
    pub fn new(info_hash: [u8; 20], peer_id: [u8; 20]) -> (r: Self)
        ensures
            handshake_ok(r),
            r.reserved@ =~= seq![0u8, 0u8, 0u8, 0u8, 0u8, 0u8, 0u8, 0u8],
            r.info_hash@ == info_hash@,
            r.peer_id@ == peer_id@,
    {
        let reserved: [u8; 8] = [0u8, 0, 0, 0, 0, 0, 0, 0];
        proof {
            assert(reserved@ =~= seq![0u8, 0u8, 0u8, 0u8, 0u8, 0u8, 0u8, 0u8]);
        }
        Self { length: 19, bittorrent: protocol_literal(), reserved, info_hash, peer_id }
    }

    /// The 68 bytes written to the peer, exactly the frame's fields in
    /// order.
    pub fn to_bytes(&self) -> (r: Vec<u8>)
        ensures
            r@ == spec_handshake_bytes(*self),
            r@.len() == 68,
    {
        let mut out: Vec<u8> = Vec::new();
        out.push(self.length);
        out.extend_from_slice(self.bittorrent.as_slice());
        out.extend_from_slice(self.reserved.as_slice());
        out.extend_from_slice(self.info_hash.as_slice());
        out.extend_from_slice(self.peer_id.as_slice());
        proof {
            assert(out@ =~= spec_handshake_bytes(*self));
        }
        out
    }

    /// Validates the 68 bytes read back from the peer: unless the length
    /// byte is 19 and the literal matches exactly, the connection must not
    /// be used and the response is `ProtocolMismatch`.
    #[verifier::loop_isolation(false)]
    pub fn parse(bytes: &[u8]) -> (r: Result<Handshake, HandshakeError>)
        requires
            bytes@.len() == 68,
        ensures
            (match r {
                Ok(h) => bytes@[0] == 19 && bytes@.subrange(1, 20) == protocol_bytes() && ({
                    &&& handshake_ok(h)
                    &&& h.reserved@ == bytes@.subrange(20, 28)
                    &&& h.info_hash@ == bytes@.subrange(28, 48)
                    &&& h.peer_id@ == bytes@.subrange(48, 68)
                }),
                Err(e) => e == HandshakeError::ProtocolMismatch && !(bytes@[0] == 19
                    && bytes@.subrange(1, 20) == protocol_bytes()),
            }),
    {
        if bytes[0] != 19 {
            proof {
                assert(bytes@[0] != 19);
            }
            return Err(HandshakeError::ProtocolMismatch);
        }
        let literal = protocol_literal();
        let mut i: usize = 0;
        while i < 19
            invariant
                0 <= i <= 19,
                forall|k: int| 0 <= k < i ==> bytes@[1 + k] == protocol_bytes()[k],
            decreases 19 - i,
        {
            if bytes[1 + i] != literal[i] {
                proof {
                    assert(bytes@.subrange(1, 20)[i as int] == bytes@[1 + i as int]);
                    assert(bytes@.subrange(1, 20) != protocol_bytes());
                }
                return Err(HandshakeError::ProtocolMismatch);
            }
            i = i + 1;
        }
        proof {
            assert(bytes@.subrange(1, 20) =~= protocol_bytes());
        }
        let mut bittorrent: [u8; 19] = [0u8; 19];
        let mut j: usize = 0;
        while j < 19
            invariant
                0 <= j <= 19,
                forall|k: int| 0 <= k < j ==> bittorrent@[k] == bytes@[1 + k],
            decreases 19 - j,
        {
            bittorrent.set(j, bytes[1 + j]);
            j = j + 1;
        }
        let mut reserved: [u8; 8] = [0u8; 8];
        let mut j: usize = 0;
        while j < 8
            invariant
                0 <= j <= 8,
                forall|k: int| 0 <= k < j ==> reserved@[k] == bytes@[20 + k],
            decreases 8 - j,
        {
            reserved.set(j, bytes[20 + j]);
            j = j + 1;
        }
        let mut info_hash: [u8; 20] = [0u8; 20];
        let mut j: usize = 0;
        while j < 20
            invariant
                0 <= j <= 20,
                forall|k: int| 0 <= k < j ==> info_hash@[k] == bytes@[28 + k],
            decreases 20 - j,
        {
            info_hash.set(j, bytes[28 + j]);
            j = j + 1;
        }
        let mut peer_id: [u8; 20] = [0u8; 20];
        let mut j: usize = 0;
        while j < 20
            invariant
                0 <= j <= 20,
                forall|k: int| 0 <= k < j ==> peer_id@[k] == bytes@[48 + k],
            decreases 20 - j,
        {
            peer_id.set(j, bytes[48 + j]);
            j = j + 1;
        }
        let h = Handshake { length: bytes[0], bittorrent, reserved, info_hash, peer_id };
        proof {
            assert(h.bittorrent@ =~= protocol_bytes());
            assert(h.reserved@ =~= bytes@.subrange(20, 28));
            assert(h.info_hash@ =~= bytes@.subrange(28, 48));
            assert(h.peer_id@ =~= bytes@.subrange(48, 68));
        }
        Ok(h)
    }
}

} // verus!
