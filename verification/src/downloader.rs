use vstd::pervasive::VecAdditionalExecFns;
use vstd::prelude::*;

use crate::hashing::{sha1_digest, sha1_of};
use crate::peer_message::{
    be4, be4_val, msg_wf, parse_prefix, push_be4, Frame, Message, BLOCK_SIZE, MESSAGE,
};
use crate::TorrentResponse;

verus! {

/// A piece whose assembled bytes hash differently from the metainfo's
/// 20-byte slice; fatal for the whole download, never retried.
#[derive(PartialEq, Eq, Structural, Clone, Copy, Debug)]
pub enum IntegrityError {
    HashMismatch,
}

/// A peer that stopped answering within the configured time; the peer is
/// abandoned with no automatic retry.
#[derive(PartialEq, Eq, Structural, Clone, Copy, Debug)]
pub enum PeerError {
    Timeout,
}

/// Bit `k` of one byte, most significant first.
pub open spec fn byte_bit(b: u8, k: int) -> bool {
    if k == 0 {
        (b / 128) % 2 == 1
    } else if k == 1 {
        (b / 64) % 2 == 1
    } else if k == 2 {
        (b / 32) % 2 == 1
    } else if k == 3 {
        (b / 16) % 2 == 1
    } else if k == 4 {
        (b / 8) % 2 == 1
    } else if k == 5 {
        (b / 4) % 2 == 1
    } else if k == 6 {
        (b / 2) % 2 == 1
    } else {
        b % 2 == 1
    }
}

/// Bit `i` of a bitfield payload: byte `i / 8`, most significant bit first;
/// set means the peer holds piece `i`.
pub open spec fn bit_set(payload: Seq<u8>, i: int) -> bool {
    0 <= i < payload.len() * 8 && byte_bit(payload[i / 8], i % 8)
}

/// The size of one piece: the piece length, except that the last piece is
/// what remains of the total length.
pub open spec fn spec_piece_size(total: int, plen: int, idx: int) -> int {
    if total - plen * idx < plen {
        total - plen * idx
    } else {
        plen
    }
}

/// The size of the block at offset `begin` of a piece: sixteen kibibytes,
/// except that the last block is what remains of the piece.
pub open spec fn spec_block_len(size: int, begin: int) -> int {
    if size - begin < 16384 {
        size - begin
    } else {
        16384
    }
}

/// The sequential, single-connection piece downloader.
pub struct Downloader;

impl Downloader {
    /// The indices of the pieces a bitfield payload marks present, strictly
    /// ascending, sound and complete for `bit_set`.
    #[verifier::loop_isolation(false)]
    pub fn get_pieces(payload: &Vec<u8>) -> (r: Vec<i32>)
        requires
            payload@.len() * 8 <= i32::MAX,
        ensures
            forall|t: int| 0 <= t < r@.len() ==> bit_set(payload@, #[trigger] r@[t] as int),
            forall|t1: int, t2: int| 0 <= t1 < t2 < r@.len() ==> r@[t1] < r@[t2],
            forall|i: int|
                0 <= i < payload@.len() * 8 && bit_set(payload@, i) ==> exists|t: int|
                    0 <= t < r@.len() && (#[trigger] r@[t]) == i,
    {
        let mut out: Vec<i32> = Vec::new();
        let mut bi: usize = 0;
        while bi < payload.len()
            invariant
                0 <= bi <= payload@.len(),
                forall|t: int| 0 <= t < out@.len() ==> bit_set(payload@, #[trigger] out@[t] as int)
                    && out@[t] < 8 * bi,
                forall|t1: int, t2: int| 0 <= t1 < t2 < out@.len() ==> out@[t1] < out@[t2],
                forall|i: int|
                    0 <= i < 8 * bi && bit_set(payload@, i) ==> exists|t: int|
                        0 <= t < out@.len() && (#[trigger] out@[t]) == i,
            decreases payload@.len() - bi,
        {
            let b = payload[bi];
            let mut k: usize = 0;
            while k < 8
                invariant
                    0 <= k <= 8,
                    0 <= bi < payload@.len(),
                    b == payload@[bi as int],
                    forall|t: int|
                        0 <= t < out@.len() ==> bit_set(payload@, #[trigger] out@[t] as int)
                            && out@[t] < 8 * bi + k,
                    forall|t1: int, t2: int| 0 <= t1 < t2 < out@.len() ==> out@[t1] < out@[t2],
                    forall|i: int|
                        0 <= i < 8 * bi + k && bit_set(payload@, i) ==> exists|t: int|
                            0 <= t < out@.len() && (#[trigger] out@[t]) == i,
                decreases 8 - k,
            {
                let set = if k == 0 {
                    (b / 128) % 2 == 1
                } else if k == 1 {
                    (b / 64) % 2 == 1
                } else if k == 2 {
                    (b / 32) % 2 == 1
                } else if k == 3 {
                    (b / 16) % 2 == 1
                } else if k == 4 {
                    (b / 8) % 2 == 1
                } else if k == 5 {
                    (b / 4) % 2 == 1
                } else if k == 6 {
                    (b / 2) % 2 == 1
                } else {
                    b % 2 == 1
                };
                proof {
                    assert((8 * bi + k) as int / 8 == bi as int && (8 * bi + k) as int % 8
                        == k as int) by (nonlinear_arith)
                        requires 0 <= bi, 0 <= k < 8;
                    assert(set == bit_set(payload@, 8 * bi as int + k as int));
                }
                if set {
                    let idx: i32 = (8 * bi + k) as i32;
                    let ghost oldout = out@;
                    out.push(idx);
                    proof {
                        assert forall|i: int|
                            0 <= i < 8 * bi + k + 1 && #[trigger] bit_set(
                                payload@,
                                i,
                            ) implies exists|t: int|
                            0 <= t < out@.len() && (#[trigger] out@[t]) == i by {
                            if i < 8 * bi + k {
                                let t0 = choose|t0: int|
                                    0 <= t0 < oldout.len() && (#[trigger] oldout[t0]) == i;
                                assert(out@[t0] == i);
                            } else {
                                assert(out@[out@.len() - 1] == i);
                            }
                        }
                    }
                }
                k = k + 1;
            }
            bi = bi + 1;
        }
        out
    }

    /// The size of one piece, `min(piece length, total − piece length ·
    /// index)`: the last piece may be short.
    pub fn piece_size(torrent: &TorrentResponse, index: i32) -> (r: i32)
        requires
            0 <= index,
            0 < torrent.info.piece_length <= i32::MAX,
            0 <= torrent.info.length <= i32::MAX,
            torrent.info.piece_length * index < torrent.info.length,
        ensures
            r == spec_piece_size(
                torrent.info.length as int,
                torrent.info.piece_length as int,
                index as int,
            ),
            0 < r <= torrent.info.piece_length,
    {
        let file_size: i32 = torrent.info.length as i32;
        let piece_len: i32 = torrent.info.piece_length as i32;
        let scaled: i32 = piece_len * index;
        let remain: i32 = file_size - scaled;
        if remain < piece_len {
            remain
        } else {
            piece_len
        }
    }

    /// The 20-byte hash of one piece: slice `index` of the concatenated
    /// piece hashes.
    #[verifier::loop_isolation(false)]
    pub fn get_piece_hash(piece: i32, torrent: &TorrentResponse) -> (r: [u8; 20])
        requires
            0 <= piece,
            20 * (piece as int + 1) <= torrent.info.pieces@.len(),
        ensures
            r@ == torrent.info.pieces@.subrange(20 * piece as int, 20 * piece as int + 20),
    {
        let total: usize = torrent.info.pieces.len();
        let base: usize = 20 * (piece as usize);
        let mut out: [u8; 20] = [0u8; 20];
        let mut j: usize = 0;
        while j < 20
            invariant
                0 <= j <= 20,
                forall|k: int| 0 <= k < j ==> out@[k] == torrent.info.pieces@[20 * piece as int
                    + k],
            decreases 20 - j,
        {
            out.set(j, torrent.info.pieces[base + j]);
            j = j + 1;
        }
        proof {
            assert(out@ =~= torrent.info.pieces@.subrange(
                20 * piece as int,
                20 * piece as int + 20,
            ));
        }
        out
    }

    /// SHA-1 integrity of an assembled piece: success exactly when the
    /// digest equals the expected 20-byte slice; a mismatch is fatal and
    /// produces no output.
    #[verifier::loop_isolation(false)]
    pub fn verify_piece(buffer: &Vec<u8>, expected: &[u8; 20]) -> (r: Result<(), IntegrityError>)
        ensures
            (match r {
                Ok(u) => sha1_of(buffer@) == expected@,
                Err(e) => e == IntegrityError::HashMismatch && sha1_of(buffer@) != expected@,
            }),
    {
        let digest = sha1_digest(buffer.as_slice());
        let mut j: usize = 0;
        while j < 20
            invariant
                0 <= j <= 20,
                digest@ == sha1_of(buffer@),
                forall|k: int| 0 <= k < j ==> digest@[k] == expected@[k],
            decreases 20 - j,
        {
            if digest[j] != expected[j] {
                proof {
                    assert(sha1_of(buffer@)[j as int] != expected@[j as int]);
                }
                return Err(IntegrityError::HashMismatch);
            }
            j = j + 1;
        }
        proof {
            assert(sha1_of(buffer@) =~= expected@);
        }
        Ok(())
    }

    /// The REQUEST message for one block: three big-endian 32-bit fields,
    /// index, begin and length.
    pub fn build_request(index: u32, begin: u32, length: u32) -> (r: Message)
        ensures
            r.id == MESSAGE::REQUEST,
            r.payload@ == be4(index) + be4(begin) + be4(length),
            msg_wf(r),
    {
        let mut payload: Vec<u8> = Vec::new();
        push_be4(index, &mut payload);
        push_be4(begin, &mut payload);
        push_be4(length, &mut payload);
        proof {
            assert(payload@ =~= be4(index) + be4(begin) + be4(length));
        }
        Message::new(MESSAGE::REQUEST, payload)
    }
}

/// The bytes of a 32-bit value read back give the value.
pub proof fn lemma_be4_val_of_be4(n: u32)
    ensures
        be4_val(be4(n)[0], be4(n)[1], be4(n)[2], be4(n)[3]) == n,
{
    assert(((n / 0x1000000) as u8) * 0x1000000 + ((n / 0x10000 % 0x100) as u8) * 0x10000 + ((n
        / 0x100 % 0x100) as u8) * 0x100 + ((n % 0x100) as u8) == n) by (nonlinear_arith);
}

/// Four bytes are exactly the big-endian form of their value.
pub proof fn lemma_be4_inverse(b0: u8, b1: u8, b2: u8, b3: u8)
    ensures
        be4(be4_val(b0, b1, b2, b3)) == seq![b0, b1, b2, b3],
{
    let n = be4_val(b0, b1, b2, b3);
    assert(n / 0x1000000 == b0 && n / 0x10000 % 0x100 == b1 && n / 0x100 % 0x100 == b2 && n % 0x100
        == b3) by (nonlinear_arith)
        requires
            n == (b0 * 0x1000000 + b1 * 0x10000 + b2 * 0x100 + b3) as u32,
    ;
    assert(be4(n) =~= seq![b0, b1, b2, b3]);
}

/// Overwrites `block` into the buffer at `offset`, leaving the rest.
#[verifier::loop_isolation(false)]
fn splice(buffer: &mut Vec<u8>, offset: usize, block: &[u8])
    requires
        offset + block@.len() <= old(buffer)@.len(),
    ensures
        final(buffer)@ == old(buffer)@.subrange(0, offset as int) + block@ + old(
            buffer,
        )@.subrange(offset as int + block@.len() as int, old(buffer)@.len() as int),
{
    let cap: usize = buffer.len();
    let mut t: usize = 0;
    while t < block.len()
        invariant
            0 <= t <= block@.len(),
            offset + block@.len() <= buffer@.len(),
            buffer@.len() == cap,
            buffer@.len() == old(buffer)@.len(),
            forall|k: int| 0 <= k < t ==> buffer@[offset + k] == block@[k],
            forall|k: int|
                0 <= k < buffer@.len() && !(offset <= k < offset + t) ==> buffer@[k] == old(
                    buffer,
                )@[k],
        decreases block@.len() - t,
    {
        buffer.set(offset + t, block[t]);
        t = t + 1;
    }
    proof {
        assert(buffer@ =~= old(buffer)@.subrange(0, offset as int) + block@ + old(
            buffer,
        )@.subrange(offset as int + block@.len() as int, old(buffer)@.len() as int));
    }
}

/// The per-connection phases in protocol order; any protocol or integrity
/// violation is `Failed`, which is terminal.
#[derive(PartialEq, Eq, Structural, Clone, Copy, Debug)]
pub enum DownloadState {
    AwaitBitfield,
    AwaitUnchoke,
    Requesting { begin: i32 },
    Done,
    Failed,
}

/// What the connection driver must do after a step: write a message, hand
/// the verified piece on, drop the peer, or nothing.
#[derive(Debug)]
pub enum StepAction {
    Send(Message),
    Complete,
    Fail,
    Idle,
}

/// One piece's download over one connection: the state machine
/// `AwaitBitfield → AwaitUnchoke → Requesting → Done`, one outstanding block
/// request at a time, blocks written into a pre-sized buffer by offset.
#[derive(Debug)]
pub struct PieceDownload {
    pub state: DownloadState,
    pub piece_index: i32,
    pub piece_size: i32,
    pub expected: [u8; 20],
    pub buffer: Vec<u8>,
}

/// The buffer is sized exactly to the piece and any outstanding request
/// starts inside it.
pub open spec fn download_wf(d: PieceDownload) -> bool {
    &&& 0 <= d.piece_index
    &&& 0 < d.piece_size <= i32::MAX
    &&& d.buffer@.len() == d.piece_size
    &&& (d.state matches DownloadState::Requesting { begin } ==> 0 <= begin < d.piece_size)
}

impl PieceDownload {
    /// A fresh download awaiting the peer's bitfield, with a zeroed buffer
    /// sized exactly to the piece and the piece's expected hash.
    pub fn start(torrent: &TorrentResponse, piece_index: i32) -> (r: PieceDownload)
        requires
            0 <= piece_index,
            0 < torrent.info.piece_length <= i32::MAX,
            0 <= torrent.info.length <= i32::MAX,
            torrent.info.piece_length * piece_index < torrent.info.length,
            20 * (piece_index as int + 1) <= torrent.info.pieces@.len(),
        ensures
            download_wf(r),
            r.state == DownloadState::AwaitBitfield,
            r.piece_index == piece_index,
            r.piece_size == spec_piece_size(
                torrent.info.length as int,
                torrent.info.piece_length as int,
                piece_index as int,
            ),
            r.expected@ == torrent.info.pieces@.subrange(
                20 * piece_index as int,
                20 * piece_index as int + 20,
            ),
            forall|k: int| 0 <= k < r.buffer@.len() ==> r.buffer@[k] == 0,
    {
        let size = Downloader::piece_size(torrent, piece_index);
        let expected = Downloader::get_piece_hash(piece_index, torrent);
        let buffer: Vec<u8> = vec![0u8; size as usize];
        PieceDownload {
            state: DownloadState::AwaitBitfield,
            piece_index,
            piece_size: size,
            expected,
            buffer,
        }
    }

    /// The REQUEST message for the block at `begin` of this piece.
    fn request_for(&self, begin: i32) -> (r: Message)
        requires
            download_wf(*self),
            0 <= begin < self.piece_size,
        ensures
            r.id == MESSAGE::REQUEST,
            msg_wf(r),
            r.payload@ == be4(self.piece_index as u32) + be4(begin as u32) + be4(
                spec_block_len(self.piece_size as int, begin as int) as u32,
            ),
    {
        let len: i32 = if self.piece_size - begin < BLOCK_SIZE {
            self.piece_size - begin
        } else {
            BLOCK_SIZE
        };
        Downloader::build_request(self.piece_index as u32, begin as u32, len as u32)
    }

    /// One step of the state machine on one received frame. A keep-alive is
    /// a no-op. The first message must be a BITFIELD holding this piece;
    /// then only UNCHOKE is accepted; then each matching PIECE block is
    /// written at its offset and the next block requested, one request in
    /// flight at a time; the assembled piece is hashed, `Done` exactly on a
    /// match. Everything else fails the download.
    #[verifier::rlimit(60)]
    pub fn on_frame(&mut self, frame: &Frame) -> (r: StepAction)
        requires
            download_wf(*old(self)),
        ensures
            download_wf(*final(self)),
            final(self).piece_index == old(self).piece_index,
            final(self).piece_size == old(self).piece_size,
            final(self).expected@ == old(self).expected@,
            (match frame {
                Frame::KeepAlive => *final(self) == *old(self) && r is Idle,
                Frame::Msg(m) => (match old(self).state {
                    DownloadState::AwaitBitfield => (if m.id == MESSAGE::BITFIELD && bit_set(
                        m.payload@,
                        old(self).piece_index as int,
                    ) {
                        &&& final(self).state == DownloadState::AwaitUnchoke
                        &&& final(self).buffer@ == old(self).buffer@
                        &&& r matches StepAction::Send(sm) && sm.id == MESSAGE::INTERESTED
                            && sm.payload@.len() == 0 && msg_wf(sm)
                    } else {
                        final(self).state == DownloadState::Failed && r is Fail && final(self).buffer@ == old(self).buffer@
                    }),
                    DownloadState::AwaitUnchoke => (if m.id == MESSAGE::UNCHOKE {
                        &&& final(self).state == (DownloadState::Requesting { begin: 0 })
                        &&& final(self).buffer@ == old(self).buffer@
                        &&& r matches StepAction::Send(sm) && sm.id == MESSAGE::REQUEST && msg_wf(
                            sm,
                        ) && sm.payload@ == be4(old(self).piece_index as u32) + be4(0) + be4(
                            spec_block_len(old(self).piece_size as int, 0) as u32,
                        )
                    } else {
                        final(self).state == DownloadState::Failed && r is Fail && final(self).buffer@ == old(self).buffer@
                    }),
                    DownloadState::Requesting { begin } => ({
                        let blen = spec_block_len(old(self).piece_size as int, begin as int);
                        if m.id == MESSAGE::PIECE && m.payload@.len() == 8 + blen
                            && m.payload@.subrange(0, 4) == be4(old(self).piece_index as u32)
                            && m.payload@.subrange(4, 8) == be4(begin as u32) {
                            &&& final(self).buffer@ == old(self).buffer@.subrange(0, begin as int)
                                + m.payload@.subrange(8, 8 + blen) + old(self).buffer@.subrange(
                                begin as int + blen,
                                old(self).buffer@.len() as int,
                            )
                            &&& (if begin + blen < old(self).piece_size {
                                &&& final(self).state == (DownloadState::Requesting {
                                    begin: (begin + blen) as i32,
                                })
                                &&& r matches StepAction::Send(sm) && sm.id == MESSAGE::REQUEST
                                    && msg_wf(sm) && sm.payload@ == be4(
                                    old(self).piece_index as u32,
                                ) + be4((begin + blen) as u32) + be4(
                                    spec_block_len(
                                        old(self).piece_size as int,
                                        begin + blen,
                                    ) as u32,
                                )
                            } else {
                                (if sha1_of(final(self).buffer@) == old(self).expected@ {
                                    final(self).state == DownloadState::Done && r is Complete
                                } else {
                                    final(self).state == DownloadState::Failed && r is Fail
                                })
                            })
                        } else {
                            final(self).state == DownloadState::Failed && r is Fail && final(self).buffer@ == old(self).buffer@
                        }
                    }),
                    DownloadState::Done => *final(self) == *old(self) && r is Idle,
                    DownloadState::Failed => *final(self) == *old(self) && r is Idle,
                }),
            }),
    {
        match frame {
            Frame::KeepAlive => StepAction::Idle,
            Frame::Msg(m) => {
                match self.state {
                    DownloadState::AwaitBitfield => {
                        let pi: usize = self.piece_index as usize;
                        let byte_i: usize = pi / 8;
                        let mut present = false;
                        if m.id == MESSAGE::BITFIELD && byte_i < m.payload.len() {
                            let b = m.payload[byte_i];
                            let k: usize = pi % 8;
                            present = if k == 0 {
                                (b / 128) % 2 == 1
                            } else if k == 1 {
                                (b / 64) % 2 == 1
                            } else if k == 2 {
                                (b / 32) % 2 == 1
                            } else if k == 3 {
                                (b / 16) % 2 == 1
                            } else if k == 4 {
                                (b / 8) % 2 == 1
                            } else if k == 5 {
                                (b / 4) % 2 == 1
                            } else if k == 6 {
                                (b / 2) % 2 == 1
                            } else {
                                b % 2 == 1
                            };
                        }
                        proof {
                            let pig = pi as int;
                            let ll = m.payload@.len() as int;
                            assert(pig / 8 < ll <==> pig < ll * 8) by (nonlinear_arith)
                                requires
                                    pig >= 0,
                                    ll >= 0,
                            ;
                        }
                        if m.id == MESSAGE::BITFIELD && present {
                            self.state = DownloadState::AwaitUnchoke;
                            StepAction::Send(Message::new(MESSAGE::INTERESTED, Vec::new()))
                        } else {
                            self.state = DownloadState::Failed;
                            StepAction::Fail
                        }
                    },
                    DownloadState::AwaitUnchoke => {
                        if m.id == MESSAGE::UNCHOKE {
                            let req = self.request_for(0);
                            self.state = DownloadState::Requesting { begin: 0 };
                            StepAction::Send(req)
                        } else {
                            self.state = DownloadState::Failed;
                            StepAction::Fail
                        }
                    },
                    DownloadState::Requesting { begin } => {
                        let blen: i32 = if self.piece_size - begin < BLOCK_SIZE {
                            self.piece_size - begin
                        } else {
                            BLOCK_SIZE
                        };
                        let mut matches_block = false;
                        if m.id == MESSAGE::PIECE && m.payload.len() == 8 + blen as usize {
                            let ridx = parse_prefix(
                                m.payload[0],
                                m.payload[1],
                                m.payload[2],
                                m.payload[3],
                            );
                            let rbegin = parse_prefix(
                                m.payload[4],
                                m.payload[5],
                                m.payload[6],
                                m.payload[7],
                            );
                            matches_block = ridx == self.piece_index as u32 && rbegin
                                == begin as u32;
                            proof {
                                lemma_be4_inverse(
                                    m.payload@[0],
                                    m.payload@[1],
                                    m.payload@[2],
                                    m.payload@[3],
                                );
                                lemma_be4_inverse(
                                    m.payload@[4],
                                    m.payload@[5],
                                    m.payload@[6],
                                    m.payload@[7],
                                );
                                lemma_be4_val_of_be4(old(self).piece_index as u32);
                                lemma_be4_val_of_be4(begin as u32);
                                assert(m.payload@.subrange(0, 4) =~= seq![
                                    m.payload@[0],
                                    m.payload@[1],
                                    m.payload@[2],
                                    m.payload@[3],
                                ]);
                                assert(m.payload@.subrange(4, 8) =~= seq![
                                    m.payload@[4],
                                    m.payload@[5],
                                    m.payload@[6],
                                    m.payload@[7],
                                ]);
                            }
                        }
                        if matches_block {
                            let block = &m.payload.as_slice()[8..8 + blen as usize];
                            splice(&mut self.buffer, begin as usize, block);
                            if begin + blen < self.piece_size {
                                let next = begin + blen;
                                let req = self.request_for(next);
                                self.state = DownloadState::Requesting { begin: next };
                                StepAction::Send(req)
                            } else {
                                match Downloader::verify_piece(&self.buffer, &self.expected) {
                                    Ok(u) => {
                                        self.state = DownloadState::Done;
                                        StepAction::Complete
                                    },
                                    Err(e) => {
                                        self.state = DownloadState::Failed;
                                        StepAction::Fail
                                    },
                                }
                            }
                        } else {
                            self.state = DownloadState::Failed;
                            StepAction::Fail
                        }
                    },
                    DownloadState::Done => StepAction::Idle,
                    DownloadState::Failed => StepAction::Idle,
                }
            },
        }
    }
}

} // verus!
