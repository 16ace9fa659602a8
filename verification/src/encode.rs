use vstd::prelude::*;
use vstd::string::{StrSliceExecFns, StringSliceAdditionalSpecFns};

use crate::hashing::{sha1_digest, sha1_of};
use crate::bencode::{
    dec_i, dec_u, encode_items, encode_pairs, key_lt, lemma_model_entries, lemma_model_items,
    model, model_entries, model_items, spec_encode, wf, BencodeValue, Bval,
};

verus! {

/// Appending one more item's encoding.
pub proof fn lemma_encode_items_snoc(s: Seq<Bval>, x: Bval)
    ensures
        encode_items(s.push(x)) == encode_items(s) + spec_encode(x),
    decreases s.len(),
{
    let q = s.push(x);
    reveal_with_fuel(encode_items, 3);
    if s.len() == 0 {
        assert(q[0] == x);
        assert(q.drop_first() =~= Seq::<Bval>::empty());
        assert(encode_items(q) =~= encode_items(s) + spec_encode(x));
    } else {
        assert(q[0] == s[0]);
        assert(q.drop_first() =~= s.drop_first().push(x));
        lemma_encode_items_snoc(s.drop_first(), x);
        assert(spec_encode(s[0]) + (encode_items(s.drop_first()) + spec_encode(x))
            =~= encode_items(s) + spec_encode(x));
    }
}

/// Appending one more entry's `key value` encoding.
pub proof fn lemma_encode_pairs_snoc(s: Seq<(Seq<u8>, Bval)>, p: (Seq<u8>, Bval))
    ensures
        encode_pairs(s.push(p)) == encode_pairs(s) + dec_u(p.0.len()) + seq![58u8] + p.0
            + spec_encode(p.1),
    decreases s.len(),
{
    let q = s.push(p);
    reveal_with_fuel(encode_pairs, 3);
    if s.len() == 0 {
        assert(q[0] == p);
        assert(q.drop_first() =~= Seq::<(Seq<u8>, Bval)>::empty());
        assert(encode_pairs(q) =~= encode_pairs(s) + dec_u(p.0.len()) + seq![58u8] + p.0
            + spec_encode(p.1));
    } else {
        assert(q[0] == s[0]);
        assert(q.drop_first() =~= s.drop_first().push(p));
        lemma_encode_pairs_snoc(s.drop_first(), p);
        assert(dec_u(s[0].0.len()) + seq![58u8] + s[0].0 + spec_encode(s[0].1) + (encode_pairs(
            s.drop_first(),
        ) + dec_u(p.0.len()) + seq![58u8] + p.0 + spec_encode(p.1)) =~= encode_pairs(s) + dec_u(
            p.0.len(),
        ) + seq![58u8] + p.0 + spec_encode(p.1));
    }
}

/// Appends the decimal digits of `n`, most significant first.
pub(crate) fn push_dec_u64(n: u64, out: &mut Vec<u8>)
    ensures
        final(out)@ == old(out)@ + dec_u(n as nat),
    decreases n,
{
    if n < 10 {
        out.push(48 + (n as u8));
        proof {
            assert(out@ =~= old(out)@ + dec_u(n as nat));
        }
    } else {
        push_dec_u64(n / 10, out);
        out.push(48 + ((n % 10) as u8));
        proof {
            assert((n / 10) as nat == (n as nat) / 10);
            assert((n % 10) as nat == (n as nat) % 10);
            assert(out@ =~= old(out)@ + dec_u(n as nat));
        }
    }
}

/// Appends the decimal form of a signed value, with a leading `-` when
/// negative.
pub(crate) fn push_dec_i64(v: i64, out: &mut Vec<u8>)
    ensures
        final(out)@ == old(out)@ + dec_i(v as int),
{
    if v < 0 {
        out.push(45);
        let mag: u64 = ((-1 - v) as u64) + 1;
        push_dec_u64(mag, out);
        proof {
            assert(mag as nat == (-(v as int)) as nat);
            assert(out@ =~= old(out)@ + dec_i(v as int));
        }
    } else {
        push_dec_u64(v as u64, out);
        proof {
            assert((v as u64) as nat == (v as int) as nat);
        }
    }
}

/// Appends the canonical encoding of `v`.
#[verifier::loop_isolation(false)]
fn encode_into(v: &BencodeValue, out: &mut Vec<u8>)
    ensures
        final(out)@ == old(out)@ + spec_encode(v@),
    decreases v,
{
    match v {
        BencodeValue::ByteString(b) => {
            push_dec_u64(b.len() as u64, out);
            out.push(58);
            out.extend_from_slice(b.as_slice());
            proof {
                assert((b@.len() as u64) as nat == b@.len());
                assert(out@ =~= old(out)@ + spec_encode(v@));
            }
        },
        BencodeValue::Integer(i) => {
            out.push(105);
            push_dec_i64(*i, out);
            out.push(101);
            proof {
                assert(out@ =~= old(out)@ + spec_encode(v@));
            }
        },
        BencodeValue::List(l) => {
            out.push(108);
            let ghost ml = model_items(l@);
            proof {
                lemma_model_items(l@);
                assert(ml.take(0) =~= Seq::<Bval>::empty());
                assert(out@ =~= old(out)@ + seq![108u8] + encode_items(ml.take(0)));
            }
            let mut k: usize = 0;
            while k < l.len()
                invariant
                    0 <= k <= l@.len(),
                    ml == model_items(l@),
                    ml.len() == l@.len(),
                    forall|i: int| 0 <= i < l@.len() ==> ml[i] == model(#[trigger] l@[i]),
                    out@ == old(out)@ + seq![108u8] + encode_items(ml.take(k as int)),
                decreases l@.len() - k,
            {
                proof {
                    assert(*v == BencodeValue::List(*l));
                    assert(decreases_to!(*v => (*v)->List_0));
                    assert(decreases_to!(*l => l@));
                    assert(decreases_to!(l@ => l@[k as int]));
                }
                encode_into(&l[k], out);
                proof {
                    assert(ml.take(k as int + 1) =~= ml.take(k as int).push(ml[k as int]));
                    lemma_encode_items_snoc(ml.take(k as int), ml[k as int]);
                    assert(out@ =~= old(out)@ + seq![108u8] + encode_items(ml.take(k as int + 1)));
                }
                k = k + 1;
            }
            out.push(101);
            proof {
                assert(ml.take(ml.len() as int) =~= ml);
                assert(out@ =~= old(out)@ + spec_encode(v@));
            }
        },
        BencodeValue::Dict(d) => {
            out.push(100);
            let ghost me = model_entries(d@);
            proof {
                lemma_model_entries(d@);
                assert(me.take(0) =~= Seq::<(Seq<u8>, Bval)>::empty());
                assert(out@ =~= old(out)@ + seq![100u8] + encode_pairs(me.take(0)));
            }
            let mut k: usize = 0;
            while k < d.len()
                invariant
                    0 <= k <= d@.len(),
                    me == model_entries(d@),
                    me.len() == d@.len(),
                    forall|i: int| 0 <= i < d@.len() ==> me[i] == (
                        #[trigger] d@[i].0@,
                        model(d@[i].1),
                    ),
                    out@ == old(out)@ + seq![100u8] + encode_pairs(me.take(k as int)),
                decreases d@.len() - k,
            {
                let kb = &d[k].0;
                push_dec_u64(kb.len() as u64, out);
                out.push(58);
                out.extend_from_slice(kb.as_slice());
                proof {
                    assert(*v == BencodeValue::Dict(*d));
                    assert(decreases_to!(*v => (*v)->Dict_0));
                    assert(decreases_to!(*d => d@));
                    assert(decreases_to!(d@ => d@[k as int]));
                    assert(decreases_to!(d@[k as int] => d@[k as int].1));
                }
                encode_into(&d[k].1, out);
                proof {
                    assert(me.take(k as int + 1) =~= me.take(k as int).push(me[k as int]));
                    lemma_encode_pairs_snoc(me.take(k as int), me[k as int]);
                    assert((kb@.len() as u64) as nat == kb@.len());
                    assert(out@ =~= old(out)@ + seq![100u8] + encode_pairs(me.take(k as int + 1)));
                }
                k = k + 1;
            }
            out.push(101);
            proof {
                assert(me.take(me.len() as int) =~= me);
                assert(out@ =~= old(out)@ + spec_encode(v@));
            }
        },
    }
}

/// Canonical bencode serialization.
pub struct Encoder;

impl Encoder {
    /// Serializes a well-formed value into its canonical bencode bytes:
    /// dictionary entries leave in ascending byte-lexicographic key order, the
    /// form whose SHA-1 must match independent implementations byte for byte.
    pub fn encode(v: &BencodeValue) -> (r: Vec<u8>)
        requires
            wf(v@),
        ensures
            r@ == spec_encode(v@),
    {
        let mut out: Vec<u8> = Vec::new();
        encode_into(v, &mut out);
        out
    }
}


/// The concatenated 20-byte SHA-1 hashes of consecutive chunks of at most
/// `plen` bytes.
pub open spec fn spec_piece_hashes(data: Seq<u8>, plen: int) -> Seq<u8>
    decreases data.len(),
{
    if data.len() == 0 || plen < 1 {
        Seq::<u8>::empty()
    } else if data.len() <= plen {
        sha1_of(data)
    } else {
        sha1_of(data.take(plen)) + spec_piece_hashes(data.skip(plen), plen)
    }
}

/// The key bytes of the `length` field.
pub open spec fn key_length() -> Seq<u8> {
    seq![108u8, 101u8, 110u8, 103u8, 116u8, 104u8]
}

/// The key bytes of the `name` field.
pub open spec fn key_name() -> Seq<u8> {
    seq![110u8, 97u8, 109u8, 101u8]
}

/// The key bytes of the `piece length` field.
pub open spec fn key_piece_length() -> Seq<u8> {
    seq![112u8, 105u8, 101u8, 99u8, 101u8, 32u8, 108u8, 101u8, 110u8, 103u8, 116u8, 104u8]
}

/// The key bytes of the `pieces` field.
pub open spec fn key_pieces() -> Seq<u8> {
    seq![112u8, 105u8, 101u8, 99u8, 101u8, 115u8]
}

/// The key bytes of the `announce` field.
pub open spec fn key_announce() -> Seq<u8> {
    seq![97u8, 110u8, 110u8, 111u8, 117u8, 110u8, 99u8, 101u8]
}

/// The key bytes of the `info` field.
pub open spec fn key_info() -> Seq<u8> {
    seq![105u8, 110u8, 102u8, 111u8]
}

/// The info dictionary of a new single-file torrent, in canonical key
/// order: length, name, piece length, pieces.
pub open spec fn info_model(name: Seq<u8>, length: int, plen: int, pieces: Seq<u8>) -> Seq<
    (Seq<u8>, Bval),
> {
    seq![
        (key_length(), Bval::Int(length)),
        (key_name(), Bval::Bytes(name)),
        (key_piece_length(), Bval::Int(plen)),
        (key_pieces(), Bval::Bytes(pieces)),
    ]
}

/// The whole metainfo dictionary: announce, then info.
pub open spec fn torrent_model(
    announce: Seq<u8>,
    name: Seq<u8>,
    length: int,
    plen: int,
    pieces: Seq<u8>,
) -> Bval {
    Bval::Dict(
        seq![
            (key_announce(), Bval::Bytes(announce)),
            (key_info(), Bval::Dict(info_model(name, length, plen, pieces))),
        ],
    )
}

/// The concatenated SHA-1 hashes of the `piece_length`-sized chunks of a
/// buffer, last chunk short.
#[verifier::loop_isolation(false)]
fn build_piece_hashes(buffer: &Vec<u8>, piece_length: usize) -> (r: Vec<u8>)
    requires
        piece_length >= 1,
    ensures
        r@ == spec_piece_hashes(buffer@, piece_length as int),
{
    let total: usize = buffer.len();
    let mut out: Vec<u8> = Vec::new();
    let mut pos: usize = 0;
    proof {
        assert(buffer@.skip(0) =~= buffer@);
        assert(out@ + spec_piece_hashes(buffer@, piece_length as int) =~= spec_piece_hashes(
            buffer@,
            piece_length as int,
        ));
    }
    while pos < total
        invariant
            0 <= pos <= total,
            total == buffer@.len(),
            piece_length >= 1,
            spec_piece_hashes(buffer@, piece_length as int) == out@ + spec_piece_hashes(
                buffer@.skip(pos as int),
                piece_length as int,
            ),
        decreases total - pos,
    {
        let step: usize = if total - pos < piece_length {
            total - pos
        } else {
            piece_length
        };
        let chunk = &buffer.as_slice()[pos..pos + step];
        let digest = sha1_digest(chunk);
        let ghost oldout = out@;
        out.extend_from_slice(digest.as_slice());
        proof {
            let rest = buffer@.skip(pos as int);
            if rest.len() <= piece_length {
                assert(chunk@ =~= rest);
                assert(spec_piece_hashes(rest, piece_length as int) == sha1_of(rest));
                assert(buffer@.skip(pos as int + step as int).len() == 0);
                assert(out@ + spec_piece_hashes(
                    buffer@.skip(pos as int + step as int),
                    piece_length as int,
                ) =~= oldout + spec_piece_hashes(rest, piece_length as int));
            } else {
                assert(chunk@ =~= rest.take(piece_length as int));
                assert(rest.skip(piece_length as int) =~= buffer@.skip(pos as int + step as int));
                assert(out@ + spec_piece_hashes(
                    buffer@.skip(pos as int + step as int),
                    piece_length as int,
                ) =~= oldout + spec_piece_hashes(rest, piece_length as int));
            }
        }
        pos = pos + step;
    }
    proof {
        assert(buffer@.skip(total as int).len() == 0);
        assert(out@ =~= out@ + spec_piece_hashes(buffer@.skip(total as int), piece_length as int));
    }
    out
}

impl Encoder {
    /// The metainfo bytes for one file: piece hashes over
    /// `piece_length`-sized chunks, an info dictionary with the name, total
    /// length and hashes, and the announce URL, all canonically encoded.
    #[verifier::rlimit(100)]
    pub fn build_torrent(
        name: &str,
        contents: &Vec<u8>,
        announce_url: &str,
        piece_length: i64,
    ) -> (r: Vec<u8>)
        requires
            1 <= piece_length,
            contents@.len() <= i64::MAX,
        ensures
            r@ == spec_encode(
                torrent_model(
                    announce_url.spec_bytes(),
                    name.spec_bytes(),
                    contents@.len() as int,
                    piece_length as int,
                    spec_piece_hashes(contents@, piece_length as int),
                ),
            ),
    {
        let clen: usize = contents.len();
        let pl_u64: u64 = piece_length as u64;
        let plen_eff: usize = if pl_u64 >= (usize::MAX as u64) {
            usize::MAX
        } else {
            pl_u64 as usize
        };
        let ghost hashes = spec_piece_hashes(contents@, piece_length as int);
        let pieces = build_piece_hashes(contents, plen_eff);
        proof {
            if piece_length as int != plen_eff as int {
                assert(plen_eff == usize::MAX);
                assert(piece_length as int >= usize::MAX as int);
                assert(spec_piece_hashes(contents@, piece_length as int) == spec_piece_hashes(
                    contents@,
                    plen_eff as int,
                )) by {
                    if contents@.len() > 0 {
                        assert(contents@.len() <= plen_eff as int);
                        assert(contents@.len() <= piece_length as int);
                    }
                }
            }
            assert(pieces@ == hashes);
        }
        let mut info: Vec<(Vec<u8>, BencodeValue)> = Vec::new();
        let klength: Vec<u8> = vec![108u8, 101u8, 110u8, 103u8, 116u8, 104u8];
        let kname: Vec<u8> = vec![110u8, 97u8, 109u8, 101u8];
        let kplen: Vec<u8> = vec![
            112u8,
            105u8,
            101u8,
            99u8,
            101u8,
            32u8,
            108u8,
            101u8,
            110u8,
            103u8,
            116u8,
            104u8,
        ];
        let kpieces: Vec<u8> = vec![112u8, 105u8, 101u8, 99u8, 101u8, 115u8];
        proof {
            assert(klength@ =~= key_length());
            assert(kname@ =~= key_name());
            assert(kplen@ =~= key_piece_length());
            assert(kpieces@ =~= key_pieces());
        }
        info.push((klength, BencodeValue::Integer(clen as i64)));
        info.push((kname, BencodeValue::ByteString(name.as_bytes_vec())));
        info.push((kplen, BencodeValue::Integer(piece_length)));
        info.push((kpieces, BencodeValue::ByteString(pieces)));
        let ghost ginfo = info@;
        let ghost im = info_model(
            name.spec_bytes(),
            contents@.len() as int,
            piece_length as int,
            hashes,
        );
        proof {
            lemma_model_entries(ginfo);
            assert(model_entries(ginfo) =~= im) by {
                assert(model_entries(ginfo)[0] == (ginfo[0].0@, model(ginfo[0].1)));
                assert(model_entries(ginfo)[1] == (ginfo[1].0@, model(ginfo[1].1)));
                assert(model_entries(ginfo)[2] == (ginfo[2].0@, model(ginfo[2].1)));
                assert(model_entries(ginfo)[3] == (ginfo[3].0@, model(ginfo[3].1)));
            }
        }
        let mut top: Vec<(Vec<u8>, BencodeValue)> = Vec::new();
        let kannounce: Vec<u8> = vec![97u8, 110u8, 110u8, 111u8, 117u8, 110u8, 99u8, 101u8];
        let kinfo: Vec<u8> = vec![105u8, 110u8, 102u8, 111u8];
        proof {
            assert(kannounce@ =~= key_announce());
            assert(kinfo@ =~= key_info());
        }
        top.push((kannounce, BencodeValue::ByteString(announce_url.as_bytes_vec())));
        top.push((kinfo, BencodeValue::Dict(info)));
        let torrent = BencodeValue::Dict(top);
        let ghost tm = torrent_model(
            announce_url.spec_bytes(),
            name.spec_bytes(),
            contents@.len() as int,
            piece_length as int,
            hashes,
        );
        proof {
            lemma_model_entries(torrent->Dict_0@);
            let gtop = torrent->Dict_0@;
            assert(model_entries(gtop) =~= tm->Dict_0) by {
                assert(model_entries(gtop)[0] == (gtop[0].0@, model(gtop[0].1)));
                assert(model_entries(gtop)[1] == (gtop[1].0@, model(gtop[1].1)));
                assert(model(gtop[1].1) == Bval::Dict(model_entries(ginfo)));
            }
            assert(torrent@ == tm);
            reveal_with_fuel(crate::bencode::key_lt, 14);
            assert(key_lt(key_length(), key_name()));
            assert(key_lt(key_length(), key_piece_length()));
            assert(key_lt(key_length(), key_pieces()));
            assert(key_lt(key_name(), key_piece_length()));
            assert(key_lt(key_name(), key_pieces()));
            assert(key_lt(key_piece_length(), key_pieces()));
            assert(key_lt(key_announce(), key_info()));
            assert(crate::bencode::entries_sorted(im)) by {
                assert forall|i: int, j: int| 0 <= i < j < im.len() implies key_lt(
                    #[trigger] im[i].0,
                    #[trigger] im[j].0,
                ) by {}
            }
            assert(crate::bencode::entries_sorted(tm->Dict_0)) by {
                assert forall|i: int, j: int| 0 <= i < j < tm->Dict_0.len() implies key_lt(
                    #[trigger] tm->Dict_0[i].0,
                    #[trigger] tm->Dict_0[j].0,
                ) by {}
            }
            assert(wf(tm)) by {
                reveal_with_fuel(wf, 4);
                assert(forall|i: int| 0 <= i < im.len() ==> wf(#[trigger] im[i].1)) by {
                    reveal_with_fuel(wf, 2);
                }
                assert(wf(Bval::Dict(im)));
                assert(forall|i: int|
                    0 <= i < tm->Dict_0.len() ==> wf(#[trigger] tm->Dict_0[i].1));
            }
        }
        Encoder::encode(&torrent)
    }
}

} // verus!
