use vstd::prelude::*;

verus! {

/// Each block request asks for at most sixteen kibibytes.
pub const BLOCK_SIZE: i32 = 16 * 1024;

/// The peer wire message kinds in scope. The tag space is closed: a decoder
/// must reject every unknown id byte.
#[derive(PartialEq, Eq, Structural, Clone, Copy, Debug)]
pub enum MESSAGE {
    BITFIELD,
    INTERESTED,
    UNCHOKE,
    REQUEST,
    PIECE,
}

/// Why a framed peer message could not be read.
#[derive(PartialEq, Eq, Structural, Clone, Copy, Debug)]
pub enum FrameError {
    /// An id byte outside the known tag space.
    UnknownId { id: u8 },
    /// Fewer bytes available than the frame declares.
    Truncated,
}

impl MESSAGE {
    /// The id byte of this message kind on the wire.
    pub open spec fn spec_id(self) -> u8 {
        match self {
            MESSAGE::UNCHOKE => 1,
            MESSAGE::INTERESTED => 2,
            MESSAGE::BITFIELD => 5,
            MESSAGE::REQUEST => 6,
            MESSAGE::PIECE => 7,
        }
    }

    /// The id byte of this message kind on the wire.
    pub fn id_byte(&self) -> (r: u8)
        ensures
            r == self.spec_id(),
    {
        match self {
            MESSAGE::UNCHOKE => 1,
            MESSAGE::INTERESTED => 2,
            MESSAGE::BITFIELD => 5,
            MESSAGE::REQUEST => 6,
            MESSAGE::PIECE => 7,
        }
    }

    /// The message kind of an id byte: exactly 1, 2, 5, 6 and 7 are known,
    /// every other byte is rejected by name.
    pub fn try_from(value: u8) -> (r: Result<MESSAGE, FrameError>)
        ensures
            (match r {
                Ok(m) => m.spec_id() == value,
                Err(e) => e == (FrameError::UnknownId { id: value }) && value != 1 && value != 2
                    && value != 5 && value != 6 && value != 7,
            }),
    {
        if value == 1 {
            Ok(MESSAGE::UNCHOKE)
        } else if value == 2 {
            Ok(MESSAGE::INTERESTED)
        } else if value == 5 {
            Ok(MESSAGE::BITFIELD)
        } else if value == 6 {
            Ok(MESSAGE::REQUEST)
        } else if value == 7 {
            Ok(MESSAGE::PIECE)
        } else {
            Err(FrameError::UnknownId { id: value })
        }
    }
}

/// The big-endian bytes of a 32-bit value, most significant first.
pub open spec fn be4(n: u32) -> Seq<u8> {
    seq![
        (n / 0x1000000) as u8,
        (n / 0x10000 % 0x100) as u8,
        (n / 0x100 % 0x100) as u8,
        (n % 0x100) as u8,
    ]
}

/// The value of four big-endian bytes.
pub open spec fn be4_val(b0: u8, b1: u8, b2: u8, b3: u8) -> u32 {
    (b0 * 0x1000000 + b1 * 0x10000 + b2 * 0x100 + b3) as u32
}

/// Appends the big-endian bytes of `n`.
pub fn push_be4(n: u32, out: &mut Vec<u8>)
    ensures
        final(out)@ == old(out)@ + be4(n),
{
    out.push((n / 0x1000000) as u8);
    out.push((n / 0x10000 % 0x100) as u8);
    out.push((n / 0x100 % 0x100) as u8);
    out.push((n % 0x100) as u8);
    proof {
        assert(out@ =~= old(out)@ + be4(n));
    }
}

/// The value of a four-byte big-endian prefix.
pub fn parse_prefix(b0: u8, b1: u8, b2: u8, b3: u8) -> (n: u32)
    ensures
        n == be4_val(b0, b1, b2, b3),
{
    (b0 as u32) * 0x1000000 + (b1 as u32) * 0x10000 + (b2 as u32) * 0x100 + (b3 as u32)
}

/// A length-prefixed peer wire message: a four-byte big-endian prefix that
/// counts the id byte and the payload, the id byte, and the payload.
#[derive(Debug, Clone)]
pub struct Message {
    pub prefix: i32,
    pub id: MESSAGE,
    pub payload: Vec<u8>,
}

/// The prefix counts exactly the id byte and the payload.
pub open spec fn msg_wf(m: Message) -> bool {
    m.prefix == 1 + m.payload@.len()
}

impl Message {
    /// A message whose prefix counts its payload and id byte.
    pub fn new(id: MESSAGE, payload: Vec<u8>) -> (r: Self)
        requires
            payload@.len() + 1 <= i32::MAX,
        ensures
            r.id == id,
            r.payload@ == payload@,
            msg_wf(r),
    {
        Self { prefix: payload.len() as i32 + 1, id, payload }
    }

    /// The wire bytes: big-endian prefix, one id byte, the payload, as one
    /// frame to be written atomically.
    pub fn to_bytes(&self) -> (r: Vec<u8>)
        requires
            msg_wf(*self),
        ensures
            r@ == be4(self.prefix as u32) + seq![self.id.spec_id()] + self.payload@,
    {
        let mut out: Vec<u8> = Vec::new();
        push_be4(self.prefix as u32, &mut out);
        out.push(self.id.id_byte());
        out.extend_from_slice(self.payload.as_slice());
        proof {
            assert(out@ =~= be4(self.prefix as u32) + seq![self.id.spec_id()] + self.payload@);
        }
        out
    }

    /// A message rebuilt from an id byte and its payload, as a reader that
    /// has already consumed the prefix hands them over.
    pub fn from_parts(id_byte: u8, payload: Vec<u8>) -> (r: Result<Message, FrameError>)
        requires
            payload@.len() + 1 <= i32::MAX,
        ensures
            (match r {
                Ok(m) => m.id.spec_id() == id_byte && m.payload@ == payload@ && msg_wf(m),
                Err(e) => e == (FrameError::UnknownId { id: id_byte }) && id_byte != 1 && id_byte
                    != 2 && id_byte != 5 && id_byte != 6 && id_byte != 7,
            }),
    {
        match MESSAGE::try_from(id_byte) {
            Ok(id) => Ok(Message::new(id, payload)),
            Err(e) => Err(e),
        }
    }
}

/// One parsed frame: a keep-alive (zero length prefix, a no-op) or a
/// message.
#[derive(Debug)]
pub enum Frame {
    KeepAlive,
    Msg(Message),
}

/// Decodes one frame from the front of a buffer: four prefix bytes, then,
/// unless the prefix is zero, one id byte and `prefix - 1` payload bytes.
/// Fewer bytes than declared yield `Truncated`, an unknown id byte
/// `UnknownId`, and a declared length beyond the signed 32-bit range is
/// refused as `Truncated`; the input is never overread.
pub fn decode_message(buf: &[u8]) -> (r: Result<(Frame, usize), FrameError>)
    ensures
        (match r {
            Ok(p) => buf@.len() >= 4 && ({
                let n = be4_val(buf@[0], buf@[1], buf@[2], buf@[3]);
                if n == 0 {
                    p.0 is KeepAlive && p.1 == 4
                } else {
                    &&& n <= i32::MAX
                    &&& buf@.len() >= 4 + n
                    &&& p.1 == 4 + n
                    &&& p.0 matches Frame::Msg(m) && m.prefix == n && m.id.spec_id() == buf@[4]
                        && m.payload@ == buf@.subrange(5, 4 + n as int) && msg_wf(m)
                }
            }),
            Err(e) => (match e {
                FrameError::Truncated => buf@.len() < 4 || ({
                    let n = be4_val(buf@[0], buf@[1], buf@[2], buf@[3]);
                    n > 0 && (buf@.len() < 4 + n || n > i32::MAX)
                }),
                FrameError::UnknownId { id } => buf@.len() >= 4 && ({
                    let n = be4_val(buf@[0], buf@[1], buf@[2], buf@[3]);
                    &&& n > 0 && n <= i32::MAX && buf@.len() >= 4 + n
                    &&& id == buf@[4] && id != 1 && id != 2 && id != 5 && id != 6 && id != 7
                }),
            }),
        }),
{
    if buf.len() < 4 {
        return Err(FrameError::Truncated);
    }
    let n32 = parse_prefix(buf[0], buf[1], buf[2], buf[3]);
    if n32 == 0 {
        return Ok((Frame::KeepAlive, 4));
    }
    if n32 > 0x7fffffffu32 {
        return Err(FrameError::Truncated);
    }
    if ((buf.len() - 4) as u64) < n32 as u64 {
        return Err(FrameError::Truncated);
    }
    let n = n32 as usize;
    let idb = buf[4];
    match MESSAGE::try_from(idb) {
        Err(e) => Err(e),
        Ok(id) => {
            let payload = vstd::slice::slice_to_vec(&buf[5..4 + n]);
            let m = Message { prefix: n32 as i32, id, payload };
            Ok((Frame::Msg(m), 4 + n))
        },
    }
}

} // verus!
