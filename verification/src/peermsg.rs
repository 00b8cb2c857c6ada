use vstd::prelude::*;

use crate::error::Error;

verus! {

/// The four big-endian bytes of a 32-bit value.
pub open spec fn be_bytes(v: u32) -> Seq<u8> {
    seq![(v >> 24) as u8, (v >> 16) as u8, (v >> 8) as u8, v as u8]
}

/// The 32-bit value a four-byte big-endian field denotes.
pub open spec fn be_val(b: Seq<u8>) -> u32
    recommends
        b.len() == 4,
{
    ((b[0] as u32) << 24) | ((b[1] as u32) << 16) | ((b[2] as u32) << 8) | (b[3] as u32)
}

pub proof fn lemma_be_val_of_bytes(v: u32)
    ensures
        be_val(be_bytes(v)) == v,
{
    assert((((v >> 24) as u8) as u32) << 24 | (((v >> 16) as u8) as u32) << 16 | (((v
        >> 8) as u8) as u32) << 8 | ((v as u8) as u32) == v) by (bit_vector);
}

/// The ASCII protocol name a handshake carries.
pub open spec fn protocol_name() -> Seq<u8> {
    seq![
        66u8, 105u8, 116u8, 84u8, 111u8, 114u8, 114u8, 101u8, 110u8, 116u8, 32u8, 112u8, 114u8, 111u8, 116u8, 111u8, 99u8, 111u8, 108u8,
    ]
}

/// The handshake for a given info hash and peer id: name length, name,
/// eight reserved zero bytes, the 20-byte info hash, the 20-byte peer id.
pub open spec fn spec_handshake(info_hash: Seq<u8>, peer_id: Seq<u8>) -> Seq<u8> {
    seq![19u8] + protocol_name() + seq![0u8, 0u8, 0u8, 0u8, 0u8, 0u8, 0u8, 0u8] + info_hash
        + peer_id
}

/// A decoded peer-wire message, as mathematical data.
pub ghost enum MsgView {
    KeepAlive,
    Choke,
    Unchoke,
    Interested,
    NotInterested,
    Have { piece_index: u32 },
    Bitfield { bytes: Seq<u8> },
    Request { piece_index: u32, begin_offset: u32, length: u32 },
    Piece { piece_index: u32, begin_offset: u32, data: Seq<u8> },
    Cancel { piece_index: u32, begin_offset: u32, length: u32 },
}

/// A peer-wire message after the handshake.
#[derive(Clone, Debug, PartialEq, Eq)]
pub enum PeerWireMessage {
    KeepAlive,
    Choke,
    Unchoke,
    Interested,
    NotInterested,
    Have { piece_index: u32 },
    Bitfield { bytes: Vec<u8> },
    Request { piece_index: u32, begin_offset: u32, length: u32 },
    Piece { piece_index: u32, begin_offset: u32, data: Vec<u8> },
    Cancel { piece_index: u32, begin_offset: u32, length: u32 },
}

impl View for PeerWireMessage {
    type V = MsgView;

    open spec fn view(&self) -> MsgView {
        match *self {
            PeerWireMessage::KeepAlive => MsgView::KeepAlive,
            PeerWireMessage::Choke => MsgView::Choke,
            PeerWireMessage::Unchoke => MsgView::Unchoke,
            PeerWireMessage::Interested => MsgView::Interested,
            PeerWireMessage::NotInterested => MsgView::NotInterested,
            PeerWireMessage::Have { piece_index } => MsgView::Have { piece_index },
            PeerWireMessage::Bitfield { ref bytes } => MsgView::Bitfield { bytes: bytes@ },
            PeerWireMessage::Request { piece_index, begin_offset, length } => MsgView::Request {
                piece_index,
                begin_offset,
                length,
            },
            PeerWireMessage::Piece { piece_index, begin_offset, ref data } => MsgView::Piece {
                piece_index,
                begin_offset,
                data: data@,
            },
            PeerWireMessage::Cancel { piece_index, begin_offset, length } => MsgView::Cancel {
                piece_index,
                begin_offset,
                length,
            },
        }
    }
}

/// Whether a message's length prefix fits in its 32-bit field.
pub open spec fn msg_fits(m: MsgView) -> bool {
    match m {
        MsgView::Bitfield { bytes } => 1 + bytes.len() <= u32::MAX,
        MsgView::Piece { data, .. } => 9 + data.len() <= u32::MAX,
        _ => true,
    }
}

/// The wire bytes of a message: a four-byte big-endian length prefix
/// counting the id byte and payload, then the id byte (absent for
/// keep-alive), then the payload.
pub open spec fn spec_encode(m: MsgView) -> Seq<u8> {
    match m {
        MsgView::KeepAlive => be_bytes(0),
        MsgView::Choke => be_bytes(1) + seq![0u8],
        MsgView::Unchoke => be_bytes(1) + seq![1u8],
        MsgView::Interested => be_bytes(1) + seq![2u8],
        MsgView::NotInterested => be_bytes(1) + seq![3u8],
        MsgView::Have { piece_index } => be_bytes(5) + seq![4u8] + be_bytes(piece_index),
        MsgView::Bitfield { bytes } => be_bytes((1 + bytes.len()) as u32) + seq![5u8] + bytes,
        MsgView::Request { piece_index, begin_offset, length } => be_bytes(13) + seq![6u8]
            + be_bytes(piece_index) + be_bytes(begin_offset) + be_bytes(length),
        MsgView::Piece { piece_index, begin_offset, data } => be_bytes((9 + data.len()) as u32)
            + seq![7u8] + be_bytes(piece_index) + be_bytes(begin_offset) + data,
        MsgView::Cancel { piece_index, begin_offset, length } => be_bytes(13) + seq![8u8]
            + be_bytes(piece_index) + be_bytes(begin_offset) + be_bytes(length),
    }
}

/// Appends the four big-endian bytes of `value`.
pub fn push_u32(vec: &mut Vec<u8>, value: u32)
    ensures
        final(vec)@ == old(vec)@ + be_bytes(value),
{
    vec.push((value >> 24) as u8);
    vec.push((value >> 16) as u8);
    vec.push((value >> 8) as u8);
    vec.push(value as u8);
    assert(vec@ =~= old(vec)@ + be_bytes(value));
}

/// The handshake that precedes the length-prefixed stream.
pub fn peer_handshake(info_hash: &[u8], peer_id: &[u8]) -> (r: Vec<u8>)
    requires
        info_hash@.len() == 20,
        peer_id@.len() == 20,
    ensures
        r@ == spec_handshake(info_hash@, peer_id@),
        r@.len() == 68,
{
    let mut handshake: Vec<u8> = Vec::new();
    handshake.push(19u8);
    let name: [u8; 19] = [
        66u8, 105u8, 116u8, 84u8, 111u8, 114u8, 114u8, 101u8, 110u8, 116u8, 32u8, 112u8, 114u8, 111u8, 116u8, 111u8, 99u8, 111u8, 108u8,
    ];
    let mut i: usize = 0;
    while i < 19
        invariant
            i <= 19,
            name@ == protocol_name(),
            handshake@ == seq![19u8] + protocol_name().take(i as int),
        decreases 19 - i,
    {
        handshake.push(name[i]);
        assert(handshake@ =~= seq![19u8] + protocol_name().take(i + 1));
        i += 1;
    }
    assert(protocol_name().take(19) =~= protocol_name());
    let mut j: usize = 0;
    while j < 8
        invariant
            j <= 8,
            handshake@.len() == 20 + j,
            handshake@ == seq![19u8] + protocol_name() + Seq::new(j as nat, |k: int| 0u8),
        decreases 8 - j,
    {
        handshake.push(0u8);
        assert(handshake@ =~= seq![19u8] + protocol_name() + Seq::new((j + 1) as nat, |k: int| 0u8));
        j += 1;
    }
    let mut k: usize = 0;
    while k < 20
        invariant
            k <= 20,
            info_hash@.len() == 20,
            handshake@ == seq![19u8] + protocol_name() + Seq::new(8nat, |t: int| 0u8)
                + info_hash@.take(k as int),
        decreases 20 - k,
    {
        handshake.push(info_hash[k]);
        assert(handshake@ =~= seq![19u8] + protocol_name() + Seq::new(8nat, |t: int| 0u8)
            + info_hash@.take(k + 1));
        k += 1;
    }
    let mut t: usize = 0;
    while t < 20
        invariant
            t <= 20,
            info_hash@.len() == 20,
            peer_id@.len() == 20,
            handshake@ == seq![19u8] + protocol_name() + Seq::new(8nat, |u: int| 0u8) + info_hash@
                + peer_id@.take(t as int),
        decreases 20 - t,
    {
        handshake.push(peer_id[t]);
        assert(handshake@ =~= seq![19u8] + protocol_name() + Seq::new(8nat, |u: int| 0u8)
            + info_hash@ + peer_id@.take(t + 1));
        t += 1;
    }
    proof {
        assert(Seq::new(8nat, |u: int| 0u8) =~= seq![0u8, 0u8, 0u8, 0u8, 0u8, 0u8, 0u8, 0u8]);
        assert(info_hash@.take(20) =~= info_hash@);
        assert(peer_id@.take(20) =~= peer_id@);
        assert(handshake@ =~= spec_handshake(info_hash@, peer_id@));
    }
    handshake
}

/// A keep-alive frame: a zero length prefix and nothing else.
pub fn keepalive() -> (r: Vec<u8>)
    ensures
        r@ == spec_encode(MsgView::KeepAlive),
{
    let mut msg: Vec<u8> = Vec::new();
    push_u32(&mut msg, 0);
    msg
}

fn bare_msg(id: u8) -> (r: Vec<u8>)
    ensures
        r@ == be_bytes(1) + seq![id],
{
    let mut msg: Vec<u8> = Vec::new();
    push_u32(&mut msg, 1);
    msg.push(id);
    assert(msg@ =~= be_bytes(1) + seq![id]);
    msg
}

pub fn choke() -> (r: Vec<u8>)
    ensures
        r@ == spec_encode(MsgView::Choke),
{
    bare_msg(0)
}

pub fn unchoke() -> (r: Vec<u8>)
    ensures
        r@ == spec_encode(MsgView::Unchoke),
{
    bare_msg(1)
}

pub fn interested() -> (r: Vec<u8>)
    ensures
        r@ == spec_encode(MsgView::Interested),
{
    bare_msg(2)
}

pub fn not_interested() -> (r: Vec<u8>)
    ensures
        r@ == spec_encode(MsgView::NotInterested),
{
    bare_msg(3)
}

pub fn have(piece: u32) -> (r: Vec<u8>)
    ensures
        r@ == spec_encode(MsgView::Have { piece_index: piece }),
{
    let mut msg: Vec<u8> = Vec::new();
    push_u32(&mut msg, 5);
    msg.push(4);
    push_u32(&mut msg, piece);
    assert(msg@ =~= be_bytes(5) + seq![4u8] + be_bytes(piece));
    msg
}

pub fn bitfield(bytes: &[u8]) -> (r: Vec<u8>)
    requires
        1 + bytes@.len() <= u32::MAX,
    ensures
        r@ == spec_encode(MsgView::Bitfield { bytes: bytes@ }),
{
    let mut msg: Vec<u8> = Vec::new();
    push_u32(&mut msg, 1 + bytes.len() as u32);
    msg.push(5);
    let mut i: usize = 0;
    while i < bytes.len()
        invariant
            i <= bytes@.len(),
            1 + bytes@.len() <= u32::MAX,
            msg@ == be_bytes((1 + bytes@.len()) as u32) + seq![5u8] + bytes@.take(i as int),
        decreases bytes@.len() - i,
    {
        msg.push(bytes[i]);
        assert(msg@ =~= be_bytes((1 + bytes@.len()) as u32) + seq![5u8] + bytes@.take(i + 1));
        i += 1;
    }
    assert(bytes@.take(bytes@.len() as int) =~= bytes@);
    msg
}

pub fn request(piece: u32, begin: u32, length: u32) -> (r: Vec<u8>)
    ensures
        r@ == spec_encode(
            MsgView::Request { piece_index: piece, begin_offset: begin, length },
        ),
{
    let mut msg: Vec<u8> = Vec::new();
    push_u32(&mut msg, 13);
    msg.push(6);
    push_u32(&mut msg, piece);
    push_u32(&mut msg, begin);
    push_u32(&mut msg, length);
    assert(msg@ =~= be_bytes(13) + seq![6u8] + be_bytes(piece) + be_bytes(begin) + be_bytes(
        length,
    ));
    msg
}

pub fn piece(index: u32, begin: u32, data: &[u8]) -> (r: Vec<u8>)
    requires
        9 + data@.len() <= u32::MAX,
    ensures
        r@ == spec_encode(
            MsgView::Piece { piece_index: index, begin_offset: begin, data: data@ },
        ),
        r@.len() == 13 + data@.len(),
{
    let mut msg: Vec<u8> = Vec::new();
    push_u32(&mut msg, 9 + data.len() as u32);
    msg.push(7);
    push_u32(&mut msg, index);
    push_u32(&mut msg, begin);
    let ghost head = be_bytes((9 + data@.len()) as u32) + seq![7u8] + be_bytes(index) + be_bytes(
        begin,
    );
    assert(msg@ =~= head);
    let mut i: usize = 0;
    while i < data.len()
        invariant
            i <= data@.len(),
            msg@ == head + data@.take(i as int),
        decreases data@.len() - i,
    {
        msg.push(data[i]);
        assert(msg@ =~= head + data@.take(i + 1));
        i += 1;
    }
    assert(data@.take(data@.len() as int) =~= data@);
    msg
}

pub fn cancel(piece: u32, begin: u32, length: u32) -> (r: Vec<u8>)
    ensures
        r@ == spec_encode(
            MsgView::Cancel { piece_index: piece, begin_offset: begin, length },
        ),
{
    let mut msg: Vec<u8> = Vec::new();
    push_u32(&mut msg, 13);
    msg.push(8);
    push_u32(&mut msg, piece);
    push_u32(&mut msg, begin);
    push_u32(&mut msg, length);
    assert(msg@ =~= be_bytes(13) + seq![8u8] + be_bytes(piece) + be_bytes(begin) + be_bytes(
        length,
    ));
    msg
}

/// What a byte stream holds at its front, seen as one frame.
pub ghost enum FrameOutcome {
    /// Fewer bytes than the length prefix declares: nothing may be consumed.
    Incomplete,
    /// A declared length that does not fit the message id's shape, or an
    /// unknown id.
    Bad,
    /// One whole message and the count of bytes it occupies.
    Msg(MsgView, int),
}

/// Reads one length-prefixed frame from the front of `s`.
pub open spec fn spec_decode_frame(s: Seq<u8>) -> FrameOutcome {
    if s.len() < 4 {
        FrameOutcome::Incomplete
    } else {
        let len = be_val(s.subrange(0, 4)) as int;
        let total = 4 + len;
        if s.len() < total {
            FrameOutcome::Incomplete
        } else if len == 0 {
            FrameOutcome::Msg(MsgView::KeepAlive, 4)
        } else {
            let id = s[4];
            if id == 0 {
                if len == 1 {
                    FrameOutcome::Msg(MsgView::Choke, 5)
                } else {
                    FrameOutcome::Bad
                }
            } else if id == 1 {
                if len == 1 {
                    FrameOutcome::Msg(MsgView::Unchoke, 5)
                } else {
                    FrameOutcome::Bad
                }
            } else if id == 2 {
                if len == 1 {
                    FrameOutcome::Msg(MsgView::Interested, 5)
                } else {
                    FrameOutcome::Bad
                }
            } else if id == 3 {
                if len == 1 {
                    FrameOutcome::Msg(MsgView::NotInterested, 5)
                } else {
                    FrameOutcome::Bad
                }
            } else if id == 4 {
                if len == 5 {
                    FrameOutcome::Msg(
                        MsgView::Have { piece_index: be_val(s.subrange(5, 9)) },
                        9,
                    )
                } else {
                    FrameOutcome::Bad
                }
            } else if id == 5 {
                FrameOutcome::Msg(MsgView::Bitfield { bytes: s.subrange(5, total) }, total)
            } else if id == 6 {
                if len == 13 {
                    FrameOutcome::Msg(
                        MsgView::Request {
                            piece_index: be_val(s.subrange(5, 9)),
                            begin_offset: be_val(s.subrange(9, 13)),
                            length: be_val(s.subrange(13, 17)),
                        },
                        17,
                    )
                } else {
                    FrameOutcome::Bad
                }
            } else if id == 7 {
                if len >= 9 {
                    FrameOutcome::Msg(
                        MsgView::Piece {
                            piece_index: be_val(s.subrange(5, 9)),
                            begin_offset: be_val(s.subrange(9, 13)),
                            data: s.subrange(13, total),
                        },
                        total,
                    )
                } else {
                    FrameOutcome::Bad
                }
            } else if id == 8 {
                if len == 13 {
                    FrameOutcome::Msg(
                        MsgView::Cancel {
                            piece_index: be_val(s.subrange(5, 9)),
                            begin_offset: be_val(s.subrange(9, 13)),
                            length: be_val(s.subrange(13, 17)),
                        },
                        17,
                    )
                } else {
                    FrameOutcome::Bad
                }
            } else {
                FrameOutcome::Bad
            }
        }
    }
}

/// The big-endian 32-bit field at offset `i`.
fn read_u32_at(buf: &[u8], i: usize) -> (r: u32)
    requires
        i + 4 <= buf@.len(),
    ensures
        r == be_val(buf@.subrange(i as int, i + 4)),
{
    let r = ((buf[i] as u32) << 24) | ((buf[i + 1] as u32) << 16) | ((buf[i + 2] as u32) << 8) | (
    buf[i + 3] as u32);
    proof {
        let sub = buf@.subrange(i as int, i + 4);
        assert(sub[0] == buf@[i as int] && sub[1] == buf@[i + 1] && sub[2] == buf@[i + 2] && sub[3]
            == buf@[i + 3]);
    }
    r
}

/// A fresh copy of the bytes at `[i, j)`.
fn copy_range(buf: &[u8], i: usize, j: usize) -> (r: Vec<u8>)
    requires
        i <= j <= buf@.len(),
    ensures
        r@ == buf@.subrange(i as int, j as int),
{
    let mut out: Vec<u8> = Vec::new();
    let mut k: usize = i;
    while k < j
        invariant
            i <= k <= j <= buf@.len(),
            out@ == buf@.subrange(i as int, k as int),
        decreases j - k,
    {
        out.push(buf[k]);
        assert(out@ =~= buf@.subrange(i as int, k + 1));
        k += 1;
    }
    out
}

/// Reads one frame from the front of `buf`. A truncated frame yields
/// `Ok(None)` and consumes nothing, so the caller can retry once more
/// bytes have arrived.
pub fn decode_frame(buf: &[u8]) -> (r: Result<Option<(PeerWireMessage, usize)>, Error>)
    ensures
        match spec_decode_frame(buf@) {
            FrameOutcome::Incomplete => r matches Ok(o) && o is None,
            FrameOutcome::Bad => r == Err::<Option<(PeerWireMessage, usize)>, Error>(
                Error::FrameError,
            ),
            FrameOutcome::Msg(m, n) => r matches Ok(o) && o matches Some((msg, c)) && msg@ == m
                && c == n,
        },
{
    if buf.len() < 4 {
        return Ok(None);
    }
    let len32 = read_u32_at(buf, 0);
    if (buf.len() as u64) < 4u64 + (len32 as u64) {
        return Ok(None);
    }
    let len = len32 as usize;
    let total = 4 + len;
    if len == 0 {
        return Ok(Some((PeerWireMessage::KeepAlive, 4)));
    }
    let id = buf[4];
    match id {
        0 => {
            if len == 1 {
                Ok(Some((PeerWireMessage::Choke, 5)))
            } else {
                Err(Error::FrameError)
            }
        },
        1 => {
            if len == 1 {
                Ok(Some((PeerWireMessage::Unchoke, 5)))
            } else {
                Err(Error::FrameError)
            }
        },
        2 => {
            if len == 1 {
                Ok(Some((PeerWireMessage::Interested, 5)))
            } else {
                Err(Error::FrameError)
            }
        },
        3 => {
            if len == 1 {
                Ok(Some((PeerWireMessage::NotInterested, 5)))
            } else {
                Err(Error::FrameError)
            }
        },
        4 => {
            if len == 5 {
                Ok(Some((PeerWireMessage::Have { piece_index: read_u32_at(buf, 5) }, 9)))
            } else {
                Err(Error::FrameError)
            }
        },
        5 => {
            let bytes = copy_range(buf, 5, total);
            Ok(Some((PeerWireMessage::Bitfield { bytes }, total)))
        },
        6 => {
            if len == 13 {
                Ok(Some((
                    PeerWireMessage::Request {
                        piece_index: read_u32_at(buf, 5),
                        begin_offset: read_u32_at(buf, 9),
                        length: read_u32_at(buf, 13),
                    },
                    17,
                )))
            } else {
                Err(Error::FrameError)
            }
        },
        7 => {
            if len >= 9 {
                let piece_index = read_u32_at(buf, 5);
                let begin_offset = read_u32_at(buf, 9);
                let data = copy_range(buf, 13, total);
                Ok(Some((PeerWireMessage::Piece { piece_index, begin_offset, data }, total)))
            } else {
                Err(Error::FrameError)
            }
        },
        8 => {
            if len == 13 {
                Ok(Some((
                    PeerWireMessage::Cancel {
                        piece_index: read_u32_at(buf, 5),
                        begin_offset: read_u32_at(buf, 9),
                        length: read_u32_at(buf, 13),
                    },
                    17,
                )))
            } else {
                Err(Error::FrameError)
            }
        },
        _ => Err(Error::FrameError),
    }
}

/// What a byte stream holds at its front, seen as a handshake checked
/// against the info hash we serve.
pub ghost enum HandshakeOutcome {
    /// Fewer than the 68 bytes a handshake occupies.
    Incomplete,
    /// The protocol name is not ours.
    BadProtocol,
    /// The info hash names another swarm.
    BadHash,
    /// The remote peer id, accepted.
    Done(Seq<u8>),
}

/// Reads a handshake from the front of `s`, requiring our protocol name
/// and the expected info hash.
pub open spec fn spec_decode_handshake(s: Seq<u8>, expected: Seq<u8>) -> HandshakeOutcome {
    if s.len() < 68 {
        HandshakeOutcome::Incomplete
    } else if s.subrange(0, 20) != seq![19u8] + protocol_name() {
        HandshakeOutcome::BadProtocol
    } else if s.subrange(28, 48) != expected {
        HandshakeOutcome::BadHash
    } else {
        HandshakeOutcome::Done(s.subrange(48, 68))
    }
}

/// Reads the handshake at the front of `buf`, checking the protocol name
/// byte for byte and then the info hash; the two mismatches are reported
/// as distinct errors. A short buffer yields `Ok(None)` and consumes
/// nothing.
pub fn decode_handshake(buf: &[u8], expected_info_hash: &[u8]) -> (r: Result<
    Option<(Vec<u8>, usize)>,
    Error,
>)
    requires
        expected_info_hash@.len() == 20,
    ensures
        match spec_decode_handshake(buf@, expected_info_hash@) {
            HandshakeOutcome::Incomplete => r matches Ok(o) && o is None,
            HandshakeOutcome::BadProtocol => r == Err::<Option<(Vec<u8>, usize)>, Error>(
                Error::WrongProtocol,
            ),
            HandshakeOutcome::BadHash => r == Err::<Option<(Vec<u8>, usize)>, Error>(
                Error::WrongInfoHash,
            ),
            HandshakeOutcome::Done(pid) => r matches Ok(o) && o matches Some((v, n)) && v@ == pid
                && n == 68,
        },
{
    if buf.len() < 68 {
        return Ok(None);
    }
    let ghost head = seq![19u8] + protocol_name();
    let name: [u8; 19] = [
        66u8, 105u8, 116u8, 84u8, 111u8, 114u8, 114u8, 101u8, 110u8, 116u8, 32u8, 112u8, 114u8,
        111u8, 116u8, 111u8, 99u8, 111u8, 108u8,
    ];
    assert(name@ == protocol_name());
    if buf[0] != 19 {
        assert(buf@.subrange(0, 20)[0] == buf@[0] && head[0] == 19u8);
        return Err(Error::WrongProtocol);
    }
    let mut i: usize = 0;
    while i < 19
        invariant
            buf@.len() >= 68,
            i <= 19,
            name@ == protocol_name(),
            forall|k: int| 0 <= k < i ==> buf@[1 + k] == protocol_name()[k],
        decreases 19 - i,
    {
        if buf[1 + i] != name[i] {
            proof {
                let hd = seq![19u8] + protocol_name();
                assert(hd[1 + i] == protocol_name()[i as int]);
                assert(buf@.subrange(0, 20)[1 + i] == buf@[1 + i]);
                assert(buf@.subrange(0, 20) != hd);
            }
            return Err(Error::WrongProtocol);
        }
        i += 1;
    }
    proof {
        assert forall|k: int| 0 <= k < 20 implies buf@.subrange(0, 20)[k] == head[k] by {
            if k == 0 {
            } else {
                assert(buf@[k] == protocol_name()[k - 1]);
            }
        }
        assert(buf@.subrange(0, 20) =~= head);
    }
    let mut j: usize = 0;
    while j < 20
        invariant
            buf@.len() >= 68,
            expected_info_hash@.len() == 20,
            j <= 20,
            buf@.subrange(0, 20) == seq![19u8] + protocol_name(),
            forall|k: int| 0 <= k < j ==> buf@[28 + k] == expected_info_hash@[k],
        decreases 20 - j,
    {
        if buf[28 + j] != expected_info_hash[j] {
            assert(buf@.subrange(28, 48)[j as int] == buf@[28 + j]);
            return Err(Error::WrongInfoHash);
        }
        j += 1;
    }
    assert(buf@.subrange(28, 48) =~= expected_info_hash@);
    let pid = copy_range(buf, 48, 68);
    Ok(Some((pid, 68)))
}

/// Any encoded message decodes back to itself, consuming exactly its own
/// bytes: the peer-wire codec round-trips.
pub proof fn lemma_frame_round_trip(m: MsgView)
    requires
        msg_fits(m),
    ensures
        spec_decode_frame(spec_encode(m)) == FrameOutcome::Msg(
            m,
            spec_encode(m).len() as int,
        ),
{
    let s = spec_encode(m);
    match m {
        MsgView::KeepAlive => {
            assert(s.subrange(0, 4) =~= be_bytes(0));
            lemma_be_val_of_bytes(0);
        },
        MsgView::Choke => {
            lemma_round_trip_bare(s, 0u8);
        },
        MsgView::Unchoke => {
            lemma_round_trip_bare(s, 1u8);
        },
        MsgView::Interested => {
            lemma_round_trip_bare(s, 2u8);
        },
        MsgView::NotInterested => {
            lemma_round_trip_bare(s, 3u8);
        },
        MsgView::Have { piece_index } => {
            assert(s.subrange(0, 4) =~= be_bytes(5));
            lemma_be_val_of_bytes(5);
            assert(s[4] == 4u8);
            assert(s.subrange(5, 9) =~= be_bytes(piece_index));
            lemma_be_val_of_bytes(piece_index);
        },
        MsgView::Bitfield { bytes } => {
            let len = (1 + bytes.len()) as u32;
            assert(s.subrange(0, 4) =~= be_bytes(len));
            lemma_be_val_of_bytes(len);
            assert(s[4] == 5u8);
            assert(s.subrange(5, 4 + len as int) =~= bytes);
        },
        MsgView::Request { piece_index, begin_offset, length } => {
            assert(s.subrange(0, 4) =~= be_bytes(13));
            lemma_be_val_of_bytes(13);
            assert(s[4] == 6u8);
            assert(s.subrange(5, 9) =~= be_bytes(piece_index));
            assert(s.subrange(9, 13) =~= be_bytes(begin_offset));
            assert(s.subrange(13, 17) =~= be_bytes(length));
            lemma_be_val_of_bytes(piece_index);
            lemma_be_val_of_bytes(begin_offset);
            lemma_be_val_of_bytes(length);
        },
        MsgView::Piece { piece_index, begin_offset, data } => {
            let len = (9 + data.len()) as u32;
            assert(s.subrange(0, 4) =~= be_bytes(len));
            lemma_be_val_of_bytes(len);
            assert(s[4] == 7u8);
            assert(s.subrange(5, 9) =~= be_bytes(piece_index));
            assert(s.subrange(9, 13) =~= be_bytes(begin_offset));
            assert(s.subrange(13, 4 + len as int) =~= data);
            lemma_be_val_of_bytes(piece_index);
            lemma_be_val_of_bytes(begin_offset);
        },
        MsgView::Cancel { piece_index, begin_offset, length } => {
            assert(s.subrange(0, 4) =~= be_bytes(13));
            lemma_be_val_of_bytes(13);
            assert(s[4] == 8u8);
            assert(s.subrange(5, 9) =~= be_bytes(piece_index));
            assert(s.subrange(9, 13) =~= be_bytes(begin_offset));
            assert(s.subrange(13, 17) =~= be_bytes(length));
            lemma_be_val_of_bytes(piece_index);
            lemma_be_val_of_bytes(begin_offset);
            lemma_be_val_of_bytes(length);
        },
    }
}

proof fn lemma_round_trip_bare(s: Seq<u8>, id: u8)
    requires
        s == be_bytes(1) + seq![id],
    ensures
        s.len() == 5,
        be_val(s.subrange(0, 4)) == 1,
        s[4] == id,
{
    assert(s.subrange(0, 4) =~= be_bytes(1));
    lemma_be_val_of_bytes(1);
}

/// The handshake round-trips: what `peer_handshake` builds is accepted by
/// the decoder against the same info hash, yielding the same peer id.
pub proof fn lemma_handshake_round_trip(info_hash: Seq<u8>, peer_id: Seq<u8>)
    requires
        info_hash.len() == 20,
        peer_id.len() == 20,
    ensures
        spec_decode_handshake(spec_handshake(info_hash, peer_id), info_hash)
            == HandshakeOutcome::Done(peer_id),
{
    let s = spec_handshake(info_hash, peer_id);
    assert(s.subrange(0, 20) =~= seq![19u8] + protocol_name());
    assert(s.subrange(28, 48) =~= info_hash);
    assert(s.subrange(48, 68) =~= peer_id);
}

} // verus!
