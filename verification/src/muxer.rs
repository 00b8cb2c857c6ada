use vstd::prelude::*;

use crate::bitfield::{bytes_needed, nth_bit, BitField};
use crate::error::Error;
use crate::peermsg::{
    spec_decode_frame, spec_decode_handshake, decode_frame, decode_handshake, FrameOutcome,
    HandshakeOutcome, MsgView, PeerWireMessage,
};
use crate::bencode::copy_range;

verus! {

/// Most bytes a connection may hold unsent before it is closed instead
/// of buffering without bound.
pub const MAX_WRITE_BUFFER: usize = 1048576;

/// Lifecycle of one peer socket: a fresh connection awaits the
/// handshake, then exchanges length-prefixed messages until it is
/// closed.
#[derive(Clone, Copy, Debug, PartialEq, Eq, Structural)]
pub enum ConnState {
    AwaitingHandshake,
    Ready,
    Closed,
}

/// What one processing step decided; the caller performs the matching
/// action and feeds the next event back in.
#[derive(Debug, PartialEq, Eq)]
pub enum StepOutcome {
    /// The connection was closed before; nothing to do.
    AlreadyClosed,
    /// The buffered bytes hold no whole item: read more, then retry. The
    /// partial bytes stay buffered.
    NeedMoreData,
    /// The handshake went through; the remote peer id.
    HandshakeDone(Vec<u8>),
    /// One whole message, already applied to the connection's own state,
    /// handed up for piece selection and choke policy.
    Message(PeerWireMessage),
    /// This step closed the connection, with the recorded reason.
    ConnectionClosed(Error),
}

/// The bit for piece `i` of a wire-format bitfield payload: bytes in
/// order, most significant bit first within each byte.
pub open spec fn wire_bit(bytes: Seq<u8>, i: int) -> bool {
    nth_bit(bytes[i / 8], (7 - i % 8) as u8)
}

/// Per-socket connection state: the handshake phase, the four choke and
/// interest flags, what the remote peer claims to have, and the two
/// buffers that carry partial frames across read and write calls.
pub struct PeerConnection {
    pub state: ConnState,
    pub close_reason: Option<Error>,
    pub peer_id: Vec<u8>,
    pub peer_choked_us: bool,
    pub we_choked_peer: bool,
    pub peer_interested: bool,
    pub we_interested: bool,
    pub remote_bitfield: BitField,
    pub read_buffer: Vec<u8>,
    pub write_buffer: Vec<u8>,
}

/// How one decoded message changes a ready connection: choke and
/// interest signals flip their flag, `Have` sets one bit, `Bitfield`
/// replaces the claimed pieces, and everything else leaves the
/// connection as it was.
pub open spec fn msg_applied(pre: PeerConnection, post: PeerConnection, m: MsgView) -> bool {
    &&& post.state == ConnState::Ready
    &&& post.close_reason == pre.close_reason
    &&& post.peer_id@ == pre.peer_id@
    &&& post.write_buffer@ == pre.write_buffer@
    &&& post.we_choked_peer == pre.we_choked_peer
    &&& post.we_interested == pre.we_interested
    &&& post.peer_choked_us == (match m {
        MsgView::Choke => true,
        MsgView::Unchoke => false,
        _ => pre.peer_choked_us,
    })
    &&& post.peer_interested == (match m {
        MsgView::Interested => true,
        MsgView::NotInterested => false,
        _ => pre.peer_interested,
    })
    &&& post.remote_bitfield.spec_size() == pre.remote_bitfield.spec_size()
    &&& (match m {
        MsgView::Have { piece_index } => post.remote_bitfield@ == pre.remote_bitfield@.update(
            piece_index as int,
            true,
        ),
        MsgView::Bitfield { bytes } => post.remote_bitfield@ == Seq::new(
            pre.remote_bitfield@.len(),
            |i: int| wire_bit(bytes, i),
        ),
        _ => post.remote_bitfield@ == pre.remote_bitfield@,
    })
}

impl PeerConnection {
    pub open spec fn well_formed(&self) -> bool {
        self.remote_bitfield.well_formed()
    }

    /// A fresh connection: awaiting its handshake, both sides choked and
    /// uninterested, no piece claimed, empty buffers.
    pub fn new(piece_count: usize) -> (r: PeerConnection)
        ensures
            r.well_formed(),
            r.state == ConnState::AwaitingHandshake,
            r.close_reason is None,
            r.peer_id@.len() == 0,
            r.peer_choked_us && r.we_choked_peer && !r.peer_interested && !r.we_interested,
            r.remote_bitfield.spec_size() == piece_count,
            r.remote_bitfield@ == Seq::new(piece_count as nat, |i: int| false),
            r.read_buffer@.len() == 0 && r.write_buffer@.len() == 0,
    {
        PeerConnection {
            state: ConnState::AwaitingHandshake,
            close_reason: None,
            peer_id: Vec::new(),
            peer_choked_us: true,
            we_choked_peer: true,
            peer_interested: false,
            we_interested: false,
            remote_bitfield: BitField::new(piece_count),
            read_buffer: Vec::new(),
            write_buffer: Vec::new(),
        }
    }

    /// Buffers freshly read socket bytes for framing; nothing else
    /// changes.
    pub fn feed(&mut self, data: &[u8])
        ensures
            final(self).read_buffer@ == old(self).read_buffer@ + data@,
            final(self).state == old(self).state,
            final(self).close_reason == old(self).close_reason,
            final(self).peer_id@ == old(self).peer_id@,
            final(self).peer_choked_us == old(self).peer_choked_us,
            final(self).we_choked_peer == old(self).we_choked_peer,
            final(self).peer_interested == old(self).peer_interested,
            final(self).we_interested == old(self).we_interested,
            final(self).remote_bitfield == old(self).remote_bitfield,
            final(self).write_buffer@ == old(self).write_buffer@,
    {
        let mut i: usize = 0;
        while i < data.len()
            invariant
                i <= data@.len(),
                self.read_buffer@ == old(self).read_buffer@ + data@.take(i as int),
                self.state == old(self).state,
                self.close_reason == old(self).close_reason,
                self.peer_id@ == old(self).peer_id@,
                self.peer_choked_us == old(self).peer_choked_us,
                self.we_choked_peer == old(self).we_choked_peer,
                self.peer_interested == old(self).peer_interested,
                self.we_interested == old(self).we_interested,
                self.remote_bitfield == old(self).remote_bitfield,
                self.write_buffer@ == old(self).write_buffer@,
            decreases data@.len() - i,
        {
            self.read_buffer.push(data[i]);
            assert(self.read_buffer@ =~= old(self).read_buffer@ + data@.take(i + 1));
            i += 1;
        }
        assert(data@.take(data@.len() as int) =~= data@);
    }

    /// Queues outbound bytes, or closes the connection when the bound
    /// would be passed: the loop never buffers writes without limit.
    pub fn queue_write(&mut self, data: &[u8]) -> (r: Result<(), Error>)
        ensures
            final(self).read_buffer@ == old(self).read_buffer@,
            final(self).remote_bitfield == old(self).remote_bitfield,
            match r {
                Ok(()) => final(self).write_buffer@ == old(self).write_buffer@ + data@
                    && old(self).write_buffer@.len() + data@.len() <= MAX_WRITE_BUFFER
                    && final(self).state == old(self).state,
                Err(e) => e == Error::WriteBufferFull && old(self).write_buffer@.len()
                    + data@.len() > MAX_WRITE_BUFFER && final(self).state == ConnState::Closed
                    && final(self).close_reason == Some(Error::WriteBufferFull)
                    && final(self).write_buffer@.len() == 0 && final(self).read_buffer@
                    == old(self).read_buffer@,
            },
    {
        if self.write_buffer.len() > MAX_WRITE_BUFFER
            || data.len() > MAX_WRITE_BUFFER - self.write_buffer.len() {
            self.state = ConnState::Closed;
            self.close_reason = Some(Error::WriteBufferFull);
            self.write_buffer = Vec::new();
            return Err(Error::WriteBufferFull);
        }
        let mut i: usize = 0;
        while i < data.len()
            invariant
                i <= data@.len(),
                self.write_buffer@ == old(self).write_buffer@ + data@.take(i as int),
                self.read_buffer@ == old(self).read_buffer@,
                self.remote_bitfield == old(self).remote_bitfield,
                self.state == old(self).state,
            decreases data@.len() - i,
        {
            self.write_buffer.push(data[i]);
            assert(self.write_buffer@ =~= old(self).write_buffer@ + data@.take(i + 1));
            i += 1;
        }
        assert(data@.take(data@.len() as int) =~= data@);
        Ok(())
    }

    /// Records that the first `n` buffered outbound bytes went out; the
    /// unwritten remainder stays for the next writable event.
    pub fn consume_written(&mut self, n: usize) -> (r: Result<(), Error>)
        ensures
            final(self).read_buffer@ == old(self).read_buffer@,
            final(self).state == old(self).state,
            final(self).remote_bitfield == old(self).remote_bitfield,
            match r {
                Ok(()) => n <= old(self).write_buffer@.len() && final(self).write_buffer@
                    == old(self).write_buffer@.skip(n as int),
                Err(e) => e == Error::IndexOutOfRange && n > old(self).write_buffer@.len()
                    && final(self).write_buffer@ == old(self).write_buffer@,
            },
    {
        if n > self.write_buffer.len() {
            return Err(Error::IndexOutOfRange);
        }
        let rest = copy_range(self.write_buffer.as_slice(), n, self.write_buffer.len());
        self.write_buffer = rest;
        Ok(())
    }

    /// Processes at most one buffered item, and decides everything the
    /// multiplexer must decide about it.
    ///
    /// Awaiting the handshake: a short buffer asks for more bytes and
    /// consumes nothing; a wrong protocol name or a foreign info hash
    /// closes the connection with that distinct reason; a good handshake
    /// consumes its 68 bytes and makes the connection ready. Ready: a
    /// truncated frame asks for more bytes and consumes nothing; a frame
    /// the grammar refuses closes the connection; a whole message is
    /// consumed, applied to the flags and the remote bitfield, and
    /// handed up — except a `Have` index at or past the piece count and
    /// a `Bitfield` payload of the wrong length, each of which closes
    /// the connection. Closing drops the connection's buffers.
    pub fn step(&mut self, expected_info_hash: &[u8]) -> (r: StepOutcome)
        requires
            old(self).well_formed(),
            expected_info_hash@.len() == 20,
        ensures
            final(self).well_formed(),
            old(self).state == ConnState::Closed ==> r == StepOutcome::AlreadyClosed && *final(self) == *old(self),
            old(self).state == ConnState::AwaitingHandshake ==> match spec_decode_handshake(
                old(self).read_buffer@,
                expected_info_hash@,
            ) {
                HandshakeOutcome::Incomplete => r == StepOutcome::NeedMoreData && *final(self)
                    == *old(self),
                HandshakeOutcome::BadProtocol => r == StepOutcome::ConnectionClosed(
                    Error::WrongProtocol,
                ) && final(self).state == ConnState::Closed && final(self).close_reason == Some(
                    Error::WrongProtocol,
                ) && final(self).read_buffer@.len() == 0 && final(self).write_buffer@.len() == 0,
                HandshakeOutcome::BadHash => r == StepOutcome::ConnectionClosed(
                    Error::WrongInfoHash,
                ) && final(self).state == ConnState::Closed && final(self).close_reason == Some(
                    Error::WrongInfoHash,
                ) && final(self).read_buffer@.len() == 0 && final(self).write_buffer@.len() == 0,
                HandshakeOutcome::Done(pid) => (r matches StepOutcome::HandshakeDone(v) && v@
                    == pid) && final(self).state == ConnState::Ready && final(self).peer_id@ == pid
                    && final(self).read_buffer@ == old(self).read_buffer@.skip(68) && final(self).remote_bitfield == old(self).remote_bitfield && final(self).write_buffer@ == old(self).write_buffer@ && final(self).peer_choked_us == old(self).peer_choked_us && final(self).we_choked_peer == old(self).we_choked_peer && final(self).peer_interested == old(self).peer_interested && final(self).we_interested == old(self).we_interested,
            },
            old(self).state == ConnState::Ready ==> match spec_decode_frame(
                old(self).read_buffer@,
            ) {
                FrameOutcome::Incomplete => r == StepOutcome::NeedMoreData && *final(self) == *old(self),
                FrameOutcome::Bad => r == StepOutcome::ConnectionClosed(Error::FrameError) && final(self).state == ConnState::Closed && final(self).close_reason == Some(Error::FrameError)
                    && final(self).read_buffer@.len() == 0 && final(self).write_buffer@.len() == 0,
                FrameOutcome::Msg(m, n) => {
                    if (m matches MsgView::Have { piece_index } && piece_index
                        >= old(self).remote_bitfield.spec_size()) {
                        r == StepOutcome::ConnectionClosed(Error::IndexOutOfRange) && final(self).state == ConnState::Closed && final(self).close_reason == Some(
                            Error::IndexOutOfRange,
                        ) && final(self).read_buffer@.len() == 0
                    } else if (m matches MsgView::Bitfield { bytes } && bytes.len()
                        != bytes_needed(old(self).remote_bitfield.spec_size())) {
                        r == StepOutcome::ConnectionClosed(Error::FrameError) && final(self).state
                            == ConnState::Closed && final(self).close_reason == Some(
                            Error::FrameError,
                        ) && final(self).read_buffer@.len() == 0
                    } else {
                        (r matches StepOutcome::Message(msg) && msg@ == m) && msg_applied(
                            *old(self),
                            *final(self),
                            m,
                        ) && final(self).read_buffer@ == old(self).read_buffer@.skip(n)
                    }
                },
            },
    {
        match self.state {
            ConnState::Closed => StepOutcome::AlreadyClosed,
            ConnState::AwaitingHandshake => {
                match decode_handshake(self.read_buffer.as_slice(), expected_info_hash) {
                    Ok(None) => StepOutcome::NeedMoreData,
                    Ok(Some((pid, consumed))) => {
                        let rest = copy_range(
                            self.read_buffer.as_slice(),
                            consumed,
                            self.read_buffer.len(),
                        );
                        self.read_buffer = rest;
                        let answer = copy_range(pid.as_slice(), 0, pid.len());
                        self.peer_id = pid;
                        self.state = ConnState::Ready;
                        StepOutcome::HandshakeDone(answer)
                    },
                    Err(e) => {
                        self.state = ConnState::Closed;
                        self.close_reason = Some(e);
                        self.read_buffer = Vec::new();
                        self.write_buffer = Vec::new();
                        StepOutcome::ConnectionClosed(e)
                    },
                }
            },
            ConnState::Ready => {
                match decode_frame(self.read_buffer.as_slice()) {
                    Ok(None) => StepOutcome::NeedMoreData,
                    Err(e) => {
                        self.state = ConnState::Closed;
                        self.close_reason = Some(e);
                        self.read_buffer = Vec::new();
                        self.write_buffer = Vec::new();
                        StepOutcome::ConnectionClosed(e)
                    },
                    Ok(Some((msg, consumed))) => {
                        match &msg {
                            PeerWireMessage::Have { piece_index } => {
                                let idx = *piece_index as usize;
                                if idx >= self.remote_bitfield.size() {
                                    self.state = ConnState::Closed;
                                    self.close_reason = Some(Error::IndexOutOfRange);
                                    self.read_buffer = Vec::new();
                                    self.write_buffer = Vec::new();
                                    return StepOutcome::ConnectionClosed(Error::IndexOutOfRange);
                                }
                            },
                            PeerWireMessage::Bitfield { bytes } => {
                                let size = self.remote_bitfield.size();
                                let need = size / 8 + if size % 8 == 0 {
                                    0
                                } else {
                                    1
                                };
                                if bytes.len() != need {
                                    self.state = ConnState::Closed;
                                    self.close_reason = Some(Error::FrameError);
                                    self.read_buffer = Vec::new();
                                    self.write_buffer = Vec::new();
                                    return StepOutcome::ConnectionClosed(Error::FrameError);
                                }
                            },
                            _ => {},
                        }
                        let rest = copy_range(
                            self.read_buffer.as_slice(),
                            consumed,
                            self.read_buffer.len(),
                        );
                        self.read_buffer = rest;
                        self.apply_message(&msg);
                        StepOutcome::Message(msg)
                    },
                }
            },
        }
    }

    /// Applies one decoded, validated message to the connection's own
    /// state.
    fn apply_message(&mut self, msg: &PeerWireMessage)
        requires
            old(self).well_formed(),
            old(self).state == ConnState::Ready,
            msg@ matches MsgView::Have { piece_index } ==> piece_index < old(self).remote_bitfield.spec_size(),
            msg@ matches MsgView::Bitfield { bytes } ==> bytes.len() == bytes_needed(
                old(self).remote_bitfield.spec_size(),
            ),
        ensures
            final(self).well_formed(),
            final(self).read_buffer@ == old(self).read_buffer@,
            msg_applied(
                PeerConnection { read_buffer: final(self).read_buffer, ..*old(self) },
                *final(self),
                msg@,
            ),
    {
        match msg {
            PeerWireMessage::Choke => {
                self.peer_choked_us = true;
            },
            PeerWireMessage::Unchoke => {
                self.peer_choked_us = false;
            },
            PeerWireMessage::Interested => {
                self.peer_interested = true;
            },
            PeerWireMessage::NotInterested => {
                self.peer_interested = false;
            },
            PeerWireMessage::Have { piece_index } => {
                let idx = *piece_index as usize;
                match self.remote_bitfield.set(idx, true) {
                    Ok(()) => {},
                    Err(_) => {
                        proof {
                            assert(false);
                        }
                    },
                }
            },
            PeerWireMessage::Bitfield { bytes } => {
                let size = self.remote_bitfield.size();
                let ghost pre = self.remote_bitfield@;
                proof {
                    self.remote_bitfield.lemma_view_len();
                }
                let mut i: usize = 0;
                while i < size
                    invariant
                        i <= size,
                        self.remote_bitfield.well_formed(),
                        self.remote_bitfield.spec_size() == size,
                        size == old(self).remote_bitfield.spec_size(),
                        bytes@.len() == bytes_needed(size),
                        self.state == old(self).state,
                        self.close_reason == old(self).close_reason,
                        self.peer_id@ == old(self).peer_id@,
                        self.peer_choked_us == old(self).peer_choked_us,
                        self.we_choked_peer == old(self).we_choked_peer,
                        self.peer_interested == old(self).peer_interested,
                        self.we_interested == old(self).we_interested,
                        self.read_buffer@ == old(self).read_buffer@,
                        self.write_buffer@ == old(self).write_buffer@,
                        self.remote_bitfield@.len() == size,
                        forall|j: int|
                            0 <= j < i ==> #[trigger] self.remote_bitfield@[j] == wire_bit(
                                bytes@,
                                j,
                            ),
                        forall|j: int|
                            i <= j < size ==> #[trigger] self.remote_bitfield@[j] == pre[j],
                    decreases size - i,
                {
                    assert(i / 8 < bytes@.len() && i % 8 < 8) by (nonlinear_arith)
                        requires
                            i < size,
                            bytes@.len() == size as int / 8 + if size as int % 8 == 0 {
                                0int
                            } else {
                                1int
                            },
                    ;
                    let b = bytes[i / 8];
                    let shift = (7 - (i % 8)) as u8;
                    let bit = b & (1u8 << shift) != 0;
                    assert(bit == wire_bit(bytes@, i as int));
                    match self.remote_bitfield.set(i, bit) {
                        Ok(()) => {},
                        Err(_) => {
                            proof {
                                assert(false);
                            }
                        },
                    }
                    i += 1;
                }
                proof {
                    assert(self.remote_bitfield@ =~= Seq::new(
                        pre.len(),
                        |j: int| wire_bit(bytes@, j),
                    ));
                }
            },
            _ => {},
        }
    }

}

} // verus!
