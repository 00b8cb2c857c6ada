use vstd::prelude::*;

verus! {

/// Every failure this library reports.
#[derive(Clone, Copy, Debug, PartialEq, Eq, Structural)]
pub enum Error {
    /// A structural bencode grammar violation: unexpected byte, truncated
    /// token, missing terminator, or a non-canonical integer.
    MalformedBencode,
    /// Valid bencode that does not form a torrent descriptor: a missing or
    /// ill-typed required key, piece hashes not a multiple of 20 bytes, or
    /// an info section that is neither single- nor multi-file.
    SchemaViolation,
    /// A handshake whose protocol name is not the expected one.
    WrongProtocol,
    /// A handshake for a different swarm: its info hash differs from ours.
    WrongInfoHash,
    /// A length-prefixed frame whose declared length does not fit the
    /// shape of its message id, or an unknown message id.
    FrameError,
    /// A bitfield access beyond the piece count.
    IndexOutOfRange,
    /// A connection whose outbound buffer exceeded the backpressure
    /// bound; it is closed rather than buffered without limit.
    WriteBufferFull,
}

} // verus!
