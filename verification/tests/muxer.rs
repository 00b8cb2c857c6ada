use rottenbrit::error::Error;
use rottenbrit::muxer::{ConnState, PeerConnection, StepOutcome, MAX_WRITE_BUFFER};
use rottenbrit::peermsg::{bitfield, choke, have, peer_handshake, request, unchoke, PeerWireMessage};

fn ready_connection(pieces: usize, info_hash: &[u8; 20]) -> PeerConnection {
    let mut conn = PeerConnection::new(pieces);
    let hs = peer_handshake(info_hash, &[9u8; 20]);
    conn.feed(&hs);
    match conn.step(info_hash) {
        StepOutcome::HandshakeDone(pid) => assert_eq!(pid, vec![9u8; 20]),
        other => panic!("expected a finished handshake, got {:?}", other),
    }
    conn
}

#[test]
fn fresh_connection_defaults() {
    let conn = PeerConnection::new(8);
    assert_eq!(conn.state, ConnState::AwaitingHandshake);
    assert!(conn.peer_choked_us && conn.we_choked_peer);
    assert!(!conn.peer_interested && !conn.we_interested);
    assert_eq!(conn.read_buffer.len(), 0);
    assert_eq!(conn.write_buffer.len(), 0);
}

#[test]
fn handshake_brings_connection_ready() {
    let ih = [7u8; 20];
    let conn = ready_connection(4, &ih);
    assert_eq!(conn.state, ConnState::Ready);
    assert_eq!(conn.peer_id, vec![9u8; 20]);
    assert_eq!(conn.read_buffer.len(), 0);
}

#[test]
fn partial_handshake_waits_and_keeps_bytes() {
    let ih = [7u8; 20];
    let mut conn = PeerConnection::new(4);
    let hs = peer_handshake(&ih, &[9u8; 20]);
    conn.feed(&hs[..40]);
    assert_eq!(conn.step(&ih), StepOutcome::NeedMoreData);
    assert_eq!(conn.read_buffer.len(), 40);
    conn.feed(&hs[40..]);
    match conn.step(&ih) {
        StepOutcome::HandshakeDone(_) => {}
        other => panic!("expected a finished handshake, got {:?}", other),
    }
}

#[test]
fn handshake_mismatches_close_with_distinct_reasons() {
    let ih = [7u8; 20];
    let mut conn = PeerConnection::new(4);
    let mut hs = peer_handshake(&ih, &[9u8; 20]);
    hs[3] = b'X';
    conn.feed(&hs);
    assert_eq!(conn.step(&ih), StepOutcome::ConnectionClosed(Error::WrongProtocol));
    assert_eq!(conn.state, ConnState::Closed);
    assert_eq!(conn.close_reason, Some(Error::WrongProtocol));

    let mut conn2 = PeerConnection::new(4);
    let hs2 = peer_handshake(&[8u8; 20], &[9u8; 20]);
    conn2.feed(&hs2);
    assert_eq!(conn2.step(&ih), StepOutcome::ConnectionClosed(Error::WrongInfoHash));
    assert_eq!(conn2.close_reason, Some(Error::WrongInfoHash));
    assert_eq!(conn2.step(&ih), StepOutcome::AlreadyClosed);
}

#[test]
fn choke_signals_flip_flags() {
    let ih = [7u8; 20];
    let mut conn = ready_connection(4, &ih);
    conn.feed(&unchoke());
    match conn.step(&ih) {
        StepOutcome::Message(PeerWireMessage::Unchoke) => {}
        other => panic!("unexpected outcome {:?}", other),
    }
    assert!(!conn.peer_choked_us);
    conn.feed(&choke());
    conn.step(&ih);
    assert!(conn.peer_choked_us);
}

#[test]
fn have_sets_remote_piece() {
    let ih = [7u8; 20];
    let mut conn = ready_connection(5, &ih);
    conn.feed(&have(3));
    match conn.step(&ih) {
        StepOutcome::Message(PeerWireMessage::Have { piece_index: 3 }) => {}
        other => panic!("unexpected outcome {:?}", other),
    }
    assert_eq!(conn.remote_bitfield.get(3), Ok(true));
    assert_eq!(conn.remote_bitfield.get(2), Ok(false));
}

#[test]
fn have_out_of_range_closes() {
    let ih = [7u8; 20];
    let mut conn = ready_connection(5, &ih);
    conn.feed(&have(5));
    assert_eq!(conn.step(&ih), StepOutcome::ConnectionClosed(Error::IndexOutOfRange));
    assert_eq!(conn.state, ConnState::Closed);
}

#[test]
fn bitfield_replaces_claimed_pieces() {
    let ih = [7u8; 20];
    let mut conn = ready_connection(5, &ih);
    // wire format: most significant bit first; 0b10100000 claims 0 and 2
    conn.feed(&bitfield(&[0b1010_0000]));
    match conn.step(&ih) {
        StepOutcome::Message(PeerWireMessage::Bitfield { .. }) => {}
        other => panic!("unexpected outcome {:?}", other),
    }
    assert_eq!(conn.remote_bitfield.get(0), Ok(true));
    assert_eq!(conn.remote_bitfield.get(1), Ok(false));
    assert_eq!(conn.remote_bitfield.get(2), Ok(true));
    assert_eq!(conn.remote_bitfield.get(3), Ok(false));
    assert_eq!(conn.remote_bitfield.get(4), Ok(false));
}

#[test]
fn bitfield_of_wrong_length_closes() {
    let ih = [7u8; 20];
    let mut conn = ready_connection(5, &ih);
    conn.feed(&bitfield(&[0, 0]));
    assert_eq!(conn.step(&ih), StepOutcome::ConnectionClosed(Error::FrameError));
}

#[test]
fn partial_frame_is_retained_for_retry() {
    let ih = [7u8; 20];
    let mut conn = ready_connection(5, &ih);
    let req = request(1, 0, 16384);
    conn.feed(&req[..6]);
    assert_eq!(conn.step(&ih), StepOutcome::NeedMoreData);
    assert_eq!(conn.read_buffer, req[..6].to_vec());
    conn.feed(&req[6..]);
    match conn.step(&ih) {
        StepOutcome::Message(PeerWireMessage::Request { piece_index: 1, begin_offset: 0, length: 16384 }) => {}
        other => panic!("unexpected outcome {:?}", other),
    }
    assert_eq!(conn.read_buffer.len(), 0);
}

#[test]
fn unknown_id_closes_connection() {
    let ih = [7u8; 20];
    let mut conn = ready_connection(5, &ih);
    conn.feed(&[0, 0, 0, 1, 9]);
    assert_eq!(conn.step(&ih), StepOutcome::ConnectionClosed(Error::FrameError));
    assert_eq!(conn.close_reason, Some(Error::FrameError));
    assert_eq!(conn.read_buffer.len(), 0);
}

#[test]
fn write_buffer_is_bounded() {
    let mut conn = PeerConnection::new(4);
    assert_eq!(conn.queue_write(&[1, 2, 3]), Ok(()));
    assert_eq!(conn.write_buffer, vec![1, 2, 3]);
    assert_eq!(conn.consume_written(2), Ok(()));
    assert_eq!(conn.write_buffer, vec![3]);
    assert_eq!(conn.consume_written(5), Err(Error::IndexOutOfRange));
    let big = vec![0u8; MAX_WRITE_BUFFER];
    assert_eq!(conn.queue_write(&big), Err(Error::WriteBufferFull));
    assert_eq!(conn.state, ConnState::Closed);
    assert_eq!(conn.close_reason, Some(Error::WriteBufferFull));
}
