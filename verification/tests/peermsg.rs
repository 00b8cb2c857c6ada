use rottenbrit::error::Error;
use rottenbrit::peermsg::{
    bitfield, cancel, choke, decode_frame, decode_handshake, have, interested, keepalive,
    not_interested, peer_handshake, piece, push_u32, request, unchoke, PeerWireMessage,
};

#[test]
fn test_piece() {
    let msg = piece(0x12345678, 0, &[0x34; 0x4000][..]);
    assert_eq!(
        &msg[..16],
        b"\0\0\x40\x09\x07\x12\x34\x56\x78\0\0\0\0\x34\x34\x34"
    );
    assert_eq!(msg.len(), 0x4000 + 13,)
}

#[test]
fn push_u32_is_big_endian() {
    let mut v = vec![0xffu8];
    push_u32(&mut v, 0x01020304);
    assert_eq!(v, vec![0xff, 1, 2, 3, 4]);
}

#[test]
fn short_message_bytes() {
    assert_eq!(keepalive(), vec![0, 0, 0, 0]);
    assert_eq!(choke(), vec![0, 0, 0, 1, 0]);
    assert_eq!(unchoke(), vec![0, 0, 0, 1, 1]);
    assert_eq!(interested(), vec![0, 0, 0, 1, 2]);
    assert_eq!(not_interested(), vec![0, 0, 0, 1, 3]);
    assert_eq!(have(9), vec![0, 0, 0, 5, 4, 0, 0, 0, 9]);
    assert_eq!(bitfield(&[0b1010_0000]), vec![0, 0, 0, 2, 5, 0b1010_0000]);
    assert_eq!(
        request(1, 2, 3),
        vec![0, 0, 0, 13, 6, 0, 0, 0, 1, 0, 0, 0, 2, 0, 0, 0, 3]
    );
    assert_eq!(
        cancel(1, 2, 3),
        vec![0, 0, 0, 13, 8, 0, 0, 0, 1, 0, 0, 0, 2, 0, 0, 0, 3]
    );
}

#[test]
fn request_round_trips() {
    let bytes = request(1, 0, 16384);
    let decoded = decode_frame(&bytes).unwrap().unwrap();
    assert_eq!(
        decoded,
        (
            PeerWireMessage::Request {
                piece_index: 1,
                begin_offset: 0,
                length: 16384
            },
            17
        )
    );
}

#[test]
fn every_message_round_trips() {
    let frames: Vec<(Vec<u8>, PeerWireMessage)> = vec![
        (keepalive(), PeerWireMessage::KeepAlive),
        (choke(), PeerWireMessage::Choke),
        (unchoke(), PeerWireMessage::Unchoke),
        (interested(), PeerWireMessage::Interested),
        (not_interested(), PeerWireMessage::NotInterested),
        (have(7), PeerWireMessage::Have { piece_index: 7 }),
        (
            bitfield(&[1, 2, 3]),
            PeerWireMessage::Bitfield { bytes: vec![1, 2, 3] },
        ),
        (
            piece(4, 8, &[9, 9]),
            PeerWireMessage::Piece {
                piece_index: 4,
                begin_offset: 8,
                data: vec![9, 9],
            },
        ),
        (
            cancel(3, 2, 1),
            PeerWireMessage::Cancel {
                piece_index: 3,
                begin_offset: 2,
                length: 1,
            },
        ),
    ];
    for (bytes, expect) in frames {
        let (msg, n) = decode_frame(&bytes).unwrap().unwrap();
        assert_eq!(msg, expect);
        assert_eq!(n, bytes.len());
    }
}

#[test]
fn truncated_frame_is_not_consumed() {
    let bytes = request(1, 0, 16384);
    // every strict prefix must ask for more bytes rather than decode
    for cut in 0..bytes.len() {
        assert_eq!(decode_frame(&bytes[..cut]), Ok(None));
    }
}

#[test]
fn bad_frames_are_errors() {
    // unknown message id 9
    assert_eq!(decode_frame(&[0, 0, 0, 1, 9]), Err(Error::FrameError));
    // choke with payload
    assert_eq!(decode_frame(&[0, 0, 0, 2, 0, 0]), Err(Error::FrameError));
    // have with short payload
    assert_eq!(decode_frame(&[0, 0, 0, 3, 4, 0, 0]), Err(Error::FrameError));
    // piece shorter than its fixed header
    assert_eq!(decode_frame(&[0, 0, 0, 5, 7, 0, 0, 0, 0]), Err(Error::FrameError));
}

#[test]
fn handshake_shape() {
    let ih = [7u8; 20];
    let pid = [9u8; 20];
    let hs = peer_handshake(&ih, &pid);
    assert_eq!(hs.len(), 68);
    assert_eq!(hs[0], 19);
    assert_eq!(&hs[1..20], b"BitTorrent protocol");
    assert_eq!(&hs[20..28], &[0u8; 8]);
    assert_eq!(&hs[28..48], &ih);
    assert_eq!(&hs[48..68], &pid);
}

#[test]
fn handshake_round_trips() {
    let ih = [7u8; 20];
    let pid = [9u8; 20];
    let hs = peer_handshake(&ih, &pid);
    let (got_pid, n) = decode_handshake(&hs, &ih).unwrap().unwrap();
    assert_eq!(got_pid, pid.to_vec());
    assert_eq!(n, 68);
}

#[test]
fn handshake_mismatches_are_distinct() {
    let ih = [7u8; 20];
    let other = [8u8; 20];
    let pid = [9u8; 20];
    let mut wrong_name = peer_handshake(&ih, &pid);
    wrong_name[1] = b'X';
    assert_eq!(decode_handshake(&wrong_name, &ih), Err(Error::WrongProtocol));
    let for_other_swarm = peer_handshake(&other, &pid);
    assert_eq!(decode_handshake(&for_other_swarm, &ih), Err(Error::WrongInfoHash));
}

#[test]
fn short_handshake_waits() {
    let ih = [7u8; 20];
    let pid = [9u8; 20];
    let hs = peer_handshake(&ih, &pid);
    assert_eq!(decode_handshake(&hs[..67], &ih), Ok(None));
    assert_eq!(decode_handshake(&[], &ih), Ok(None));
}
