use torrentcore::peer::{
    accept_frame, u16_from_be, u32_from_be, u32_to_be, Handshake, Message, MessageId,
    NegotiationError, PeerSession, PiecePayload, RequestPayload, SessionState,
};

const HASH: [u8; 20] = [9; 20];
const ID: [u8; 20] = [7; 20];

#[test]
fn big_endian_round_trips() {
    assert_eq!(u32_to_be(0x01020304), [1, 2, 3, 4]);
    assert_eq!(u32_from_be(1, 2, 3, 4), 0x01020304);
    assert_eq!(u32_to_be(16384), [0, 0, 64, 0]);
    assert_eq!(u16_from_be(26, 225), 6881);
}

#[test]
fn handshake_wire_layout() {
    let h = Handshake::new(HASH, ID);
    let bytes = h.to_bytes();
    assert_eq!(bytes.len(), 68);
    assert_eq!(bytes[0], 19);
    assert_eq!(&bytes[1..20], b"BitTorrent protocol");
    assert_eq!(&bytes[20..28], &[0u8; 8]);
    assert_eq!(&bytes[28..48], &HASH);
    assert_eq!(&bytes[48..68], &ID);
    let parsed = Handshake::from_bytes(&bytes);
    assert_eq!(parsed.length, 19);
    assert_eq!(parsed.bittorrent, *b"BitTorrent protocol");
    assert_eq!(parsed.info_hash, HASH);
    assert_eq!(parsed.peer_id, ID);
}

#[test]
fn negotiation_succeeds_on_echo() {
    let mut s = PeerSession::new(HASH, ID);
    let sent = s.begin_handshake();
    assert_eq!(sent.len(), 68);
    let reply = Handshake::from_bytes(&sent);
    assert_eq!(s.on_handshake_reply(&reply), Ok(()));
    assert_eq!(s.state, SessionState::BitfieldPending);
}

#[test]
fn negotiation_fails_on_hash_mismatch() {
    // a single differing byte in the echoed content hash must fail
    let mut s = PeerSession::new(HASH, ID);
    let sent = s.begin_handshake();
    let mut echoed = sent.clone();
    echoed[30] ^= 1;
    let reply = Handshake::from_bytes(&echoed);
    assert_eq!(
        s.on_handshake_reply(&reply),
        Err(NegotiationError::HandshakeMismatch)
    );
    assert_eq!(s.state, SessionState::Closed);
}

#[test]
fn negotiation_fails_on_protocol_mismatch() {
    let mut s = PeerSession::new(HASH, ID);
    let sent = s.begin_handshake();
    let mut echoed = sent.clone();
    echoed[1] = b'X';
    let reply = Handshake::from_bytes(&echoed);
    assert_eq!(
        s.on_handshake_reply(&reply),
        Err(NegotiationError::HandshakeMismatch)
    );
    assert_eq!(s.state, SessionState::Closed);
}

#[test]
fn session_reaches_ready() {
    let mut s = PeerSession::new(HASH, ID);
    let sent = s.begin_handshake();
    let reply = Handshake::from_bytes(&sent);
    s.on_handshake_reply(&reply).unwrap();
    // an unrelated frame is drained while the fragment table is pending
    assert!(!s.on_frame(4));
    assert_eq!(s.state, SessionState::BitfieldPending);
    assert!(s.on_frame(5));
    assert_eq!(s.state, SessionState::Interested);
    let interested = s.interested_message();
    assert_eq!(interested, vec![0, 0, 0, 1, 2]);
    assert_eq!(s.state, SessionState::UnchokePending);
    assert!(!s.on_frame(0));
    assert!(s.on_frame(1));
    assert!(s.is_ready());
}

#[test]
fn io_failure_closes_session() {
    let mut s = PeerSession::new(HASH, ID);
    s.on_io_failure();
    assert_eq!(s.state, SessionState::Closed);
}

#[test]
fn message_id_codes() {
    assert_eq!(MessageId::from_u8(0), Some(MessageId::Choke));
    assert_eq!(MessageId::from_u8(5), Some(MessageId::Bitfield));
    assert_eq!(MessageId::from_u8(7), Some(MessageId::Piece));
    assert_eq!(MessageId::from_u8(10), None);
    assert_eq!(MessageId::Request.code(), 6);
}

#[test]
fn request_message_layout() {
    let payload = RequestPayload {
        index: 1,
        begin: 16384,
        length: u32_to_be(16384),
    };
    assert_eq!(
        payload.as_bytes(),
        [0, 0, 0, 1, 0, 0, 64, 0, 0, 0, 64, 0]
    );
    let m = Message::new_request_message(payload);
    assert_eq!(m.length, 13);
    assert!(matches!(m.message_id, MessageId::Request));
    let bytes = m.to_bytes();
    assert_eq!(
        bytes,
        vec![0, 0, 0, 13, 6, 0, 0, 0, 1, 0, 0, 64, 0, 0, 0, 64, 0]
    );
}

#[test]
fn heartbeat_is_bare_length_frame() {
    let m = Message::heartbeat();
    assert_eq!(m.length, 0);
    assert_eq!(m.to_bytes(), vec![0, 0, 0, 0]);
}

#[test]
fn message_from_bytes_reads_frame() {
    let frame = vec![0, 0, 0, 2, 5, 255];
    let m = Message::from_bytes(&frame).unwrap();
    assert_eq!(m.length, 2);
    assert!(matches!(m.message_id, MessageId::Bitfield));
    assert_eq!(m.payload, Some(vec![255]));
    let bare = vec![0, 0, 0, 1, 2];
    let m2 = Message::from_bytes(&bare).unwrap();
    assert_eq!(m2.payload, None);
    let bad = vec![0, 0, 0, 2, 77, 255];
    assert!(Message::from_bytes(&bad).is_none());
}

#[test]
fn accept_frame_delivers_or_drains() {
    let m = accept_frame(MessageId::Unchoke, 1, 1, Vec::new()).expect("matching id");
    assert!(matches!(m.message_id, MessageId::Unchoke));
    assert_eq!(m.payload, None);
    assert!(accept_frame(MessageId::Unchoke, 2, 4, vec![3]).is_none());
    let p = accept_frame(MessageId::Piece, 9, 7, vec![0, 0, 0, 0, 0, 0, 0, 0]).unwrap();
    assert_eq!(p.payload, Some(vec![0, 0, 0, 0, 0, 0, 0, 0]));
}

#[test]
fn piece_payload_fields() {
    let mut buf = Vec::new();
    buf.extend_from_slice(&3u32.to_be_bytes());
    buf.extend_from_slice(&16384u32.to_be_bytes());
    buf.extend_from_slice(&[1, 2, 3]);
    let p = PiecePayload::from_bytes(buf);
    assert_eq!(p.index, 3);
    assert_eq!(p.begin, 16384);
    assert_eq!(p.block_bytes, vec![1, 2, 3]);
}

#[test]
fn frame_round_trip_reproduces_message() {
    // a message without payload frames to 5 bytes and parses back to None
    let interested = Message {
        length: 1,
        message_id: MessageId::Interested,
        payload: None,
    };
    let parsed = Message::from_bytes(&interested.to_bytes()).unwrap();
    assert_eq!(parsed, interested);
    // a message with payload parses back with the same bytes
    let request = Message::new_request_message(RequestPayload {
        index: 2,
        begin: 16384,
        length: u32_to_be(200),
    });
    let parsed = Message::from_bytes(&request.to_bytes()).unwrap();
    assert_eq!(parsed, request);
}
