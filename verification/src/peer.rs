//! Point-to-point wire protocol: the fixed 68-byte negotiation packet, the
//! length-prefixed message framing, and the session state machine that a
//! connection driver steps through. All byte layouts are stated exactly.
use vstd::prelude::*;

verus! {

/// Big-endian bytes of a 32-bit value.
pub open spec fn spec_u32_be(x: u32) -> Seq<u8> {
    seq![
        (x as int / 0x1000000) as u8,
        ((x as int / 0x10000) % 256) as u8,
        ((x as int / 256) % 256) as u8,
        (x as int % 256) as u8,
    ]
}

/// The 32-bit value read from four big-endian bytes.
pub open spec fn spec_u32_from_be(b0: u8, b1: u8, b2: u8, b3: u8) -> int {
    b0 * 0x1000000 + b1 * 0x10000 + b2 * 256 + b3
}

/// The 16-bit value read from two big-endian bytes.
pub open spec fn spec_u16_from_be(b0: u8, b1: u8) -> int {
    b0 * 256 + b1
}

pub fn u32_to_be(x: u32) -> (r: [u8; 4])
    ensures
        r@ == spec_u32_be(x),
{
    let r = [
        (x / 0x1000000) as u8,
        ((x / 0x10000) % 256) as u8,
        ((x / 256) % 256) as u8,
        (x % 256) as u8,
    ];
    proof {
        assert(r@ =~= spec_u32_be(x));
    }
    r
}

pub fn u32_from_be(b0: u8, b1: u8, b2: u8, b3: u8) -> (r: u32)
    ensures
        r as int == spec_u32_from_be(b0, b1, b2, b3),
{
    (b0 as u32) * 0x1000000 + (b1 as u32) * 0x10000 + (b2 as u32) * 256 + (b3 as u32)
}

pub fn u16_from_be(b0: u8, b1: u8) -> (r: u16)
    ensures
        r as int == spec_u16_from_be(b0, b1),
{
    (b0 as u16) * 256 + (b1 as u16)
}

/// Negotiation failed: the remote echoed a different protocol identifier or
/// content hash.
#[derive(Debug, Clone, Copy, PartialEq, Eq, Structural)]
pub enum NegotiationError {
    HandshakeMismatch,
}

/// The 19 bytes of the protocol identifier literal.
pub open spec fn spec_protocol_bytes() -> Seq<u8> {
    seq![
        66u8, 105u8, 116u8, 84u8, 111u8, 114u8, 114u8, 101u8, 110u8, 116u8, 32u8, 112u8, 114u8,
        111u8, 116u8, 111u8, 99u8, 111u8, 108u8,
    ]
}

fn protocol_bytes() -> (r: [u8; 19])
    ensures
        r@ == spec_protocol_bytes(),
{
    let r = [
        66u8, 105u8, 116u8, 84u8, 111u8, 114u8, 114u8, 101u8, 110u8, 116u8, 32u8, 112u8, 114u8,
        111u8, 116u8, 111u8, 99u8, 111u8, 108u8,
    ];
    proof {
        assert(r@ =~= spec_protocol_bytes());
    }
    r
}

/// The fixed-size negotiation packet: length byte 19, the 19-byte protocol
/// identifier, 8 reserved zero bytes, the 20-byte content hash, the 20-byte
/// local participant identifier.
pub struct Handshake {
    pub length: u8,
    pub bittorrent: [u8; 19],
    pub reserved: [u8; 8],
    pub info_hash: [u8; 20],
    pub peer_id: [u8; 20],
}

/// The 68-byte wire layout of a negotiation packet.
pub open spec fn spec_handshake_bytes(h: Handshake) -> Seq<u8> {
    seq![h.length] + h.bittorrent@ + h.reserved@ + h.info_hash@ + h.peer_id@
}

impl Handshake {
    /// A fresh outbound packet for the given content hash and identifier.
    pub fn new(info_hash: [u8; 20], peer_id: [u8; 20]) -> (h: Handshake)
        ensures
            h.length == 19u8,
            h.bittorrent@ == spec_protocol_bytes(),
            h.reserved@ =~= Seq::new(8, |i: int| 0u8),
            h.info_hash@ == info_hash@,
            h.peer_id@ == peer_id@,
    {
        let h = Handshake {
            length: 19,
            bittorrent: protocol_bytes(),
            reserved: [0u8, 0u8, 0u8, 0u8, 0u8, 0u8, 0u8, 0u8],
            info_hash,
            peer_id,
        };
        proof {
            assert(h.reserved@ =~= Seq::new(8, |i: int| 0u8));
        }
        h
    }

    /// Serialise to the exact 68-byte wire layout.
    #[verifier::loop_isolation(false)]
    pub fn to_bytes(&self) -> (r: Vec<u8>)
        ensures
            r@ == spec_handshake_bytes(*self),
            r@.len() == 68,
    {
        let mut out: Vec<u8> = Vec::new();
        out.push(self.length);
        let mut i: usize = 0;
        while i < 19
            invariant
                i <= 19,
                out@ == seq![self.length] + self.bittorrent@.subrange(0, i as int),
            decreases 19 - i,
        {
            out.push(self.bittorrent[i]);
            proof {
                assert(out@ =~= seq![self.length] + self.bittorrent@.subrange(0, i as int + 1));
            }
            i = i + 1;
        }
        proof {
            assert(self.bittorrent@.subrange(0, 19) =~= self.bittorrent@);
        }
        let ghost pre1 = out@;
        let mut i: usize = 0;
        while i < 8
            invariant
                i <= 8,
                out@ == pre1 + self.reserved@.subrange(0, i as int),
            decreases 8 - i,
        {
            out.push(self.reserved[i]);
            proof {
                assert(out@ =~= pre1 + self.reserved@.subrange(0, i as int + 1));
            }
            i = i + 1;
        }
        proof {
            assert(self.reserved@.subrange(0, 8) =~= self.reserved@);
        }
        let ghost pre2 = out@;
        let mut i: usize = 0;
        while i < 20
            invariant
                i <= 20,
                out@ == pre2 + self.info_hash@.subrange(0, i as int),
            decreases 20 - i,
        {
            out.push(self.info_hash[i]);
            proof {
                assert(out@ =~= pre2 + self.info_hash@.subrange(0, i as int + 1));
            }
            i = i + 1;
        }
        proof {
            assert(self.info_hash@.subrange(0, 20) =~= self.info_hash@);
        }
        let ghost pre3 = out@;
        let mut i: usize = 0;
        while i < 20
            invariant
                i <= 20,
                out@ == pre3 + self.peer_id@.subrange(0, i as int),
            decreases 20 - i,
        {
            out.push(self.peer_id[i]);
            proof {
                assert(out@ =~= pre3 + self.peer_id@.subrange(0, i as int + 1));
            }
            i = i + 1;
        }
        proof {
            assert(self.peer_id@.subrange(0, 20) =~= self.peer_id@);
            assert(out@ =~= spec_handshake_bytes(*self));
        }
        out
    }

    /// Parse an inbound 68-byte packet field by field.
    pub fn from_bytes(buf: &Vec<u8>) -> (h: Handshake)
        requires
            buf@.len() == 68,
        ensures
            h.length == buf@[0],
            h.bittorrent@ == buf@.subrange(1, 20),
            h.reserved@ == buf@.subrange(20, 28),
            h.info_hash@ == buf@.subrange(28, 48),
            h.peer_id@ == buf@.subrange(48, 68),
    {
        let bittorrent = [
            buf[1], buf[2], buf[3], buf[4], buf[5], buf[6], buf[7], buf[8], buf[9], buf[10],
            buf[11], buf[12], buf[13], buf[14], buf[15], buf[16], buf[17], buf[18], buf[19],
        ];
        let reserved = [buf[20], buf[21], buf[22], buf[23], buf[24], buf[25], buf[26], buf[27]];
        let info_hash = [
            buf[28], buf[29], buf[30], buf[31], buf[32], buf[33], buf[34], buf[35], buf[36],
            buf[37], buf[38], buf[39], buf[40], buf[41], buf[42], buf[43], buf[44], buf[45],
            buf[46], buf[47],
        ];
        let peer_id = [
            buf[48], buf[49], buf[50], buf[51], buf[52], buf[53], buf[54], buf[55], buf[56],
            buf[57], buf[58], buf[59], buf[60], buf[61], buf[62], buf[63], buf[64], buf[65],
            buf[66], buf[67],
        ];
        let h = Handshake { length: buf[0], bittorrent, reserved, info_hash, peer_id };
        proof {
            assert(h.bittorrent@ =~= buf@.subrange(1, 20));
            assert(h.reserved@ =~= buf@.subrange(20, 28));
            assert(h.info_hash@ =~= buf@.subrange(28, 48));
            assert(h.peer_id@ =~= buf@.subrange(48, 68));
        }
        h
    }
}

/// Compare two byte arrays of the same length.
#[verifier::loop_isolation(false)]
fn bytes20_eq(a: &[u8; 20], b: &[u8; 20]) -> (r: bool)
    ensures
        r == (a@ =~= b@),
{
    let mut i: usize = 0;
    while i < 20
        invariant
            i <= 20,
            forall|j: int| 0 <= j < i ==> a@[j] == b@[j],
        decreases 20 - i,
    {
        if a[i] != b[i] {
            return false;
        }
        i = i + 1;
    }
    proof {
        assert(a@ =~= b@);
    }
    true
}

#[verifier::loop_isolation(false)]
fn bytes19_eq(a: &[u8; 19], b: &[u8; 19]) -> (r: bool)
    ensures
        r == (a@ =~= b@),
{
    let mut i: usize = 0;
    while i < 19
        invariant
            i <= 19,
            forall|j: int| 0 <= j < i ==> a@[j] == b@[j],
        decreases 19 - i,
    {
        if a[i] != b[i] {
            return false;
        }
        i = i + 1;
    }
    proof {
        assert(a@ =~= b@);
    }
    true
}

/// The identifiers of the length-prefixed messages; `Heartbeat` stands for a
/// keep-alive frame, which has a zero length and no identifier byte.
#[derive(Debug, Clone, Copy, PartialEq, Eq, Structural)]
pub enum MessageId {
    Choke,
    Unchoke,
    Interested,
    NotInterested,
    Have,
    Bitfield,
    Request,
    Piece,
    Cancel,
    Heartbeat,
}

/// The wire code of each message identifier.
pub open spec fn spec_id_code(m: MessageId) -> u8 {
    match m {
        MessageId::Choke => 0,
        MessageId::Unchoke => 1,
        MessageId::Interested => 2,
        MessageId::NotInterested => 3,
        MessageId::Have => 4,
        MessageId::Bitfield => 5,
        MessageId::Request => 6,
        MessageId::Piece => 7,
        MessageId::Cancel => 8,
        MessageId::Heartbeat => 9,
    }
}

impl MessageId {
    /// The identifier byte written on the wire.
    pub fn code(self) -> (r: u8)
        ensures
            r == spec_id_code(self),
    {
        match self {
            MessageId::Choke => 0,
            MessageId::Unchoke => 1,
            MessageId::Interested => 2,
            MessageId::NotInterested => 3,
            MessageId::Have => 4,
            MessageId::Bitfield => 5,
            MessageId::Request => 6,
            MessageId::Piece => 7,
            MessageId::Cancel => 8,
            MessageId::Heartbeat => 9,
        }
    }

    /// The identifier named by a wire byte, if any.
    pub fn from_u8(value: u8) -> (r: Option<MessageId>)
        ensures
            match r {
                Some(m) => spec_id_code(m) == value,
                None => value > 9,
            },
    {
        if value == 0 {
            Some(MessageId::Choke)
        } else if value == 1 {
            Some(MessageId::Unchoke)
        } else if value == 2 {
            Some(MessageId::Interested)
        } else if value == 3 {
            Some(MessageId::NotInterested)
        } else if value == 4 {
            Some(MessageId::Have)
        } else if value == 5 {
            Some(MessageId::Bitfield)
        } else if value == 6 {
            Some(MessageId::Request)
        } else if value == 7 {
            Some(MessageId::Piece)
        } else if value == 8 {
            Some(MessageId::Cancel)
        } else if value == 9 {
            Some(MessageId::Heartbeat)
        } else {
            None
        }
    }
}

/// One framed message: 4-byte big-endian length (identifier byte plus
/// payload), identifier, payload. A zero length is a keep-alive.
#[derive(Debug, Clone, PartialEq, Eq)]
pub struct Message {
    pub length: u32,
    pub message_id: MessageId,
    pub payload: Option<Vec<u8>>,
}

/// The framed wire bytes of a message; a zero-length message is the bare
/// 4-byte keep-alive frame.
pub open spec fn spec_message_bytes(m: Message) -> Seq<u8> {
    if m.length == 0 {
        spec_u32_be(0)
    } else {
        spec_u32_be(m.length) + seq![spec_id_code(m.message_id)] + (match m.payload {
            Some(p) => p@,
            None => Seq::empty(),
        })
    }
}

impl Message {
    /// Parse one whole frame (length prefix included) into a message; a
    /// frame with no payload bytes yields no payload, so framing a message
    /// and parsing it back reproduces it exactly.
    pub fn from_bytes(buf: &Vec<u8>) -> (r: Option<Message>)
        requires
            buf@.len() >= 5,
        ensures
            match r {
                Some(m) => {
                    &&& m.length as int == spec_u32_from_be(buf@[0], buf@[1], buf@[2], buf@[3])
                    &&& spec_id_code(m.message_id) == buf@[4]
                    &&& (buf@.len() == 5 ==> m.payload is None)
                    &&& (buf@.len() > 5 ==> (m.payload matches Some(p) && p@ == buf@.subrange(
                        5,
                        buf@.len() as int,
                    )))
                },
                None => buf@[4] > 9,
            },
    {
        let length = u32_from_be(buf[0], buf[1], buf[2], buf[3]);
        let message_id = match MessageId::from_u8(buf[4]) {
            Some(m) => m,
            None => {
                return None;
            },
        };
        if buf.len() == 5 {
            return Some(Message { length, message_id, payload: None });
        }
        let mut payload: Vec<u8> = Vec::new();
        let mut i: usize = 5;
        while i < buf.len()
            invariant
                5 <= i <= buf@.len(),
                payload@ == buf@.subrange(5, i as int),
            decreases buf@.len() - i,
        {
            payload.push(buf[i]);
            proof {
                assert(payload@ =~= buf@.subrange(5, i as int + 1));
            }
            i = i + 1;
        }
        Some(Message { length, message_id, payload: Some(payload) })
    }

    /// The request message for one fragment: length 13, identifier 6, the
    /// 12-byte request payload.
    pub fn new_request_message(payload: RequestPayload) -> (m: Message)
        ensures
            m.length == 13u32,
            m.message_id == MessageId::Request,
            m.payload matches Some(p) && p@ == spec_request_bytes(payload),
    {
        let bytes = payload.as_bytes();
        let mut v: Vec<u8> = Vec::new();
        let mut i: usize = 0;
        while i < 12
            invariant
                i <= 12,
                bytes@.len() == 12,
                bytes@ == spec_request_bytes(payload),
                v@ == bytes@.subrange(0, i as int),
            decreases 12 - i,
        {
            v.push(bytes[i]);
            proof {
                assert(v@ =~= bytes@.subrange(0, i as int + 1));
            }
            i = i + 1;
        }
        proof {
            assert(bytes@.subrange(0, 12) =~= bytes@);
        }
        Message { length: 13, message_id: MessageId::Request, payload: Some(v) }
    }

    /// A keep-alive message.
    pub fn heartbeat() -> (m: Message)
        ensures
            m.length == 0u32,
            m.message_id == MessageId::Heartbeat,
            m.payload is None,
    {
        Message { length: 0, message_id: MessageId::Heartbeat, payload: None }
    }

    /// Serialise to the exact framed wire bytes.
    #[verifier::loop_isolation(false)]
    pub fn to_bytes(&self) -> (r: Vec<u8>)
        ensures
            r@ == spec_message_bytes(*self),
    {
        let mut v: Vec<u8> = Vec::new();
        let len_bytes = u32_to_be(self.length);
        v.push(len_bytes[0]);
        v.push(len_bytes[1]);
        v.push(len_bytes[2]);
        v.push(len_bytes[3]);
        proof {
            assert(v@ =~= spec_u32_be(self.length));
        }
        if self.length == 0 {
            return v;
        }
        v.push(self.message_id.code());
        let ghost pre = v@;
        match &self.payload {
            Some(p) => {
                let mut i: usize = 0;
                while i < p.len()
                    invariant
                        i <= p@.len(),
                        v@ == pre + p@.subrange(0, i as int),
                    decreases p@.len() - i,
                {
                    v.push(p[i]);
                    proof {
                        assert(v@ =~= pre + p@.subrange(0, i as int + 1));
                    }
                    i = i + 1;
                }
                proof {
                    assert(p@.subrange(0, p@.len() as int) =~= p@);
                    assert(v@ =~= spec_message_bytes(*self));
                }
            },
            None => {
                proof {
                    assert(pre =~= pre + Seq::<u8>::empty());
                    assert(v@ =~= spec_message_bytes(*self));
                }
            },
        }
        v
    }
}

/// Decide one received frame while awaiting a specific message identifier:
/// a frame with the awaited identifier is delivered, any other frame is
/// drained and discarded.
pub fn accept_frame(expected: MessageId, length: u32, id_byte: u8, payload: Vec<u8>) -> (r: Option<
    Message,
>)
    requires
        length >= 1,
        payload@.len() == length - 1,
    ensures
        match r {
            Some(m) => {
                &&& id_byte == spec_id_code(expected)
                &&& m.message_id == expected
                &&& m.length == length
                &&& (length == 1 ==> m.payload is None)
                &&& (length > 1 ==> (m.payload matches Some(p) && p@ == payload@))
            },
            None => id_byte != spec_id_code(expected),
        },
{
    if id_byte == expected.code() {
        if length == 1 {
            Some(Message { length, message_id: expected, payload: None })
        } else {
            Some(Message { length, message_id: expected, payload: Some(payload) })
        }
    } else {
        None
    }
}

/// The 12-byte fragment request: piece index, byte offset, length, each as
/// four big-endian bytes.
#[derive(Debug, Clone, Copy, PartialEq, Eq)]
pub struct RequestPayload {
    pub index: u32,
    pub begin: u32,
    pub length: [u8; 4],
}

/// The 12-byte wire layout of a request payload.
pub open spec fn spec_request_bytes(p: RequestPayload) -> Seq<u8> {
    spec_u32_be(p.index) + spec_u32_be(p.begin) + p.length@
}

impl RequestPayload {
    /// The exact 12 wire bytes.
    pub fn as_bytes(self) -> (r: [u8; 12])
        ensures
            r@ == spec_request_bytes(self),
    {
        let ib = u32_to_be(self.index);
        let bb = u32_to_be(self.begin);
        let r = [
            ib[0], ib[1], ib[2], ib[3], bb[0], bb[1], bb[2], bb[3], self.length[0],
            self.length[1], self.length[2], self.length[3],
        ];
        proof {
            assert(r@ =~= spec_request_bytes(self));
        }
        r
    }
}

/// A fragment response: piece index and byte offset as four big-endian bytes
/// each, then the raw fragment bytes.
#[derive(Debug, Clone, PartialEq, Eq)]
pub struct PiecePayload {
    pub index: u32,
    pub begin: u32,
    pub block_bytes: Vec<u8>,
}

impl PiecePayload {
    /// Split a response payload into its fields.
    pub fn from_bytes(buf: Vec<u8>) -> (r: PiecePayload)
        requires
            buf@.len() >= 8,
        ensures
            r.index as int == spec_u32_from_be(buf@[0], buf@[1], buf@[2], buf@[3]),
            r.begin as int == spec_u32_from_be(buf@[4], buf@[5], buf@[6], buf@[7]),
            r.block_bytes@ == buf@.subrange(8, buf@.len() as int),
    {
        let index = u32_from_be(buf[0], buf[1], buf[2], buf[3]);
        let begin = u32_from_be(buf[4], buf[5], buf[6], buf[7]);
        let mut block_bytes: Vec<u8> = Vec::new();
        let mut i: usize = 8;
        while i < buf.len()
            invariant
                8 <= i <= buf@.len(),
                block_bytes@ == buf@.subrange(8, i as int),
            decreases buf@.len() - i,
        {
            block_bytes.push(buf[i]);
            proof {
                assert(block_bytes@ =~= buf@.subrange(8, i as int + 1));
            }
            i = i + 1;
        }
        PiecePayload { index, begin, block_bytes }
    }
}

/// The stages of one connection's life: negotiate, receive the remote's
/// fragment table, declare interest, wait to be unchoked, then exchange.
#[derive(Debug, Clone, Copy, PartialEq, Eq, Structural)]
pub enum SessionState {
    Connected,
    Negotiating,
    BitfieldPending,
    Interested,
    UnchokePending,
    Ready,
    Closed,
}

/// The protocol decisions of one session over a single connection; the
/// caller performs the sends and reads and feeds back what arrived.
pub struct PeerSession {
    pub state: SessionState,
    pub info_hash: [u8; 20],
    pub peer_id: [u8; 20],
}

impl PeerSession {
    pub fn new(info_hash: [u8; 20], peer_id: [u8; 20]) -> (s: PeerSession)
        ensures
            s.state == SessionState::Connected,
            s.info_hash@ == info_hash@,
            s.peer_id@ == peer_id@,
    {
        PeerSession { state: SessionState::Connected, info_hash, peer_id }
    }

    pub fn is_ready(&self) -> (r: bool)
        ensures
            r == (self.state == SessionState::Ready),
    {
        match self.state {
            SessionState::Ready => true,
            _ => false,
        }
    }

    /// Begin negotiation: the exact 68-byte packet to write.
    pub fn begin_handshake(&mut self) -> (r: Vec<u8>)
        requires
            old(self).state == SessionState::Connected,
        ensures
            final(self).state == SessionState::Negotiating,
            final(self).info_hash == old(self).info_hash,
            final(self).peer_id == old(self).peer_id,
            r@ == seq![19u8] + spec_protocol_bytes() + Seq::new(8, |i: int| 0u8)
                + old(self).info_hash@ + old(self).peer_id@,
    {
        let h = Handshake::new(self.info_hash, self.peer_id);
        let bytes = h.to_bytes();
        self.state = SessionState::Negotiating;
        proof {
            assert(bytes@ =~= seq![19u8] + spec_protocol_bytes() + Seq::new(8, |i: int| 0u8)
                + self.info_hash@ + self.peer_id@);
        }
        bytes
    }

    /// Judge the echoed packet: negotiation fails, and the session closes,
    /// unless the remote echoed the same protocol identifier and the same
    /// content hash.
    pub fn on_handshake_reply(&mut self, reply: &Handshake) -> (r: Result<(), NegotiationError>)
        requires
            old(self).state == SessionState::Negotiating,
        ensures
            final(self).info_hash == old(self).info_hash,
            final(self).peer_id == old(self).peer_id,
            (reply.bittorrent@ == spec_protocol_bytes() && reply.info_hash@ == old(
                self,
            ).info_hash@) ==> (r == Ok::<(), NegotiationError>(()) && final(self).state
                == SessionState::BitfieldPending),
            !(reply.bittorrent@ == spec_protocol_bytes() && reply.info_hash@ == old(
                self,
            ).info_hash@) ==> (r == Err::<(), NegotiationError>(
                NegotiationError::HandshakeMismatch,
            ) && final(self).state == SessionState::Closed),
    {
        let expected = protocol_bytes();
        let proto_ok = bytes19_eq(&reply.bittorrent, &expected);
        let hash_ok = bytes20_eq(&reply.info_hash, &self.info_hash);
        if proto_ok && hash_ok {
            self.state = SessionState::BitfieldPending;
            Ok(())
        } else {
            self.state = SessionState::Closed;
            Err(NegotiationError::HandshakeMismatch)
        }
    }

    /// Step the post-negotiation stages on one received frame identifier:
    /// the awaited identifier advances the session, anything else is
    /// drained. Returns whether the session advanced.
    pub fn on_frame(&mut self, id_byte: u8) -> (r: bool)
        requires
            old(self).state == SessionState::BitfieldPending || old(self).state
                == SessionState::UnchokePending,
        ensures
            final(self).info_hash == old(self).info_hash,
            final(self).peer_id == old(self).peer_id,
            old(self).state == SessionState::BitfieldPending && id_byte == 5 ==> (final(self).state
                == SessionState::Interested && r),
            old(self).state == SessionState::BitfieldPending && id_byte != 5 ==> (final(self).state
                == old(self).state && !r),
            old(self).state == SessionState::UnchokePending && id_byte == 1 ==> (final(self).state
                == SessionState::Ready && r),
            old(self).state == SessionState::UnchokePending && id_byte != 1 ==> (final(self).state
                == old(self).state && !r),
    {
        match self.state {
            SessionState::BitfieldPending => {
                if id_byte == 5 {
                    self.state = SessionState::Interested;
                    true
                } else {
                    false
                }
            },
            _ => {
                if id_byte == 1 {
                    self.state = SessionState::Ready;
                    true
                } else {
                    false
                }
            },
        }
    }

    /// Declare interest: the exact framed message to write; the session then
    /// waits to be unchoked.
    pub fn interested_message(&mut self) -> (r: Vec<u8>)
        requires
            old(self).state == SessionState::Interested,
        ensures
            final(self).state == SessionState::UnchokePending,
            final(self).info_hash == old(self).info_hash,
            final(self).peer_id == old(self).peer_id,
            r@ == spec_u32_be(1) + seq![2u8],
    {
        let m = Message { length: 1, message_id: MessageId::Interested, payload: None };
        let bytes = m.to_bytes();
        self.state = SessionState::UnchokePending;
        proof {
            assert(bytes@ =~= spec_u32_be(1) + seq![2u8]);
        }
        bytes
    }

    /// Any transport failure closes the session.
    pub fn on_io_failure(&mut self)
        ensures
            final(self).state == SessionState::Closed,
            final(self).info_hash == old(self).info_hash,
            final(self).peer_id == old(self).peer_id,
    {
        self.state = SessionState::Closed;
    }
}

} // verus!
