//! The wire protocol: message frames, message kinds and the handshake.

use vstd::prelude::*;
use vstd::string::StringSliceAdditionalSpecFns;
use vstd::utf8::{encode_utf8, decode_utf8, valid_utf8};
use crate::be_bytes::{
    be32, be64, be128, u32_at, u64_at, u128_at, lemma_be32_round_trip, lemma_be64_round_trip,
    lemma_be128_round_trip, put_u32, put_u64, put_u128, put_bytes, get_u32, get_u64, get_u128,
    copy_range,
};
use crate::error::{BitSwapError, BitSwapResult, message};

verus! {

/// Protocol version carried in the handshake.
pub const PROTOCOL_VERSION: u8 = 1;

/// Protocol identifier carried in the handshake.
pub const PROTOCOL_ID: &'static str = "BITSWAP-1-SHA256";

/// Largest accepted frame length (message id plus payload): 16 MiB of data plus headers.
pub const MAX_FRAME_LENGTH: u32 = 16 * 1024 * 1024 + 1024;

/// Message ids.
pub const CHOKE: u8 = 0;
pub const UNCHOKE: u8 = 1;
pub const INTERESTED: u8 = 2;
pub const NOT_INTERESTED: u8 = 3;
pub const HAVE: u8 = 4;
pub const BITFIELD: u8 = 5;
pub const REQUEST: u8 = 6;
pub const PIECE: u8 = 7;
pub const CANCEL: u8 = 8;
pub const KEEPALIVE: u8 = 9;
pub const EXTENDED: u8 = 20;

/// A frame: message id and payload.
#[derive(Debug, Clone)]
pub struct MessageFrame {
    pub id: u8,
    pub payload: Vec<u8>,
}

/// What a handshake holds.
pub struct HandshakeView {
    pub protocol: Seq<char>,
    pub version: u8,
    pub info_hash: Seq<u8>,
    pub peer_id: u128,
    pub capabilities: u64,
}

/// Opening message of a connection.
#[derive(Debug, Clone)]
pub struct HandshakeMessage {
    /// Protocol identifier.
    pub protocol: String,
    /// Protocol version.
    pub version: u8,
    /// Info-hash of the torrent (SHA-256).
    pub info_hash: [u8; 32],
    /// Identifier of the sending peer.
    pub peer_id: u128,
    /// Capability bits.
    pub capabilities: u64,
}

impl View for HandshakeMessage {
    type V = HandshakeView;

    open spec fn view(&self) -> HandshakeView {
        HandshakeView {
            protocol: self.protocol@,
            version: self.version,
            info_hash: self.info_hash@,
            peer_id: self.peer_id,
            capabilities: self.capabilities,
        }
    }
}

/// What a message holds.
pub enum MessageView {
    Choke,
    Unchoke,
    Interested,
    NotInterested,
    Have { piece_index: u32 },
    Bitfield { bitfield: Seq<u8> },
    Request { piece_index: u32, begin: u32, length: u32 },
    Piece { piece_index: u32, begin: u32, data: Seq<u8> },
    Cancel { piece_index: u32, begin: u32, length: u32 },
    Keepalive,
    Extended { extension_id: u8, payload: Seq<u8> },
    Handshake(HandshakeView),
}

/// Wire protocol messages.
#[derive(Debug, Clone)]
pub enum Message {
    /// The sender will not fulfil requests until it unchokes.
    Choke,
    /// The sender will fulfil requests.
    Unchoke,
    /// The sender wishes to download.
    Interested,
    /// The sender withdraws its interest.
    NotInterested,
    /// The sender newly has a piece.
    Have { piece_index: u32 },
    /// The sender's current availability, as raw bitfield bytes; the receiver
    /// binds them to the torrent's piece count with `BitField::from_wire`.
    Bitfield { bitfield: Vec<u8> },
    /// Asks for a sub-range of a piece.
    Request { piece_index: u32, begin: u32, length: u32 },
    /// Data of a sub-range of a piece.
    Piece { piece_index: u32, begin: u32, data: Vec<u8> },
    /// Withdraws a request.
    Cancel { piece_index: u32, begin: u32, length: u32 },
    /// Keeps an idle connection open.
    Keepalive,
    /// Reserved for negotiated extensions.
    Extended { extension_id: u8, payload: Vec<u8> },
    /// The opening message; it is not sent as a frame.
    Handshake(HandshakeMessage),
}

impl View for Message {
    type V = MessageView;

    open spec fn view(&self) -> MessageView {
        match self {
            Message::Choke => MessageView::Choke,
            Message::Unchoke => MessageView::Unchoke,
            Message::Interested => MessageView::Interested,
            Message::NotInterested => MessageView::NotInterested,
            Message::Have { piece_index } => MessageView::Have { piece_index: *piece_index },
            Message::Bitfield { bitfield } => MessageView::Bitfield { bitfield: bitfield@ },
            Message::Request { piece_index, begin, length } => MessageView::Request {
                piece_index: *piece_index,
                begin: *begin,
                length: *length,
            },
            Message::Piece { piece_index, begin, data } => MessageView::Piece {
                piece_index: *piece_index,
                begin: *begin,
                data: data@,
            },
            Message::Cancel { piece_index, begin, length } => MessageView::Cancel {
                piece_index: *piece_index,
                begin: *begin,
                length: *length,
            },
            Message::Keepalive => MessageView::Keepalive,
            Message::Extended { extension_id, payload } => MessageView::Extended {
                extension_id: *extension_id,
                payload: payload@,
            },
            Message::Handshake(h) => MessageView::Handshake(h@),
        }
    }
}

/// Message id of the frame that carries `m`.
pub open spec fn frame_id(m: MessageView) -> u8 {
    match m {
        MessageView::Choke => CHOKE,
        MessageView::Unchoke => UNCHOKE,
        MessageView::Interested => INTERESTED,
        MessageView::NotInterested => NOT_INTERESTED,
        MessageView::Have { .. } => HAVE,
        MessageView::Bitfield { .. } => BITFIELD,
        MessageView::Request { .. } => REQUEST,
        MessageView::Piece { .. } => PIECE,
        MessageView::Cancel { .. } => CANCEL,
        MessageView::Keepalive => KEEPALIVE,
        MessageView::Extended { .. } => EXTENDED,
        MessageView::Handshake(_) => 0,
    }
}

/// Payload of the frame that carries `m`.
pub open spec fn frame_payload(m: MessageView) -> Seq<u8> {
    match m {
        MessageView::Have { piece_index } => be32(piece_index),
        MessageView::Bitfield { bitfield } => bitfield,
        MessageView::Request { piece_index, begin, length } => be32(piece_index) + be32(begin)
            + be32(length),
        MessageView::Piece { piece_index, begin, data } => be32(piece_index) + be32(begin) + data,
        MessageView::Cancel { piece_index, begin, length } => be32(piece_index) + be32(begin)
            + be32(length),
        MessageView::Extended { extension_id, payload } => seq![extension_id] + payload,
        _ => Seq::empty(),
    }
}

/// The message a frame carries, or `None` when the frame is a protocol error.
pub open spec fn parse_frame(id: u8, p: Seq<u8>) -> Option<MessageView> {
    if id == CHOKE {
        Some(MessageView::Choke)
    } else if id == UNCHOKE {
        Some(MessageView::Unchoke)
    } else if id == INTERESTED {
        Some(MessageView::Interested)
    } else if id == NOT_INTERESTED {
        Some(MessageView::NotInterested)
    } else if id == HAVE {
        if p.len() >= 4 {
            Some(MessageView::Have { piece_index: u32_at(p, 0) })
        } else {
            None
        }
    } else if id == BITFIELD {
        Some(MessageView::Bitfield { bitfield: p })
    } else if id == REQUEST || id == CANCEL {
        if p.len() >= 12 {
            if id == REQUEST {
                Some(
                    MessageView::Request {
                        piece_index: u32_at(p, 0),
                        begin: u32_at(p, 4),
                        length: u32_at(p, 8),
                    },
                )
            } else {
                Some(
                    MessageView::Cancel {
                        piece_index: u32_at(p, 0),
                        begin: u32_at(p, 4),
                        length: u32_at(p, 8),
                    },
                )
            }
        } else {
            None
        }
    } else if id == PIECE {
        if p.len() >= 8 {
            Some(
                MessageView::Piece {
                    piece_index: u32_at(p, 0),
                    begin: u32_at(p, 4),
                    data: p.subrange(8, p.len() as int),
                },
            )
        } else {
            None
        }
    } else if id == KEEPALIVE {
        Some(MessageView::Keepalive)
    } else if id == EXTENDED {
        if p.len() >= 1 {
            Some(
                MessageView::Extended { extension_id: p[0], payload: p.subrange(1, p.len() as int) },
            )
        } else {
            None
        }
    } else {
        None
    }
}

/// Every message other than a handshake, framed and parsed again, is the
/// same message.
pub proof fn lemma_frame_round_trip(m: MessageView)
    requires
        !(m is Handshake),
    ensures
        parse_frame(frame_id(m), frame_payload(m)) == Some(m),
{
    match m {
        MessageView::Have { piece_index } => {
            lemma_be32_round_trip(piece_index);
        },
        MessageView::Request { piece_index, begin, length } => {
            lemma_three_u32(piece_index, begin, length);
        },
        MessageView::Cancel { piece_index, begin, length } => {
            lemma_three_u32(piece_index, begin, length);
        },
        MessageView::Piece { piece_index, begin, data } => {
            let p = be32(piece_index) + be32(begin) + data;
            lemma_be32_round_trip(piece_index);
            lemma_be32_round_trip(begin);
            assert(u32_at(p, 0) == u32_at(be32(piece_index), 0));
            assert(u32_at(p, 4) == u32_at(be32(begin), 0));
            assert(p.subrange(8, p.len() as int) =~= data);
        },
        MessageView::Extended { extension_id, payload } => {
            let p = seq![extension_id] + payload;
            assert(p.subrange(1, p.len() as int) =~= payload);
        },
        _ => {},
    }
}

proof fn lemma_three_u32(a: u32, b: u32, c: u32)
    ensures
        u32_at(be32(a) + be32(b) + be32(c), 0) == a,
        u32_at(be32(a) + be32(b) + be32(c), 4) == b,
        u32_at(be32(a) + be32(b) + be32(c), 8) == c,
{
    let p = be32(a) + be32(b) + be32(c);
    lemma_be32_round_trip(a);
    lemma_be32_round_trip(b);
    lemma_be32_round_trip(c);
    assert(u32_at(p, 0) == u32_at(be32(a), 0));
    assert(u32_at(p, 4) == u32_at(be32(b), 0));
    assert(u32_at(p, 8) == u32_at(be32(c), 0));
}

/// Bytes on the wire of a frame: big-endian length (id plus payload), id, payload.
pub open spec fn frame_wire(id: u8, payload: Seq<u8>) -> Seq<u8> {
    be32((payload.len() + 1) as u32) + seq![id] + payload
}

/// Outcome of reading a frame from the start of a buffer.
pub enum FrameRead {
    /// More bytes are needed.
    Incomplete,
    /// The length field exceeds the cap.
    TooLong,
    /// A frame, and the number of bytes it used.
    Complete { id: u8, payload: Seq<u8>, used: int },
}

/// Reads a frame from the start of `buf`; a length of zero is a keepalive.
pub open spec fn read_frame(buf: Seq<u8>) -> FrameRead {
    if buf.len() < 4 {
        FrameRead::Incomplete
    } else if u32_at(buf, 0) > MAX_FRAME_LENGTH {
        FrameRead::TooLong
    } else if u32_at(buf, 0) == 0 {
        FrameRead::Complete { id: KEEPALIVE, payload: Seq::empty(), used: 4 }
    } else if buf.len() < 4 + u32_at(buf, 0) {
        FrameRead::Incomplete
    } else {
        FrameRead::Complete {
            id: buf[4],
            payload: buf.subrange(5, 4 + u32_at(buf, 0)),
            used: 4 + u32_at(buf, 0),
        }
    }
}

/// A frame within the cap, written and read back from a buffer that may hold
/// more bytes after it, is the same frame, and the read uses exactly its bytes.
pub proof fn lemma_wire_frame_round_trip(id: u8, payload: Seq<u8>, rest: Seq<u8>)
    requires
        payload.len() + 1 <= MAX_FRAME_LENGTH,
    ensures
        read_frame(frame_wire(id, payload) + rest) == (FrameRead::Complete {
            id,
            payload,
            used: frame_wire(id, payload).len() as int,
        }),
{
    let w = frame_wire(id, payload);
    let buf = w + rest;
    let n = (payload.len() + 1) as u32;
    lemma_be32_round_trip(n);
    assert(u32_at(buf, 0) == u32_at(be32(n), 0));
    assert(buf[4] == id);
    assert(buf.subrange(5, 4 + n) =~= payload);
}

/// Bytes of a handshake on the wire: protocol length, protocol, version,
/// info-hash, peer id and capabilities.
pub open spec fn handshake_wire(h: HandshakeView) -> Seq<u8> {
    seq![encode_utf8(h.protocol).len() as u8] + encode_utf8(h.protocol) + seq![h.version]
        + h.info_hash + be128(h.peer_id) + be64(h.capabilities)
}

/// Whether bytes start with a well-formed handshake.
pub open spec fn handshake_parses(d: Seq<u8>) -> bool {
    &&& d.len() >= 58
    &&& d.len() >= 58 + d[0]
    &&& valid_utf8(d.subrange(1, 1 + d[0]))
}

/// The handshake at the start of well-formed bytes.
pub open spec fn parse_handshake(d: Seq<u8>) -> HandshakeView {
    let p = d[0] as int;
    HandshakeView {
        protocol: decode_utf8(d.subrange(1, 1 + p)),
        version: d[1 + p],
        info_hash: d.subrange(2 + p, 34 + p),
        peer_id: u128_at(d, 34 + p),
        capabilities: u64_at(d, 50 + p),
    }
}

/// A handshake, written and read back, is the same handshake, provided its
/// protocol string fits the one-byte length field.
pub proof fn lemma_handshake_round_trip(h: HandshakeView)
    requires
        encode_utf8(h.protocol).len() <= 255,
        h.info_hash.len() == 32,
    ensures
        handshake_parses(handshake_wire(h)),
        parse_handshake(handshake_wire(h)) == h,
{
    let e = encode_utf8(h.protocol);
    let d = handshake_wire(h);
    let p = e.len() as int;
    vstd::utf8::encode_utf8_valid_utf8(h.protocol);
    vstd::utf8::encode_utf8_decode_utf8(h.protocol);
    assert(d[0] == p);
    assert(d.subrange(1, 1 + p) =~= e);
    assert(d.subrange(2 + p, 34 + p) =~= h.info_hash);
    lemma_be128_round_trip(h.peer_id);
    lemma_be64_round_trip(h.capabilities);
    assert(u128_at(d, 34 + p) == u128_at(be128(h.peer_id), 0)) by {
        assert(d.subrange(34 + p, 50 + p) =~= be128(h.peer_id));
        assert(u64_at(d, 34 + p) == u64_at(be128(h.peer_id), 0));
        assert(u64_at(d, 42 + p) == u64_at(be128(h.peer_id), 8));
    }
    assert(u64_at(d, 50 + p) == u64_at(be64(h.capabilities), 0));
    assert(parse_handshake(d).info_hash =~= h.info_hash);
}

/// Relies on `String::from_utf8`: it fails exactly on bytes that are not
/// UTF-8, and otherwise holds the characters they encode.
#[verifier::external_body]
fn string_from_utf8(bytes: Vec<u8>) -> (r: Option<String>)
    ensures
        r is Some <==> valid_utf8(bytes@),
        r is Some ==> r->Some_0@ == decode_utf8(bytes@),
{
    String::from_utf8(bytes).ok()
}

impl HandshakeMessage {
    /// A handshake for this protocol and version, with no capabilities.
    pub fn new(info_hash: [u8; 32], peer_id: u128) -> (r: Self)
        ensures
            r.protocol@ == PROTOCOL_ID@,
            r.version == PROTOCOL_VERSION,
            r.info_hash == info_hash,
            r.peer_id == peer_id,
            r.capabilities == 0,
    {
        HandshakeMessage {
            protocol: message(PROTOCOL_ID),
            version: PROTOCOL_VERSION,
            info_hash,
            peer_id,
            capabilities: 0,
        }
    }

    /// The bytes of this handshake on the wire; fails with a protocol error
    /// when the protocol string is longer than 255 bytes.
    pub fn to_bytes(&self) -> (r: BitSwapResult<Vec<u8>>)
        ensures
            r is Ok <==> encode_utf8(self.protocol@).len() <= 255,
            r is Ok ==> r->Ok_0@ == handshake_wire(self@),
            r is Err ==> r->Err_0 is Protocol,
    {
        let protocol_bytes = self.protocol.as_str().as_bytes();
        if protocol_bytes.len() > 255 {
            return Err(BitSwapError::Protocol(message("protocol string too long")));
        }
        let mut buf: Vec<u8> = Vec::new();
        buf.push(protocol_bytes.len() as u8);
        put_bytes(&mut buf, protocol_bytes);
        buf.push(self.version);
        put_bytes(&mut buf, self.info_hash.as_slice());
        put_u128(&mut buf, self.peer_id);
        put_u64(&mut buf, self.capabilities);
        assert(buf@ =~= handshake_wire(self@));
        Ok(buf)
    }

    /// Reads a handshake from the start of `data`; bytes after it are ignored.
    /// Short input or a protocol string that is not UTF-8 is a protocol error.
    pub fn from_bytes(data: &[u8]) -> (r: BitSwapResult<Self>)
        ensures
            r is Ok <==> handshake_parses(data@),
            r is Ok ==> r->Ok_0@ == parse_handshake(data@),
            r is Err ==> r->Err_0 is Protocol,
    {
        if data.len() < 58 {
            return Err(BitSwapError::Protocol(message("handshake too short")));
        }
        let p = data[0] as usize;
        if data.len() - 58 < p {
            return Err(BitSwapError::Protocol(message("invalid handshake length")));
        }
        let protocol_bytes = copy_range(data, 1, 1 + p);
        let protocol = match string_from_utf8(protocol_bytes) {
            Some(s) => s,
            None => {
                return Err(BitSwapError::Protocol(message("invalid protocol string")));
            },
        };
        let version = data[1 + p];
        let n = data.len();
        let mut info_hash = [0u8; 32];
        let mut i: usize = 0;
        while i < 32
            invariant
                n == data@.len(),
                data@.len() >= 58 + p,
                0 <= i <= 32,
                forall|j: int| 0 <= j < i ==> info_hash@[j] == data@[2 + p + j],
            decreases 32 - i,
        {
            info_hash[i] = data[2 + p + i];
            i = i + 1;
        }
        assert(info_hash@ =~= data@.subrange(2 + p, 34 + p));
        let peer_id = get_u128(data, 34 + p);
        let capabilities = get_u64(data, 50 + p);
        Ok(HandshakeMessage { protocol, version, info_hash, peer_id, capabilities })
    }

    /// Checks a received handshake against the torrent this side serves:
    /// protocol string, version and info-hash must match, else a protocol error.
    pub fn check_compatible(&self, info_hash: &[u8; 32]) -> (r: BitSwapResult<()>)
        ensures
            r is Ok <==> self.protocol@ == PROTOCOL_ID@ && self.version == PROTOCOL_VERSION
                && self.info_hash@ == info_hash@,
            r is Err ==> r->Err_0 is Protocol,
    {
        let expected = message(PROTOCOL_ID);
        if self.protocol != expected {
            return Err(BitSwapError::Protocol(message("protocol string mismatch")));
        }
        if self.version != PROTOCOL_VERSION {
            return Err(BitSwapError::Protocol(message("unknown protocol version")));
        }
        let mut i: usize = 0;
        while i < 32
            invariant
                0 <= i <= 32,
                forall|j: int| 0 <= j < i ==> self.info_hash@[j] == info_hash@[j],
            decreases 32 - i,
        {
            if self.info_hash[i] != info_hash[i] {
                return Err(BitSwapError::Protocol(message("info hash mismatch")));
            }
            i = i + 1;
        }
        assert(self.info_hash@ =~= info_hash@);
        Ok(())
    }

    /// The capabilities both sides support.
    pub fn effective_capabilities(&self, other: &HandshakeMessage) -> (r: u64)
        ensures
            r == self.capabilities & other.capabilities,
    {
        self.capabilities & other.capabilities
    }
}

impl MessageFrame {
    /// Length of the frame whose 4-byte big-endian header is given; fails with
    /// a protocol error above the cap.
    pub fn length_from_header(header: &[u8]) -> (r: BitSwapResult<u32>)
        requires
            header@.len() >= 4,
        ensures
            r is Ok <==> u32_at(header@, 0) <= MAX_FRAME_LENGTH,
            r is Ok ==> r->Ok_0 == u32_at(header@, 0),
            r is Err ==> r->Err_0 is Protocol,
    {
        let length = get_u32(header, 0);
        if length > MAX_FRAME_LENGTH {
            Err(BitSwapError::Protocol(message("frame length exceeds the limit")))
        } else {
            Ok(length)
        }
    }

    /// The bytes of this frame on the wire; fails with a protocol error when
    /// the frame exceeds the cap.
    pub fn to_bytes(&self) -> (r: BitSwapResult<Vec<u8>>)
        ensures
            r is Ok <==> self.payload@.len() + 1 <= MAX_FRAME_LENGTH,
            r is Ok ==> r->Ok_0@ == frame_wire(self.id, self.payload@),
            r is Err ==> r->Err_0 is Protocol,
    {
        if self.payload.len() >= MAX_FRAME_LENGTH as usize {
            return Err(BitSwapError::Protocol(message("frame length exceeds the limit")));
        }
        let mut buf: Vec<u8> = Vec::new();
        put_u32(&mut buf, (self.payload.len() + 1) as u32);
        buf.push(self.id);
        put_bytes(&mut buf, self.payload.as_slice());
        assert(buf@ =~= frame_wire(self.id, self.payload@));
        Ok(buf)
    }

    /// Reads a frame from the start of `buf`: `None` while more bytes are
    /// needed, else the frame and the number of bytes it used. A length of
    /// zero is a keepalive; a length above the cap is a protocol error.
    pub fn from_bytes(buf: &[u8]) -> (r: BitSwapResult<Option<(MessageFrame, usize)>>)
        ensures
            r is Err <==> read_frame(buf@) is TooLong,
            r is Err ==> r->Err_0 is Protocol,
            r == Ok::<Option<(MessageFrame, usize)>, BitSwapError>(None) <==> read_frame(
                buf@,
            ) is Incomplete,
            r is Ok && r->Ok_0 is Some ==> ({
                let (f, used) = r->Ok_0->Some_0;
                read_frame(buf@) == FrameRead::Complete {
                    id: f.id,
                    payload: f.payload@,
                    used: used as int,
                }
            }),
    {
        if buf.len() < 4 {
            return Ok(None);
        }
        let length = MessageFrame::length_from_header(buf)?;
        if length == 0 {
            return Ok(Some((MessageFrame { id: KEEPALIVE, payload: Vec::new() }, 4)));
        }
        if buf.len() - 4 < length as usize {
            return Ok(None);
        }
        let end = 4 + length as usize;
        let payload = copy_range(buf, 5, end);
        Ok(Some((MessageFrame { id: buf[4], payload }, end)))
    }
}

/// Appends three big-endian integers.
fn put_three(buf: &mut Vec<u8>, a: u32, b: u32, c: u32)
    ensures
        final(buf)@ == old(buf)@ + (be32(a) + be32(b) + be32(c)),
{
    put_u32(buf, a);
    put_u32(buf, b);
    put_u32(buf, c);
    assert(buf@ =~= old(buf)@ + (be32(a) + be32(b) + be32(c)));
}

impl Message {
    /// The frame that carries this message; a handshake is not sent as a
    /// frame and fails with a protocol error.
    pub fn to_frame(&self) -> (r: BitSwapResult<MessageFrame>)
        ensures
            r is Ok <==> !(self@ is Handshake),
            r is Ok ==> r->Ok_0.id == frame_id(self@) && r->Ok_0.payload@ == frame_payload(self@),
            r is Err ==> r->Err_0 is Protocol,
    {
        match self {
            Message::Choke => Ok(MessageFrame { id: CHOKE, payload: Vec::new() }),
            Message::Unchoke => Ok(MessageFrame { id: UNCHOKE, payload: Vec::new() }),
            Message::Interested => Ok(MessageFrame { id: INTERESTED, payload: Vec::new() }),
            Message::NotInterested => Ok(MessageFrame { id: NOT_INTERESTED, payload: Vec::new() }),
            Message::Have { piece_index } => {
                let mut payload: Vec<u8> = Vec::new();
                put_u32(&mut payload, *piece_index);
                assert(payload@ =~= be32(*piece_index));
                Ok(MessageFrame { id: HAVE, payload })
            },
            Message::Bitfield { bitfield } => {
                let mut payload: Vec<u8> = Vec::new();
                put_bytes(&mut payload, bitfield.as_slice());
                assert(payload@ =~= bitfield@);
                Ok(MessageFrame { id: BITFIELD, payload })
            },
            Message::Request { piece_index, begin, length } => {
                let mut payload: Vec<u8> = Vec::new();
                put_three(&mut payload, *piece_index, *begin, *length);
                assert(payload@ =~= be32(*piece_index) + be32(*begin) + be32(*length));
                Ok(MessageFrame { id: REQUEST, payload })
            },
            Message::Piece { piece_index, begin, data } => {
                let mut payload: Vec<u8> = Vec::new();
                put_u32(&mut payload, *piece_index);
                put_u32(&mut payload, *begin);
                put_bytes(&mut payload, data.as_slice());
                assert(payload@ =~= be32(*piece_index) + be32(*begin) + data@);
                Ok(MessageFrame { id: PIECE, payload })
            },
            Message::Cancel { piece_index, begin, length } => {
                let mut payload: Vec<u8> = Vec::new();
                put_three(&mut payload, *piece_index, *begin, *length);
                assert(payload@ =~= be32(*piece_index) + be32(*begin) + be32(*length));
                Ok(MessageFrame { id: CANCEL, payload })
            },
            Message::Keepalive => Ok(MessageFrame { id: KEEPALIVE, payload: Vec::new() }),
            Message::Extended { extension_id, payload } => {
                let mut frame_payload: Vec<u8> = Vec::new();
                frame_payload.push(*extension_id);
                put_bytes(&mut frame_payload, payload.as_slice());
                assert(frame_payload@ =~= seq![*extension_id] + payload@);
                Ok(MessageFrame { id: EXTENDED, payload: frame_payload })
            },
            Message::Handshake(_) => Err(
                BitSwapError::Protocol(message("a handshake is not a frame message")),
            ),
        }
    }

    /// The message a frame carries; an unknown id or a short payload is a
    /// protocol error.
    pub fn from_frame(frame: &MessageFrame) -> (r: BitSwapResult<Message>)
        ensures
            r is Ok <==> parse_frame(frame.id, frame.payload@) is Some,
            r is Ok ==> r->Ok_0@ == parse_frame(frame.id, frame.payload@)->Some_0,
            r is Err ==> r->Err_0 is Protocol,
    {
        let p = frame.payload.as_slice();
        let id = frame.id;
        if id == CHOKE {
            Ok(Message::Choke)
        } else if id == UNCHOKE {
            Ok(Message::Unchoke)
        } else if id == INTERESTED {
            Ok(Message::Interested)
        } else if id == NOT_INTERESTED {
            Ok(Message::NotInterested)
        } else if id == HAVE {
            if p.len() < 4 {
                return Err(BitSwapError::Protocol(message("invalid HAVE payload")));
            }
            Ok(Message::Have { piece_index: get_u32(p, 0) })
        } else if id == BITFIELD {
            let data = copy_range(p, 0, p.len());
            assert(data@ =~= p@);
            Ok(Message::Bitfield { bitfield: data })
        } else if id == REQUEST || id == CANCEL {
            if p.len() < 12 {
                return Err(BitSwapError::Protocol(message("invalid REQUEST or CANCEL payload")));
            }
            let piece_index = get_u32(p, 0);
            let begin = get_u32(p, 4);
            let length = get_u32(p, 8);
            if id == REQUEST {
                Ok(Message::Request { piece_index, begin, length })
            } else {
                Ok(Message::Cancel { piece_index, begin, length })
            }
        } else if id == PIECE {
            if p.len() < 8 {
                return Err(BitSwapError::Protocol(message("invalid PIECE payload")));
            }
            let piece_index = get_u32(p, 0);
            let begin = get_u32(p, 4);
            let data = copy_range(p, 8, p.len());
            Ok(Message::Piece { piece_index, begin, data })
        } else if id == KEEPALIVE {
            Ok(Message::Keepalive)
        } else if id == EXTENDED {
            if p.len() < 1 {
                return Err(BitSwapError::Protocol(message("invalid EXTENDED payload")));
            }
            let extension_id = p[0];
            let payload = copy_range(p, 1, p.len());
            Ok(Message::Extended { extension_id, payload })
        } else {
            Err(BitSwapError::Protocol(message("unknown message id")))
        }
    }
}

} // verus!
