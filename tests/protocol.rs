use bit_swap_core::bitfield::BitField;
use bit_swap_core::error::BitSwapError;
use bit_swap_core::protocol::{
    HandshakeMessage, Message, MessageFrame, EXTENDED, HAVE, KEEPALIVE, MAX_FRAME_LENGTH,
    PROTOCOL_ID, PROTOCOL_VERSION,
};

#[test]
fn test_bitfield_operations() {
    let mut bitfield = BitField::new(20);

    assert!(!bitfield.has_piece(5));
    bitfield.set_piece(5).unwrap();
    assert!(bitfield.has_piece(5));

    bitfield.set_piece(10).unwrap();
    bitfield.set_piece(15).unwrap();

    assert_eq!(bitfield.count_pieces(), 3);
    assert!(!bitfield.is_complete());
}

#[test]
fn test_handshake_serialization() {
    let info_hash = [0u8; 32];
    let peer_id = uuid::Uuid::new_v4().as_u128();
    let handshake = HandshakeMessage::new(info_hash, peer_id);

    let bytes = handshake.to_bytes().unwrap();
    let parsed = HandshakeMessage::from_bytes(&bytes).unwrap();

    assert_eq!(parsed.peer_id, peer_id);
    assert_eq!(parsed.info_hash, info_hash);
    assert_eq!(parsed.version, PROTOCOL_VERSION);
}

#[test]
fn bitfield_bytes_are_big_endian_per_byte() {
    let mut bitfield = BitField::new(20);
    bitfield.set_piece(5).unwrap();
    bitfield.set_piece(10).unwrap();
    bitfield.set_piece(15).unwrap();
    assert_eq!(bitfield.as_bytes(), &[0x04, 0x21, 0x00]);
    assert_eq!(bitfield.count_pieces(), 3);
    assert!(!bitfield.is_complete());
}

#[test]
fn bitfield_rejects_out_of_range_index() {
    let mut bitfield = BitField::new(20);
    bitfield.set_piece(3).unwrap();
    assert_eq!(
        bitfield.set_piece(20),
        Err(BitSwapError::InvalidPieceIndex { index: 20, total: 20 })
    );
    assert_eq!(bitfield.as_bytes(), &[0x10, 0x00, 0x00]);
    let mut loose = BitField::from_bytes(vec![0x00, 0x00], 4);
    assert!(loose.set_piece(12).is_err());
    assert_eq!(loose.as_bytes(), &[0x00, 0x00]);
    assert!(!bitfield.has_piece(20));
    assert!(!bitfield.has_piece(u32::MAX));
}

#[test]
fn bitfield_complete_and_empty() {
    let mut bitfield = BitField::new(3);
    assert_eq!(bitfield.as_bytes(), &[0x00]);
    for i in 0..3 {
        bitfield.set_piece(i).unwrap();
    }
    assert!(bitfield.is_complete());
    assert_eq!(bitfield.as_bytes(), &[0xe0]);
    let empty = BitField::new(0);
    assert!(empty.is_complete());
    assert_eq!(empty.count_pieces(), 0);
    assert_eq!(empty.as_bytes().len(), 0);
}

#[test]
fn bitfield_wire_round_trip_keeps_pieces_and_count() {
    let mut bitfield = BitField::new(13);
    bitfield.set_piece(0).unwrap();
    bitfield.set_piece(12).unwrap();
    let back = BitField::from_wire(bitfield.as_bytes().to_vec(), 13).unwrap();
    assert_eq!(back.as_bytes(), bitfield.as_bytes());
    assert_eq!(back.count_pieces(), bitfield.count_pieces());
    assert!(back.has_piece(12));
}

#[test]
fn bitfield_from_wire_rejects_spare_bits_and_bad_length() {
    assert!(matches!(BitField::from_wire(vec![0xff, 0xff], 13), Err(BitSwapError::Protocol(_))));
    assert!(matches!(BitField::from_wire(vec![0xff], 13), Err(BitSwapError::Protocol(_))));
    assert!(BitField::from_wire(vec![0xff, 0xf8], 13).is_ok());
}

#[test]
fn handshake_of_zeros_is_seventy_four_bytes() {
    let handshake = HandshakeMessage::new([0u8; 32], 0);
    let bytes = handshake.to_bytes().unwrap();
    assert_eq!(bytes.len(), 1 + 16 + 1 + 32 + 16 + 8);
    assert_eq!(bytes.len(), 74);
    assert_eq!(bytes[0], 16);
    assert_eq!(&bytes[1..17], PROTOCOL_ID.as_bytes());
    let parsed = HandshakeMessage::from_bytes(&bytes).unwrap();
    assert_eq!(parsed.protocol, handshake.protocol);
    assert_eq!(parsed.version, handshake.version);
    assert_eq!(parsed.info_hash, handshake.info_hash);
    assert_eq!(parsed.peer_id, handshake.peer_id);
    assert_eq!(parsed.capabilities, handshake.capabilities);
}

#[test]
fn handshake_fields_are_big_endian() {
    let mut handshake = HandshakeMessage::new([7u8; 32], 0x0102030405060708090a0b0c0d0e0f10);
    handshake.capabilities = 0x1122334455667788;
    let bytes = handshake.to_bytes().unwrap();
    assert_eq!(&bytes[50..66], &[1, 2, 3, 4, 5, 6, 7, 8, 9, 10, 11, 12, 13, 14, 15, 16]);
    assert_eq!(&bytes[66..74], &[0x11, 0x22, 0x33, 0x44, 0x55, 0x66, 0x77, 0x88]);
    let parsed = HandshakeMessage::from_bytes(&bytes).unwrap();
    assert_eq!(parsed.capabilities, 0x1122334455667788);
    assert_eq!(parsed.peer_id, 0x0102030405060708090a0b0c0d0e0f10);
}

#[test]
fn handshake_rejects_short_or_invalid_input() {
    let bytes = HandshakeMessage::new([0u8; 32], 1).to_bytes().unwrap();
    assert!(matches!(HandshakeMessage::from_bytes(&bytes[..57]), Err(BitSwapError::Protocol(_))));
    assert!(matches!(HandshakeMessage::from_bytes(&bytes[..73]), Err(BitSwapError::Protocol(_))));
    let mut bad = bytes.clone();
    bad[1] = 0xff;
    assert!(matches!(HandshakeMessage::from_bytes(&bad), Err(BitSwapError::Protocol(_))));
}

#[test]
fn handshake_compatibility_checks() {
    let handshake = HandshakeMessage::new([3u8; 32], 9);
    assert!(handshake.check_compatible(&[3u8; 32]).is_ok());
    assert!(matches!(handshake.check_compatible(&[4u8; 32]), Err(BitSwapError::Protocol(_))));
    let mut other = handshake.clone();
    other.version = 2;
    assert!(other.check_compatible(&[3u8; 32]).is_err());
    let mut caps = handshake.clone();
    caps.capabilities = 0b1100;
    let mut theirs = handshake.clone();
    theirs.capabilities = 0b1010;
    assert_eq!(caps.effective_capabilities(&theirs), 0b1000);
}

#[test]
fn have_message_frame_round_trip() {
    let message = Message::Have { piece_index: 42 };
    let frame = message.to_frame().unwrap();
    assert_eq!(frame.id, HAVE);
    assert_eq!(frame.payload, vec![0, 0, 0, 42]);

    let bytes = frame.to_bytes().unwrap();
    assert_eq!(bytes, vec![0, 0, 0, 5, 4, 0, 0, 0, 42]);
    let (read_frame, used) = MessageFrame::from_bytes(&bytes).unwrap().unwrap();
    assert_eq!(used, 9);
    assert_eq!(read_frame.id, frame.id);
    assert_eq!(read_frame.payload, frame.payload);

    match Message::from_frame(&read_frame).unwrap() {
        Message::Have { piece_index } => assert_eq!(piece_index, 42),
        _ => panic!("Wrong message type"),
    }
}

fn round_trip(message: Message) -> Message {
    let frame = message.to_frame().unwrap();
    Message::from_frame(&frame).unwrap()
}

#[test]
fn every_frame_message_round_trips() {
    assert!(matches!(round_trip(Message::Choke), Message::Choke));
    assert!(matches!(round_trip(Message::Unchoke), Message::Unchoke));
    assert!(matches!(round_trip(Message::Interested), Message::Interested));
    assert!(matches!(round_trip(Message::NotInterested), Message::NotInterested));
    assert!(matches!(round_trip(Message::Keepalive), Message::Keepalive));
    match round_trip(Message::Request { piece_index: 1, begin: 2, length: 3 }) {
        Message::Request { piece_index, begin, length } => assert_eq!((piece_index, begin, length), (1, 2, 3)),
        _ => panic!("wrong kind"),
    }
    match round_trip(Message::Cancel { piece_index: 7, begin: 0x01020304, length: 16384 }) {
        Message::Cancel { piece_index, begin, length } => {
            assert_eq!((piece_index, begin, length), (7, 0x01020304, 16384))
        }
        _ => panic!("wrong kind"),
    }
    match round_trip(Message::Piece { piece_index: 5, begin: 16, data: vec![9, 8, 7] }) {
        Message::Piece { piece_index, begin, data } => {
            assert_eq!((piece_index, begin), (5, 16));
            assert_eq!(data, vec![9, 8, 7]);
        }
        _ => panic!("wrong kind"),
    }
    match round_trip(Message::Extended { extension_id: 3, payload: vec![1, 2] }) {
        Message::Extended { extension_id, payload } => {
            assert_eq!(extension_id, 3);
            assert_eq!(payload, vec![1, 2]);
        }
        _ => panic!("wrong kind"),
    }
    let mut bits = BitField::new(20);
    bits.set_piece(9).unwrap();
    bits.set_piece(19).unwrap();
    match round_trip(Message::Bitfield { bitfield: bits.as_bytes().to_vec() }) {
        Message::Bitfield { bitfield } => {
            assert_eq!(bitfield, vec![0x00, 0x40, 0x10]);
            let bound = BitField::from_wire(bitfield, 20).unwrap();
            assert_eq!(bound.num_pieces(), 20);
            assert!(bound.has_piece(9) && bound.has_piece(19));
            assert_eq!(bound.count_pieces(), 2);
            assert!(!bound.is_complete());
        }
        _ => panic!("wrong kind"),
    }
}

#[test]
fn handshake_is_not_a_frame_message() {
    let message = Message::Handshake(HandshakeMessage::new([0u8; 32], 0));
    assert!(matches!(message.to_frame(), Err(BitSwapError::Protocol(_))));
}

#[test]
fn malformed_frames_are_protocol_errors() {
    let short_have = MessageFrame { id: HAVE, payload: vec![0, 1] };
    assert!(matches!(Message::from_frame(&short_have), Err(BitSwapError::Protocol(_))));
    let unknown = MessageFrame { id: 99, payload: vec![] };
    assert!(matches!(Message::from_frame(&unknown), Err(BitSwapError::Protocol(_))));
    let empty_extended = MessageFrame { id: EXTENDED, payload: vec![] };
    assert!(Message::from_frame(&empty_extended).is_err());
}

#[test]
fn frame_reading_handles_partial_keepalive_and_oversized_input() {
    assert!(MessageFrame::from_bytes(&[0, 0]).unwrap().is_none());
    assert!(MessageFrame::from_bytes(&[0, 0, 0, 5, 4, 0]).unwrap().is_none());
    let (frame, used) = MessageFrame::from_bytes(&[0, 0, 0, 0, 1, 2]).unwrap().unwrap();
    assert_eq!(frame.id, KEEPALIVE);
    assert!(frame.payload.is_empty());
    assert_eq!(used, 4);
    let too_long = (MAX_FRAME_LENGTH + 1).to_be_bytes();
    assert!(matches!(MessageFrame::from_bytes(&too_long), Err(BitSwapError::Protocol(_))));
    assert!(MessageFrame::length_from_header(&too_long).is_err());
    assert_eq!(MessageFrame::length_from_header(&[0, 0, 1, 0]).unwrap(), 256);
}

#[test]
fn frames_are_read_back_from_a_stream_with_trailing_bytes() {
    let frame = MessageFrame { id: 7, payload: vec![1, 2, 3] };
    let mut bytes = frame.to_bytes().unwrap();
    bytes.extend_from_slice(&[0, 0, 0, 1, 2]);
    let (first, used) = MessageFrame::from_bytes(&bytes).unwrap().unwrap();
    assert_eq!(first.id, 7);
    assert_eq!(first.payload, vec![1, 2, 3]);
    assert_eq!(used, 8);
    let (second, used2) = MessageFrame::from_bytes(&bytes[used..]).unwrap().unwrap();
    assert_eq!(second.id, 2);
    assert!(second.payload.is_empty());
    assert_eq!(used2, 5);
}
