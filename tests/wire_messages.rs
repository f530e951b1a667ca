use r_torrent::message::{decode_bitfield, is_handshake_reply, HandshakeMsg, Message};
use r_torrent::wire::{push_u16_be, push_u32_be, push_u64_be, read_u16_be, read_u32_be, read_u64_be};

#[test]
fn test_build_msg() {
    let buf = HandshakeMsg::build_msg(rand::random(), rand::random());
    assert_eq!(buf.len(), 68);
}

#[test]
fn handshake_layout() {
    let buf = HandshakeMsg::build_msg([0x00; 20], [0xFF; 20]);
    assert_eq!(buf.len(), 68);
    assert_eq!(buf[0], 19);
    assert_eq!(&buf[1..20], b"BitTorrent protocol");
    assert!(buf[20..28].iter().all(|b| *b == 0));
    assert!(buf[28..48].iter().all(|b| *b == 0));
    assert!(buf[48..68].iter().all(|b| *b == 0xFF));
    assert!(is_handshake_reply(&buf));
    let mut bad = buf.clone();
    bad[5] = b'x';
    assert!(!is_handshake_reply(&bad));
    assert!(!is_handshake_reply(&buf[..19]));
}

#[test]
fn bitfield_decode_msb_first() {
    let bits = decode_bitfield(&[0b1011_0000, 0b0000_0000], 9).unwrap();
    let set: Vec<usize> = (0..9).filter(|i| bits[*i]).collect();
    assert_eq!(set, vec![0, 2, 3]);
    assert!(decode_bitfield(&[0xFF], 9).is_none());
    assert!(decode_bitfield(&[0xFF, 0, 0], 9).is_none());
}

#[test]
fn request_frame() {
    let r = Message::build_request(1, 16384, 16384);
    assert_eq!(r, vec![0, 0, 0, 13, 6, 0, 0, 0, 1, 0, 0, 0x40, 0, 0, 0, 0x40, 0]);
}

#[test]
fn encode_then_parse_messages() {
    let have = Message::build_have(0x01020304);
    let bytes = have.encode();
    assert_eq!(bytes, vec![0, 0, 0, 5, 4, 1, 2, 3, 4]);
    match Message::parse(&bytes[4..]).unwrap() {
        Message::Have { piece_index, .. } => assert_eq!(piece_index, 0x01020304),
        _ => panic!("wrong variant"),
    }
    let piece = Message::build_piece(2, 16, vec![9, 8, 7]);
    let bytes = piece.encode();
    assert_eq!(bytes, vec![0, 0, 0, 12, 7, 0, 0, 0, 2, 0, 0, 0, 16, 9, 8, 7]);
    match Message::parse(&bytes[4..]).unwrap() {
        Message::Piece { index, begin, block, .. } => {
            assert_eq!((index, begin), (2, 16));
            assert_eq!(block, vec![9, 8, 7]);
        }
        _ => panic!("wrong variant"),
    }
    assert_eq!(Message::build_port(6881).encode(), vec![0, 0, 0, 3, 9, 0x1A, 0xE1]);
    assert_eq!(Message::build_keep_alive().encode(), vec![0, 0, 0, 0]);
    assert_eq!(Message::build_choke().encode(), vec![0, 0, 0, 1, 0]);
    assert_eq!(Message::build_unchoke().encode(), vec![0, 0, 0, 1, 1]);
    assert_eq!(Message::build_interested().encode(), vec![0, 0, 0, 1, 2]);
    assert_eq!(Message::build_uninterested().encode(), vec![0, 0, 0, 1, 3]);
    assert_eq!(Message::build_bitfield(vec![0xA0]).encode(), vec![0, 0, 0, 2, 5, 0xA0]);
    assert_eq!(Message::build_cancel(1, 2, 3).encode(), vec![0, 0, 0, 13, 8, 0, 0, 0, 1, 0, 0, 0, 2, 0, 0, 0, 3]);
}

#[test]
fn bad_messages_are_refused() {
    assert!(Message::parse(&[10]).is_none());
    assert!(Message::parse(&[4, 0, 0]).is_none());
    assert!(Message::parse(&[0, 1]).is_none());
    assert!(Message::parse(&[7, 0, 0, 0, 0]).is_none());
    assert!(matches!(Message::parse(&[]), Some(Message::KeepAlive { .. })));
}

#[test]
fn big_endian_round_trip() {
    let mut b = Vec::new();
    push_u16_be(&mut b, 0x0102);
    push_u32_be(&mut b, 0x03040506);
    push_u64_be(&mut b, 0x0708090A0B0C0D0E);
    assert_eq!(b, vec![1, 2, 3, 4, 5, 6, 7, 8, 9, 10, 11, 12, 13, 14]);
    assert_eq!(read_u16_be(&b, 0), 0x0102);
    assert_eq!(read_u32_be(&b, 2), 0x03040506);
    assert_eq!(read_u64_be(&b, 6), 0x0708090A0B0C0D0E);
}
