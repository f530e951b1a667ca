use vstd::prelude::*;

use crate::wire::{be16, be32, from_be16, from_be32, push_all, push_u16_be, push_u32_be, push_u64_be, read_u16_be, read_u32_be, be64};

verus! {

/// A peer wire message; `length` is the number of bytes after the length prefix.
pub enum Message {
    KeepAlive { length: u32 },
    Choke { length: u32, id: u8 },
    Unchoke { length: u32, id: u8 },
    Interested { length: u32, id: u8 },
    Uninterested { length: u32, id: u8 },
    Have { length: u32, id: u8, piece_index: u32 },
    BitField { length: u32, id: u8, bitfield: Vec<u8> },
    Request { length: u32, id: u8, index: u32, begin: u32, req_length: u32 },
    Piece { length: u32, id: u8, index: u32, begin: u32, block: Vec<u8> },
    Cancel { length: u32, id: u8, index: u32, begin: u32, req_length: u32 },
    Port { length: u32, id: u8, listen_port: u16 },
}

impl Message {
    /// The bytes after the length prefix: the id, then the payload.
    pub open spec fn body(&self) -> Seq<u8> {
        match *self {
            Message::KeepAlive { .. } => Seq::empty(),
            Message::Choke { id, .. } => seq![id],
            Message::Unchoke { id, .. } => seq![id],
            Message::Interested { id, .. } => seq![id],
            Message::Uninterested { id, .. } => seq![id],
            Message::Have { id, piece_index, .. } => seq![id] + be32(piece_index),
            Message::BitField { id, bitfield, .. } => seq![id] + bitfield@,
            Message::Request { id, index, begin, req_length, .. } => seq![id] + be32(index) + be32(
                begin,
            ) + be32(req_length),
            Message::Piece { id, index, begin, block, .. } => seq![id] + be32(index) + be32(begin)
                + block@,
            Message::Cancel { id, index, begin, req_length, .. } => seq![id] + be32(index) + be32(
                begin,
            ) + be32(req_length),
            Message::Port { id, listen_port, .. } => seq![id] + be16(listen_port),
        }
    }

    /// The length field of any variant.
    pub open spec fn length_field(&self) -> u32 {
        match *self {
            Message::KeepAlive { length } => length,
            Message::Choke { length, .. } => length,
            Message::Unchoke { length, .. } => length,
            Message::Interested { length, .. } => length,
            Message::Uninterested { length, .. } => length,
            Message::Have { length, .. } => length,
            Message::BitField { length, .. } => length,
            Message::Request { length, .. } => length,
            Message::Piece { length, .. } => length,
            Message::Cancel { length, .. } => length,
            Message::Port { length, .. } => length,
        }
    }

    /// The id that the protocol gives each variant.
    pub open spec fn id_ok(&self) -> bool {
        match *self {
            Message::KeepAlive { .. } => true,
            Message::Choke { id, .. } => id == 0,
            Message::Unchoke { id, .. } => id == 1,
            Message::Interested { id, .. } => id == 2,
            Message::Uninterested { id, .. } => id == 3,
            Message::Have { id, .. } => id == 4,
            Message::BitField { id, .. } => id == 5,
            Message::Request { id, .. } => id == 6,
            Message::Piece { id, .. } => id == 7,
            Message::Cancel { id, .. } => id == 8,
            Message::Port { id, .. } => id == 9,
        }
    }

    /// The id matches the variant and the length field counts the body.
    pub open spec fn wf(&self) -> bool {
        self.id_ok() && self.length_field() == self.body().len()
    }

    /// The message as sent: the big-endian length, then the body.
    pub open spec fn frame(&self) -> Seq<u8> {
        be32(self.length_field()) + self.body()
    }

    pub fn build_keep_alive() -> (r: Message)
        ensures
            r.wf(),
            r is KeepAlive,
    {
        Message::KeepAlive { length: 0 }
    }

    pub fn build_choke() -> (r: Message)
        ensures
            r.wf(),
            r is Choke,
    {
        Message::Choke { length: 1, id: 0 }
    }

    pub fn build_unchoke() -> (r: Message)
        ensures
            r.wf(),
            r is Unchoke,
    {
        Message::Unchoke { length: 1, id: 1 }
    }

    pub fn build_interested() -> (r: Message)
        ensures
            r.wf(),
            r is Interested,
    {
        Message::Interested { length: 1, id: 2 }
    }

    pub fn build_uninterested() -> (r: Message)
        ensures
            r.wf(),
            r is Uninterested,
    {
        Message::Uninterested { length: 1, id: 3 }
    }

    pub fn build_have(piece_index: u32) -> (r: Message)
        ensures
            r.wf(),
            r == (Message::Have { length: 5, id: 4, piece_index }),
    {
        Message::Have { length: 5, id: 4, piece_index }
    }

    /// A bitfield message; its payload must fit the 32-bit length field.
    pub fn build_bitfield(bitfield: Vec<u8>) -> (r: Message)
        requires
            bitfield@.len() < u32::MAX,
        ensures
            r.wf(),
            r matches Message::BitField { bitfield: b, .. } && b@ == bitfield@,
    {
        let length = 1 + bitfield.len() as u32;
        Message::BitField { length, id: 5, bitfield }
    }

    /// The bytes of a request for `req_length` bytes at `begin` within piece `index`.
    pub fn build_request(index: u32, begin: u32, req_length: u32) -> (r: Vec<u8>)
        ensures
            r@ == (Message::Request { length: 13, id: 6, index, begin, req_length }).frame(),
    {
        let mut buf: Vec<u8> = Vec::new();
        push_u32_be(&mut buf, 13);
        buf.push(6);
        push_u32_be(&mut buf, index);
        push_u32_be(&mut buf, begin);
        push_u32_be(&mut buf, req_length);
        assert(buf@ =~= (Message::Request { length: 13, id: 6, index, begin, req_length }).frame());
        buf
    }

    /// A piece message; its block must fit the 32-bit length field.
    pub fn build_piece(index: u32, begin: u32, block: Vec<u8>) -> (r: Message)
        requires
            block@.len() <= u32::MAX - 9,
        ensures
            r.wf(),
            r matches Message::Piece { index: i, begin: b, block: d, .. } && i == index && b
                == begin && d@ == block@,
    {
        let length = 9 + block.len() as u32;
        Message::Piece { length, id: 7, index, begin, block }
    }

    pub fn build_cancel(index: u32, begin: u32, req_length: u32) -> (r: Message)
        ensures
            r.wf(),
            r == (Message::Cancel { length: 13, id: 8, index, begin, req_length }),
    {
        Message::Cancel { length: 13, id: 8, index, begin, req_length }
    }

    pub fn build_port(listen_port: u16) -> (r: Message)
        ensures
            r.wf(),
            r == (Message::Port { length: 3, id: 9, listen_port }),
    {
        Message::Port { length: 3, id: 9, listen_port }
    }

    /// The bytes of the message as sent.
    pub fn encode(&self) -> (r: Vec<u8>)
        requires
            self.wf(),
        ensures
            r@ == self.frame(),
    {
        let mut buf: Vec<u8> = Vec::new();
        match self {
            Message::KeepAlive { length } => {
                push_u32_be(&mut buf, *length);
            },
            Message::Choke { length, id }
            | Message::Unchoke { length, id }
            | Message::Interested { length, id }
            | Message::Uninterested { length, id } => {
                push_u32_be(&mut buf, *length);
                buf.push(*id);
            },
            Message::Have { length, id, piece_index } => {
                push_u32_be(&mut buf, *length);
                buf.push(*id);
                push_u32_be(&mut buf, *piece_index);
            },
            Message::BitField { length, id, bitfield } => {
                push_u32_be(&mut buf, *length);
                buf.push(*id);
                push_all(&mut buf, bitfield.as_slice());
            },
            Message::Request { length, id, index, begin, req_length }
            | Message::Cancel { length, id, index, begin, req_length } => {
                push_u32_be(&mut buf, *length);
                buf.push(*id);
                push_u32_be(&mut buf, *index);
                push_u32_be(&mut buf, *begin);
                push_u32_be(&mut buf, *req_length);
            },
            Message::Piece { length, id, index, begin, block } => {
                push_u32_be(&mut buf, *length);
                buf.push(*id);
                push_u32_be(&mut buf, *index);
                push_u32_be(&mut buf, *begin);
                push_all(&mut buf, block.as_slice());
            },
            Message::Port { length, id, listen_port } => {
                push_u32_be(&mut buf, *length);
                buf.push(*id);
                push_u16_be(&mut buf, *listen_port);
            },
        }
        assert(buf@ =~= self.frame());
        buf
    }

    /// Reads a message from the bytes after its length prefix. Gives `None` for an unknown id
    /// or a payload of the wrong size.
    pub fn parse(body: &[u8]) -> (r: Option<Message>)
        requires
            body@.len() <= u32::MAX,
        ensures
            r is Some <==> valid_body(body@),
            r matches Some(m) ==> m.wf() && parsed_as(body@, m),
    {
        let n = body.len();
        if n == 0 {
            assert(body@ =~= Seq::<u8>::empty());
            return Some(Message::KeepAlive { length: 0 });
        }
        let id = body[0];
        let length = n as u32;
        if id <= 3 {
            if n != 1 {
                return None;
            }
            assert(body@ =~= seq![id]);
            if id == 0 {
                Some(Message::Choke { length, id })
            } else if id == 1 {
                Some(Message::Unchoke { length, id })
            } else if id == 2 {
                Some(Message::Interested { length, id })
            } else {
                Some(Message::Uninterested { length, id })
            }
        } else if id == 4 {
            if n != 5 {
                return None;
            }
            let piece_index = read_u32_be(body, 1);
            proof { lemma_be32_of(body@.subrange(1, 5)); }
            assert(body@ =~= seq![id] + body@.subrange(1, 5));
            Some(Message::Have { length, id, piece_index })
        } else if id == 5 {
            let bitfield = copy_from(body, 1);
            assert(body@ =~= seq![id] + bitfield@);
            Some(Message::BitField { length, id, bitfield })
        } else if id == 6 || id == 8 {
            if n != 13 {
                return None;
            }
            let index = read_u32_be(body, 1);
            let begin = read_u32_be(body, 5);
            let req_length = read_u32_be(body, 9);
            proof {
                lemma_be32_of(body@.subrange(1, 5));
                lemma_be32_of(body@.subrange(5, 9));
                lemma_be32_of(body@.subrange(9, 13));
            }
            assert(body@ =~= seq![id] + body@.subrange(1, 5) + body@.subrange(5, 9) + body@.subrange(9, 13));
            if id == 6 {
                Some(Message::Request { length, id, index, begin, req_length })
            } else {
                Some(Message::Cancel { length, id, index, begin, req_length })
            }
        } else if id == 7 {
            if n < 9 {
                return None;
            }
            let index = read_u32_be(body, 1);
            let begin = read_u32_be(body, 5);
            let block = copy_from(body, 9);
            proof {
                lemma_be32_of(body@.subrange(1, 5));
                lemma_be32_of(body@.subrange(5, 9));
            }
            assert(body@ =~= seq![id] + body@.subrange(1, 5) + body@.subrange(5, 9) + block@);
            Some(Message::Piece { length, id, index, begin, block })
        } else if id == 9 {
            if n != 3 {
                return None;
            }
            let listen_port = read_u16_be(body, 1);
            proof { lemma_be16_of(body@.subrange(1, 3)); }
            assert(body@ =~= seq![id] + body@.subrange(1, 3));
            Some(Message::Port { length, id, listen_port })
        } else {
            None
        }
    }
}

/// Whether `b` is the body of a known message with a payload of the right size.
pub open spec fn valid_body(b: Seq<u8>) -> bool {
    ||| b.len() == 0
    ||| b[0] <= 3 && b.len() == 1
    ||| b[0] == 4 && b.len() == 5
    ||| b[0] == 5
    ||| (b[0] == 6 || b[0] == 8) && b.len() == 13
    ||| b[0] == 7 && b.len() >= 9
    ||| b[0] == 9 && b.len() == 3
}

/// Message `m` is what body `b` says: its variant is the one that the id names, and its
/// body is `b`.
pub open spec fn parsed_as(b: Seq<u8>, m: Message) -> bool {
    &&& m.body() == b
    &&& b.len() == 0 ==> m is KeepAlive
    &&& b.len() > 0 ==> match m {
        Message::KeepAlive { .. } => false,
        Message::Choke { .. } => b[0] == 0,
        Message::Unchoke { .. } => b[0] == 1,
        Message::Interested { .. } => b[0] == 2,
        Message::Uninterested { .. } => b[0] == 3,
        Message::Have { .. } => b[0] == 4,
        Message::BitField { .. } => b[0] == 5,
        Message::Request { .. } => b[0] == 6,
        Message::Piece { .. } => b[0] == 7,
        Message::Cancel { .. } => b[0] == 8,
        Message::Port { .. } => b[0] == 9,
    }
}

/// Four bytes read as a number spell themselves again.
proof fn lemma_be32_of(s: Seq<u8>)
    requires
        s.len() == 4,
    ensures
        0 <= from_be32(s) <= u32::MAX,
        be32(from_be32(s) as u32) == s,
{
    let x = from_be32(s);
    let (a, b, c, d) = (s[0] as int, s[1] as int, s[2] as int, s[3] as int);
    assert(0 <= x <= u32::MAX && x / 0x100_0000 == a && (x / 0x1_0000) % 0x100 == b && (x / 0x100)
        % 0x100 == c && x % 0x100 == d) by (nonlinear_arith)
        requires
            x == a * 0x100_0000 + b * 0x1_0000 + c * 0x100 + d,
            0 <= a < 256,
            0 <= b < 256,
            0 <= c < 256,
            0 <= d < 256,
    ;
    assert(be32(x as u32) =~= s);
}

/// Two bytes read as a number spell themselves again.
proof fn lemma_be16_of(s: Seq<u8>)
    requires
        s.len() == 2,
    ensures
        0 <= from_be16(s) <= u16::MAX,
        be16(from_be16(s) as u16) == s,
{
    let x = from_be16(s);
    let (a, b) = (s[0] as int, s[1] as int);
    assert(0 <= x <= u16::MAX && x / 0x100 == a && x % 0x100 == b) by (nonlinear_arith)
        requires
            x == a * 0x100 + b,
            0 <= a < 256,
            0 <= b < 256,
    ;
    assert(be16(x as u16) =~= s);
}

/// The bytes of `b` from `start` on.
fn copy_from(b: &[u8], start: usize) -> (r: Vec<u8>)
    requires
        start <= b@.len(),
    ensures
        r@ == b@.subrange(start as int, b@.len() as int),
{
    let mut out: Vec<u8> = Vec::new();
    let mut i: usize = start;
    while i < b.len()
        invariant
            start <= i <= b@.len(),
            out@ == b@.subrange(start as int, i as int),
        decreases b@.len() - i,
    {
        out.push(b[i]);
        i = i + 1;
        assert(out@ =~= b@.subrange(start as int, i as int));
    }
    out
}

/// The protocol name that opens every handshake.
pub open spec fn protocol_name() -> Seq<u8> {
    seq![66u8, 105, 116, 84, 111, 114, 114, 101, 110, 116, 32, 112, 114, 111, 116, 111, 99, 111, 108]
}

/// The 68 bytes of a handshake: the name's length, the name, eight reserved zero bytes,
/// the info-hash and the peer id.
pub open spec fn handshake_bytes(info_hash: Seq<u8>, peer_id: Seq<u8>) -> Seq<u8> {
    seq![19u8] + protocol_name() + Seq::new(8, |i: int| 0u8) + info_hash + peer_id
}

/// The opening message of a peer connection.
pub struct HandshakeMsg {
    pstrlen: u8,
    pstr: Vec<u8>,
    reserved: u64,
    info_hash: [u8; 20],
    peer_id: [u8; 20],
}

impl HandshakeMsg {
    /// The handshake that announces `info_hash` and `peer_id`.
    pub fn build_msg(info_hash: [u8; 20], peer_id: [u8; 20]) -> (r: Vec<u8>)
        ensures
            r@ == handshake_bytes(info_hash@, peer_id@),
            r@.len() == 68,
    {
        let pstr: Vec<u8> = vec![66u8, 105, 116, 84, 111, 114, 114, 101, 110, 116, 32, 112, 114, 111, 116, 111, 99, 111, 108];
        assert(pstr@ =~= protocol_name());
        let handshake = HandshakeMsg { pstrlen: 19, pstr, reserved: 0, info_hash, peer_id };
        let mut buf: Vec<u8> = Vec::new();
        buf.push(handshake.pstrlen);
        push_all(&mut buf, handshake.pstr.as_slice());
        push_u64_be(&mut buf, handshake.reserved);
        push_all(&mut buf, handshake.info_hash.as_slice());
        push_all(&mut buf, handshake.peer_id.as_slice());
        assert(be64(0) =~= Seq::new(8, |i: int| 0u8));
        assert(buf@ =~= handshake_bytes(info_hash@, peer_id@));
        buf
    }
}

/// Whether `reply` opens as a handshake must: the name's length, then the name.
pub fn is_handshake_reply(reply: &[u8]) -> (r: bool)
    ensures
        r == (reply@.len() >= 20 && reply@.subrange(0, 20) == seq![19u8] + protocol_name()),
{
    if reply.len() < 20 {
        return false;
    }
    let expected: Vec<u8> = vec![19u8, 66, 105, 116, 84, 111, 114, 114, 101, 110, 116, 32, 112, 114, 111, 116, 111, 99, 111, 108];
    assert(expected@ =~= seq![19u8] + protocol_name());
    let mut i: usize = 0;
    while i < 20
        invariant
            reply@.len() >= 20,
            expected@ == seq![19u8] + protocol_name(),
            i <= 20,
            forall|k: int| 0 <= k < i ==> reply@[k] == expected@[k],
        decreases 20 - i,
    {
        if reply[i] != expected[i] {
            assert(reply@.subrange(0, 20)[i as int] != expected@[i as int]);
            return false;
        }
        i = i + 1;
    }
    assert(reply@.subrange(0, 20) =~= expected@);
    true
}

/// The weight of bit `j` of a byte, counting from the most significant.
pub open spec fn bit_weight(j: int) -> int {
    if j == 0 {
        128
    } else if j == 1 {
        64
    } else if j == 2 {
        32
    } else if j == 3 {
        16
    } else if j == 4 {
        8
    } else if j == 5 {
        4
    } else if j == 6 {
        2
    } else {
        1
    }
}

/// Whether bit `i` of `payload` is set, the first bit being the most significant of byte 0.
pub open spec fn bit_set(payload: Seq<u8>, i: int) -> bool {
    (payload[i / 8] as int / bit_weight(i % 8)) % 2 == 1
}

/// Whether `len` bytes are exactly enough for `n` bits.
pub open spec fn fits_bits(len: int, n: int) -> bool {
    len * 8 >= n && len * 8 < n + 8
}

fn weight(j: usize) -> (r: u8)
    requires
        j < 8,
    ensures
        r as int == bit_weight(j as int),
{
    if j == 0 {
        128
    } else if j == 1 {
        64
    } else if j == 2 {
        32
    } else if j == 3 {
        16
    } else if j == 4 {
        8
    } else if j == 5 {
        4
    } else if j == 6 {
        2
    } else {
        1
    }
}

/// The pieces that a bitfield payload marks, for a torrent of `piece_count` pieces, most
/// significant bit first. Gives `None` unless the payload has exactly the bytes needed.
pub fn decode_bitfield(payload: &[u8], piece_count: usize) -> (r: Option<Vec<bool>>)
    ensures
        r is Some <==> fits_bits(payload@.len() as int, piece_count as int),
        r matches Some(bits) ==> bits@.len() == piece_count && forall|i: int|
            0 <= i < piece_count ==> #[trigger] bits@[i] == bit_set(payload@, i),
{
    let need = piece_count / 8 + if piece_count % 8 != 0 {
        1usize
    } else {
        0usize
    };
    if payload.len() != need {
        return None;
    }
    let mut bits: Vec<bool> = Vec::new();
    let mut i: usize = 0;
    while i < piece_count
        invariant
            i <= piece_count,
            payload@.len() == need,
            need == piece_count / 8 + if piece_count % 8 != 0 { 1int } else { 0int },
            bits@.len() == i,
            forall|k: int| 0 <= k < i ==> #[trigger] bits@[k] == bit_set(payload@, k),
        decreases piece_count - i,
    {
        let byte = payload[i / 8];
        let w = weight(i % 8);
        bits.push((byte / w) % 2 == 1);
        i = i + 1;
    }
    Some(bits)
}

} // verus!
