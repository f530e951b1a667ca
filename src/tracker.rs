use vstd::prelude::*;

use crate::bencode::{dec, lemma_model_parts, push_decimal, Bencode, Element};
use crate::torrent::lookup;
use crate::wire::{
    be16, be32, be64, from_be16, from_be32, from_be64, push_all, push_u16_be, push_u32_be,
    push_u64_be, read_u16_be, read_u32_be, read_u64_be,
};

verus! {

/// The magic number that opens a UDP tracker connect request.
pub const PROTOCOL_ID: u64 = 0x41727101980;

/// A UDP tracker announce request.
pub struct Request {
    pub connection_id: u64,
    pub action: u32,
    pub transaction_id: u32,
    pub info_hash: [u8; 20],
    pub peer_id: [u8; 20],
    pub downloaded: u64,
    pub left: u64,
    pub uploaded: u64,
    /// 0: none; 1: completed; 2: started; 3: stopped.
    pub event: u32,
    /// 0 lets the tracker use the sender's address.
    pub ip_addr: u32,
    pub key: u32,
    /// -1 asks for the tracker's default.
    pub num_want: i32,
    pub port: u16,
}

/// A UDP tracker announce reply.
#[derive(Debug)]
pub struct Response {
    pub action: u32,
    pub transaction_id: u32,
    pub interval: u32,
    pub leechers: u32,
    pub seeders: u32,
    pub peer_list: Vec<(u32, u16)>,
}

/// The two's complement bits of a 32-bit signed number.
pub open spec fn bits_of_i32(x: i32) -> u32 {
    if x < 0 {
        (x + 0x1_0000_0000) as u32
    } else {
        x as u32
    }
}

impl Request {
    /// The 98 bytes of the request, every field big-endian.
    pub open spec fn wire(&self) -> Seq<u8> {
        be64(self.connection_id) + be32(self.action) + be32(self.transaction_id) + self.info_hash@
            + self.peer_id@ + be64(self.downloaded) + be64(self.left) + be64(self.uploaded) + be32(
            self.event,
        ) + be32(self.ip_addr) + be32(self.key) + be32(bits_of_i32(self.num_want)) + be16(
            self.port,
        )
    }

    pub fn to_buf(&self) -> (r: Vec<u8>)
        ensures
            r@ == self.wire(),
            r@.len() == 98,
    {
        let mut buf: Vec<u8> = Vec::new();
        push_u64_be(&mut buf, self.connection_id);
        push_u32_be(&mut buf, self.action);
        push_u32_be(&mut buf, self.transaction_id);
        push_all(&mut buf, self.info_hash.as_slice());
        push_all(&mut buf, self.peer_id.as_slice());
        push_u64_be(&mut buf, self.downloaded);
        push_u64_be(&mut buf, self.left);
        push_u64_be(&mut buf, self.uploaded);
        push_u32_be(&mut buf, self.event);
        push_u32_be(&mut buf, self.ip_addr);
        push_u32_be(&mut buf, self.key);
        let nw: u32 = if self.num_want < 0 {
            (self.num_want as i64 + 0x1_0000_0000i64) as u32
        } else {
            self.num_want as u32
        };
        push_u32_be(&mut buf, nw);
        push_u16_be(&mut buf, self.port);
        assert(buf@ =~= self.wire());
        buf
    }
}

/// The bytes of the announce request that a leecher with nothing yet sends.
pub open spec fn announce_bytes(
    conn_id: u64,
    info_hash: [u8; 20],
    left: u64,
    peer_id: [u8; 20],
    transaction_id: u32,
    key: u32,
) -> Seq<u8> {
    (Request {
        connection_id: conn_id,
        action: 1,
        transaction_id,
        info_hash,
        peer_id,
        downloaded: 0,
        left,
        uploaded: 0,
        event: 0,
        ip_addr: 0,
        key,
        num_want: -1i32,
        port: 6881,
    }).wire()
}

/// The announce request that a leecher with nothing yet sends: `length` bytes left, no
/// event, the tracker's default number of peers, listening on 6881.
pub fn announce_req_with(
    conn_id: u64,
    info_hash: &[u8; 20],
    length: u64,
    peer_id: &[u8; 20],
    transaction_id: u32,
    key: u32,
) -> (r: Vec<u8>)
    ensures
        r@ == announce_bytes(conn_id, *info_hash, length, *peer_id, transaction_id, key),
{
    let req = Request {
        connection_id: conn_id,
        action: 1,
        transaction_id,
        info_hash: *info_hash,
        peer_id: *peer_id,
        downloaded: 0,
        left: length,
        uploaded: 0,
        event: 0,
        ip_addr: 0,
        key,
        num_want: -1,
        port: 6881,
    };
    req.to_buf()
}

/// An announce request as [`announce_req_with`] builds it, with a random transaction id
/// and key.
pub fn build_announce_req(conn_id: u64, info_hash: &[u8; 20], length: &u64, peer_id: &[u8; 20]) -> (r: Vec<u8>)
    ensures
        exists|t: u32, k: u32| #[trigger] announce_bytes(conn_id, *info_hash, *length, *peer_id, t, k) == r@,
{
    let transaction_id: u32 = rand::random();
    let key: u32 = rand::random();
    announce_req_with(conn_id, info_hash, *length, peer_id, transaction_id, key)
}

/// The 16 bytes of a connect request: the protocol id, action 0, the transaction id.
pub open spec fn connection_req_bytes(transaction_id: u32) -> Seq<u8> {
    be64(PROTOCOL_ID) + be32(0) + be32(transaction_id)
}

pub fn connection_req_with(transaction_id: u32) -> (r: Vec<u8>)
    ensures
        r@ == connection_req_bytes(transaction_id),
{
    let mut buf: Vec<u8> = Vec::new();
    push_u64_be(&mut buf, PROTOCOL_ID);
    push_u32_be(&mut buf, 0);
    push_u32_be(&mut buf, transaction_id);
    buf
}

/// A connect request with a random transaction id.
pub fn build_connection_req() -> (r: Vec<u8>)
    ensures
        exists|t: u32| #[trigger] connection_req_bytes(t) == r@,
{
    let transaction_id: u32 = rand::random();
    connection_req_with(transaction_id)
}

/// The action, transaction id and connection id of a connect reply; `None` when it is
/// shorter than 16 bytes.
pub fn parse_connection_resp(buf: &[u8]) -> (r: Option<(u32, u32, u64)>)
    ensures
        r is Some <==> buf@.len() >= 16,
        r matches Some((a, t, c)) ==> a == from_be32(buf@.subrange(0, 4)) && t == from_be32(
            buf@.subrange(4, 8),
        ) && c == from_be64(buf@.subrange(8, 16)),
{
    if buf.len() < 16 {
        return None;
    }
    Some((read_u32_be(buf, 0), read_u32_be(buf, 4), read_u64_be(buf, 8)))
}

/// The connection id of a connect reply that answers the request with `transaction_id`: its
/// action is 0 (connect) and it echoes the transaction id. `None` for any other reply.
pub fn connect_reply_id(reply: &[u8], transaction_id: u32) -> (r: Option<u64>)
    ensures
        r is Some <==> reply@.len() >= 16 && from_be32(reply@.subrange(0, 4)) == 0 && from_be32(
            reply@.subrange(4, 8),
        ) == transaction_id,
        r matches Some(c) ==> c == from_be64(reply@.subrange(8, 16)),
{
    match parse_connection_resp(reply) {
        Some((action, echoed, conn_id)) => if action == 0 && echoed == transaction_id {
            Some(conn_id)
        } else {
            None
        },
        None => None,
    }
}

/// The peer in the 6 bytes at `at`: a big-endian IPv4 address, then a big-endian port.
pub open spec fn peer_at(b: Seq<u8>, at: int) -> (u32, u16) {
    (from_be32(b.subrange(at, at + 4)) as u32, from_be16(b.subrange(at + 4, at + 6)) as u16)
}

/// The `n` peers that start at `start`.
fn read_peers(b: &[u8], start: usize, n: usize) -> (r: Vec<(u32, u16)>)
    requires
        start + 6 * n <= b@.len(),
    ensures
        r@.len() == n,
        forall|i: int| 0 <= i < n ==> #[trigger] r@[i] == peer_at(b@, start + 6 * i),
{
    let mut out: Vec<(u32, u16)> = Vec::new();
    let mut i: usize = 0;
    assert(b@.len() == b.len());
    while i < n
        invariant
            i <= n,
            start + 6 * n <= b@.len(),
            b@.len() == b.len(),
            out@.len() == i,
            forall|k: int| 0 <= k < i ==> #[trigger] out@[k] == peer_at(b@, start + 6 * k),
        decreases n - i,
    {
        let at = start + 6 * i;
        let ip = read_u32_be(b, at);
        let port = read_u16_be(b, at + 4);
        out.push((ip, port));
        i = i + 1;
    }
    out
}

/// Reads an announce reply: five big-endian words, then `seeders` peers. `None` when the
/// reply is too short for them.
pub fn parse_announce_resp(buf: &[u8]) -> (r: Option<Response>)
    ensures
        r is Some <==> buf@.len() >= 20 && buf@.len() >= 20 + 6 * from_be32(buf@.subrange(16, 20)),
        r matches Some(resp) ==> {
            &&& resp.action == from_be32(buf@.subrange(0, 4))
            &&& resp.transaction_id == from_be32(buf@.subrange(4, 8))
            &&& resp.interval == from_be32(buf@.subrange(8, 12))
            &&& resp.leechers == from_be32(buf@.subrange(12, 16))
            &&& resp.seeders == from_be32(buf@.subrange(16, 20))
            &&& resp.peer_list@.len() == resp.seeders
            &&& forall|i: int| 0 <= i < resp.seeders ==> #[trigger] resp.peer_list@[i] == peer_at(buf@, 20 + 6 * i)
        },
{
    if buf.len() < 20 {
        return None;
    }
    let seeders = read_u32_be(buf, 16);
    if ((buf.len() - 20) / 6) < seeders as usize {
        return None;
    }
    let peer_list = read_peers(buf, 20, seeders as usize);
    Some(
        Response {
            action: read_u32_be(buf, 0),
            transaction_id: read_u32_be(buf, 4),
            interval: read_u32_be(buf, 8),
            leechers: read_u32_be(buf, 12),
            seeders,
            peer_list,
        },
    )
}

/// The peers of a compact peer string, six bytes each; a trailing partial group is ignored.
pub fn peers_from_compact(peers: &[u8]) -> (r: Vec<(u32, u16)>)
    ensures
        r@.len() == peers@.len() / 6,
        forall|i: int| 0 <= i < r@.len() ==> #[trigger] r@[i] == peer_at(peers@, 6 * i),
{
    read_peers(peers, 0, peers.len() / 6)
}

/// The key `peers`.
pub open spec fn key_peers() -> Seq<u8> {
    seq![112u8, 101, 101, 114, 115]
}

/// The peers of an HTTP tracker's bencoded reply: its `peers` byte string read as compact
/// peers. `None`, so that the tracker is skipped, when the reply does not decode to a
/// dictionary whose `peers` is a byte string of whole six-byte groups.
pub fn http_peers(body: Vec<u8>) -> (r: Option<Vec<(u32, u16)>>)
    ensures
        match crate::bencode::decode_spec(body@) {
            Ok(crate::bencode::Value::Dict(es)) => match lookup(es, key_peers()) {
                Some(crate::bencode::Value::Bytes(p)) => if p.len() % 6 == 0 {
                    r matches Some(ps) && ps@.len() == p.len() / 6 && forall|i: int|
                        0 <= i < ps@.len() ==> #[trigger] ps@[i] == peer_at(p, 6 * i)
                } else {
                    r is None
                },
                _ => r is None,
            },
            _ => r is None,
        },
{
    let decoded = match Bencode::decode_with_info(body) {
        Err(_) => {
            return None;
        },
        Ok((e, _)) => e,
    };
    proof { lemma_model_parts(&decoded); }
    match &decoded {
        Element::Dict(es) => {
            let k = [112u8, 101, 101, 114, 115];
            assert(k@ =~= key_peers());
            match crate::torrent::lookup_entry(es, &k) {
                Some(Element::ByteString(p)) => if p.len() % 6 == 0 {
                    Some(peers_from_compact(p.as_slice()))
                } else {
                    None
                },
                _ => None,
            }
        },
        _ => None,
    }
}

/// The bytes `udp://`.
pub open spec fn udp_scheme() -> Seq<u8> {
    seq![117u8, 100, 112, 58, 47, 47]
}

/// Whether an announce URL names a UDP tracker; any other is spoken to over HTTP.
pub fn is_udp_url(url: &[u8]) -> (r: bool)
    ensures
        r == (url@.len() >= 6 && url@.subrange(0, 6) == udp_scheme()),
{
    if url.len() < 6 {
        return false;
    }
    let s = [117u8, 100, 112, 58, 47, 47];
    let mut i: usize = 0;
    while i < 6
        invariant
            url@.len() >= 6,
            s@ == udp_scheme(),
            i <= 6,
            forall|k: int| 0 <= k < i ==> url@[k] == s@[k],
        decreases 6 - i,
    {
        if url[i] != s[i] {
            assert(url@.subrange(0, 6)[i as int] != udp_scheme()[i as int]);
            return false;
        }
        i = i + 1;
    }
    assert(url@.subrange(0, 6) =~= udp_scheme());
    true
}

/// Whether a byte goes into a URL as it is.
pub open spec fn unreserved(c: u8) -> bool {
    (48 <= c <= 57) || (65 <= c <= 90) || (97 <= c <= 122) || c == 45 || c == 46 || c == 95 || c
        == 126
}

/// The upper-case hexadecimal digit of `d`.
pub open spec fn hex_digit(d: int) -> u8 {
    if d < 10 {
        (48 + d) as u8
    } else {
        (55 + d) as u8
    }
}

/// Percent-encoding: unreserved bytes as they are, every other byte as `%` and two
/// upper-case hexadecimal digits.
pub open spec fn pct(b: Seq<u8>) -> Seq<u8>
    decreases b.len(),
{
    if b.len() == 0 {
        Seq::empty()
    } else {
        pct(b.drop_last()) + if unreserved(b.last()) {
            seq![b.last()]
        } else {
            seq![37u8, hex_digit(b.last() as int / 16), hex_digit(b.last() as int % 16)]
        }
    }
}

fn hex(d: u8) -> (r: u8)
    requires
        d < 16,
    ensures
        r == hex_digit(d as int),
{
    if d < 10 {
        48 + d
    } else {
        55 + d
    }
}

/// Appends the percent-encoding of `b`.
fn push_pct(buf: &mut Vec<u8>, b: &[u8])
    ensures
        final(buf)@ == old(buf)@ + pct(b@),
{
    let ghost start = buf@;
    let mut i: usize = 0;
    assert(b@.subrange(0, 0) =~= Seq::<u8>::empty());
    while i < b.len()
        invariant
            i <= b@.len(),
            buf@ == start + pct(b@.subrange(0, i as int)),
        decreases b@.len() - i,
    {
        let c = b[i];
        let ghost pre = b@.subrange(0, i as int);
        let ghost next = b@.subrange(0, i + 1);
        assert(next.drop_last() =~= pre);
        if (c >= 48 && c <= 57) || (c >= 65 && c <= 90) || (c >= 97 && c <= 122) || c == 45 || c
            == 46 || c == 95 || c == 126 {
            buf.push(c);
        } else {
            buf.push(37);
            buf.push(hex(c / 16));
            buf.push(hex(c % 16));
        }
        i = i + 1;
        assert(buf@ =~= start + pct(next));
    }
    assert(b@.subrange(0, i as int) =~= b@);
}

/// Appends the bytes of a short ASCII text given as bytes.
fn push_text(buf: &mut Vec<u8>, t: &[u8])
    ensures
        final(buf)@ == old(buf)@ + t@,
{
    push_all(buf, t);
}

/// The HTTP announce URL: the tracker's URL, then the query parameters in a fixed order;
/// `numwant` only when given.
pub open spec fn announce_url_bytes(
    info_hash: Seq<u8>,
    peer_id: Seq<u8>,
    announce_url: Seq<u8>,
    port: u32,
    uploaded: u64,
    downloaded: u64,
    left: u64,
    compact: bool,
    event: Seq<u8>,
    numwant: Option<u64>,
) -> Seq<u8> {
    announce_url + seq![63u8] + seq![105u8, 110, 102, 111, 95, 104, 97, 115, 104, 61] + pct(
        info_hash,
    ) + seq![38u8, 112, 101, 101, 114, 95, 105, 100, 61] + pct(peer_id) + seq![
        38u8,
        112,
        111,
        114,
        116,
        61,
    ] + dec(port as nat) + seq![38u8, 117, 112, 108, 111, 97, 100, 101, 100, 61] + dec(
        uploaded as nat,
    ) + seq![38u8, 100, 111, 119, 110, 108, 111, 97, 100, 101, 100, 61] + dec(downloaded as nat)
        + seq![38u8, 108, 101, 102, 116, 61] + dec(left as nat) + seq![
        38u8,
        99,
        111,
        109,
        112,
        97,
        99,
        116,
        61,
    ] + (if compact {
        seq![49u8]
    } else {
        seq![48u8]
    }) + seq![38u8, 101, 118, 101, 110, 116, 61] + event + match numwant {
        Some(n) => seq![38u8, 110, 117, 109, 119, 97, 110, 116, 61] + dec(n as nat),
        None => Seq::empty(),
    }
}

/// Builds the HTTP announce URL, its info-hash and peer id percent-encoded.
pub fn url_parser(
    info_hash: [u8; 20],
    peer_id: [u8; 20],
    announce_url: &[u8],
    port: u32,
    uploaded: u64,
    downloaded: u64,
    left: u64,
    compact: bool,
    event: &[u8],
    numwant: Option<u64>,
) -> (r: Vec<u8>)
    ensures
        r@ == announce_url_bytes(
            info_hash@,
            peer_id@,
            announce_url@,
            port,
            uploaded,
            downloaded,
            left,
            compact,
            event@,
            numwant,
        ),
{
    let mut buf: Vec<u8> = Vec::new();
    push_text(&mut buf, announce_url);
    buf.push(63);
    push_text(&mut buf, &[105u8, 110, 102, 111, 95, 104, 97, 115, 104, 61]);
    push_pct(&mut buf, info_hash.as_slice());
    push_text(&mut buf, &[38u8, 112, 101, 101, 114, 95, 105, 100, 61]);
    push_pct(&mut buf, peer_id.as_slice());
    push_text(&mut buf, &[38u8, 112, 111, 114, 116, 61]);
    push_decimal(&mut buf, port as u64);
    push_text(&mut buf, &[38u8, 117, 112, 108, 111, 97, 100, 101, 100, 61]);
    push_decimal(&mut buf, uploaded);
    push_text(&mut buf, &[38u8, 100, 111, 119, 110, 108, 111, 97, 100, 101, 100, 61]);
    push_decimal(&mut buf, downloaded);
    push_text(&mut buf, &[38u8, 108, 101, 102, 116, 61]);
    push_decimal(&mut buf, left);
    push_text(&mut buf, &[38u8, 99, 111, 109, 112, 97, 99, 116, 61]);
    if compact {
        buf.push(49);
    } else {
        buf.push(48);
    }
    push_text(&mut buf, &[38u8, 101, 118, 101, 110, 116, 61]);
    push_text(&mut buf, event);
    if let Some(n) = numwant {
        push_text(&mut buf, &[38u8, 110, 117, 109, 119, 97, 110, 116, 61]);
        push_decimal(&mut buf, n);
    }
    assert(buf@ =~= announce_url_bytes(
        info_hash@,
        peer_id@,
        announce_url@,
        port,
        uploaded,
        downloaded,
        left,
        compact,
        event@,
        numwant,
    ));
    buf
}

/// The host that the `url` crate finds in a URL, if it parses and has one.
pub uninterp spec fn url_host_of(s: Seq<char>) -> Option<Seq<char>>;

/// The explicit port that the `url` crate finds in a URL, if it parses and names one.
pub uninterp spec fn url_port_of(s: Seq<char>) -> Option<u16>;

/// Relies on url's `Url::parse` and `Url::host_str`: the host of a URL that parses, which
/// depends on the text alone; `None` when it does not parse or has no host.
#[verifier::external_body]
fn url_host(u: &str) -> (r: Option<String>)
    ensures
        match r {
            Some(h) => url_host_of(u@) == Some(h@),
            None => url_host_of(u@) is None,
        },
{
    match url::Url::parse(u) {
        Ok(p) => match p.host_str() {
            Some(h) => Some(h.to_string()),
            None => None,
        },
        Err(_) => None,
    }
}

/// Relies on url's `Url::parse` and `Url::port`: the port written in a URL that parses,
/// which depends on the text alone; `None` when it does not parse or names none.
#[verifier::external_body]
fn url_port(u: &str) -> (r: Option<u16>)
    ensures
        r == url_port_of(u@),
{
    match url::Url::parse(u) {
        Ok(p) => p.port(),
        Err(_) => None,
    }
}

/// The host and port of a UDP tracker's announce URL; `None` without either.
pub fn parse_url(announce_url: &str) -> (r: Option<(String, u16)>)
    ensures
        match (url_host_of(announce_url@), url_port_of(announce_url@)) {
            (Some(h), Some(p)) => r matches Some((x, q)) && x@ == h && q == p,
            _ => r is None,
        },
{
    let host = url_host(announce_url);
    let port = url_port(announce_url);
    match (host, port) {
        (Some(h), Some(p)) => Some((h, p)),
        _ => None,
    }
}

} // verus!
