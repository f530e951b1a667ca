use r_torrent::storage::locate;
use r_torrent::swarm::{Swarm, CONN_LIMIT};
use r_torrent::tracker::{
    announce_req_with, connect_reply_id, build_announce_req, build_connection_req, connection_req_with, http_peers,
    is_udp_url, parse_announce_resp, parse_connection_resp, parse_url, peers_from_compact, url_parser,
};

#[test]
fn connection_request_bytes() {
    let r = connection_req_with(0xDEADBEEF);
    assert_eq!(r, vec![0, 0, 0x04, 0x17, 0x27, 0x10, 0x19, 0x80, 0, 0, 0, 0, 0xDE, 0xAD, 0xBE, 0xEF]);
    let r = build_connection_req();
    assert_eq!(r.len(), 16);
    assert_eq!(&r[..12], &[0, 0, 0x04, 0x17, 0x27, 0x10, 0x19, 0x80, 0, 0, 0, 0]);
}

#[test]
fn announce_request_bytes() {
    let r = announce_req_with(7, &[1; 20], 1000, &[2; 20], 5, 6);
    assert_eq!(r.len(), 98);
    assert_eq!(&r[0..8], &[0, 0, 0, 0, 0, 0, 0, 7]);
    assert_eq!(&r[8..12], &[0, 0, 0, 1]);
    assert_eq!(&r[12..16], &[0, 0, 0, 5]);
    assert_eq!(&r[16..36], &[1; 20]);
    assert_eq!(&r[36..56], &[2; 20]);
    assert_eq!(&r[64..72], &[0, 0, 0, 0, 0, 0, 0x03, 0xE8]);
    assert_eq!(&r[88..92], &[0, 0, 0, 6]);
    assert_eq!(&r[92..96], &[0xFF, 0xFF, 0xFF, 0xFF]);
    assert_eq!(&r[96..98], &[0x1A, 0xE1]);
    assert_eq!(build_announce_req(7, &[1; 20], &1000, &[2; 20]).len(), 98);
}

#[test]
fn replies_are_read() {
    let mut c = vec![0, 0, 0, 0, 0, 0, 0, 9];
    c.extend_from_slice(&[0, 0, 0, 0, 0, 0, 1, 2]);
    assert_eq!(parse_connection_resp(&c), Some((0, 9, 0x0102)));
    assert_eq!(parse_connection_resp(&c[..15]), None);
    let mut a = vec![0, 0, 0, 1, 0, 0, 0, 9, 0, 0, 7, 8, 0, 0, 0, 3, 0, 0, 0, 2];
    a.extend_from_slice(&[127, 0, 0, 1, 0x1A, 0xE1, 10, 0, 0, 2, 0, 80]);
    let resp = parse_announce_resp(&a).unwrap();
    assert_eq!((resp.action, resp.transaction_id, resp.interval, resp.leechers, resp.seeders), (1, 9, 0x0708, 3, 2));
    assert_eq!(resp.peer_list, vec![(0x7F000001, 6881), (0x0A000002, 80)]);
    assert!(parse_announce_resp(&a[..25]).is_none());
}

#[test]
fn compact_peers_and_http_reply() {
    assert_eq!(peers_from_compact(&[1, 2, 3, 4, 0, 5, 9]), vec![(0x01020304, 5)]);
    let mut body = b"d8:intervali60e5:peers12:".to_vec();
    body.extend_from_slice(&[127, 0, 0, 1, 0x1A, 0xE1, 10, 0, 0, 2, 0, 80]);
    body.extend_from_slice(b"e");
    assert_eq!(http_peers(body), Some(vec![(0x7F000001, 6881), (0x0A000002, 80)]));
    assert_eq!(http_peers(b"d5:peerslee".to_vec()), None);
    assert_eq!(http_peers(b"garbage".to_vec()), None);
}

#[test]
fn http_announce_url() {
    let mut ih = [0u8; 20];
    ih[0] = b'a';
    ih[1] = 0xFF;
    let u = url_parser(ih, [b'-'; 20], b"http://t/ann", 6881, 0, 0, 42, true, b"started", Some(50));
    let s = String::from_utf8(u).unwrap();
    let expected = format!(
        "http://t/ann?info_hash=a%FF{}&peer_id={}&port=6881&uploaded=0&downloaded=0&left=42&compact=1&event=started&numwant=50",
        "%00".repeat(18),
        "-".repeat(20)
    );
    assert_eq!(s, expected);
    let u = url_parser([0; 20], [0; 20], b"h", 1, 2, 3, 4, false, b"", None);
    assert!(String::from_utf8(u).unwrap().ends_with("&compact=0&event="));
}

#[test]
fn scheme_selects_protocol() {
    assert!(is_udp_url(b"udp://tracker:80"));
    assert!(!is_udp_url(b"http://tracker"));
    assert!(!is_udp_url(b"udp:"));
}

#[test]
fn tracker_address_from_url() {
    assert_eq!(parse_url("udp://tracker.example.com:6969/announce"), Some(("tracker.example.com".to_string(), 6969)));
    assert_eq!(parse_url("udp://tracker.example.com/announce"), None);
    assert_eq!(parse_url("not a url"), None);
}

#[test]
fn swarm_admission() {
    let mut s = Swarm::new();
    assert!(s.must_wait_to_dial());
    assert!(!s.must_wait_to_announce());
    s.add_peers(&vec![(1, 1), (2, 2), (3, 3)]);
    assert!(!s.must_wait_to_dial());
    assert!(s.must_wait_to_announce());
    assert_eq!(s.try_claim_peer(), Some((1, 1)));
    assert!(s.register_connection((1, 1)));
    assert!(!s.register_connection((1, 1)));
    s.add_peers(&vec![(1, 1)]);
    assert_eq!(s.try_claim_peer(), Some((2, 2)));
    assert_eq!(s.try_claim_peer(), Some((3, 3)));
    assert_eq!(s.try_claim_peer(), None);
    s.unregister_connection((1, 1));
    assert!(!s.is_active((1, 1)));
    for i in 0..CONN_LIMIT as u32 {
        s.register_connection((i + 10, 0));
    }
    s.add_peers(&vec![(9, 9)]);
    assert!(s.must_wait_to_dial());
}

#[test]
fn ranges_split_across_files() {
    let files = vec![10u64, 0, 5, 20];
    assert_eq!(locate(&files, 8, 10), Some(vec![(0, 8, 2), (2, 0, 5), (3, 0, 3)]));
    assert_eq!(locate(&files, 12, 3), Some(vec![(2, 2, 3)]));
    assert_eq!(locate(&files, 30, 6), None);
    assert_eq!(locate(&files, 35, 0), Some(vec![]));
}

#[test]
fn cap_refuses_registration_and_claims() {
    let mut s = Swarm::new();
    for i in 0..CONN_LIMIT as u32 {
        assert!(s.register_connection((i, 1)));
    }
    assert!(!s.register_connection((1000, 1)));
    assert_eq!(s.active.len(), CONN_LIMIT);
    s.add_peers(&vec![(2000, 2)]);
    assert_eq!(s.try_claim_peer(), None);
    assert_eq!(s.queue, vec![(2000, 2)]);
    s.unregister_connection((0, 1));
    assert_eq!(s.try_claim_peer(), Some((2000, 2)));
    assert!(s.register_connection((2000, 2)));
}

#[test]
fn ragged_compact_peers_skip_the_tracker() {
    let mut body = b"d5:peers7:".to_vec();
    body.extend_from_slice(&[1, 2, 3, 4, 0, 5, 9]);
    body.extend_from_slice(b"e");
    assert_eq!(http_peers(body), None);
}

#[test]
fn connect_reply_must_echo_the_request() {
    let mut c = vec![0, 0, 0, 0, 0, 0, 0, 9];
    c.extend_from_slice(&[0, 0, 0, 0, 0, 0, 1, 2]);
    assert_eq!(connect_reply_id(&c, 9), Some(0x0102));
    assert_eq!(connect_reply_id(&c, 8), None);
    c[3] = 1;
    assert_eq!(connect_reply_id(&c, 9), None);
    assert_eq!(connect_reply_id(&c[..10], 9), None);
}
