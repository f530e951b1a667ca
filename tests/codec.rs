use r_torrent::bencode::{Bencode, Element};

fn int_of(e: &Element) -> i64 {
    match e {
        Element::Integer(i) => *i,
        _ => panic!("not an integer"),
    }
}

#[test]
fn bencode_integer_round_trip() {
    let (e, hash) = Bencode::decode(b"i-42e".to_vec()).unwrap();
    assert_eq!(int_of(&e), -42);
    assert!(hash.is_none());
    assert_eq!(Bencode::encode(&e), b"i-42e".to_vec());
}

#[test]
fn bencode_string_round_trip() {
    let (e, _) = Bencode::decode(b"5:hello".to_vec()).unwrap();
    match &e {
        Element::ByteString(s) => assert_eq!(s, &b"hello".to_vec()),
        _ => panic!("not a byte string"),
    }
    assert_eq!(Bencode::encode(&e), b"5:hello".to_vec());
}

fn info_fixture() -> Vec<u8> {
    let mut b = b"d8:announce3:url4:infod4:name1:a12:piece lengthi16384e6:pieces20:".to_vec();
    b.extend_from_slice(&[0x01u8; 20]);
    b.extend_from_slice(b"6:lengthi1eee");
    b
}

#[test]
fn bencode_dict_info_range() {
    let b = info_fixture();
    let (_, span) = Bencode::decode_with_info(b.clone()).unwrap();
    let (start, end) = span.unwrap();
    assert_eq!(start, b"d8:announce3:url4:info".len());
    assert_eq!(b[start], b'd');
    assert_eq!(end, b.len() - 1);
    assert_eq!(b[end - 1], b'e');
    let (_, hash) = Bencode::decode(b.clone()).unwrap();
    let expected = sha1_smol::Sha1::from(&b[start..end]).digest().bytes();
    assert_eq!(hash.unwrap(), expected);
}

#[test]
fn info_hash_ignores_other_keys_order() {
    let mut a = b"d8:announce3:url7:comment2:hi4:infod4:name1:ae".to_vec();
    a.extend_from_slice(b"e");
    let mut b = b"d4:infod4:name1:ae7:comment2:hi8:announce3:url".to_vec();
    b.extend_from_slice(b"e");
    let (_, ha) = Bencode::decode(a).unwrap();
    let (_, hb) = Bencode::decode(b).unwrap();
    assert_eq!(ha.unwrap(), hb.unwrap());
    assert_eq!(ha.unwrap(), sha1_smol::Sha1::from(b"d4:name1:ae").digest().bytes());
}

#[test]
fn nested_value_round_trips() {
    let input = b"d1:ai1e1:bl3:abci-7ed1:xi0eee1:c0:e".to_vec();
    let (e, _) = Bencode::decode(input.clone()).unwrap();
    assert_eq!(Bencode::encode(&e), input);
    let again = Bencode::encode(&Bencode::decode(Bencode::encode(&e)).unwrap().0);
    assert_eq!(again, input);
}

#[test]
fn constructed_value_decodes_back() {
    let v = Element::List(vec![
        Element::Integer(i64::MIN),
        Element::Integer(i64::MAX),
        Element::ByteString(vec![0u8, 255, 58]),
        Element::Dict(vec![(b"k".to_vec(), Element::List(vec![]))]),
    ]);
    let bytes = Bencode::encode(&v);
    assert_eq!(bytes, b"li-9223372036854775808ei9223372036854775807e3:\x00\xff:d1:kleee".to_vec());
    let (back, _) = Bencode::decode(bytes.clone()).unwrap();
    assert_eq!(Bencode::encode(&back), bytes);
}

#[test]
fn unsorted_keys_are_sorted_and_last_duplicate_wins() {
    let (e, _) = Bencode::decode(b"d1:bi2e1:ai1e1:bi3ee".to_vec()).unwrap();
    assert_eq!(Bencode::encode(&e), b"d1:ai1e1:bi3ee".to_vec());
}

#[test]
fn leading_zero_is_rejected() {
    let err = Bencode::decode(b"i01e".to_vec()).unwrap_err();
    assert_eq!(err.index, 1);
    assert_eq!(err.curr, b'0');
}

#[test]
fn negative_zero_is_rejected() {
    let err = Bencode::decode(b"i-0e".to_vec()).unwrap_err();
    assert_eq!(err.index, 2);
}

#[test]
fn premature_end_is_reported_at_end() {
    let err = Bencode::decode(b"l1:a".to_vec()).unwrap_err();
    assert_eq!(err.index, 4);
    assert_eq!(err.curr, 0);
    let err = Bencode::decode(b"5:abc".to_vec()).unwrap_err();
    assert_eq!(err.index, 5);
}

#[test]
fn unknown_byte_and_trailing_bytes_are_rejected() {
    let err = Bencode::decode(b"x".to_vec()).unwrap_err();
    assert_eq!((err.index, err.curr), (0, b'x'));
    let err = Bencode::decode(b"i1ei2e".to_vec()).unwrap_err();
    assert_eq!(err.index, 3);
    let err = Bencode::decode(b"di1ei2ee".to_vec()).unwrap_err();
    assert_eq!(err.index, 1);
}

#[test]
fn integer_out_of_range_is_rejected() {
    let err = Bencode::decode(b"i9223372036854775808e".to_vec()).unwrap_err();
    assert_eq!(err.index, 1);
    let (e, _) = Bencode::decode(b"i-9223372036854775808e".to_vec()).unwrap();
    assert_eq!(int_of(&e), i64::MIN);
}

#[test]
fn calculate_hash_digests_the_range() {
    let buf = b"xxabcyy".to_vec();
    let h = Bencode::calculate_hash(&buf, 2, 5);
    assert_eq!(h, sha1_smol::Sha1::from(b"abc").digest().bytes());
    assert_ne!(&h[..3], b"abc");
}
