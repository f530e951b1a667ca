use r_torrent::torrent::{MetainfoFault, Torrent, TorrentError};

fn single() -> Vec<u8> {
    let mut b = b"d8:announce12:http://t/ann4:infod6:lengthi40000e4:name3:a.b12:piece lengthi32768e6:pieces40:".to_vec();
    b.extend_from_slice(&[0xAB; 40]);
    b.extend_from_slice(b"ee");
    b
}

fn fault_of(b: &[u8]) -> MetainfoFault {
    match Torrent::parse_decoded(b.to_vec()) {
        Err(TorrentError::Metainfo(e)) => e.fault,
        other => panic!("unexpected {:?}", other.map(|t| t.length)),
    }
}

#[test]
fn single_file_torrent() {
    let b = single();
    let t = Torrent::parse_decoded(b.clone()).unwrap();
    assert_eq!(t.name, b"a.b".to_vec());
    assert_eq!(t.length, 40000);
    assert_eq!(t.piece_length, 32768);
    assert_eq!(t.piece_hashes, vec![[0xAB; 20], [0xAB; 20]]);
    assert_eq!(t.files, vec![(vec![b"a.b".to_vec()], 40000)]);
    assert_eq!(t.announce_url, Some(b"http://t/ann".to_vec()));
    assert!(t.announce_list.is_none());
    assert!(!t.multi_file);
    let start = b.windows(5).position(|w| w == b"4:inf").unwrap() + 6;
    let expected = sha1_smol::Sha1::from(&b[start..b.len() - 1]).digest().bytes();
    assert_eq!(t.info_hash, expected);
}

#[test]
fn multi_file_torrent_files_win() {
    let mut b = b"d13:announce-listll2:u1el2:u22:u3ee4:infod5:filesld6:lengthi3e4:pathl1:x1:yeed6:lengthi4e4:pathl1:zeee6:lengthi99e4:name4:root12:piece lengthi8e6:pieces20:".to_vec();
    b.extend_from_slice(&[1; 20]);
    b.extend_from_slice(b"ee");
    let t = Torrent::parse_decoded(b).unwrap();
    assert_eq!(t.length, 7);
    assert_eq!(t.files, vec![(vec![b"x".to_vec(), b"y".to_vec()], 3), (vec![b"z".to_vec()], 4)]);
    assert_eq!(t.announce_list, Some(vec![vec![b"u1".to_vec()], vec![b"u2".to_vec(), b"u3".to_vec()]]));
    assert!(t.announce_url.is_none());
    assert!(t.multi_file);
}

#[test]
fn missing_key_fault() {
    assert_eq!(fault_of(b"d4:infod4:name1:a12:piece lengthi1e6:pieces0:6:lengthi0eee"), MetainfoFault::MissingKey);
    assert_eq!(fault_of(b"d8:announce1:ue"), MetainfoFault::MissingKey);
    assert_eq!(fault_of(b"d8:announce1:u4:infod4:name1:a12:piece lengthi1e6:pieces0:ee"), MetainfoFault::MissingKey);
}

#[test]
fn type_mismatch_fault() {
    assert_eq!(fault_of(b"le"), MetainfoFault::TypeMismatch);
    assert_eq!(fault_of(b"d8:announcei1e4:infodee"), MetainfoFault::TypeMismatch);
    assert_eq!(fault_of(b"d8:announce1:u4:infod4:name1:a12:piece lengthi0e6:pieces0:6:lengthi0eee"), MetainfoFault::TypeMismatch);
}

#[test]
fn pieces_not_multiple_of_20_fault() {
    assert_eq!(fault_of(b"d8:announce1:u4:infod4:name1:a12:piece lengthi1e6:pieces3:abc6:lengthi0eee"), MetainfoFault::PiecesNotMultipleOf20);
}

#[test]
fn bad_path_fault() {
    assert_eq!(fault_of(b"d8:announce1:u4:infod5:filesld6:lengthi1e4:pathl2:..eee4:name1:a12:piece lengthi1e6:pieces0:ee"), MetainfoFault::BadPath);
    assert_eq!(fault_of(b"d8:announce1:u4:infod4:name2:/a12:piece lengthi1e6:pieces0:6:lengthi0eee"), MetainfoFault::BadPath);
}

#[test]
fn encoding_fault_is_reported() {
    match Torrent::parse_decoded(b"d8:announce".to_vec()) {
        Err(TorrentError::Encoding(e)) => assert_eq!(e.index, 11),
        _ => panic!("expected an encoding error"),
    }
}

#[test]
fn peer_ids_are_drawn_per_run() {
    let a = Torrent::parse_decoded(single()).unwrap();
    let b = Torrent::parse_decoded(single()).unwrap();
    assert_ne!(a.peer_id, b.peer_id);
    assert_eq!(a.info_hash, b.info_hash);
}

#[test]
fn torrent_gives_a_fresh_scheduler() {
    let t = Torrent::parse_decoded(single()).unwrap();
    let s = t.scheduler().unwrap();
    assert_eq!(s.downloaded, 0);
    assert_eq!(s.total_length, 40000);
    assert_eq!(s.pieces.len(), 2);
    assert_eq!(s.pieces[0].length, 32768);
    assert_eq!(s.pieces[1].length, 40000 - 32768);
    for p in &s.pieces {
        assert_eq!(p.rarity, 0);
        assert!(!p.verified);
        assert!(p.blocks.iter().all(|b| b.state == r_torrent::scheduler::BlockState::Missing));
        assert_eq!(p.blocks.iter().map(|b| b.length).sum::<u64>(), p.length);
    }
    assert!(!s.is_complete());
}

#[test]
fn climbing_or_nul_components_are_bad_paths() {
    assert_eq!(fault_of(b"d8:announce1:u4:infod5:filesld6:lengthi1e4:pathl4:../xeee4:name1:a12:piece lengthi1e6:pieces0:ee"), MetainfoFault::BadPath);
    assert_eq!(fault_of(b"d8:announce1:u4:infod5:filesld6:lengthi1e4:pathl11:a/../../etceee4:name1:a12:piece lengthi1e6:pieces0:ee"), MetainfoFault::BadPath);
    assert_eq!(fault_of(b"d8:announce1:u4:infod4:name4:../x12:piece lengthi1e6:pieces0:6:lengthi0eee"), MetainfoFault::BadPath);
    assert_eq!(fault_of(b"d8:announce1:u4:infod4:name3:a\x00b12:piece lengthi1e6:pieces0:6:lengthi0eee"), MetainfoFault::BadPath);
}

#[test]
fn announce_urls_in_order_without_repeats() {
    let mut b = b"d8:announce2:u213:announce-listll2:u12:u2el2:u32:u1ee4:infod6:lengthi1e4:name1:a12:piece lengthi1e6:pieces20:".to_vec();
    b.extend_from_slice(&[0; 20]);
    b.extend_from_slice(b"ee");
    let t = Torrent::parse_decoded(b).unwrap();
    assert_eq!(t.announce_urls(), vec![b"u2".to_vec(), b"u1".to_vec(), b"u3".to_vec()]);
}
