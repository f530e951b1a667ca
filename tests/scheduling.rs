use r_torrent::message::Message;
use r_torrent::scheduler::{BlockState, Scheduler, BLOCK_SIZE};
use r_torrent::session::{Action, Session};

fn sched(total: u64, piece_length: u64, n: usize) -> Scheduler {
    Scheduler::new(total, piece_length, &vec![[0u8; 20]; n]).unwrap()
}

fn requests(acts: &[Action]) -> Vec<(u32, u32, u32)> {
    acts.iter()
        .filter_map(|a| match a {
            Action::Request { index, begin, length } => Some((*index, *begin, *length)),
            _ => None,
        })
        .collect()
}

#[test]
fn pieces_are_tiled_by_blocks() {
    let s = sched(100_000, 40_000, 3);
    let lengths: Vec<u64> = s.pieces.iter().map(|p| p.length).collect();
    assert_eq!(lengths, vec![40_000, 40_000, 20_000]);
    for p in &s.pieces {
        let sum: u64 = p.blocks.iter().map(|b| b.length).sum();
        assert_eq!(sum, p.length);
        assert_eq!(p.blocks[0].offset, p.offset);
        for w in p.blocks.windows(2) {
            assert_eq!(w[1].offset, w[0].offset + w[0].length);
        }
        assert!(p.blocks.iter().all(|b| b.length <= BLOCK_SIZE && b.state == BlockState::Missing));
    }
    let firsts: Vec<u64> = s.pieces[0].blocks.iter().map(|b| b.length).collect();
    assert_eq!(firsts, vec![16384, 16384, 7232]);
}

#[test]
fn wrong_hash_count_is_refused() {
    assert!(Scheduler::new(100_000, 40_000, &vec![[0u8; 20]; 2]).is_none());
    assert!(Scheduler::new(100_000, 0, &vec![[0u8; 20]; 3]).is_none());
    assert_eq!(Scheduler::new(0, 10, &vec![]).unwrap().piece_total(), 0);
}

#[test]
fn rarest_first_lowest_index_on_ties() {
    let mut s = sched(4 * 16384, 16384, 4);
    for (i, r) in [3u64, 1, 1, 2].iter().enumerate() {
        for _ in 0..*r {
            s.increment_rarity(i);
        }
    }
    let got = s.reserve_rarest_for(7, &vec![true, true, true, true]).unwrap();
    assert_eq!(got.0, 1);
    assert_eq!(got.1, vec![0]);
    assert_eq!(s.pieces[1].blocks[0].state, BlockState::Reserved { session: 7 });
}

#[test]
fn no_double_assignment() {
    let mut s = sched(2 * 16384, 16384, 2);
    let a = s.reserve_rarest_for(1, &vec![true, false]).unwrap();
    assert_eq!(a.0, 0);
    assert!(s.reserve_rarest_for(2, &vec![true, false]).is_none());
    let b = s.reserve_rarest_for(2, &vec![true, true]).unwrap();
    assert_eq!(b.0, 1);
    assert!(!s.complete_block(2, 0, 0));
    assert_eq!(s.pieces[0].blocks[0].state, BlockState::Reserved { session: 1 });
    s.release_reservation(2, 0);
    assert_eq!(s.pieces[0].blocks[0].state, BlockState::Reserved { session: 1 });
    s.release_reservation(1, 0);
    assert_eq!(s.pieces[0].blocks[0].state, BlockState::Missing);
}

#[test]
fn bitfield_message_sets_bits_and_rarity() {
    let mut s = sched(9 * 16384, 16384, 9);
    let mut sess = Session::new(1, 9);
    let acts = sess.handle(&mut s, Message::build_bitfield(vec![0b1011_0000, 0b0000_0000]));
    assert!(acts.is_empty());
    let set: Vec<usize> = (0..9).filter(|i| sess.peer_bitfield[*i]).collect();
    assert_eq!(set, vec![0, 2, 3]);
    let rarity: Vec<u64> = s.pieces.iter().map(|p| p.rarity).collect();
    assert_eq!(rarity, vec![1, 0, 1, 1, 0, 0, 0, 0, 0]);
    sess.handle(&mut s, Message::build_have(2));
    assert_eq!(s.pieces[2].rarity, 1);
    sess.handle(&mut s, Message::build_have(5));
    assert_eq!(s.pieces[5].rarity, 1);
    let acts = sess.handle(&mut s, Message::build_have(9));
    assert!(matches!(acts.as_slice(), [Action::Close]));
    let acts = sess.handle(&mut s, Message::build_bitfield(vec![0xFF]));
    assert!(matches!(acts.as_slice(), [Action::Close]));
}

#[test]
fn hash_mismatch_resets_piece_and_counter() {
    let mut s = sched(40_000, 20_000, 2);
    let mut sess = Session::new(3, 2);
    sess.handle(&mut s, Message::build_bitfield(vec![0b1100_0000]));
    let acts = sess.handle(&mut s, Message::build_unchoke());
    let reqs = requests(&acts);
    assert_eq!(reqs, vec![(0, 0, 16384), (0, 16384, 3616)]);
    let mut verify = None;
    for (index, begin, length) in reqs {
        let data: Vec<u8> = (0..length).map(|_| rand::random::<u8>()).collect();
        let acts = sess.handle(&mut s, Message::build_piece(index, begin, data));
        for a in &acts {
            if let Action::Verify { piece } = a {
                verify = Some(*piece);
            }
        }
    }
    assert_eq!(verify, Some(0));
    assert_eq!(s.downloaded, 20_000);
    let junk: Vec<u8> = (0..20_000).map(|_| rand::random::<u8>()).collect();
    let before = s.downloaded;
    let acts = sess.finish_piece(&mut s, &junk);
    assert_eq!(s.downloaded, before - 20_000);
    assert!(!s.pieces[0].verified);
    assert!(s.pieces[0].blocks.iter().all(|b| b.state == BlockState::Missing || b.state == BlockState::Reserved { session: 3 }));
    assert_eq!(requests(&acts)[0].0, 0);
    assert_eq!(sess.reserved_piece, Some(0));
}

#[test]
fn matching_piece_is_verified_and_completes() {
    let data: Vec<u8> = (0..20_000u32).map(|i| (i % 251) as u8).collect();
    let digest = sha1_smol::Sha1::from(&data).digest().bytes();
    let mut s = Scheduler::new(20_000, 20_000, &vec![digest]).unwrap();
    let mut sess = Session::new(9, 1);
    sess.handle(&mut s, Message::build_have(0));
    let acts = sess.handle(&mut s, Message::build_unchoke());
    let mut last = Vec::new();
    for (index, begin, length) in requests(&acts) {
        let block = data[begin as usize..(begin + length) as usize].to_vec();
        last = sess.handle(&mut s, Message::build_piece(index, begin, block));
    }
    assert!(matches!(last.as_slice(), [Action::Write { .. }, Action::Verify { piece: 0 }]));
    let acts = sess.finish_piece(&mut s, &data);
    assert!(s.pieces[0].verified);
    assert!(s.is_done());
    assert!(matches!(acts.as_slice(), [Action::Close]));
}

#[test]
fn unsolicited_block_is_ignored_and_choke_releases() {
    let mut s = sched(32768, 32768, 1);
    let mut sess = Session::new(4, 1);
    sess.handle(&mut s, Message::build_have(0));
    sess.handle(&mut s, Message::build_unchoke());
    let acts = sess.handle(&mut s, Message::build_piece(0, 5, vec![1, 2, 3]));
    assert!(acts.is_empty());
    assert_eq!(s.downloaded, 0);
    let acts = sess.handle(&mut s, Message::build_choke());
    assert!(acts.is_empty());
    assert!(sess.am_choked);
    assert_eq!(sess.reserved_piece, None);
    assert!(s.pieces[0].blocks.iter().all(|b| b.state == BlockState::Missing));
}

#[test]
fn close_releases_reservation() {
    let mut s = sched(16384, 16384, 1);
    let mut sess = Session::new(5, 1);
    sess.handle(&mut s, Message::build_have(0));
    sess.handle(&mut s, Message::build_unchoke());
    assert_eq!(s.pieces[0].blocks[0].state, BlockState::Reserved { session: 5 });
    sess.close(&mut s);
    assert_eq!(s.pieces[0].blocks[0].state, BlockState::Missing);
}

#[test]
fn resume_counts_matching_pieces() {
    let data = vec![7u8; 100];
    let digest = sha1_smol::Sha1::from(&data).digest().bytes();
    let mut s = Scheduler::new(200, 100, &vec![digest, [0u8; 20]]).unwrap();
    assert!(s.resume_piece(0, &data));
    assert!(!s.resume_piece(1, &data));
    assert_eq!(s.downloaded, 100);
    assert!(s.pieces[0].verified);
    assert!(!s.is_done());
    assert!(s.reserve_rarest_for(1, &vec![true, false]).is_none());
}

#[test]
fn progress_never_decreases_on_delivery() {
    let mut s = sched(50_000, 50_000, 1);
    let mut sess = Session::new(2, 1);
    sess.handle(&mut s, Message::build_have(0));
    let acts = sess.handle(&mut s, Message::build_unchoke());
    let mut seen = vec![s.downloaded];
    for (index, begin, length) in requests(&acts) {
        sess.handle(&mut s, Message::build_piece(index, begin, vec![0; length as usize]));
        seen.push(s.downloaded);
    }
    assert!(seen.windows(2).all(|w| w[0] <= w[1]));
    assert_eq!(*seen.last().unwrap(), 50_000);
}

fn fill_piece(s: &mut Scheduler, session: u64, i: usize) {
    let bf: Vec<bool> = (0..s.piece_total()).map(|k| k == i).collect();
    let (got, ks) = s.reserve_rarest_for(session, &bf).unwrap();
    assert_eq!(got, i);
    for k in ks {
        assert!(s.complete_block(session, i, k));
    }
}

#[test]
fn finalise_with_digest_decides_by_the_digest() {
    let expected = [5u8; 20];
    let mut s = Scheduler::new(30_000, 30_000, &vec![expected]).unwrap();
    assert!(!s.finalise_with_digest(0, &expected));
    fill_piece(&mut s, 1, 0);
    assert_eq!(s.downloaded, 30_000);
    assert!(!s.finalise_with_digest(0, &[6u8; 20]));
    assert_eq!(s.downloaded, 0);
    assert!(s.pieces[0].blocks.iter().all(|b| b.state == BlockState::Missing));
    fill_piece(&mut s, 1, 0);
    assert!(s.finalise_with_digest(0, &expected));
    assert!(s.pieces[0].verified);
    assert_eq!(s.downloaded, 30_000);
    assert!(s.finalise_with_digest(0, &[6u8; 20]));
}

#[test]
fn verify_and_finalise_hashes_the_bytes() {
    let data = vec![3u8; 1000];
    let digest = sha1_smol::Sha1::from(&data).digest().bytes();
    let mut s = Scheduler::new(1000, 1000, &vec![digest]).unwrap();
    fill_piece(&mut s, 2, 0);
    assert!(!s.verify_and_finalise(0, &vec![4u8; 1000]));
    fill_piece(&mut s, 2, 0);
    assert!(s.verify_and_finalise(0, &data));
    assert!(s.is_done());
}

#[test]
fn resume_with_digest_credits_uncounted_bytes() {
    let mut s = Scheduler::new(40_000, 40_000, &vec![[8u8; 20]]).unwrap();
    let (_, ks) = s.reserve_rarest_for(1, &vec![true]).unwrap();
    assert!(s.complete_block(1, 0, ks[0]));
    assert_eq!(s.downloaded, 16384);
    assert!(!s.resume_with_digest(0, &[9u8; 20]));
    assert_eq!(s.downloaded, 16384);
    assert!(s.resume_with_digest(0, &[8u8; 20]));
    assert_eq!(s.downloaded, 40_000);
    assert!(s.pieces[0].blocks.iter().all(|b| b.state == BlockState::Present));
}

#[test]
fn complete_only_after_every_check() {
    let data = vec![1u8; 500];
    let digest = sha1_smol::Sha1::from(&data).digest().bytes();
    let mut s = Scheduler::new(500, 500, &vec![digest]).unwrap();
    fill_piece(&mut s, 1, 0);
    assert!(s.is_done());
    assert!(!s.is_complete());
    assert!(s.verify_and_finalise(0, &data));
    assert!(s.is_complete());
}
