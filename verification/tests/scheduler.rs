use r_torrent::download::{download_file, verify_piece, PiecePlan};
use r_torrent::message::Message;
use r_torrent::peers::{PeerPool, SpawnStep};
use r_torrent::session::{Action, Session};
use r_torrent::torrent_parser::build_piece_freq;

fn digest(data: &[u8]) -> Vec<u8> {
    sha1_smol::Sha1::from(data).digest().bytes().to_vec()
}

/// A payload of `piece_no` pieces whose bytes are all `piece index + 1`.
fn payload(piece_no: usize, piece_length: u64, length: u64) -> (PiecePlan, Vec<Vec<u8>>) {
    let pieces = build_piece_freq(piece_no, piece_length, length);
    let data: Vec<Vec<u8>> = pieces
        .iter()
        .enumerate()
        .map(|(i, p)| vec![(i + 1) as u8; p.length as usize])
        .collect();
    let hashes: Vec<Vec<u8>> = data.iter().map(|d| digest(d)).collect();
    (PiecePlan::new(pieces, hashes).unwrap(), data)
}

fn ref_nos(plan: &PiecePlan) -> Vec<u16> {
    plan.pieces().iter().map(|p| p.ref_no).collect()
}

fn flags(plan: &PiecePlan, p: usize) -> Vec<bool> {
    plan.pieces()[p].blocks.iter().map(|b| b.is_req).collect()
}

fn piece_frame(index: u32, begin: u32, block: &[u8]) -> Vec<u8> {
    let mut msg = vec![7u8];
    msg.extend_from_slice(&index.to_be_bytes());
    msg.extend_from_slice(&begin.to_be_bytes());
    msg.extend_from_slice(block);
    msg
}

fn unchoked(plan: &mut PiecePlan, bitfield: &[u8]) -> Session {
    let mut s = Session::new(plan.len());
    let mut msg = vec![5u8];
    msg.extend_from_slice(bitfield);
    assert!(matches!(s.handle_message(plan, &msg), Action::Wait));
    assert!(matches!(s.handle_message(plan, &[1]), Action::Wait));
    s
}

#[test]
fn verify_piece_compares_the_digest() {
    let abc: [u8; 20] = [
        169, 153, 62, 54, 71, 6, 129, 106, 186, 62, 37, 113, 120, 80, 194, 108, 156, 208, 216, 157,
    ];
    assert!(verify_piece(b"abc", &abc));
    assert!(!verify_piece(b"abd", &abc));
    assert!(!verify_piece(b"abc", &abc[..19]));
    assert!(!verify_piece(b"abc", b"abc"));
    assert!(!verify_piece(b"", &[]));
}

#[test]
fn plan_must_be_laid_out() {
    let pieces = build_piece_freq(3, 32768, 80000);
    assert!(PiecePlan::new(pieces, vec![vec![0; 20]; 2]).is_none());
    let mut pieces = build_piece_freq(3, 32768, 80000);
    pieces[1].blocks[1].length = 1;
    assert!(PiecePlan::new(pieces, vec![vec![0; 20]; 3]).is_none());
    let mut pieces = build_piece_freq(3, 32768, 80000);
    pieces[2].blocks.pop();
    assert!(PiecePlan::new(pieces, vec![vec![0; 20]; 3]).is_none());
    let mut pieces = build_piece_freq(3, 32768, 80000);
    pieces[0].completed = true;
    let plan = PiecePlan::new(pieces, vec![vec![0; 20]; 3]).unwrap();
    assert_eq!(plan.pieces_left(), 2);
    assert_eq!(plan.downloaded(), 0);
    assert_eq!(plan.len(), 3);
    assert_eq!(plan.piece_span(2), Some((65536, 14464)));
    assert_eq!(plan.piece_span(3), None);
    assert_eq!(plan.block(1, 1).map(|b| (b.offset, b.length)), Some((49152, 16384)));
    assert!(plan.block(2, 1).is_none());
}

#[test]
fn bitfield_merge() {
    let (mut plan, _) = payload(9, 16384, 9 * 16384);
    let mut s = Session::new(9);
    assert!(matches!(s.handle_message(&mut plan, &[5, 0b1100_0000, 0b1000_0000]), Action::Wait));
    assert_eq!(ref_nos(&plan), vec![1, 1, 0, 0, 0, 0, 0, 0, 1]);
    assert_eq!(
        s.bitfield(),
        &vec![true, true, false, false, false, false, false, false, true]
    );
}

#[test]
fn bitfield_bits_past_the_last_piece_are_ignored() {
    let (mut plan, _) = payload(3, 16384, 3 * 16384);
    let mut s = Session::new(3);
    assert!(matches!(s.handle_message(&mut plan, &[5, 0xff, 0xff, 0xff]), Action::Wait));
    assert_eq!(ref_nos(&plan), vec![1, 1, 1]);
    assert_eq!(s.bitfield(), &vec![true, true, true]);
    let mut s = Session::new(3);
    assert!(matches!(s.handle_message(&mut plan, &[5]), Action::Wait));
    assert_eq!(ref_nos(&plan), vec![1, 1, 1]);
    assert_eq!(s.bitfield(), &vec![false, false, false]);
}

#[test]
fn have_counts_a_piece_once() {
    let (mut plan, _) = payload(3, 16384, 3 * 16384);
    let mut s = Session::new(3);
    assert!(matches!(s.handle_message(&mut plan, &[4, 0, 0, 0, 2]), Action::Wait));
    assert!(matches!(s.handle_message(&mut plan, &[4, 0, 0, 0, 2]), Action::Wait));
    assert_eq!(ref_nos(&plan), vec![0, 0, 1]);
    assert_eq!(s.bitfield(), &vec![false, false, true]);
    // an index past the last piece, or a frame too short, ends the session
    assert!(matches!(s.handle_message(&mut plan, &[4, 0, 0, 0, 3]), Action::Close));
    let mut s = Session::new(3);
    assert!(matches!(s.handle_message(&mut plan, &[4, 0, 0]), Action::Close));
}

#[test]
fn rarest_first_tiebreak() {
    let (mut plan, _) = payload(4, 16384, 4 * 16384);
    for (i, n) in [2usize, 1, 1, 3].iter().enumerate() {
        for _ in 0..*n {
            plan.advertise(i);
        }
    }
    assert_eq!(ref_nos(&plan), vec![2, 1, 1, 3]);
    let (blocks, piece) = plan.make_request(&vec![true, true, true, false]);
    assert_eq!(piece, Some(1));
    assert_eq!(blocks, vec![0]);
    // piece 1 has no free block now: the next rarest is piece 2, then piece 0
    let (_, piece) = plan.make_request(&vec![true, true, true, false]);
    assert_eq!(piece, Some(2));
    let (_, piece) = plan.make_request(&vec![true, true, true, false]);
    assert_eq!(piece, Some(0));
    let (blocks, piece) = plan.make_request(&vec![true, true, true, false]);
    assert_eq!(piece, None);
    assert!(blocks.is_empty());
    let (_, piece) = plan.make_request(&vec![true, true, true, true]);
    assert_eq!(piece, Some(3));
}

#[test]
fn rarest_first_takes_the_least_advertised() {
    let (mut plan, _) = payload(3, 16384, 3 * 16384);
    plan.advertise(0);
    plan.advertise(0);
    plan.advertise(1);
    plan.advertise(1);
    plan.advertise(2);
    let (_, piece) = plan.make_request(&vec![true, true, true]);
    assert_eq!(piece, Some(2));
    // a bitfield shorter than the plan names no piece past its end
    let (_, piece) = plan.make_request(&vec![false]);
    assert_eq!(piece, None);
    let (_, piece) = plan.make_request(&vec![]);
    assert_eq!(piece, None);
}

#[test]
fn advertise_stops_at_the_largest_count() {
    let (mut plan, _) = payload(1, 16384, 16384);
    for _ in 0..70000 {
        plan.advertise(0);
    }
    assert_eq!(ref_nos(&plan), vec![u16::MAX]);
    plan.advertise(7);
    assert_eq!(ref_nos(&plan), vec![u16::MAX]);
}

#[test]
fn make_request_hands_out_all_free_blocks_in_order() {
    let (mut plan, _) = payload(2, 40000, 80000);
    let (blocks, piece) = plan.make_request(&vec![true, true]);
    assert_eq!((blocks, piece), (vec![0, 1, 2], Some(0)));
    assert_eq!(flags(&plan, 0), vec![true, true, true]);
    assert_eq!(flags(&plan, 1), vec![false, false, false]);
    // blocks 0 and 2 come back: they, and only they, are handed out next
    plan.release(0, &vec![2, 0]);
    assert_eq!(flags(&plan, 0), vec![false, true, false]);
    let (blocks, piece) = plan.make_request(&vec![true, false]);
    assert_eq!((blocks, piece), (vec![0, 2], Some(0)));
}

#[test]
fn session_requests_are_pipelined() {
    let (mut plan, _) = payload(3, 32768, 80000);
    let mut s = unchoked(&mut plan, &[0b0010_0000]);
    match s.next_requests(&mut plan) {
        Action::Send(bytes) => {
            assert_eq!(bytes, Message::build_request(2, 0, 14464));
        }
        other => panic!("nothing sent: {:?}", other),
    }
    assert_eq!(s.piece_req(), Some(2));
    assert_eq!(s.requested(), &vec![0]);
    let mut s = unchoked(&mut plan, &[0b1110_0000]);
    match s.next_requests(&mut plan) {
        Action::Send(bytes) => {
            let mut expected = Message::build_request(0, 0, 16384);
            expected.extend_from_slice(&Message::build_request(0, 16384, 16384));
            assert_eq!(bytes, expected);
        }
        other => panic!("nothing sent: {:?}", other),
    }
    assert_eq!(s.requested(), &vec![0, 1]);
    // while blocks are awaited nothing more is asked
    assert!(matches!(s.next_requests(&mut plan), Action::Wait));
}

#[test]
fn session_waits_while_choked_and_ends_without_a_piece_to_ask() {
    let (mut plan, _) = payload(2, 16384, 32768);
    let mut s = Session::new(2);
    s.handle_message(&mut plan, &[5, 0b1100_0000]);
    assert!(s.is_choked());
    assert!(matches!(s.next_requests(&mut plan), Action::Wait));
    s.handle_message(&mut plan, &[1]);
    assert!(!s.is_choked());
    s.handle_message(&mut plan, &[0]);
    assert!(s.is_choked());
    let mut idle = Session::new(2);
    idle.handle_message(&mut plan, &[1]);
    assert!(matches!(idle.next_requests(&mut plan), Action::Close));
}

#[test]
fn session_answers_and_ignores() {
    let (mut plan, _) = payload(2, 16384, 32768);
    let mut s = Session::new(2);
    assert!(matches!(s.handle_message(&mut plan, &[]), Action::Wait));
    match s.handle_message(&mut plan, &[2]) {
        Action::Send(bytes) => assert_eq!(bytes, vec![0, 0, 0, 1, 1]),
        other => panic!("no unchoke: {:?}", other),
    }
    assert!(matches!(s.handle_message(&mut plan, &[3]), Action::Wait));
    assert!(matches!(s.handle_message(&mut plan, &[6, 0, 0, 0, 0, 0, 0, 0, 0, 0, 0, 0, 1]), Action::Wait));
    assert!(matches!(s.handle_message(&mut plan, &[8]), Action::Wait));
    assert!(matches!(s.handle_message(&mut plan, &[9, 0x1a, 0xe1]), Action::Wait));
    assert!(matches!(s.handle_message(&mut plan, &[10]), Action::Close));
    assert!(matches!(s.handle_message(&mut plan, &[255, 1, 2]), Action::Close));
}

#[test]
fn blocks_are_stored_and_the_piece_is_verified() {
    let (mut plan, data) = payload(3, 32768, 80000);
    let mut s = unchoked(&mut plan, &[0b0100_0000]);
    assert!(matches!(s.next_requests(&mut plan), Action::Send(_)));
    assert_eq!(s.piece_req(), Some(1));
    match s.handle_message(&mut plan, &piece_frame(1, 16384, &data[1][16384..])) {
        Action::Store { offset, length, check } => {
            assert_eq!((offset, length, check), (49152, 16384, None));
        }
        other => panic!("nothing stored: {:?}", other),
    }
    assert_eq!(plan.downloaded(), 16384);
    assert_eq!(s.requested(), &vec![0]);
    match s.handle_message(&mut plan, &piece_frame(1, 0, &data[1][..16384])) {
        Action::Store { offset, length, check } => {
            assert_eq!((offset, length, check), (32768, 16384, Some((32768, 32768))));
        }
        other => panic!("nothing stored: {:?}", other),
    }
    assert_eq!(plan.downloaded(), 32768);
    assert!(s.requested().is_empty());
    assert_eq!(plan.pieces_left(), 3);
    assert!(s.piece_read(&mut plan, &data[1]));
    assert_eq!(plan.pieces_left(), 2);
    assert!(plan.pieces()[1].completed);
    assert_eq!(s.piece_req(), None);
    // the completed piece is not asked for again
    assert!(matches!(s.next_requests(&mut plan), Action::Close));
}

#[test]
fn piece_hash_mismatch() {
    let (mut plan, data) = payload(3, 32768, 80000);
    let mut s = unchoked(&mut plan, &[0b1000_0000]);
    assert!(matches!(s.next_requests(&mut plan), Action::Send(_)));
    s.handle_message(&mut plan, &piece_frame(0, 0, &data[0][..16384]));
    s.handle_message(&mut plan, &piece_frame(0, 16384, &data[0][16384..]));
    assert_eq!(flags(&plan, 0), vec![true, true]);
    let mut wrong = data[0].clone();
    wrong[100] ^= 1;
    assert!(!s.piece_read(&mut plan, &wrong));
    assert!(!plan.pieces()[0].completed);
    assert_eq!(flags(&plan, 0), vec![false, false]);
    assert_eq!(plan.pieces_left(), 3);
    // bytes of another length do not match either
    let (mut plan, data) = payload(1, 16384, 16384);
    assert!(!plan.verify(0, &data[0][..16383]));
    assert!(!plan.verify(0, &[]));
    assert!(!plan.verify(1, &data[0]));
    assert!(plan.verify(0, &data[0]));
}

#[test]
fn unawaited_and_misshapen_blocks() {
    let (mut plan, data) = payload(3, 32768, 80000);
    let mut s = unchoked(&mut plan, &[0b1000_0000]);
    // nothing asked yet: a block is ignored
    assert!(matches!(s.handle_message(&mut plan, &piece_frame(0, 0, &data[0][..16384])), Action::Wait));
    assert!(matches!(s.next_requests(&mut plan), Action::Send(_)));
    // a block of another piece, or one received before, is ignored
    assert!(matches!(s.handle_message(&mut plan, &piece_frame(1, 0, &data[1][..16384])), Action::Wait));
    assert!(matches!(s.handle_message(&mut plan, &piece_frame(0, 0, &data[0][..16384])), Action::Store { .. }));
    assert!(matches!(s.handle_message(&mut plan, &piece_frame(0, 0, &data[0][..16384])), Action::Wait));
    assert_eq!(plan.downloaded(), 16384);
    // a block of the wrong length ends the session and frees what it awaited
    assert!(matches!(s.handle_message(&mut plan, &piece_frame(0, 16384, &data[0][..100])), Action::Close));
    assert_eq!(flags(&plan, 0), vec![true, false]);
    assert!(s.requested().is_empty());
    // a frame too short for an index and an offset ends the session
    let mut s = unchoked(&mut plan, &[0b1000_0000]);
    assert!(matches!(s.handle_message(&mut plan, &[7, 0, 0, 0, 0, 0, 0, 0]), Action::Close));
}

#[test]
fn session_loss_gives_back_exactly_the_awaited_blocks() {
    let (mut plan, data) = payload(2, 49152, 98304);
    let mut a = unchoked(&mut plan, &[0b1000_0000]);
    assert!(matches!(a.next_requests(&mut plan), Action::Send(_)));
    assert_eq!(a.requested(), &vec![0, 1, 2]);
    a.handle_message(&mut plan, &piece_frame(0, 16384, &data[0][16384..32768]));
    assert!(matches!(a.close(&mut plan), Action::Close));
    assert_eq!(flags(&plan, 0), vec![false, true, false]);
    assert!(a.requested().is_empty());
    assert_eq!(a.piece_req(), None);
    // another session fills the gap and completes the piece
    let mut b = unchoked(&mut plan, &[0b1000_0000]);
    assert!(matches!(b.next_requests(&mut plan), Action::Send(_)));
    assert_eq!(b.requested(), &vec![0, 2]);
    b.handle_message(&mut plan, &piece_frame(0, 0, &data[0][..16384]));
    match b.handle_message(&mut plan, &piece_frame(0, 32768, &data[0][32768..])) {
        Action::Store { check, .. } => assert_eq!(check, Some((0, 49152))),
        other => panic!("nothing stored: {:?}", other),
    }
    assert!(b.piece_read(&mut plan, &data[0]));
    assert_eq!(plan.pieces_left(), 1);
}

#[test]
fn session_lost_before_the_check_frees_the_piece() {
    let (mut plan, data) = payload(1, 16384, 16384);
    let mut s = unchoked(&mut plan, &[0b1000_0000]);
    assert!(matches!(s.next_requests(&mut plan), Action::Send(_)));
    assert!(matches!(s.handle_message(&mut plan, &piece_frame(0, 0, &data[0])), Action::Store { .. }));
    assert_eq!(flags(&plan, 0), vec![true]);
    s.close(&mut plan);
    assert_eq!(flags(&plan, 0), vec![false]);
    assert!(!plan.pieces()[0].completed);
}

#[test]
fn no_block_is_asked_of_two_sessions() {
    let (mut plan, _) = payload(4, 32768, 4 * 32768);
    let mut sessions: Vec<Session> = (0..6).map(|_| unchoked(&mut plan, &[0b1111_0000])).collect();
    let mut held: Vec<(usize, u32)> = Vec::new();
    for s in sessions.iter_mut() {
        if let Action::Send(_) = s.next_requests(&mut plan) {
            let p = s.piece_req().unwrap();
            for j in s.requested() {
                assert!(!held.contains(&(p, *j)));
                held.push((p, *j));
            }
        }
    }
    assert_eq!(held.len(), 8);
    // a lost session's blocks go to one other session and to no more
    sessions[0].close(&mut plan);
    let mut late = unchoked(&mut plan, &[0b1111_0000]);
    let mut later = unchoked(&mut plan, &[0b1111_0000]);
    assert!(matches!(late.next_requests(&mut plan), Action::Send(_)));
    assert!(matches!(later.next_requests(&mut plan), Action::Close));
    assert_eq!(late.requested(), &vec![0, 1]);
}

#[test]
fn completion_is_not_undone() {
    let (mut plan, data) = payload(2, 16384, 32768);
    assert!(plan.verify(0, &data[0]));
    assert_eq!(plan.pieces_left(), 1);
    assert_eq!(flags(&plan, 0), vec![false]);
    // neither a failed check nor a release nor a reset touches a completed piece
    assert!(!plan.verify(0, &data[1]));
    plan.release(0, &vec![0]);
    plan.reset(0);
    assert!(plan.pieces()[0].completed);
    assert_eq!(plan.pieces_left(), 1);
    // a second match does not count twice
    assert!(plan.verify(0, &data[0]));
    assert_eq!(plan.pieces_left(), 1);
    assert!(plan.verify(1, &data[1]));
    assert_eq!(plan.pieces_left(), 0);
    let (_, piece) = plan.make_request(&vec![true, true]);
    assert_eq!(piece, None);
}

#[test]
fn startup_scan_counts_what_is_there() {
    let (mut plan, data) = payload(3, 32768, 80000);
    assert!(plan.verify_file(2, &data[2]));
    assert!(!plan.verify_file(0, &vec![0; 32768]));
    assert_eq!(plan.pieces_left(), 2);
    assert_eq!(plan.downloaded(), 14464);
    assert!(plan.pieces()[2].completed);
    assert!(!plan.pieces()[0].completed);
}

#[test]
fn downloaded_counter_stops_at_the_top() {
    let (mut plan, _) = payload(1, 16384, 16384);
    plan.add_downloaded(u64::MAX - 5);
    plan.add_downloaded(3);
    assert_eq!(plan.downloaded(), u64::MAX - 2);
    plan.add_downloaded(3);
    assert_eq!(plan.downloaded(), u64::MAX);
}

#[test]
fn spawner_steps() {
    let mut pool = PeerPool::new();
    assert!(matches!(download_file(&mut pool, 0), SpawnStep::Stop));
    assert!(matches!(download_file(&mut pool, 3), SpawnStep::Wait));
    pool.enqueue((1, 6881));
    pool.enqueue((2, 6882));
    assert!(matches!(download_file(&mut pool, 3), SpawnStep::Connect((1, 6881))));
    assert_eq!(pool.pending_len(), 1);
    assert!(matches!(download_file(&mut pool, 0), SpawnStep::Stop));
    assert_eq!(pool.pending_len(), 1);
    for i in 0..100u32 {
        assert!(pool.connected((1000 + i, 1)));
    }
    assert!(matches!(download_file(&mut pool, 3), SpawnStep::Wait));
    pool.disconnected((1000, 1));
    assert!(matches!(download_file(&mut pool, 3), SpawnStep::Connect((2, 6882))));
    assert!(matches!(download_file(&mut pool, 3), SpawnStep::Wait));
}
