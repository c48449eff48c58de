use r_torrent::helpers::gen_random_id;
use r_torrent::message::{frame_length, HandshakeMsg, Message};

#[test]
fn test_build_msg() {
    let buf = HandshakeMsg::build_msg(gen_random_id(), gen_random_id());
    assert_eq!(buf.len(), 68);
}

#[test]
fn handshake_layout() {
    let info_hash: [u8; 20] = [7; 20];
    let mut peer_id: [u8; 20] = [9; 20];
    peer_id[19] = 1;
    let buf = HandshakeMsg::build_msg(info_hash, peer_id);
    assert_eq!(buf[0], 19);
    assert_eq!(&buf[1..20], "BitTorrent protocol".as_bytes());
    assert_eq!(&buf[20..28], &[0u8; 8]);
    assert_eq!(&buf[28..48], &info_hash);
    assert_eq!(&buf[48..68], &peer_id);
}

#[test]
fn handshake_is_accepted_by_its_protocol_string() {
    let ours = HandshakeMsg::build_msg([1; 20], [2; 20]);
    assert!(HandshakeMsg::accepts(&ours));
    let mut theirs = ours.clone();
    for b in theirs[20..68].iter_mut() {
        *b = 0xee;
    }
    assert!(HandshakeMsg::accepts(&theirs));
    let mut wrong = ours.clone();
    wrong[5] = b'x';
    assert!(!HandshakeMsg::accepts(&wrong));
    let mut wrong = ours.clone();
    wrong[0] = 18;
    assert!(!HandshakeMsg::accepts(&wrong));
    assert!(!HandshakeMsg::accepts(&ours[..64]));
    assert!(!HandshakeMsg::accepts(&[]));
    let mut long = ours.clone();
    long.push(0);
    assert!(!HandshakeMsg::accepts(&long));
}

#[test]
fn request_frame_is_big_endian() {
    assert_eq!(
        Message::build_request(1, 16384, 14464),
        vec![0, 0, 0, 13, 6, 0, 0, 0, 1, 0, 0, 0x40, 0, 0, 0, 0x38, 0x80]
    );
    assert_eq!(
        Message::build_request(0x01020304, 0xa0b0c0d0, 0xffffffff),
        vec![0, 0, 0, 13, 6, 1, 2, 3, 4, 0xa0, 0xb0, 0xc0, 0xd0, 0xff, 0xff, 0xff, 0xff]
    );
}

#[test]
fn bare_frames() {
    assert_eq!(Message::build_choke(), vec![0, 0, 0, 1, 0]);
    assert_eq!(Message::build_unchoke(), vec![0, 0, 0, 1, 1]);
    assert_eq!(Message::build_have(0x12345678), vec![0, 0, 0, 5, 4, 0x12, 0x34, 0x56, 0x78]);
}

#[test]
fn read_request_reads_back_what_build_request_wrote() {
    let frame = Message::build_request(3, 32768, 16384);
    match Message::read_request(&frame[4..]) {
        Some(Message::Request { length, id, index, begin, req_length }) => {
            assert_eq!((length, id, index, begin, req_length), (13, 6, 3, 32768, 16384));
        }
        other => panic!("no request: {:?}", other),
    }
    assert!(Message::read_request(&frame[4..16]).is_none());
    assert!(Message::read_request(&[]).is_none());
}

#[test]
fn messages_carry_their_length_and_id() {
    assert!(matches!(Message::build_keep_alive(), Message::KeepAlive { length: 0 }));
    assert!(matches!(Message::build_interested(), Message::Interested { length: 1, id: 2 }));
    assert!(matches!(Message::build_uninterested(), Message::Uninterested { length: 1, id: 3 }));
    match Message::build_bitfield(vec![0xc0, 0x80]) {
        Message::BitField { length, id, bitfield } => {
            assert_eq!((length, id, bitfield), (3, 5, vec![0xc0, 0x80]));
        }
        other => panic!("no bitfield: {:?}", other),
    }
    match Message::build_piece(2, 16384, vec![1, 2, 3]) {
        Message::Piece { length, id, index, begin, block } => {
            assert_eq!((length, id, index, begin, block), (12, 7, 2, 16384, vec![1, 2, 3]));
        }
        other => panic!("no piece: {:?}", other),
    }
    assert!(matches!(
        Message::build_cancel(1, 2, 3),
        Message::Cancel { length: 13, id: 8, index: 1, begin: 2, req_length: 3 }
    ));
    assert!(matches!(Message::build_port(6881), Message::Port { length: 3, id: 9, listen_port: 6881 }));
}

#[test]
fn frame_length_reads_the_prefix() {
    assert_eq!(frame_length(&[0, 0, 0, 0]), Some(0));
    assert_eq!(frame_length(&[0, 0, 0x40, 0x09]), Some(16393));
    assert_eq!(frame_length(&[0xff, 0xff, 0xff, 0xff]), Some(u32::MAX));
    assert_eq!(frame_length(&[1, 2, 3]), None);
}

#[test]
fn frames_are_read() {
    assert!(matches!(Message::read(&[]), Some(Message::KeepAlive { length: 0 })));
    assert!(matches!(Message::read(&[0]), Some(Message::Choke { length: 1, id: 0 })));
    assert!(matches!(Message::read(&[1]), Some(Message::Unchoke { length: 1, id: 1 })));
    assert!(matches!(Message::read(&[2]), Some(Message::Interested { length: 1, id: 2 })));
    assert!(matches!(Message::read(&[3]), Some(Message::Uninterested { length: 1, id: 3 })));
    assert!(matches!(
        Message::read(&[4, 0, 0, 1, 2]),
        Some(Message::Have { length: 5, id: 4, piece_index: 258 })
    ));
    match Message::read(&[5, 0xc0, 0x80]) {
        Some(Message::BitField { length, id, bitfield }) => {
            assert_eq!((length, id, bitfield), (3, 5, vec![0xc0, 0x80]));
        }
        other => panic!("no bitfield: {:?}", other),
    }
    assert!(matches!(
        Message::read(&[6, 0, 0, 0, 1, 0, 0, 0x40, 0, 0, 0, 0x38, 0x80]),
        Some(Message::Request { length: 13, id: 6, index: 1, begin: 16384, req_length: 14464 })
    ));
    match Message::read(&[7, 0, 0, 0, 2, 0, 0, 0x40, 0, 9, 8, 7]) {
        Some(Message::Piece { length, id, index, begin, block }) => {
            assert_eq!((length, id, index, begin, block), (12, 7, 2, 16384, vec![9, 8, 7]));
        }
        other => panic!("no piece: {:?}", other),
    }
    assert!(matches!(
        Message::read(&[8, 0, 0, 0, 1, 0, 0, 0, 2, 0, 0, 0, 3]),
        Some(Message::Cancel { length: 13, id: 8, index: 1, begin: 2, req_length: 3 })
    ));
    assert!(matches!(
        Message::read(&[9, 0x1a, 0xe1]),
        Some(Message::Port { length: 3, id: 9, listen_port: 6881 })
    ));
}

#[test]
fn frames_of_the_wrong_length_or_id_carry_no_message() {
    assert!(Message::read(&[0, 0]).is_none());
    assert!(Message::read(&[3, 1]).is_none());
    assert!(Message::read(&[4, 0, 0, 1]).is_none());
    assert!(Message::read(&[4, 0, 0, 1, 2, 3]).is_none());
    assert!(Message::read(&[6, 0, 0, 0, 1]).is_none());
    assert!(Message::read(&[7, 0, 0, 0, 2, 0, 0, 0x40]).is_none());
    assert!(Message::read(&[8]).is_none());
    assert!(Message::read(&[9, 1]).is_none());
    assert!(Message::read(&[10]).is_none());
    assert!(Message::read(&[255, 0, 0]).is_none());
}

#[test]
fn frames_are_written_and_read_back() {
    let messages = vec![
        Message::build_keep_alive(),
        Message::build_interested(),
        Message::build_uninterested(),
        Message::build_bitfield(vec![1, 2, 3]),
        Message::build_bitfield(vec![]),
        Message::build_piece(5, 16384, vec![0xaa; 40]),
        Message::build_cancel(1, 2, 3),
        Message::build_port(51413),
        Message::Have { length: 5, id: 4, piece_index: 77 },
        Message::Request { length: 13, id: 6, index: 1, begin: 2, req_length: 3 },
        Message::Choke { length: 1, id: 0 },
        Message::Unchoke { length: 1, id: 1 },
    ];
    for m in messages {
        let frame = m.to_buf().unwrap();
        assert_eq!(frame_length(&frame[..4]), Some((frame.len() - 4) as u32));
        let back = Message::read(&frame[4..]).unwrap();
        assert_eq!(format!("{:?}", back), format!("{:?}", m));
    }
    assert_eq!(Message::build_keep_alive().to_buf(), Some(vec![0, 0, 0, 0]));
    assert_eq!(Message::build_port(6881).to_buf(), Some(vec![0, 0, 0, 3, 9, 0x1a, 0xe1]));
    assert_eq!(
        Message::Have { length: 5, id: 4, piece_index: 1 }.to_buf(),
        Some(Message::build_have(1))
    );
    assert_eq!(
        Message::Request { length: 13, id: 6, index: 1, begin: 2, req_length: 3 }.to_buf(),
        Some(Message::build_request(1, 2, 3))
    );
    assert_eq!(Message::Choke { length: 1, id: 0 }.to_buf(), Some(Message::build_choke()));
    // the frame is that of what the message is, whatever length and id it holds
    assert_eq!(Message::Unchoke { length: 9, id: 9 }.to_buf(), Some(Message::build_unchoke()));
}
