use r_torrent::helpers::push_url_encoded;
use r_torrent::tracker::{
    announce_request, announce_targets, announce_timeout, build_announce_req,
    build_connection_req, connection_request, get_peers, http_announce_url, parse_announce_resp,
    parse_connection_resp, parse_http_resp, parse_url, tracker_kind, url_parser, Request,
    TrackerKind, TrackerStep, UdpAction, UdpState, UdpTracker,
};

#[test]
fn url_percent_encode() {
    let mut out = String::new();
    push_url_encoded(&mut out, &[0x12, 0x34, 0x56, 0x78]);
    assert_eq!(out, "%124Vx");
    let mut out = String::from("x=");
    push_url_encoded(&mut out, &[0x00, b'~', 0xff, b' ', b'Z']);
    assert_eq!(out, "x=%00~%FF%20Z");
}

#[test]
fn connect_request_layout() {
    assert_eq!(
        connection_request(0x01020304),
        vec![0, 0, 0x04, 0x17, 0x27, 0x10, 0x19, 0x80, 0, 0, 0, 0, 1, 2, 3, 4]
    );
    let (bytes, transaction_id) = build_connection_req();
    assert_eq!(bytes, connection_request(transaction_id));
}

#[test]
fn announce_request_layout() {
    let info_hash: [u8; 20] = [0xaa; 20];
    let peer_id: [u8; 20] = [0xbb; 20];
    let buf = announce_request(
        0x1122334455667788,
        0x0a0b0c0d,
        0x01020304,
        &info_hash,
        80000,
        &peer_id,
        16384,
        6881,
    );
    assert_eq!(buf.len(), 98);
    assert_eq!(&buf[0..8], &[0x11, 0x22, 0x33, 0x44, 0x55, 0x66, 0x77, 0x88]);
    assert_eq!(&buf[8..12], &[0, 0, 0, 1]);
    assert_eq!(&buf[12..16], &[0x0a, 0x0b, 0x0c, 0x0d]);
    assert_eq!(&buf[16..36], &info_hash);
    assert_eq!(&buf[36..56], &peer_id);
    assert_eq!(&buf[56..64], &16384u64.to_be_bytes());
    assert_eq!(&buf[64..72], &80000u64.to_be_bytes());
    assert_eq!(&buf[72..80], &[0; 8]);
    assert_eq!(&buf[80..84], &[0; 4]);
    assert_eq!(&buf[84..88], &[0; 4]);
    assert_eq!(&buf[88..92], &[1, 2, 3, 4]);
    assert_eq!(&buf[92..96], &[0xff, 0xff, 0xff, 0xff]);
    assert_eq!(&buf[96..98], &[0x1a, 0xe1]);
    let (bytes, transaction_id) = build_announce_req(7, &info_hash, &80000, &peer_id, 0, 6882);
    assert_eq!(bytes.len(), 98);
    assert_eq!(&bytes[12..16], &transaction_id.to_be_bytes());
    assert_eq!(&bytes[96..98], &6882u16.to_be_bytes());
}

#[test]
fn request_writes_every_field() {
    let req = Request {
        connection_id: 1,
        action: 2,
        transaction_id: 3,
        info_hash: [4; 20],
        peer_id: [5; 20],
        downloaded: 6,
        left: 7,
        uploaded: 8,
        event: 9,
        ip_addr: 10,
        key: 11,
        num_want: -2,
        port: 12,
    };
    let buf = req.to_buf();
    let mut expected: Vec<u8> = Vec::new();
    expected.extend_from_slice(&1u64.to_be_bytes());
    expected.extend_from_slice(&2u32.to_be_bytes());
    expected.extend_from_slice(&3u32.to_be_bytes());
    expected.extend_from_slice(&[4; 20]);
    expected.extend_from_slice(&[5; 20]);
    expected.extend_from_slice(&6u64.to_be_bytes());
    expected.extend_from_slice(&7u64.to_be_bytes());
    expected.extend_from_slice(&8u64.to_be_bytes());
    expected.extend_from_slice(&9u32.to_be_bytes());
    expected.extend_from_slice(&10u32.to_be_bytes());
    expected.extend_from_slice(&11u32.to_be_bytes());
    expected.extend_from_slice(&(-2i32).to_be_bytes());
    expected.extend_from_slice(&12u16.to_be_bytes());
    assert_eq!(buf, expected);
}

#[test]
fn connect_response() {
    let mut buf = vec![0, 0, 0, 0, 0xde, 0xad, 0xbe, 0xef];
    buf.extend_from_slice(&0x0102030405060708u64.to_be_bytes());
    assert_eq!(parse_connection_resp(&buf), Some((0, 0xdeadbeef, 0x0102030405060708)));
    assert_eq!(parse_connection_resp(&buf[..15]), None);
    buf.push(9);
    assert_eq!(parse_connection_resp(&buf), Some((0, 0xdeadbeef, 0x0102030405060708)));
}

fn announce_reply(transaction_id: u32, seeders: u32, peers: &[(u32, u16)]) -> Vec<u8> {
    let mut buf: Vec<u8> = Vec::new();
    buf.extend_from_slice(&1u32.to_be_bytes());
    buf.extend_from_slice(&transaction_id.to_be_bytes());
    buf.extend_from_slice(&1800u32.to_be_bytes());
    buf.extend_from_slice(&4u32.to_be_bytes());
    buf.extend_from_slice(&seeders.to_be_bytes());
    for (ip, port) in peers {
        buf.extend_from_slice(&ip.to_be_bytes());
        buf.extend_from_slice(&port.to_be_bytes());
    }
    buf
}

#[test]
fn announce_response() {
    let peers = [(0xc0a80001, 6881), (0x0a000002, 51413)];
    let buf = announce_reply(77, 2, &peers);
    let resp = parse_announce_resp(&buf).unwrap();
    assert_eq!(resp.action, 1);
    assert_eq!(resp.transaction_id, 77);
    assert_eq!(resp.interval, 1800);
    assert_eq!(resp.leechers, 4);
    assert_eq!(resp.seeders, 2);
    assert_eq!(resp.peer_list, peers.to_vec());
    // too short for its header, or for as many peers as it has seeders
    assert!(parse_announce_resp(&buf[..19]).is_none());
    assert!(parse_announce_resp(&buf[..31]).is_none());
    assert!(parse_announce_resp(&announce_reply(77, 3, &peers)).is_none());
    assert!(parse_announce_resp(&announce_reply(77, u32::MAX, &peers)).is_none());
    // no seeders, no peers
    assert_eq!(parse_announce_resp(&announce_reply(1, 0, &peers)).unwrap().peer_list, vec![]);
    // a reply padded with zeros names the peers that the zeros spell
    let mut padded = announce_reply(77, 3, &peers);
    padded.extend_from_slice(&[0; 100]);
    assert_eq!(
        parse_announce_resp(&padded).unwrap().peer_list,
        vec![(0xc0a80001, 6881), (0x0a000002, 51413), (0, 0)]
    );
}

#[test]
fn announce_waits_double() {
    let waits: Vec<u64> = (0..8).map(announce_timeout).collect();
    assert_eq!(waits, vec![15, 30, 60, 120, 240, 480, 960, 1920]);
}

#[test]
fn http_announce_url_text() {
    let mut info_hash: [u8; 20] = [b'a'; 20];
    info_hash[0] = 0x12;
    info_hash[19] = 0xff;
    let peer_id: [u8; 20] = [b'-'; 20];
    let url = url_parser(
        info_hash,
        peer_id,
        "http://t.example/announce".to_string(),
        6881,
        1,
        20,
        300,
        true,
        "started",
        Some(50),
    );
    assert_eq!(
        url,
        "http://t.example/announce?info_hash=%12aaaaaaaaaaaaaaaaaa%FF&peer_id=--------------------&port=6881&uploaded=1&downloaded=20&left=300&compact=1&event=started&numwant=50"
    );
    let url = url_parser(
        [b'x'; 20],
        [b'y'; 20],
        "u".to_string(),
        0,
        0,
        u64::MAX,
        0,
        false,
        "",
        None,
    );
    assert_eq!(
        url,
        "u?info_hash=xxxxxxxxxxxxxxxxxxxx&peer_id=yyyyyyyyyyyyyyyyyyyy&port=0&uploaded=0&downloaded=18446744073709551615&left=0&compact=0&event="
    );
    let url = http_announce_url(&[b'x'; 20], &1000, &[b'y'; 20], "h".to_string(), 6882, 400);
    assert_eq!(
        url,
        "h?info_hash=xxxxxxxxxxxxxxxxxxxx&peer_id=yyyyyyyyyyyyyyyyyyyy&port=6882&uploaded=0&downloaded=400&left=600&compact=1&event=started&numwant=50"
    );
    let url = http_announce_url(&[b'x'; 20], &1000, &[b'y'; 20], "h".to_string(), 6882, 1400);
    assert!(url.contains("&downloaded=1400&left=0&"));
}

#[test]
fn http_response_peers() {
    let mut body = b"d8:intervali1800e5:peers12:".to_vec();
    body.extend_from_slice(&[192, 168, 0, 1, 0x1a, 0xe1, 10, 0, 0, 2, 0xc8, 0xd5]);
    body.push(b'e');
    assert_eq!(parse_http_resp(body), vec![(0xc0a80001, 6881), (0x0a000002, 51413)]);
    // a peer list whose length is no multiple of six, or that is no byte string, names no peer
    assert_eq!(parse_http_resp(b"d5:peers7:abcdefge".to_vec()), vec![]);
    assert_eq!(parse_http_resp(b"d5:peersli1eee".to_vec()), vec![]);
    assert_eq!(parse_http_resp(b"d5:peers0:e".to_vec()), vec![]);
    // nor does a response without peers, or one that is no bencoded mapping
    assert_eq!(parse_http_resp(b"d14:failure reason3:bade".to_vec()), vec![]);
    assert_eq!(parse_http_resp(b"li1ee".to_vec()), vec![]);
    assert_eq!(parse_http_resp(b"<html>".to_vec()), vec![]);
    assert_eq!(parse_http_resp(vec![]), vec![]);
}

#[test]
fn tracker_is_chosen_by_scheme() {
    assert_eq!(tracker_kind("udp://tracker.example:6969/announce"), TrackerKind::Udp);
    assert_eq!(tracker_kind("http://tracker.example/announce"), TrackerKind::Http);
    assert_eq!(tracker_kind("https://tracker.example/announce"), TrackerKind::Http);
    assert_eq!(tracker_kind("udp:/x"), TrackerKind::Unknown);
    assert_eq!(tracker_kind("wss://tracker.example"), TrackerKind::Unknown);
    assert_eq!(tracker_kind("udp"), TrackerKind::Unknown);
    assert_eq!(tracker_kind(""), TrackerKind::Unknown);
}

#[test]
fn trackers_get_ports_in_order() {
    let targets = announce_targets(
        &Some("first".to_string()),
        &Some(vec!["second".to_string(), "third".to_string()]),
    );
    assert_eq!(
        targets,
        vec![("first".to_string(), 6881), ("second".to_string(), 6882), ("third".to_string(), 6883)]
    );
    let targets = announce_targets(&None, &Some(vec!["only".to_string()]));
    assert_eq!(targets, vec![("only".to_string(), 6881)]);
    assert!(announce_targets(&None, &None).is_empty());
    assert_eq!(announce_targets(&Some("a".to_string()), &None), vec![("a".to_string(), 6881)]);
    let many: Vec<String> = (0..60000).map(|i| i.to_string()).collect();
    let targets = announce_targets(&None, &Some(many));
    assert_eq!(targets.len(), 65535 - 6881 + 1);
    assert_eq!(targets.last(), Some(&("58654".to_string(), 65535)));
}

#[test]
fn tracker_loop_steps() {
    assert_eq!(get_peers(0, 0, 0), TrackerStep::Stop);
    assert_eq!(get_peers(0, 100, 5), TrackerStep::Stop);
    assert_eq!(get_peers(3, 0, 0), TrackerStep::Announce);
    assert_eq!(get_peers(3, 99, 0), TrackerStep::Announce);
    assert_eq!(get_peers(3, 100, 0), TrackerStep::Wait);
    assert_eq!(get_peers(3, 0, 1), TrackerStep::Wait);
}

#[test]
fn tracker_url_is_split() {
    assert_eq!(
        parse_url("udp://tracker.example.com:6969/announce"),
        Some(("tracker.example.com:6969".to_string(), "/announce".to_string()))
    );
    assert_eq!(
        parse_url("udp://tracker.example.com:80"),
        Some(("tracker.example.com:80".to_string(), "".to_string()))
    );
    assert_eq!(
        parse_url("http://TRACKER.example.com:8080/a/b?c=d"),
        Some(("tracker.example.com:8080".to_string(), "/a/b".to_string()))
    );
    // under a scheme of its own the host is a name, whatever it looks like
    assert_eq!(
        parse_url("udp://10.0.0.1:6969/a"),
        Some(("10.0.0.1:6969".to_string(), "/a".to_string()))
    );
    // the host's name is left empty where the host is an address
    assert_eq!(parse_url("http://10.0.0.1:8080/a"), Some((":8080".to_string(), "/a".to_string())));
    // no port, no host, no URL
    assert_eq!(parse_url("udp://tracker.example.com/announce"), None);
    assert_eq!(parse_url("mailto:someone@example.com"), None);
    assert_eq!(parse_url("not a url"), None);
    assert_eq!(parse_url(""), None);
}

fn connect_reply(transaction_id: u32, connection_id: u64) -> Vec<u8> {
    let mut buf = vec![0, 0, 0, 0];
    buf.extend_from_slice(&transaction_id.to_be_bytes());
    buf.extend_from_slice(&connection_id.to_be_bytes());
    buf
}

#[test]
fn udp_exchange_runs_from_connect_to_peers() {
    let (mut t, action) = UdpTracker::start_with(42, [1; 20], 80000, [2; 20], 6881, 100);
    match action {
        UdpAction::Send { bytes, wait } => {
            assert_eq!(bytes, connection_request(42));
            assert_eq!(wait, 6);
        }
        other => panic!("nothing sent: {:?}", other),
    }
    assert_eq!(t.state, UdpState::Connecting { transaction_id: 42 });
    match t.on_reply_with(&connect_reply(42, 0x77), 43, 9) {
        UdpAction::Send { bytes, wait } => {
            assert_eq!(bytes, announce_request(0x77, 43, 9, &[1; 20], 80000, &[2; 20], 100, 6881));
            assert_eq!(wait, 15);
        }
        other => panic!("nothing sent: {:?}", other),
    }
    assert_eq!(t.state, UdpState::Announcing { transaction_id: 43, attempt: 0 });
    match t.on_reply_with(&announce_reply(43, 1, &[(5, 6)]), 0, 0) {
        UdpAction::Finish(peers) => assert_eq!(peers, Some(vec![(5, 6)])),
        other => panic!("not over: {:?}", other),
    }
    assert_eq!(t.state, UdpState::Done);
    assert!(matches!(t.on_reply_with(&announce_reply(43, 1, &[(5, 6)]), 0, 0), UdpAction::Finish(None)));
    assert!(matches!(t.on_timeout(), UdpAction::Finish(None)));
}

#[test]
fn udp_exchange_checks_the_transaction_id() {
    let (mut t, _) = UdpTracker::start_with(42, [1; 20], 1, [2; 20], 6881, 0);
    assert!(matches!(t.on_reply_with(&connect_reply(41, 7), 43, 9), UdpAction::Finish(None)));
    assert_eq!(t.state, UdpState::Done);
    let (mut t, _) = UdpTracker::start_with(42, [1; 20], 1, [2; 20], 6881, 0);
    assert!(matches!(t.on_reply_with(&connect_reply(42, 7)[..12], 43, 9), UdpAction::Finish(None)));
    let (mut t, _) = UdpTracker::start_with(42, [1; 20], 1, [2; 20], 6881, 0);
    assert!(matches!(t.on_reply_with(&connect_reply(42, 7), 43, 9), UdpAction::Send { .. }));
    assert!(matches!(t.on_reply_with(&announce_reply(44, 1, &[(5, 6)]), 0, 0), UdpAction::Finish(None)));
    let (mut t, _) = UdpTracker::start_with(42, [1; 20], 1, [2; 20], 6881, 0);
    assert!(matches!(t.on_timeout(), UdpAction::Finish(None)));
    assert_eq!(t.state, UdpState::Done);
}

#[test]
fn udp_announce_is_sent_eight_times() {
    let (mut t, _) = UdpTracker::start_with(42, [1; 20], 1, [2; 20], 6881, 0);
    let first = match t.on_reply_with(&connect_reply(42, 7), 43, 9) {
        UdpAction::Send { bytes, .. } => bytes,
        other => panic!("nothing sent: {:?}", other),
    };
    let mut waits: Vec<u64> = vec![15];
    loop {
        match t.on_timeout() {
            UdpAction::Send { bytes, wait } => {
                assert_eq!(bytes, first);
                waits.push(wait);
            }
            UdpAction::Finish(peers) => {
                assert_eq!(peers, None);
                break;
            }
        }
    }
    assert_eq!(waits, vec![15, 30, 60, 120, 240, 480, 960, 1920]);
    assert_eq!(t.state, UdpState::Done);
}

#[test]
fn udp_exchange_draws_its_numbers() {
    let (mut t, action) = UdpTracker::start([1; 20], 1, [2; 20], 6881, 0);
    let sent = match t.state {
        UdpState::Connecting { transaction_id } => transaction_id,
        other => panic!("not connecting: {:?}", other),
    };
    match action {
        UdpAction::Send { bytes, .. } => assert_eq!(bytes, connection_request(sent)),
        other => panic!("nothing sent: {:?}", other),
    }
    match t.on_reply(&connect_reply(sent, 7)) {
        UdpAction::Send { bytes, wait } => {
            assert_eq!(bytes.len(), 98);
            assert_eq!(&bytes[0..8], &7u64.to_be_bytes());
            assert_eq!(wait, 15);
        }
        other => panic!("nothing sent: {:?}", other),
    }
}
