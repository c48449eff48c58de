use r_torrent::bencoded_parser::{Bencode, Element};
use r_torrent::torrent_parser::{build_piece_freq, get, InvalidTorrentFile, Torrent};

fn lengths(plan: &[r_torrent::torrent_parser::Piece]) -> Vec<Vec<u64>> {
    plan.iter().map(|p| p.blocks.iter().map(|b| b.length).collect()).collect()
}

fn offsets(plan: &[r_torrent::torrent_parser::Piece]) -> Vec<u64> {
    plan.iter().flat_map(|p| p.blocks.iter().map(|b| b.offset)).collect()
}

#[test]
fn plan_for_a_three_piece_torrent() {
    let plan = build_piece_freq(3, 32768, 80000);
    assert_eq!(plan.len(), 3);
    assert_eq!(plan.iter().map(|p| p.length).collect::<Vec<u64>>(), vec![32768, 32768, 14464]);
    assert_eq!(lengths(&plan), vec![vec![16384, 16384], vec![16384, 16384], vec![14464]]);
    assert_eq!(offsets(&plan), vec![0, 16384, 32768, 49152, 65536]);
    for piece in &plan {
        assert_eq!(piece.ref_no, 0);
        assert!(!piece.completed);
        assert!(piece.blocks.iter().all(|b| !b.is_req));
    }
}

#[test]
fn plan_with_a_short_last_block_in_every_piece() {
    let plan = build_piece_freq(2, 20000, 40000);
    assert_eq!(lengths(&plan), vec![vec![16384, 3616], vec![16384, 3616]]);
    assert_eq!(offsets(&plan), vec![0, 16384, 20000, 36384]);
}

#[test]
fn plan_adds_no_block_where_the_piece_is_a_multiple_of_the_block_size() {
    let plan = build_piece_freq(2, 16384, 32768);
    assert_eq!(lengths(&plan), vec![vec![16384], vec![16384]]);
    let plan = build_piece_freq(1, 49152, 49152);
    assert_eq!(lengths(&plan), vec![vec![16384, 16384, 16384]]);
}

#[test]
fn plan_of_a_piece_shorter_than_a_block() {
    let plan = build_piece_freq(3, 100, 201);
    assert_eq!(lengths(&plan), vec![vec![100], vec![100], vec![1]]);
    assert_eq!(offsets(&plan), vec![0, 100, 200]);
}

#[test]
fn plan_of_nothing_is_empty() {
    assert!(build_piece_freq(0, 32768, 0).is_empty());
}

#[test]
fn plan_covers_the_payload() {
    for (piece_no, piece_length, length) in
        [(3usize, 32768u64, 80000u64), (5, 16385, 81920), (1, 7, 7), (4, 40000, 120001)]
    {
        let plan = build_piece_freq(piece_no, piece_length, length);
        let mut total: u64 = 0;
        let mut next: u64 = 0;
        for piece in &plan {
            assert_eq!(piece.blocks.iter().map(|b| b.length).sum::<u64>(), piece.length);
            for block in &piece.blocks {
                assert!(block.length > 0);
                assert_eq!(block.offset, next);
                next += block.length;
                total += block.length;
            }
        }
        assert_eq!(total, length);
    }
}

fn metainfo(announce: &str, info: &str) -> Vec<u8> {
    let mut buf = b"d".to_vec();
    buf.extend_from_slice(announce.as_bytes());
    buf.extend_from_slice(b"4:info");
    buf.extend_from_slice(info.as_bytes());
    buf.extend_from_slice(b"e");
    buf
}

fn single_file_info(hash_bytes: usize) -> String {
    format!(
        "d6:lengthi80000e4:name5:a.bin12:piece lengthi32768e6:pieces{}:{}e",
        hash_bytes,
        "h".repeat(hash_bytes)
    )
}

fn case_of(buf: Vec<u8>) -> i32 {
    match Torrent::parse_decoded_for(buf, [0; 20]) {
        Err(InvalidTorrentFile { case }) => case,
        Ok(_) => panic!("taken for a metainfo"),
    }
}

#[test]
fn single_file_metainfo() {
    let info = single_file_info(60);
    let buf = metainfo("8:announce16:http://t.co/anno", &info);
    let t = Torrent::parse_decoded_for(buf, [5; 20]).unwrap();
    assert_eq!(t.announce_url, Some("http://t.co/anno".to_string()));
    assert_eq!(t.announce_list, None);
    assert_eq!(t.name, "a.bin");
    assert_eq!(t.length, 80000);
    assert_eq!(t.info_hash, sha1_smol::Sha1::from(info.as_bytes()).digest().bytes());
    assert_eq!(t.peer_id, [5; 20]);
    assert!(t.peer_list.is_empty());
    assert!(t.connections.is_empty());
    assert_eq!(t.downloaded, 0);
    assert_eq!(t.uploaded, 0);
    assert_eq!(t.file_list, None);
    assert_eq!(t.piece_hashes, vec![vec![b'h'; 20]; 3]);
    assert_eq!(t.piece_left, 3);
    assert_eq!(lengths(&t.piece_freq), vec![vec![16384, 16384], vec![16384, 16384], vec![14464]]);
    assert_eq!(offsets(&t.piece_freq), vec![0, 16384, 32768, 49152, 65536]);
}

#[test]
fn multi_file_metainfo() {
    let info = format!(
        "d5:filesld6:lengthi30000e4:pathl3:dir5:a.txteed6:lengthi50000e4:pathl5:b.txteee4:name3:top12:piece lengthi32768e6:pieces60:{}e",
        "p".repeat(60)
    );
    let buf = metainfo("13:announce-listll5:udp-a5:udp-bel6:http-cee", &info);
    let t = Torrent::parse_decoded_for(buf, [0; 20]).unwrap();
    assert_eq!(t.announce_url, None);
    assert_eq!(
        t.announce_list,
        Some(vec!["udp-a".to_string(), "udp-b".to_string(), "http-c".to_string()])
    );
    assert_eq!(t.name, "top");
    assert_eq!(t.length, 80000);
    assert_eq!(
        t.file_list,
        Some(vec![("dir/a.txt".to_string(), 30000), ("b.txt".to_string(), 50000)])
    );
    assert_eq!(t.piece_left, 3);
    assert_eq!(t.info_hash, sha1_smol::Sha1::from(info.as_bytes()).digest().bytes());
}

#[test]
fn announce_is_kept_beside_an_announce_list() {
    let buf = metainfo("8:announce3:one13:announce-listll3:twoee", &single_file_info(60));
    let t = Torrent::parse_decoded_for(buf, [0; 20]).unwrap();
    assert_eq!(t.announce_url, Some("one".to_string()));
    assert_eq!(t.announce_list, Some(vec!["two".to_string()]));
}

#[test]
fn parse_decoded_draws_a_peer_id() {
    let buf = metainfo("8:announce3:url", &single_file_info(60));
    let t = Torrent::parse_decoded(buf).unwrap();
    assert_eq!(t.piece_left, 3);
    assert_eq!(t.peer_id.len(), 20);
}

#[test]
fn metainfo_failures_by_case() {
    let info = single_file_info(60);
    // announce is no byte string
    assert_eq!(case_of(metainfo("8:announcei1e", &info)), 0);
    // announce is no UTF-8
    let mut buf = b"d8:announce1:".to_vec();
    buf.push(0xff);
    buf.extend_from_slice(b"4:info");
    buf.extend_from_slice(info.as_bytes());
    buf.push(b'e');
    assert_eq!(case_of(buf), 0);
    // no announce at all
    assert_eq!(case_of(metainfo("", &info)), 1);
    // announce-list is no list of lists of byte strings
    assert_eq!(case_of(metainfo("13:announce-listi1e", &info)), 2);
    assert_eq!(case_of(metainfo("13:announce-listl3:urle", &info)), 2);
    assert_eq!(case_of(metainfo("13:announce-listlli1eee", &info)), 2);
    // info is no mapping
    assert_eq!(case_of(metainfo("8:announce3:url", "i1e")), 3);
    // info is missing
    assert_eq!(case_of(b"d8:announce3:urle".to_vec()), 4);
    // the value is no mapping
    assert_eq!(case_of(b"li1ee".to_vec()), 5);
    // a key of info is missing
    assert_eq!(case_of(metainfo("8:announce3:url", "d6:lengthi1e4:name1:xe")), 6);
    assert_eq!(
        case_of(metainfo(
            "8:announce3:url",
            "d4:name1:x12:piece lengthi1e6:pieces20:aaaaaaaaaaaaaaaaaaaae"
        )),
        6
    );
    // a key of info is mistyped
    assert_eq!(
        case_of(metainfo(
            "8:announce3:url",
            "d6:lengthi1e4:namei1e12:piece lengthi1e6:pieces20:aaaaaaaaaaaaaaaaaaaae"
        )),
        7
    );
    assert_eq!(case_of(metainfo("8:announce3:url", &single_file_info(59))), 7);
    assert_eq!(
        case_of(metainfo(
            "8:announce3:url",
            "d6:lengthi-1e4:name1:x12:piece lengthi1e6:pieces20:aaaaaaaaaaaaaaaaaaaae"
        )),
        7
    );
    assert_eq!(
        case_of(metainfo(
            "8:announce3:url",
            "d5:filesld6:lengthi1eee4:name1:x12:piece lengthi1e6:pieces20:aaaaaaaaaaaaaaaaaaaae"
        )),
        7
    );
    // both length and files
    assert_eq!(
        case_of(metainfo(
            "8:announce3:url",
            "d5:filesle6:lengthi1e4:name1:x12:piece lengthi1e6:pieces20:aaaaaaaaaaaaaaaaaaaae"
        )),
        8
    );
    // the sizes do not fit together
    assert_eq!(case_of(metainfo("8:announce3:url", &single_file_info(40))), 9);
    assert_eq!(case_of(metainfo("8:announce3:url", &single_file_info(80))), 9);
    assert_eq!(
        case_of(metainfo(
            "8:announce3:url",
            "d6:lengthi1e4:name1:x12:piece lengthi0e6:pieces20:aaaaaaaaaaaaaaaaaaaae"
        )),
        9
    );
    assert_eq!(
        case_of(metainfo(
            "8:announce3:url",
            "d6:lengthi1e4:name1:x12:piece lengthi4294967296e6:pieces20:aaaaaaaaaaaaaaaaaaaae"
        )),
        9
    );
    // no bencoding
    assert_eq!(case_of(b"d8:announce".to_vec()), 10);
    assert_eq!(case_of(vec![]), 10);
}

#[test]
fn metainfo_failure_in_words() {
    assert_eq!(InvalidTorrentFile { case: 6 }.message(), "Keys missing in torrent file 6");
    assert_eq!(InvalidTorrentFile { case: 10 }.message(), "Keys missing in torrent file 10");
    assert_eq!(InvalidTorrentFile { case: -3 }.message(), "Keys missing in torrent file -3");
}

#[test]
fn name_that_is_no_utf8_is_read_with_replacements() {
    let mut info = b"d6:lengthi1e4:name2:a".to_vec();
    info.push(0xff);
    info.extend_from_slice(b"12:piece lengthi1e6:pieces20:aaaaaaaaaaaaaaaaaaaae");
    let mut buf = b"d8:announce3:url4:info".to_vec();
    buf.extend_from_slice(&info);
    buf.push(b'e');
    let t = Torrent::parse_decoded_for(buf, [0; 20]).unwrap();
    assert_eq!(t.name, "a\u{fffd}");
}

#[test]
fn get_finds_the_first_entry_with_the_key() {
    let decoded = Bencode::decode_u8(b"d1:ai1e2:abi2e1:bi3ee".to_vec()).unwrap();
    let entries = match &decoded {
        Element::Dict(entries) => entries,
        _ => panic!("no mapping"),
    };
    assert_eq!(get(entries, b"ab"), Some(&Element::Integer(2)));
    assert_eq!(get(entries, b"b"), Some(&Element::Integer(3)));
    assert_eq!(get(entries, b"c"), None);
    assert_eq!(get(entries, b""), None);
}

#[test]
fn parse_decoded_helper_reads_a_decoded_metainfo() {
    let buf = metainfo("8:announce3:url", &single_file_info(60));
    let decoded = Bencode::decode_u8(buf).unwrap();
    let m = Torrent::parse_decoded_helper(&decoded).unwrap();
    assert_eq!(m.announce_url, Some("url".to_string()));
    assert_eq!(m.piece_length, 32768);
    assert_eq!(m.length, 80000);
    assert_eq!(m.piece_no, 3);
    assert_eq!(m.hashes.len(), 3);
    assert_eq!(m.name, "a.bin");
    assert!(Torrent::parse_decoded_helper(&Element::Integer(1)).is_err());
}
