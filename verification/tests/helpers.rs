use r_torrent::helpers::{gen_random_id, u8_to_bin, u8_to_hex, u8_to_url};

#[test]
fn u8_to_bin_test() {
    assert_eq!(vec![true, true, true, true, true, true, true, true], u8_to_bin(255));
    assert_eq!(vec![false, false, false, false, true, false, false, false], u8_to_bin(8));
    assert_eq!(vec![false, false, false, false, true, false, true, true], u8_to_bin(11));
}

#[test]
fn u8_to_url_test() {
    let arr: [u8; 20] = [
        18, 52, 86, 120, 154, 188, 222, 241, 35, 69, 103, 137, 171, 205, 239, 18, 52, 86, 120, 154,
    ];
    assert_eq!(u8_to_url(arr), "%124Vx%9A%BC%DE%F1%23Eg%89%AB%CD%EF%124Vx%9A");
}

#[test]
fn u8_to_hex_pads_and_uses_upper_case() {
    assert_eq!(u8_to_hex(0), "00");
    assert_eq!(u8_to_hex(0x0a), "0A");
    assert_eq!(u8_to_hex(0x9f), "9F");
    assert_eq!(u8_to_hex(255), "FF");
}

#[test]
fn u8_to_url_keeps_unreserved_bytes() {
    let mut arr: [u8; 20] = [b'a'; 20];
    arr[0] = b'.';
    arr[1] = b'-';
    arr[2] = b'_';
    arr[3] = b'~';
    arr[4] = b' ';
    arr[5] = b'/';
    assert_eq!(u8_to_url(arr), ".-_~%20%2Faaaaaaaaaaaaaa");
}

#[test]
fn gen_random_id_draws_bytes() {
    let a = gen_random_id();
    let b = gen_random_id();
    let c = gen_random_id();
    assert_eq!(a.len(), 20);
    assert!(a != b || b != c);
}
