use r_torrent::bencoded_parser::{Bencode, Element, InvalidCharError};

fn bytes(s: &str) -> Vec<u8> {
    s.as_bytes().to_vec()
}

fn text(s: &str) -> Element {
    Element::ByteString(bytes(s))
}

#[test]
fn integer_decode() {
    assert_eq!(Bencode::decode_u8(bytes("i-42e")), Ok(Element::Integer(-42)));
    assert_eq!(Bencode::decode_u8(bytes("i0e")), Ok(Element::Integer(0)));
    assert_eq!(
        Bencode::decode_u8(bytes("i-e")),
        Err(InvalidCharError { index: 2, curr: b'e' })
    );
}

#[test]
fn integer_without_digits_is_rejected() {
    assert_eq!(Bencode::decode_u8(bytes("ie")), Err(InvalidCharError { index: 1, curr: b'e' }));
    assert_eq!(Bencode::decode_u8(bytes("i")), Err(InvalidCharError { index: 1, curr: 0 }));
    assert_eq!(Bencode::decode_u8(bytes("i-")), Err(InvalidCharError { index: 2, curr: 0 }));
}

#[test]
fn integer_with_leading_zeros_and_negative_zero_is_taken() {
    assert_eq!(Bencode::decode_u8(bytes("i007e")), Ok(Element::Integer(7)));
    assert_eq!(Bencode::decode_u8(bytes("i-0e")), Ok(Element::Integer(0)));
    assert_eq!(Bencode::decode_u8(bytes("i-012e")), Ok(Element::Integer(-12)));
}

#[test]
fn integer_bounds() {
    assert_eq!(
        Bencode::decode_u8(bytes("i9223372036854775807e")),
        Ok(Element::Integer(i64::MAX))
    );
    assert_eq!(
        Bencode::decode_u8(bytes("i-9223372036854775808e")),
        Ok(Element::Integer(i64::MIN))
    );
    assert_eq!(
        Bencode::decode_u8(bytes("i9223372036854775808e")),
        Err(InvalidCharError { index: 1, curr: b'9' })
    );
    assert_eq!(
        Bencode::decode_u8(bytes("i-9223372036854775809e")),
        Err(InvalidCharError { index: 2, curr: b'9' })
    );
    assert_eq!(
        Bencode::decode_u8(bytes("i99999999999999999999999999999999999999999e")),
        Err(InvalidCharError { index: 1, curr: b'9' })
    );
}

#[test]
fn integer_with_a_stray_byte_fails_at_that_byte() {
    assert_eq!(Bencode::decode_u8(bytes("i12x4e")), Err(InvalidCharError { index: 3, curr: b'x' }));
    assert_eq!(Bencode::decode_u8(bytes("i5-3e")), Err(InvalidCharError { index: 2, curr: b'-' }));
    assert_eq!(Bencode::decode_u8(bytes("i42")), Err(InvalidCharError { index: 3, curr: 0 }));
}

#[test]
fn byte_string_decode() {
    assert_eq!(
        Bencode::decode_u8(bytes("5:hello")),
        Ok(Element::ByteString(vec![b'h', b'e', b'l', b'l', b'o']))
    );
    assert_eq!(Bencode::decode_u8(bytes("0:")), Ok(Element::ByteString(vec![])));
}

#[test]
fn byte_string_need_not_be_utf8() {
    let mut buf = bytes("3:");
    buf.extend_from_slice(&[0xff, 0x00, 0xfe]);
    assert_eq!(Bencode::decode_u8(buf), Ok(Element::ByteString(vec![0xff, 0x00, 0xfe])));
}

#[test]
fn byte_string_that_runs_past_the_end_fails_there() {
    assert_eq!(Bencode::decode_u8(bytes("5:hel")), Err(InvalidCharError { index: 5, curr: 0 }));
    assert_eq!(Bencode::decode_u8(bytes("5")), Err(InvalidCharError { index: 1, curr: 0 }));
    assert_eq!(Bencode::decode_u8(bytes("5x")), Err(InvalidCharError { index: 1, curr: b'x' }));
    assert_eq!(
        Bencode::decode_u8(bytes("99999999999999999999999999:a")),
        Err(InvalidCharError { index: 28, curr: 0 })
    );
}

#[test]
fn value_must_start_with_a_known_byte() {
    assert_eq!(Bencode::decode_u8(bytes("x")), Err(InvalidCharError { index: 0, curr: b'x' }));
    assert_eq!(Bencode::decode_u8(bytes("")), Err(InvalidCharError { index: 0, curr: 0 }));
    assert_eq!(Bencode::decode_u8(bytes("e")), Err(InvalidCharError { index: 0, curr: b'e' }));
    assert_eq!(Bencode::decode_u8(bytes("li1ex")), Err(InvalidCharError { index: 4, curr: b'x' }));
}

#[test]
fn list_decode() {
    assert_eq!(Bencode::decode_u8(bytes("le")), Ok(Element::List(vec![])));
    assert_eq!(
        Bencode::decode_u8(bytes("li1e3:abclee")),
        Ok(Element::List(vec![Element::Integer(1), text("abc"), Element::List(vec![])]))
    );
    assert_eq!(Bencode::decode_u8(bytes("li1e")), Err(InvalidCharError { index: 4, curr: 0 }));
}

#[test]
fn dict_decode_keeps_any_order_of_keys() {
    assert_eq!(Bencode::decode_u8(bytes("de")), Ok(Element::Dict(vec![])));
    assert_eq!(
        Bencode::decode_u8(bytes("d1:bi2e1:ai1ee")),
        Ok(Element::Dict(vec![
            (bytes("b"), Element::Integer(2)),
            (bytes("a"), Element::Integer(1)),
        ]))
    );
}

#[test]
fn dict_key_must_be_a_byte_string() {
    assert_eq!(Bencode::decode_u8(bytes("di1ei2ee")), Err(InvalidCharError { index: 1, curr: b'i' }));
    assert_eq!(Bencode::decode_u8(bytes("d1:a")), Err(InvalidCharError { index: 4, curr: 0 }));
    assert_eq!(Bencode::decode_u8(bytes("d1:ai1e")), Err(InvalidCharError { index: 7, curr: 0 }));
}

#[test]
fn dict_with_a_key_twice_fails_at_the_second() {
    assert_eq!(
        Bencode::decode_u8(bytes("d1:ai1e1:ai2ee")),
        Err(InvalidCharError { index: 7, curr: b'1' })
    );
    assert_eq!(
        Bencode::decode_u8(bytes("d1:ad1:xi1e1:xi2eee")),
        Err(InvalidCharError { index: 11, curr: b'1' })
    );
}

#[test]
fn bytes_after_the_value_are_not_looked_at() {
    assert_eq!(Bencode::decode_u8(bytes("i1exyz")), Ok(Element::Integer(1)));
}

#[test]
fn nested_dict_with_info_hash() {
    let buf = bytes("d4:infod3:key5:valueee");
    let (decoded, hash) = Bencode::decode(buf).unwrap();
    assert_eq!(
        decoded,
        Element::Dict(vec![(bytes("info"), Element::Dict(vec![(bytes("key"), text("value"))]))])
    );
    let expected: [u8; 20] = [
        204, 187, 47, 227, 233, 215, 60, 8, 75, 209, 65, 220, 253, 182, 68, 184, 136, 50, 29, 103,
    ];
    assert_eq!(hash, expected);
    assert_eq!(hash, sha1_smol::Sha1::from("d3:key5:valuee").digest().bytes());
}

#[test]
fn info_span_is_where_the_value_stands() {
    let buf = bytes("d4:infod3:key5:valueee");
    let (_, span) = Bencode::decode_span(buf.clone()).unwrap();
    assert_eq!(span, Some((7, 21)));
    assert_eq!(&buf[7..21], "d3:key5:valuee".as_bytes());
    let (_, span) = Bencode::decode_span(bytes("d1:ai1e4:infoi2e1:zi3ee")).unwrap();
    assert_eq!(span, Some((13, 16)));
    let (_, span) = Bencode::decode_span(bytes("d1:ai1ee")).unwrap();
    assert_eq!(span, None);
    let (_, span) = Bencode::decode_span(bytes("i1e")).unwrap();
    assert_eq!(span, None);
    assert!(Bencode::decode_span(bytes("d4:info")).is_err());
}

#[test]
fn info_hash_is_taken_of_the_bytes_as_they_stand() {
    // the keys of the info value are not in ascending order, and its integer has a leading zero
    let info = "d1:zi01e1:a3:abce";
    let buf = bytes(&format!("d8:announce3:url4:info{}5:otheri5ee", info));
    let (_, hash) = Bencode::decode(buf).unwrap();
    assert_eq!(hash, sha1_smol::Sha1::from(info).digest().bytes());
}

#[test]
fn info_hash_looks_at_the_outer_dict_only() {
    let buf = bytes("d1:ad4:infoi1eee");
    let (_, hash) = Bencode::decode(buf).unwrap();
    let of_nothing: [u8; 20] = [
        218, 57, 163, 238, 94, 107, 75, 13, 50, 85, 191, 239, 149, 96, 24, 144, 175, 216, 7, 9,
    ];
    assert_eq!(hash, of_nothing);
    let (_, hash) = Bencode::decode(bytes("l4:infoi1ee")).unwrap();
    assert_eq!(hash, of_nothing);
}

#[test]
fn decode_reports_the_fault() {
    assert_eq!(
        Bencode::decode(bytes("d4:infoxe")).err(),
        Some(InvalidCharError { index: 7, curr: b'x' })
    );
}

#[test]
fn encode_writes_each_kind() {
    assert_eq!(Bencode::encode(&Element::Integer(-42)), bytes("i-42e"));
    assert_eq!(Bencode::encode(&Element::Integer(0)), bytes("i0e"));
    assert_eq!(Bencode::encode(&Element::Integer(i64::MIN)), bytes("i-9223372036854775808e"));
    assert_eq!(Bencode::encode(&Element::Integer(i64::MAX)), bytes("i9223372036854775807e"));
    assert_eq!(Bencode::encode(&text("hello")), bytes("5:hello"));
    assert_eq!(Bencode::encode(&text("")), bytes("0:"));
    assert_eq!(Bencode::encode(&text("0123456789")), bytes("10:0123456789"));
    assert_eq!(
        Bencode::encode(&Element::List(vec![Element::Integer(1), text("a")])),
        bytes("li1e1:ae")
    );
    assert_eq!(
        Bencode::encode(&Element::Dict(vec![(bytes("k"), Element::List(vec![]))])),
        bytes("d1:klee")
    );
}

#[test]
fn encode_does_not_mind_bytes_that_are_no_utf8() {
    let e = Element::Dict(vec![(vec![0xff, 0xfe], Element::ByteString(vec![0x80]))]);
    assert_eq!(Bencode::encode(&e), vec![b'd', b'2', b':', 0xff, 0xfe, b'1', b':', 0x80, b'e']);
}

#[test]
fn encode_of_decode_gives_canonical_input_back() {
    for x in [
        "d4:infod6:lengthi80000e4:name1:x12:piece lengthi32768eee",
        "li0ei-1e0:l1:ad1:a1:bee3:xyze",
        "d1:ai1e1:bi2e1:cd1:dleee",
        "i-9223372036854775808e",
    ] {
        let decoded = Bencode::decode_u8(bytes(x)).unwrap();
        assert_eq!(Bencode::encode(&decoded), bytes(x));
    }
}

#[test]
fn decode_of_encode_gives_the_value_back() {
    let e = Element::Dict(vec![
        (bytes("z"), Element::Integer(i64::MIN)),
        (bytes("a"), Element::List(vec![text(""), Element::Dict(vec![]), Element::Integer(7)])),
        (vec![0, 255], Element::ByteString(vec![1, 2, 3])),
    ]);
    assert_eq!(Bencode::decode_u8(Bencode::encode(&e)), Ok(e));
}

#[test]
fn fault_says_where_and_what() {
    let e = InvalidCharError { index: 12, curr: 101 };
    assert_eq!(e.message(), "Invalid char found in bencoded file at index:12, char:101");
    let e = InvalidCharError { index: 0, curr: 0 };
    assert_eq!(e.message(), "Invalid char found in bencoded file at index:0, char:0");
}

#[test]
fn strict_mode_takes_numbers_only_as_they_are_written_canonically() {
    let strict = |s: &str| Bencode::decode_u8_with(bytes(s), true);
    assert_eq!(strict("i0e"), Ok(Element::Integer(0)));
    assert_eq!(strict("i-5e"), Ok(Element::Integer(-5)));
    assert_eq!(strict("i10e"), Ok(Element::Integer(10)));
    assert_eq!(strict("i007e"), Err(InvalidCharError { index: 1, curr: b'0' }));
    assert_eq!(strict("i00e"), Err(InvalidCharError { index: 1, curr: b'0' }));
    assert_eq!(strict("i-0e"), Err(InvalidCharError { index: 2, curr: b'0' }));
    assert_eq!(strict("i-012e"), Err(InvalidCharError { index: 2, curr: b'0' }));
    assert_eq!(strict("0:"), Ok(text("")));
    assert_eq!(strict("5:hello"), Ok(text("hello")));
    assert_eq!(strict("05:hello"), Err(InvalidCharError { index: 0, curr: b'0' }));
    assert_eq!(strict("li1ei02ee"), Err(InvalidCharError { index: 5, curr: b'0' }));
    assert_eq!(strict("d01:ai1ee"), Err(InvalidCharError { index: 1, curr: b'0' }));
    // the form is looked at before the form's finer points
    assert_eq!(strict("i00x"), Err(InvalidCharError { index: 3, curr: b'x' }));
    assert_eq!(strict("i-e"), Err(InvalidCharError { index: 2, curr: b'e' }));
    // keys in any order are taken in either mode
    assert_eq!(
        strict("d1:bi2e1:ai1ee"),
        Ok(Element::Dict(vec![(bytes("b"), Element::Integer(2)), (bytes("a"), Element::Integer(1))]))
    );
    // without the mode all of them are taken
    assert_eq!(Bencode::decode_u8_with(bytes("i007e"), false), Ok(Element::Integer(7)));
    assert_eq!(Bencode::decode_u8_with(bytes("05:hello"), false), Ok(text("hello")));
}

#[test]
fn strict_mode_gives_back_what_encodes_to_the_input() {
    for x in ["d1:bi2e1:ai1ee", "li-1e0:lee", "i9223372036854775807e", "d4:infod1:zi0eee"] {
        let decoded = Bencode::decode_u8_with(bytes(x), true).unwrap();
        assert_eq!(Bencode::encode(&decoded), bytes(x));
    }
}

#[test]
fn strict_mode_takes_the_same_info_hash() {
    let buf = bytes("d4:infod3:key5:valueee");
    let (_, strict) = Bencode::decode_with(buf.clone(), true).unwrap();
    let (_, lenient) = Bencode::decode_with(buf, false).unwrap();
    assert_eq!(strict, lenient);
    assert_eq!(strict, sha1_smol::Sha1::from("d3:key5:valuee").digest().bytes());
    assert_eq!(
        Bencode::decode_with(bytes("d4:infoi01ee"), true).err(),
        Some(InvalidCharError { index: 8, curr: b'0' })
    );
}
