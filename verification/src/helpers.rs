//! Small conversions shared by the codec and tracker modules.

use vstd::prelude::*;

verus! {

/// Length in bytes of every block but possibly the last one of a piece.
pub const BLOCK_SIZE: u32 = 16384;

/// Largest number of peers connected at one time.
pub const CONN_LIMIT: u32 = 100;

/// Largest number of candidate peers asked of one tracker.
pub const QUEUE_LIMIT: u32 = 50;

/// Seconds within which a connection to a peer must be made.
pub const CONNECT_TIMEOUT: u64 = 2;

/// Seconds within which a peer must answer the handshake.
pub const HANDSHAKE_TIMEOUT: u64 = 2;

/// Seconds within which the length prefix of the next frame must come.
pub const LENGTH_TIMEOUT: u64 = 120;

/// Seconds within which the next part of a frame's body must come.
pub const BODY_TIMEOUT: u64 = 20;

/// The upper-case hexadecimal digit for `n`, for `n` below 16.
pub open spec fn hex_digit(n: int) -> char {
    if n <= 9 {
        (48 + n) as u8 as char
    } else {
        (55 + n) as u8 as char
    }
}

/// The two upper-case hexadecimal digits of a byte, high nibble first.
pub open spec fn hex_of(val: u8) -> Seq<char> {
    seq![hex_digit(val as int / 16), hex_digit(val as int % 16)]
}

/// Bytes that a URL carries unescaped: ASCII letters and digits and `. - _ ~`.
pub open spec fn is_unreserved(b: u8) -> bool {
    (48 <= b <= 57) || (65 <= b <= 90) || (97 <= b <= 122) || b == 46 || b == 45 || b == 95
        || b == 126
}

/// The percent-encoding of one byte.
pub open spec fn url_byte(b: u8) -> Seq<char> {
    if is_unreserved(b) {
        seq![b as char]
    } else {
        seq!['%'] + hex_of(b)
    }
}

/// The percent-encoding of a byte string, byte by byte.
pub open spec fn url_encoded(s: Seq<u8>) -> Seq<char>
    decreases s.len(),
{
    if s.len() == 0 {
        Seq::empty()
    } else {
        url_encoded(s.drop_last()) + url_byte(s.last())
    }
}

/// The bits of a byte, most significant first.
pub open spec fn bits_of(n: u8) -> Seq<bool> {
    seq![
        n as int / 128 % 2 == 1,
        n as int / 64 % 2 == 1,
        n as int / 32 % 2 == 1,
        n as int / 16 % 2 == 1,
        n as int / 8 % 2 == 1,
        n as int / 4 % 2 == 1,
        n as int / 2 % 2 == 1,
        n as int % 2 == 1,
    ]
}

/// What `String::from_utf8_lossy` makes of `bytes`: their text, with each
/// run that is no UTF-8 replaced as the standard library replaces it.
pub uninterp spec fn lossy_text(bytes: Seq<u8>) -> Seq<char>;

/// `String::from_utf8` of the standard library: the text that `bytes` hold
/// in UTF-8, or nothing where they are no UTF-8.
#[verifier::external_body]
pub(crate) fn utf8_text(bytes: Vec<u8>) -> (text: Option<String>)
    ensures
        match text {
            Some(s) => vstd::utf8::valid_utf8(bytes@) && s@ == vstd::utf8::decode_utf8(bytes@),
            None => !vstd::utf8::valid_utf8(bytes@),
        },
{
    String::from_utf8(bytes).ok()
}

/// `String::from_utf8_lossy` of the standard library: the text of `bytes`,
/// which is their UTF-8 text where they are UTF-8.
#[verifier::external_body]
pub(crate) fn utf8_lossy(bytes: &[u8]) -> (text: String)
    ensures
        text@ == lossy_text(bytes@),
        vstd::utf8::valid_utf8(bytes@) ==> text@ == vstd::utf8::decode_utf8(bytes@),
{
    String::from_utf8_lossy(bytes).into_owned()
}

/// `String::push` of the standard library: appends one character.
#[verifier::external_body]
pub(crate) fn push_char(s: &mut String, c: char)
    ensures
        final(s)@ == old(s)@.push(c),
{
    s.push(c)
}

/// Whether two byte strings hold the same bytes.
pub fn same_bytes(a: &[u8], b: &[u8]) -> (same: bool)
    ensures
        same == (a@ == b@),
{
    if a.len() != b.len() {
        return false;
    }
    let mut i: usize = 0;
    while i < a.len()
        invariant
            i <= a@.len(),
            a@.len() == b@.len(),
            forall|k: int| 0 <= k < i ==> a@[k] == b@[k],
        decreases a@.len() - i,
    {
        if a[i] != b[i] {
            return false;
        }
        i += 1;
    }
    proof {
        assert(a@ =~= b@);
    }
    true
}

/// The decimal digits of `n` as text, without leading zeros.
pub open spec fn decimal_text(n: nat) -> Seq<char>
    decreases n,
{
    if n < 10 {
        seq![(48 + n) as u8 as char]
    } else {
        decimal_text(n / 10).push((48 + n % 10) as u8 as char)
    }
}

/// Appends the decimal digits of `n`.
pub fn push_decimal_text(out: &mut String, n: u64)
    ensures
        final(out)@ == old(out)@ + decimal_text(n as nat),
    decreases n,
{
    if n < 10 {
        push_char(out, (48 + n as u8) as char);
    } else {
        push_decimal_text(out, n / 10);
        push_char(out, (48 + (n % 10) as u8) as char);
    }
}

fn hex_char(n: u8) -> (c: char)
    requires
        n < 16,
    ensures
        c == hex_digit(n as int),
{
    if n <= 9 {
        (48u8 + n) as char
    } else {
        (55u8 + n) as char
    }
}

/// Writes a byte as two upper-case hexadecimal digits.
pub fn u8_to_hex(val: u8) -> (ans: String)
    ensures
        ans@ == hex_of(val),
{
    let mut ans = String::new();
    push_char(&mut ans, hex_char(val / 16));
    push_char(&mut ans, hex_char(val % 16));
    ans
}

fn unreserved(b: u8) -> (r: bool)
    ensures
        r == is_unreserved(b),
{
    (b >= 48 && b <= 57) || (b >= 65 && b <= 90) || (b >= 97 && b <= 122) || b == 46 || b == 45
        || b == 95 || b == 126
}

/// Appends the percent-encoding of `bytes` to `out`.
pub fn push_url_encoded(out: &mut String, bytes: &[u8])
    ensures
        final(out)@ == old(out)@ + url_encoded(bytes@),
{
    let mut i: usize = 0;
    while i < bytes.len()
        invariant
            i <= bytes.len(),
            out@ == old(out)@ + url_encoded(bytes@.take(i as int)),
        decreases bytes.len() - i,
    {
        let byte: u8 = bytes[i];
        proof {
            assert(bytes@.take(i + 1).drop_last() == bytes@.take(i as int));
        }
        if unreserved(byte) {
            push_char(out, byte as char);
        } else {
            push_char(out, '%');
            push_char(out, hex_char(byte / 16));
            push_char(out, hex_char(byte % 16));
        }
        i += 1;
    }
    proof {
        assert(bytes@.take(bytes.len() as int) == bytes@);
    }
}

/// Percent-encodes a 20-byte value for a URL query: unreserved bytes pass
/// through, every other byte becomes `%` and two upper-case hex digits.
pub fn u8_to_url(arr: [u8; 20]) -> (ans: String)
    ensures
        ans@ == url_encoded(arr@),
{
    let mut ans = String::new();
    push_url_encoded(&mut ans, arr.as_slice());
    ans
}

/// `rand::random::<u8>()`: a byte drawn at random, of which nothing is
/// known.
#[verifier::external_body]
pub(crate) fn random_u8() -> u8 {
    rand::random()
}

/// `rand::random::<u32>()`: a number drawn at random, of which nothing is
/// known.
#[verifier::external_body]
pub(crate) fn random_u32() -> u32 {
    rand::random()
}

/// A peer id of 20 bytes drawn at random.
pub fn gen_random_id() -> (buf: [u8; 20])
    ensures
        buf@.len() == 20,
{
    let mut buf: [u8; 20] = [0;20];
    let mut i: usize = 0;
    while i < 20
        invariant
            i <= 20,
        decreases 20 - i,
    {
        buf[i] = random_u8();
        i += 1;
    }
    buf
}

/// Splits a byte into its eight bits, most significant first.
pub fn u8_to_bin(n: u8) -> (s: Vec<bool>)
    ensures
        s@ == bits_of(n),
{
    let mut s: Vec<bool> = Vec::new();
    s.push(n / 128 % 2 == 1);
    s.push(n / 64 % 2 == 1);
    s.push(n / 32 % 2 == 1);
    s.push(n / 16 % 2 == 1);
    s.push(n / 8 % 2 == 1);
    s.push(n / 4 % 2 == 1);
    s.push(n / 2 % 2 == 1);
    s.push(n % 2 == 1);
    s
}

} // verus!
