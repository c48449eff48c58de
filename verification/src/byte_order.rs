//! Big-endian integers as they stand in peer and tracker frames.

use byteorder::{BigEndian, ReadBytesExt, WriteBytesExt};
use vstd::prelude::*;

verus! {

/// The two bytes of `v`, most significant first.
pub open spec fn be16(v: u16) -> Seq<u8> {
    seq![(v / 256) as u8, (v % 256) as u8]
}

/// The four bytes of `v`, most significant first.
pub open spec fn be32(v: u32) -> Seq<u8> {
    seq![
        (v / 0x100_0000) as u8,
        (v / 0x1_0000 % 256) as u8,
        (v / 0x100 % 256) as u8,
        (v % 256) as u8,
    ]
}

/// The eight bytes of `v`, most significant first.
pub open spec fn be64(v: u64) -> Seq<u8> {
    be32((v / 0x1_0000_0000) as u32) + be32((v % 0x1_0000_0000) as u32)
}

/// The four bytes of `v` in two's complement, most significant first.
pub open spec fn be32_signed(v: i32) -> Seq<u8> {
    if v >= 0 {
        be32(v as u32)
    } else {
        be32((v + 0x1_0000_0000) as u32)
    }
}

/// The number whose big-endian bytes are the first two of `s`.
pub open spec fn from_be16(s: Seq<u8>) -> u16 {
    (s[0] * 256 + s[1]) as u16
}

/// The number whose big-endian bytes are the first four of `s`.
pub open spec fn from_be32(s: Seq<u8>) -> u32 {
    (s[0] * 0x100_0000 + s[1] * 0x1_0000 + s[2] * 0x100 + s[3]) as u32
}

/// The number whose big-endian bytes are the first eight of `s`.
pub open spec fn from_be64(s: Seq<u8>) -> u64 {
    (from_be32(s) * 0x1_0000_0000 + from_be32(s.skip(4))) as u64
}

/// `WriteBytesExt::write_u8` of byteorder on a `Vec<u8>`: appends the byte.
/// Writing to a vector does not fail.
#[verifier::external_body]
pub(crate) fn write_u8(buf: &mut Vec<u8>, n: u8)
    ensures
        final(buf)@ == old(buf)@.push(n),
{
    buf.write_u8(n).unwrap()
}

/// `WriteBytesExt::write_u16::<BigEndian>` of byteorder on a `Vec<u8>`:
/// appends the two bytes of `n`, most significant first.
#[verifier::external_body]
pub(crate) fn write_u16(buf: &mut Vec<u8>, n: u16)
    ensures
        final(buf)@ == old(buf)@ + be16(n),
{
    buf.write_u16::<BigEndian>(n).unwrap()
}

/// `WriteBytesExt::write_u32::<BigEndian>` of byteorder on a `Vec<u8>`:
/// appends the four bytes of `n`, most significant first.
#[verifier::external_body]
pub(crate) fn write_u32(buf: &mut Vec<u8>, n: u32)
    ensures
        final(buf)@ == old(buf)@ + be32(n),
{
    buf.write_u32::<BigEndian>(n).unwrap()
}

/// `WriteBytesExt::write_i32::<BigEndian>` of byteorder on a `Vec<u8>`:
/// appends the four bytes of `n` in two's complement, most significant first.
#[verifier::external_body]
pub(crate) fn write_i32(buf: &mut Vec<u8>, n: i32)
    ensures
        final(buf)@ == old(buf)@ + be32_signed(n),
{
    buf.write_i32::<BigEndian>(n).unwrap()
}

/// `WriteBytesExt::write_u64::<BigEndian>` of byteorder on a `Vec<u8>`:
/// appends the eight bytes of `n`, most significant first.
#[verifier::external_body]
pub(crate) fn write_u64(buf: &mut Vec<u8>, n: u64)
    ensures
        final(buf)@ == old(buf)@ + be64(n),
{
    buf.write_u64::<BigEndian>(n).unwrap()
}

/// `ReadBytesExt::read_u8` of byteorder on a byte slice: its first byte. The
/// call fails on an empty slice, which `requires` leaves out.
#[verifier::external_body]
pub(crate) fn read_u8(buf: &[u8]) -> (n: u8)
    requires
        buf@.len() >= 1,
    ensures
        n == buf@[0],
{
    let mut rest: &[u8] = buf;
    rest.read_u8().unwrap()
}

/// `ReadBytesExt::read_u16::<BigEndian>` of byteorder on a byte slice: the
/// number in its first two bytes. The call fails on a shorter slice, which
/// `requires` leaves out.
#[verifier::external_body]
pub(crate) fn read_u16(buf: &[u8]) -> (n: u16)
    requires
        buf@.len() >= 2,
    ensures
        n == from_be16(buf@),
{
    let mut rest: &[u8] = buf;
    rest.read_u16::<BigEndian>().unwrap()
}

/// `ReadBytesExt::read_u32::<BigEndian>` of byteorder on a byte slice: the
/// number in its first four bytes. The call fails on a shorter slice, which
/// `requires` leaves out.
#[verifier::external_body]
pub(crate) fn read_u32(buf: &[u8]) -> (n: u32)
    requires
        buf@.len() >= 4,
    ensures
        n == from_be32(buf@),
{
    let mut rest: &[u8] = buf;
    rest.read_u32::<BigEndian>().unwrap()
}

/// `ReadBytesExt::read_u64::<BigEndian>` of byteorder on a byte slice: the
/// number in its first eight bytes. The call fails on a shorter slice, which
/// `requires` leaves out.
#[verifier::external_body]
pub(crate) fn read_u64(buf: &[u8]) -> (n: u64)
    requires
        buf@.len() >= 8,
    ensures
        n == from_be64(buf@),
{
    let mut rest: &[u8] = buf;
    rest.read_u64::<BigEndian>().unwrap()
}

/// Appends `bytes`, byte after byte.
pub(crate) fn write_bytes(buf: &mut Vec<u8>, bytes: &[u8])
    ensures
        final(buf)@ == old(buf)@ + bytes@,
{
    let mut i: usize = 0;
    while i < bytes.len()
        invariant
            i <= bytes.len(),
            buf@ == old(buf)@ + bytes@.take(i as int),
        decreases bytes.len() - i,
    {
        write_u8(buf, bytes[i]);
        i += 1;
    }
}

proof fn lemma_be32_round_trip(b: u32)
    ensures
        from_be32(be32(b)) == b,
{
    assert(b / 0x100_0000u32 < 256u32) by (bit_vector);
    assert((b / 0x100_0000u32) * 0x100_0000u32 + (b / 0x1_0000u32 % 256u32) * 0x1_0000u32 + (b
        / 0x100u32 % 256u32) * 0x100u32 + b % 256u32 == b) by (bit_vector);
}

/// Writing what was read gives the bytes again: a run of two or of four
/// bytes is the big-endian writing of the number that it reads as.
pub proof fn lemma_be_bytes(s: Seq<u8>)
    ensures
        s.len() == 2 ==> be16(from_be16(s)) == s,
        s.len() == 4 ==> be32(from_be32(s)) == s,
{
    if s.len() == 2 {
        let (a, b) = (s[0], s[1]);
        let v: u16 = (a * 256 + b) as u16;
        assert(v / 256 == a && v % 256 == b);
        assert(be16(from_be16(s)) =~= s);
    }
    if s.len() == 4 {
        let (a, b, c, d) = (s[0] as u32, s[1] as u32, s[2] as u32, s[3] as u32);
        let v: u32 = (a * 0x100_0000 + b * 0x1_0000 + c * 0x100 + d) as u32;
        assert(v / 0x100_0000u32 == a && v / 0x1_0000u32 % 256u32 == b && v / 0x100u32 % 256u32
            == c && v % 256u32 == d) by (bit_vector)
            requires
                a < 256 && b < 256 && c < 256 && d < 256,
                v == a * 0x100_0000u32 + b * 0x1_0000u32 + c * 0x100u32 + d,
        ;
        assert(be32(from_be32(s)) =~= s);
    }
}

/// Reading back what was written gives the number again, for each width.
pub proof fn lemma_be_round_trip(a: u16, b: u32, c: u64)
    ensures
        from_be16(be16(a)) == a,
        from_be32(be32(b)) == b,
        from_be64(be64(c)) == c,
{
    lemma_be32_round_trip(b);
    let hi = (c / 0x1_0000_0000) as u32;
    let lo = (c % 0x1_0000_0000) as u32;
    lemma_be32_round_trip(hi);
    lemma_be32_round_trip(lo);
    assert(be64(c).skip(4) == be32(lo));
    assert(from_be32(be64(c)) == from_be32(be32(hi)));
}

} // verus!
