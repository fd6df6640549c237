//! Little-endian integers in byte buffers, through `byteorder`.
use byteorder::{ByteOrder, LittleEndian, WriteBytesExt};
use vstd::prelude::*;

verus! {

/// The number that two bytes spell, least significant first.
pub open spec fn le_u16(b: Seq<u8>) -> nat {
    (b[0] as nat) + (b[1] as nat) * 0x100
}

/// The number that four bytes spell, least significant first.
pub open spec fn le_u32(b: Seq<u8>) -> nat {
    (b[0] as nat) + (b[1] as nat) * 0x100 + (b[2] as nat) * 0x10000 + (b[3] as nat) * 0x1000000
}

/// The two bytes of `n`, least significant first.
pub open spec fn u16_bytes(n: u16) -> Seq<u8> {
    seq![(n % 0x100) as u8, (n / 0x100) as u8]
}

/// The four bytes of `n`, least significant first.
pub open spec fn u32_bytes(n: u32) -> Seq<u8> {
    seq![
        (n % 0x100) as u8,
        ((n / 0x100) % 0x100) as u8,
        ((n / 0x10000) % 0x100) as u8,
        (n / 0x1000000) as u8,
    ]
}

/// byteorder `LittleEndian::read_u16` on `buf[at..]`: the two bytes at
/// `at`, least significant first.
#[verifier::external_body]
pub fn read_u16_at(buf: &[u8], at: usize) -> (r: u16)
    requires
        at + 2 <= buf@.len(),
    ensures
        r == le_u16(buf@.subrange(at as int, at + 2)),
{
    LittleEndian::read_u16(&buf[at..])
}

/// byteorder `LittleEndian::read_u32` on `buf[at..]`: the four bytes at
/// `at`, least significant first.
#[verifier::external_body]
pub fn read_u32_at(buf: &[u8], at: usize) -> (r: u32)
    requires
        at + 4 <= buf@.len(),
    ensures
        r == le_u32(buf@.subrange(at as int, at + 4)),
{
    LittleEndian::read_u32(&buf[at..])
}

/// byteorder `WriteBytesExt::write_u16::<LittleEndian>` on a `Vec<u8>`:
/// appends the two bytes of `n`, least significant first (writing to a
/// vector does not fail).
#[verifier::external_body]
pub fn push_u16(buf: &mut Vec<u8>, n: u16)
    ensures
        final(buf)@ == old(buf)@ + u16_bytes(n),
{
    let _ = buf.write_u16::<LittleEndian>(n);
}

/// byteorder `WriteBytesExt::write_u32::<LittleEndian>` on a `Vec<u8>`:
/// appends the four bytes of `n`, least significant first (writing to a
/// vector does not fail).
#[verifier::external_body]
pub fn push_u32(buf: &mut Vec<u8>, n: u32)
    ensures
        final(buf)@ == old(buf)@ + u32_bytes(n),
{
    let _ = buf.write_u32::<LittleEndian>(n);
}

/// Reading back the two bytes of a number gives the number.
pub proof fn lemma_u16_roundtrip(n: u16)
    ensures
        le_u16(u16_bytes(n)) == n,
{
    assert(n == (n % 0x100) + (n / 0x100) * 0x100) by (nonlinear_arith);
}

/// Reading back the four bytes of a number gives the number.
pub proof fn lemma_u32_roundtrip(n: u32)
    ensures
        le_u32(u32_bytes(n)) == n,
{
    let a = n % 0x100;
    let q1 = n / 0x100;
    let b = q1 % 0x100;
    let q2 = q1 / 0x100;
    let c = q2 % 0x100;
    let d = q2 / 0x100;
    assert(n == a + b * 0x100 + c * 0x10000 + d * 0x1000000) by (nonlinear_arith)
        requires
            a == n % 0x100,
            q1 == n / 0x100,
            b == q1 % 0x100,
            q2 == q1 / 0x100,
            c == q2 % 0x100,
            d == q2 / 0x100,
    ;
    assert((n / 0x100) % 0x100 == b);
    assert((n / 0x10000) % 0x100 == c) by (nonlinear_arith)
        requires
            q1 == n / 0x100,
            q2 == q1 / 0x100,
            c == q2 % 0x100,
    ;
    assert(n / 0x1000000 == d) by (nonlinear_arith)
        requires
            q1 == n / 0x100,
            q2 == q1 / 0x100,
            d == q2 / 0x100,
    ;
    assert(d < 0x100) by (nonlinear_arith)
        requires
            d == n / 0x1000000,
            n <= 0xffffffff,
    ;
}

} // verus!
