//! 32-bit numbers as four bytes, least significant byte first.

use vstd::prelude::*;

verus! {

/// The four bytes of `x`, least significant first.
pub open spec fn le_bytes(x: u32) -> Seq<u8> {
    seq![
        (x % 256) as u8,
        ((x / 256) % 256) as u8,
        ((x / 65536) % 256) as u8,
        ((x / 16777216) % 256) as u8,
    ]
}

/// The number whose bytes, least significant first, are the first four of `b`.
pub open spec fn le_value(b: Seq<u8>) -> nat {
    (b[0] + 256 * b[1] + 65536 * b[2] + 16777216 * b[3]) as nat
}

/// Reading the bytes of a number gives the number back.
pub proof fn lemma_le_value_of_bytes(x: u32)
    ensures
        le_bytes(x).len() == 4,
        le_value(le_bytes(x)) == x,
{
}

/// Writing the number that four bytes hold gives the four bytes back.
pub proof fn lemma_le_bytes_of_value(b: Seq<u8>)
    requires
        b.len() == 4,
    ensures
        le_value(b) <= u32::MAX,
        le_bytes(le_value(b) as u32) == b,
{
    let v = le_value(b) as int;
    let r1 = b[1] + 256 * b[2] + 65536 * b[3];
    let r2 = b[2] + 256 * b[3];
    assert(v == b[0] + 256 * r1);
    assert(v % 256 == b[0] && v / 256 == r1);
    assert(r1 == b[1] + 256 * r2);
    assert(r1 % 256 == b[1] && r1 / 256 == r2);
    assert(v / 65536 == r2);
    assert(r2 % 256 == b[2] && r2 / 256 == b[3]);
    assert(v / 16777216 == b[3]);
    let x = le_value(b) as u32;
    assert(le_bytes(x)[0] == b[0]);
    assert(le_bytes(x)[1] == b[1]);
    assert(le_bytes(x)[2] == b[2]);
    assert(le_bytes(x)[3] == b[3]);
    assert(le_bytes(x) =~= b);
}

/// Appends the four bytes of `x` to `buf`.
pub fn push_u32(buf: &mut Vec<u8>, x: u32)
    ensures
        final(buf)@ == old(buf)@ + le_bytes(x),
{
    buf.push((x % 256) as u8);
    buf.push(((x / 256) % 256) as u8);
    buf.push(((x / 65536) % 256) as u8);
    buf.push(((x / 16777216) % 256) as u8);
    assert(buf@ =~= old(buf)@ + le_bytes(x));
}

/// Reads the number held in the four bytes of `buf` from index `at`.
pub fn read_u32(buf: &[u8], at: usize) -> (x: u32)
    requires
        at + 4 <= buf@.len(),
    ensures
        x == le_value(buf@.subrange(at as int, at + 4)),
{
    let b0: u32 = buf[at] as u32;
    let b1: u32 = buf[at + 1] as u32;
    let b2: u32 = buf[at + 2] as u32;
    let b3: u32 = buf[at + 3] as u32;
    b0 + 256 * b1 + 65536 * b2 + 16777216 * b3
}

/// Appends the bytes of `more` to `buf`.
pub fn push_bytes(buf: &mut Vec<u8>, more: &[u8])
    ensures
        final(buf)@ == old(buf)@ + more@,
{
    let mut i: usize = 0;
    while i < more.len()
        invariant
            i <= more@.len(),
            buf@ == old(buf)@ + more@.take(i as int),
        decreases more@.len() - i,
    {
        buf.push(more[i]);
        proof {
            assert(more@.take(i + 1) =~= more@.take(i as int).push(more@[i as int]));
            assert(buf@ =~= old(buf)@ + more@.take(i + 1));
        }
        i = i + 1;
    }
    assert(more@.take(more@.len() as int) =~= more@);
}

} // verus!
