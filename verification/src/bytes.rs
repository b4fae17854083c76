//! Little-endian byte encoding of 64-bit words.
use vstd::prelude::*;

verus! {

/// The eight little-endian bytes of `x`.
pub open spec fn le_bytes(x: u64) -> Seq<u8> {
    seq![
        (x & 0xff) as u8,
        ((x >> 8u64) & 0xff) as u8,
        ((x >> 16u64) & 0xff) as u8,
        ((x >> 24u64) & 0xff) as u8,
        ((x >> 32u64) & 0xff) as u8,
        ((x >> 40u64) & 0xff) as u8,
        ((x >> 48u64) & 0xff) as u8,
        ((x >> 56u64) & 0xff) as u8,
    ]
}

/// The word whose little-endian bytes are `b[0..8]`.
pub open spec fn le_word(b: Seq<u8>) -> u64 {
    (b[0] as u64) | ((b[1] as u64) << 8u64) | ((b[2] as u64) << 16u64) | ((b[3] as u64) << 24u64)
        | ((b[4] as u64) << 32u64) | ((b[5] as u64) << 40u64) | ((b[6] as u64) << 48u64) | ((
    b[7] as u64) << 56u64)
}

/// Reading the bytes of a word gives the word back.
pub proof fn lemma_le_round_trip(x: u64)
    ensures
        le_word(le_bytes(x)) == x,
{
    let b = le_bytes(x);
    let (b0, b1, b2, b3, b4, b5, b6, b7) = (b[0], b[1], b[2], b[3], b[4], b[5], b[6], b[7]);
    assert((b0 as u64) | ((b1 as u64) << 8u64) | ((b2 as u64) << 16u64) | ((b3 as u64) << 24u64)
        | ((b4 as u64) << 32u64) | ((b5 as u64) << 40u64) | ((b6 as u64) << 48u64) | ((
    b7 as u64) << 56u64) == x) by (bit_vector)
        requires
            b0 == (x & 0xff) as u8,
            b1 == ((x >> 8u64) & 0xff) as u8,
            b2 == ((x >> 16u64) & 0xff) as u8,
            b3 == ((x >> 24u64) & 0xff) as u8,
            b4 == ((x >> 32u64) & 0xff) as u8,
            b5 == ((x >> 40u64) & 0xff) as u8,
            b6 == ((x >> 48u64) & 0xff) as u8,
            b7 == ((x >> 56u64) & 0xff) as u8,
    ;
}

/// Writes the little-endian bytes of `x` at `at`.
pub fn write_u64(buf: &mut Vec<u8>, at: usize, x: u64)
    requires
        at + 8 <= old(buf)@.len(),
    ensures
        final(buf)@.len() == old(buf)@.len(),
        final(buf)@.subrange(at as int, at + 8) == le_bytes(x),
        forall|i: int|
            0 <= i < old(buf)@.len() && !(at <= i < at + 8) ==> #[trigger] final(buf)@[i] == old(
                buf,
            )@[i],
{
    let n: usize = buf.len();
    assert(at + 8 <= n);
    buf.set(at, (x & 0xff) as u8);
    buf.set(at + 1, ((x >> 8u64) & 0xff) as u8);
    buf.set(at + 2, ((x >> 16u64) & 0xff) as u8);
    buf.set(at + 3, ((x >> 24u64) & 0xff) as u8);
    buf.set(at + 4, ((x >> 32u64) & 0xff) as u8);
    buf.set(at + 5, ((x >> 40u64) & 0xff) as u8);
    buf.set(at + 6, ((x >> 48u64) & 0xff) as u8);
    buf.set(at + 7, ((x >> 56u64) & 0xff) as u8);
    assert(buf@.subrange(at as int, at + 8) =~= le_bytes(x));
}

/// Appends the little-endian bytes of `x`.
pub fn push_u64(buf: &mut Vec<u8>, x: u64)
    ensures
        final(buf)@ == old(buf)@ + le_bytes(x),
{
    buf.push((x & 0xff) as u8);
    buf.push(((x >> 8u64) & 0xff) as u8);
    buf.push(((x >> 16u64) & 0xff) as u8);
    buf.push(((x >> 24u64) & 0xff) as u8);
    buf.push(((x >> 32u64) & 0xff) as u8);
    buf.push(((x >> 40u64) & 0xff) as u8);
    buf.push(((x >> 48u64) & 0xff) as u8);
    buf.push(((x >> 56u64) & 0xff) as u8);
    assert(buf@ =~= old(buf)@ + le_bytes(x));
}

/// The word whose little-endian bytes are `buf[at..at + 8]`.
pub fn read_u64(buf: &[u8], at: usize) -> (r: u64)
    requires
        at + 8 <= buf@.len(),
    ensures
        r == le_word(buf@.subrange(at as int, at + 8)),
{
    let n: usize = buf.len();
    assert(at + 8 <= n);
    let ghost s = buf@.subrange(at as int, at + 8);
    assert(s[0] == buf@[at as int] && s[1] == buf@[at + 1] && s[2] == buf@[at + 2] && s[3]
        == buf@[at + 3] && s[4] == buf@[at + 4] && s[5] == buf@[at + 5] && s[6] == buf@[at + 6]
        && s[7] == buf@[at + 7]);
    (buf[at] as u64) | ((buf[at + 1] as u64) << 8u64) | ((buf[at + 2] as u64) << 16u64) | ((buf[at
        + 3] as u64) << 24u64) | ((buf[at + 4] as u64) << 32u64) | ((buf[at + 5] as u64) << 40u64)
        | ((buf[at + 6] as u64) << 48u64) | ((buf[at + 7] as u64) << 56u64)
}

} // verus!
