use vstd::prelude::*;

verus! {

/// Big-endian bytes of a 16-bit value.
pub open spec fn be16(x: u16) -> Seq<u8> {
    seq![(x / 256) as u8, (x % 256) as u8]
}

/// Big-endian bytes of a 32-bit value.
pub open spec fn be32(x: u32) -> Seq<u8> {
    be16((x / 65536) as u16) + be16((x % 65536) as u16)
}

/// The 16-bit value stored big-endian at `pos`.
pub open spec fn get16(buf: Seq<u8>, pos: int) -> u16 {
    (buf[pos] * 256 + buf[pos + 1]) as u16
}

/// The 32-bit value stored big-endian at `pos`.
pub open spec fn get32(buf: Seq<u8>, pos: int) -> u32 {
    (get16(buf, pos) * 65536 + get16(buf, pos + 2)) as u32
}

pub proof fn lemma_get16_be16(buf: Seq<u8>, pos: int, x: u16)
    requires
        0 <= pos,
        pos + 2 <= buf.len(),
        buf.subrange(pos, pos + 2) == be16(x),
    ensures
        get16(buf, pos) == x,
{
    assert(buf[pos] == buf.subrange(pos, pos + 2)[0]);
    assert(buf[pos + 1] == buf.subrange(pos, pos + 2)[1]);
}

pub proof fn lemma_get32_be32(buf: Seq<u8>, pos: int, x: u32)
    requires
        0 <= pos,
        pos + 4 <= buf.len(),
        buf.subrange(pos, pos + 4) == be32(x),
    ensures
        get32(buf, pos) == x,
{
    let hi = (x / 65536) as u16;
    let lo = (x % 65536) as u16;
    assert(buf.subrange(pos, pos + 2) =~= buf.subrange(pos, pos + 4).subrange(0, 2));
    assert(buf.subrange(pos + 2, pos + 4) =~= buf.subrange(pos, pos + 4).subrange(2, 4));
    assert(be32(x).subrange(0, 2) =~= be16(hi));
    assert(be32(x).subrange(2, 4) =~= be16(lo));
    lemma_get16_be16(buf, pos, hi);
    lemma_get16_be16(buf, pos + 2, lo);
}

/// Reads the 16-bit big-endian value at `pos`.
pub fn read_u16(buf: &[u8], pos: usize) -> (r: u16)
    requires
        pos + 2 <= buf@.len(),
    ensures
        r == get16(buf@, pos as int),
{
    (buf[pos] as u16) * 256 + (buf[pos + 1] as u16)
}

/// Reads the 32-bit big-endian value at `pos`.
pub fn read_u32(buf: &[u8], pos: usize) -> (r: u32)
    requires
        pos + 4 <= buf@.len(),
    ensures
        r == get32(buf@, pos as int),
{
    // The slice's length is a usize, so `pos + 2` below cannot overflow.
    let _len = buf.len();
    let hi = read_u16(buf, pos);
    let lo = read_u16(buf, pos + 2);
    (hi as u32) * 65536 + (lo as u32)
}

/// Appends the big-endian bytes of `x`.
pub fn push_u16(out: &mut Vec<u8>, x: u16)
    ensures
        final(out)@ == old(out)@ + be16(x),
{
    out.push((x / 256) as u8);
    out.push((x % 256) as u8);
    assert(out@ =~= old(out)@ + be16(x));
}

/// Appends the big-endian bytes of `x`.
pub fn push_u32(out: &mut Vec<u8>, x: u32)
    ensures
        final(out)@ == old(out)@ + be32(x),
{
    push_u16(out, (x / 65536) as u16);
    push_u16(out, (x % 65536) as u16);
    assert(out@ =~= old(out)@ + be32(x));
}

/// A buffer that holds, from `pos` to its end, the start of `w`.
pub open spec fn holds_prefix(buf: Seq<u8>, pos: int, w: Seq<u8>) -> bool {
    &&& 0 <= pos <= buf.len()
    &&& buf.len() - pos <= w.len()
    &&& buf.subrange(pos, buf.len() as int) == w.take(buf.len() - pos)
}

/// A part of such a buffer holds the matching part of `w`.
pub proof fn lemma_prefix_slice(buf: Seq<u8>, pos: int, w: Seq<u8>, a: int, b: int)
    requires
        holds_prefix(buf, pos, w),
        pos <= a <= b <= buf.len(),
    ensures
        buf.subrange(a, b) == w.subrange(a - pos, b - pos),
{
    assert forall|i: int| 0 <= i < b - a implies buf.subrange(a, b)[i] == w.subrange(
        a - pos,
        b - pos,
    )[i] by {
        assert(buf[a + i] == buf.subrange(pos, buf.len() as int)[a - pos + i]);
    }
    assert(buf.subrange(a, b) =~= w.subrange(a - pos, b - pos));
}

/// From a later offset on, such a buffer holds the start of the rest of `w`.
pub proof fn lemma_prefix_tail(buf: Seq<u8>, pos: int, w: Seq<u8>, a: int)
    requires
        holds_prefix(buf, pos, w),
        pos <= a <= buf.len(),
    ensures
        holds_prefix(buf, a, w.subrange(a - pos, w.len() as int)),
{
    let t = w.subrange(a - pos, w.len() as int);
    assert forall|i: int| 0 <= i < buf.len() - a implies buf.subrange(a, buf.len() as int)[i]
        == t.take(buf.len() - a)[i] by {
        assert(buf[a + i] == buf.subrange(pos, buf.len() as int)[a - pos + i]);
    }
    assert(buf.subrange(a, buf.len() as int) =~= t.take(buf.len() - a));
}

} // verus!
