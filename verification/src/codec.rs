//! Little-endian integer encoding and the byte-sequence helpers shared by
//! every binary file format of the index.

use vstd::prelude::*;

verus! {

/// Little-endian encoding of a `u16`.
pub open spec fn le16(x: u16) -> Seq<u8> {
    seq![(x & 0xff) as u8, ((x >> 8) & 0xff) as u8]
}

/// Little-endian encoding of a `u32`.
pub open spec fn le32(x: u32) -> Seq<u8> {
    seq![
        (x & 0xff) as u8,
        ((x >> 8) & 0xff) as u8,
        ((x >> 16) & 0xff) as u8,
        ((x >> 24) & 0xff) as u8,
    ]
}

/// The `u16` whose little-endian encoding is the two bytes at `pos`.
pub open spec fn get_le16(s: Seq<u8>, pos: int) -> u16 {
    ((s[pos] as u16) | ((s[pos + 1] as u16) << 8u16)) as u16
}

/// The `u32` whose little-endian encoding is the four bytes at `pos`.
pub open spec fn get_le32(s: Seq<u8>, pos: int) -> u32 {
    ((s[pos] as u32) | ((s[pos + 1] as u32) << 8u32) | ((s[pos + 2] as u32) << 16u32) | ((
    s[pos + 3] as u32) << 24u32)) as u32
}

/// Little-endian encodings of a sequence of `u32` values, concatenated.
pub open spec fn le32_seq(xs: Seq<u32>) -> Seq<u8>
    decreases xs.len(),
{
    if xs.len() == 0 {
        Seq::empty()
    } else {
        le32_seq(xs.drop_last()) + le32(xs.last())
    }
}

pub proof fn lemma_le16_roundtrip(x: u16)
    ensures
        le16(x).len() == 2,
        get_le16(le16(x), 0) == x,
{
    let b0 = (x & 0xff) as u8;
    let b1 = ((x >> 8) & 0xff) as u8;
    assert(((x & 0xff) as u8) as u16 == x & 0xff) by (bit_vector);
    assert((((x >> 8) & 0xff) as u8) as u16 == (x >> 8) & 0xff) by (bit_vector);
    assert(((x & 0xff) | (((x >> 8) & 0xff) << 8u16)) == x) by (bit_vector);
}

pub proof fn lemma_le32_roundtrip(x: u32)
    ensures
        le32(x).len() == 4,
        get_le32(le32(x), 0) == x,
{
    assert(((x & 0xff) as u8) as u32 == x & 0xff) by (bit_vector);
    assert((((x >> 8) & 0xff) as u8) as u32 == (x >> 8) & 0xff) by (bit_vector);
    assert((((x >> 16) & 0xff) as u8) as u32 == (x >> 16) & 0xff) by (bit_vector);
    assert((((x >> 24) & 0xff) as u8) as u32 == (x >> 24) & 0xff) by (bit_vector);
    assert(((x & 0xff) | (((x >> 8) & 0xff) << 8u32) | (((x >> 16) & 0xff) << 16u32) | (((x
        >> 24) & 0xff) << 24u32)) == x) by (bit_vector);
}

/// Reading a `u32` from the middle of a concatenation gives back what was encoded there.
pub proof fn lemma_get_le32_at(a: Seq<u8>, x: u32, b: Seq<u8>)
    ensures
        get_le32(a + le32(x) + b, a.len() as int) == x,
{
    lemma_le32_roundtrip(x);
    let s = a + le32(x) + b;
    let n = a.len() as int;
    assert(s[n] == le32(x)[0]);
    assert(s[n + 1] == le32(x)[1]);
    assert(s[n + 2] == le32(x)[2]);
    assert(s[n + 3] == le32(x)[3]);
}

/// Reading a `u16` from the middle of a concatenation gives back what was encoded there.
pub proof fn lemma_get_le16_at(a: Seq<u8>, x: u16, b: Seq<u8>)
    ensures
        get_le16(a + le16(x) + b, a.len() as int) == x,
{
    lemma_le16_roundtrip(x);
    let s = a + le16(x) + b;
    let n = a.len() as int;
    assert(s[n] == le16(x)[0]);
    assert(s[n + 1] == le16(x)[1]);
}

/// `get_le32` only looks at the four bytes it reads.
pub proof fn lemma_get_le32_sub(s: Seq<u8>, t: Seq<u8>, pos: int, tpos: int)
    requires
        0 <= pos,
        pos + 4 <= s.len(),
        0 <= tpos,
        tpos + 4 <= t.len(),
        s.subrange(pos, pos + 4) == t.subrange(tpos, tpos + 4),
    ensures
        get_le32(s, pos) == get_le32(t, tpos),
{
    assert(s[pos] == s.subrange(pos, pos + 4)[0]);
    assert(s[pos + 1] == s.subrange(pos, pos + 4)[1]);
    assert(s[pos + 2] == s.subrange(pos, pos + 4)[2]);
    assert(s[pos + 3] == s.subrange(pos, pos + 4)[3]);
    assert(t[tpos] == t.subrange(tpos, tpos + 4)[0]);
    assert(t[tpos + 1] == t.subrange(tpos, tpos + 4)[1]);
    assert(t[tpos + 2] == t.subrange(tpos, tpos + 4)[2]);
    assert(t[tpos + 3] == t.subrange(tpos, tpos + 4)[3]);
    assert(s[pos] == t[tpos + 0]);
    assert(s[pos + 1] == t[tpos + 1]);
    assert(s[pos + 2] == t[tpos + 2]);
    assert(s[pos + 3] == t[tpos + 3]);
}

pub proof fn lemma_le32_seq_len(xs: Seq<u32>)
    ensures
        le32_seq(xs).len() == 4 * xs.len(),
    decreases xs.len(),
{
    if xs.len() > 0 {
        lemma_le32_seq_len(xs.drop_last());
    }
}

/// The `i`-th value of a `le32_seq` sits at byte `4 * i`.
pub proof fn lemma_le32_seq_index(xs: Seq<u32>, i: int)
    requires
        0 <= i < xs.len(),
    ensures
        le32_seq(xs).len() == 4 * xs.len(),
        get_le32(le32_seq(xs), 4 * i) == xs[i],
    decreases xs.len(),
{
    lemma_le32_seq_len(xs);
    let init = xs.drop_last();
    lemma_le32_seq_len(init);
    if i == xs.len() - 1 {
        lemma_get_le32_at(le32_seq(init), xs.last(), Seq::empty());
        assert(le32_seq(init) + le32(xs.last()) + Seq::<u8>::empty() == le32_seq(xs));
    } else {
        lemma_le32_seq_index(init, i);
        let s = le32_seq(xs);
        let t = le32_seq(init);
        assert(s.subrange(4 * i, 4 * i + 4) =~= t.subrange(4 * i, 4 * i + 4));
        lemma_get_le32_sub(s, t, 4 * i, 4 * i);
    }
}

/// Reading inside an embedded segment is reading the segment itself.
pub proof fn lemma_get_le32_shift(a: Seq<u8>, x: Seq<u8>, b: Seq<u8>, p: int)
    requires
        0 <= p,
        p + 4 <= x.len(),
    ensures
        get_le32(a + x + b, a.len() + p) == get_le32(x, p),
{
    let s = a + x + b;
    assert(s.subrange(a.len() + p, a.len() + p + 4) =~= x.subrange(p, p + 4));
    lemma_get_le32_sub(s, x, a.len() + p, p);
}

/// Reading inside an embedded segment is reading the segment itself.
pub proof fn lemma_get_le16_shift(a: Seq<u8>, x: Seq<u8>, b: Seq<u8>, p: int)
    requires
        0 <= p,
        p + 2 <= x.len(),
    ensures
        get_le16(a + x + b, a.len() + p) == get_le16(x, p),
{
    let s = a + x + b;
    assert(s[a.len() + p] == x[p]);
    assert(s[a.len() + p + 1] == x[p + 1]);
}

/// Append the little-endian encoding of a `u16`.
pub fn push_u16(buf: &mut Vec<u8>, x: u16)
    ensures
        final(buf)@ == old(buf)@ + le16(x),
{
    buf.push((x & 0xff) as u8);
    buf.push(((x >> 8) & 0xff) as u8);
}

/// Append the little-endian encoding of a `u32`.
pub fn push_u32(buf: &mut Vec<u8>, x: u32)
    ensures
        final(buf)@ == old(buf)@ + le32(x),
{
    buf.push((x & 0xff) as u8);
    buf.push(((x >> 8) & 0xff) as u8);
    buf.push(((x >> 16) & 0xff) as u8);
    buf.push(((x >> 24) & 0xff) as u8);
}

/// Append all bytes of `src`.
pub fn push_bytes(buf: &mut Vec<u8>, src: &[u8])
    ensures
        final(buf)@ == old(buf)@ + src@,
{
    let ghost start = buf@;
    let mut i: usize = 0;
    while i < src.len()
        invariant
            i <= src.len(),
            buf@ == start + src@.subrange(0, i as int),
        decreases src.len() - i,
    {
        buf.push(src[i]);
        i = i + 1;
        assert(src@.subrange(0, i as int) == src@.subrange(0, i - 1 as int).push(src@[i - 1]));
    }
    assert(src@.subrange(0, src@.len() as int) == src@);
}

/// Read the little-endian `u16` at `pos`.
pub fn read_u16(data: &[u8], pos: usize) -> (r: u16)
    requires
        pos + 2 <= data@.len(),
    ensures
        r == get_le16(data@, pos as int),
{
    ((data[pos] as u16) | ((data[pos + 1] as u16) << 8u16)) as u16
}

/// Read the little-endian `u32` at `pos`.
pub fn read_u32(data: &[u8], pos: usize) -> (r: u32)
    requires
        pos + 4 <= data@.len(),
    ensures
        r == get_le32(data@, pos as int),
{
    (data[pos] as u32) | ((data[pos + 1] as u32) << 8u32) | ((data[pos + 2] as u32) << 16u32) | ((
    data[pos + 3] as u32) << 24u32)
}

/// Whether `data` starts with the four bytes of `magic`.
pub fn has_magic(data: &[u8], magic: &[u8; 4]) -> (r: bool)
    requires
        data@.len() >= 4,
    ensures
        r == (data@.subrange(0, 4) == magic@),
{
    let r = data[0] == magic[0] && data[1] == magic[1] && data[2] == magic[2] && data[3]
        == magic[3];
    proof {
        if r {
            assert(data@.subrange(0, 4) =~= magic@);
        } else {
            if data@.subrange(0, 4) == magic@ {
                assert(data@.subrange(0, 4)[0] == magic@[0]);
                assert(data@.subrange(0, 4)[1] == magic@[1]);
                assert(data@.subrange(0, 4)[2] == magic@[2]);
                assert(data@.subrange(0, 4)[3] == magic@[3]);
            }
        }
    }
    r
}

/// Copy `data[start..end]` into a new vector.
pub fn copy_range(data: &[u8], start: usize, end: usize) -> (r: Vec<u8>)
    requires
        start <= end <= data@.len(),
    ensures
        r@ == data@.subrange(start as int, end as int),
{
    let mut r: Vec<u8> = Vec::with_capacity(end - start);
    let mut i = start;
    while i < end
        invariant
            start <= i <= end <= data@.len(),
            r@ == data@.subrange(start as int, i as int),
        decreases end - i,
    {
        r.push(data[i]);
        i = i + 1;
        assert(data@.subrange(start as int, i as int) == data@.subrange(start as int, i - 1 as int).push(data@[i - 1]));
    }
    r
}

} // verus!
