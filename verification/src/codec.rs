//! Little-endian integer encoding and byte-buffer splicing.
//!
//! All multi-byte integers of the archive format are little-endian. The
//! functions here are the only place where integers meet raw bytes, and the
//! buffer helpers are the only place where a region of the image is read or
//! overwritten.

use vstd::prelude::*;

verus! {

/// The two little-endian bytes of a `u16`.
pub open spec fn u16_le(v: u16) -> Seq<u8> {
    seq![(v & 0xff) as u8, ((v >> 8) & 0xff) as u8]
}

/// The four little-endian bytes of a `u32`.
pub open spec fn u32_le(v: u32) -> Seq<u8> {
    seq![
        (v & 0xff) as u8,
        ((v >> 8) & 0xff) as u8,
        ((v >> 16) & 0xff) as u8,
        ((v >> 24) & 0xff) as u8,
    ]
}

/// The eight little-endian bytes of a `u64`.
pub open spec fn u64_le(v: u64) -> Seq<u8> {
    seq![
        (v & 0xff) as u8,
        ((v >> 8) & 0xff) as u8,
        ((v >> 16) & 0xff) as u8,
        ((v >> 24) & 0xff) as u8,
        ((v >> 32) & 0xff) as u8,
        ((v >> 40) & 0xff) as u8,
        ((v >> 48) & 0xff) as u8,
        ((v >> 56) & 0xff) as u8,
    ]
}

/// The `u32` read little-endian from four bytes.
pub open spec fn u32_of_le(s: Seq<u8>) -> u32
    recommends
        s.len() == 4,
{
    (s[0] as u32) | ((s[1] as u32) << 8) | ((s[2] as u32) << 16) | ((s[3] as u32) << 24)
}

/// The `u64` read little-endian from eight bytes.
pub open spec fn u64_of_le(s: Seq<u8>) -> u64
    recommends
        s.len() == 8,
{
    (s[0] as u64) | ((s[1] as u64) << 8) | ((s[2] as u64) << 16) | ((s[3] as u64) << 24)
        | ((s[4] as u64) << 32) | ((s[5] as u64) << 40) | ((s[6] as u64) << 48)
        | ((s[7] as u64) << 56)
}

/// Reading back the four bytes of a `u32` yields the value again.
pub proof fn lemma_u32_le_roundtrip(v: u32)
    ensures
        u32_of_le(u32_le(v)) == v,
{
    assert(((v & 0xff) as u8 as u32) | ((((v >> 8) & 0xff) as u8 as u32) << 8)
        | ((((v >> 16) & 0xff) as u8 as u32) << 16) | ((((v >> 24) & 0xff) as u8 as u32) << 24)
        == v) by (bit_vector);
}

/// Reading back the eight bytes of a `u64` yields the value again.
pub proof fn lemma_u64_le_roundtrip(v: u64)
    ensures
        u64_of_le(u64_le(v)) == v,
{
    assert(((v & 0xff) as u8 as u64) | ((((v >> 8) & 0xff) as u8 as u64) << 8)
        | ((((v >> 16) & 0xff) as u8 as u64) << 16) | ((((v >> 24) & 0xff) as u8 as u64) << 24)
        | ((((v >> 32) & 0xff) as u8 as u64) << 32) | ((((v >> 40) & 0xff) as u8 as u64) << 40)
        | ((((v >> 48) & 0xff) as u8 as u64) << 48) | ((((v >> 56) & 0xff) as u8 as u64) << 56)
        == v) by (bit_vector);
}

/// `s` with the region starting at `off` replaced by `d`.
pub open spec fn spliced(s: Seq<u8>, off: int, d: Seq<u8>) -> Seq<u8>
    recommends
        0 <= off,
        off + d.len() <= s.len(),
{
    s.take(off) + d + s.skip(off + d.len())
}

/// Copies `len` bytes out of `buf` starting at `off`.
pub fn read_bytes(buf: &Vec<u8>, off: usize, len: usize) -> (r: Vec<u8>)
    requires
        off + len <= buf.len(),
    ensures
        r@ == buf@.subrange(off as int, off + len),
{
    let mut r: Vec<u8> = Vec::new();
    let mut i: usize = 0;
    while i < len
        invariant
            i <= len,
            off + len <= buf.len(),
            r@ == buf@.subrange(off as int, off + i),
        decreases len - i,
    {
        r.push(buf[off + i]);
        assert(r@ =~= buf@.subrange(off as int, off + i + 1));
        i = i + 1;
    }
    r
}

/// Overwrites the region of `buf` starting at `off` with `data`.
pub fn write_bytes(buf: &mut Vec<u8>, off: usize, data: &Vec<u8>)
    requires
        off + data.len() <= old(buf).len(),
    ensures
        final(buf)@ == spliced(old(buf)@, off as int, data@),
        final(buf).len() == old(buf).len(),
{
    let mut i: usize = 0;
    while i < data.len()
        invariant
            i <= data.len(),
            off + data.len() <= buf.len(),
            buf.len() == old(buf).len(),
            buf@ =~= old(buf)@.take(off as int) + data@.take(i as int) + old(buf)@.skip(
                off + i,
            ),
        decreases data.len() - i,
    {
        buf.set(off + i, data[i]);
        assert(buf@ =~= old(buf)@.take(off as int) + data@.take(i + 1) + old(buf)@.skip(
            off + i + 1,
        ));
        i = i + 1;
    }
    assert(buf@ =~= spliced(old(buf)@, off as int, data@));
}

/// Appends `data` to the end of `buf`.
pub fn append_bytes(buf: &mut Vec<u8>, data: &Vec<u8>)
    ensures
        final(buf)@ == old(buf)@ + data@,
{
    let mut i: usize = 0;
    while i < data.len()
        invariant
            i <= data.len(),
            buf@ =~= old(buf)@ + data@.take(i as int),
        decreases data.len() - i,
    {
        buf.push(data[i]);
        assert(buf@ =~= old(buf)@ + data@.take(i + 1));
        i = i + 1;
    }
    assert(buf@ =~= old(buf)@ + data@);
}

/// Appends `n` zero bytes to `buf`.
pub fn append_zeros(buf: &mut Vec<u8>, n: usize)
    ensures
        final(buf)@ == old(buf)@ + Seq::new(n as nat, |i: int| 0u8),
{
    let mut i: usize = 0;
    while i < n
        invariant
            i <= n,
            buf@ =~= old(buf)@ + Seq::new(i as nat, |j: int| 0u8),
        decreases n - i,
    {
        buf.push(0u8);
        assert(buf@ =~= old(buf)@ + Seq::new((i + 1) as nat, |j: int| 0u8));
        i = i + 1;
    }
}

/// Appends the two little-endian bytes of `v` to `out`.
pub fn push_u16_le(out: &mut Vec<u8>, v: u16)
    ensures
        final(out)@ == old(out)@ + u16_le(v),
{
    out.push((v & 0xff) as u8);
    out.push(((v >> 8) & 0xff) as u8);
    assert(out@ =~= old(out)@ + u16_le(v));
}

/// Appends the four little-endian bytes of `v` to `out`.
pub fn push_u32_le(out: &mut Vec<u8>, v: u32)
    ensures
        final(out)@ == old(out)@ + u32_le(v),
{
    out.push((v & 0xff) as u8);
    out.push(((v >> 8) & 0xff) as u8);
    out.push(((v >> 16) & 0xff) as u8);
    out.push(((v >> 24) & 0xff) as u8);
    assert(out@ =~= old(out)@ + u32_le(v));
}

/// Appends the eight little-endian bytes of `v` to `out`.
pub fn push_u64_le(out: &mut Vec<u8>, v: u64)
    ensures
        final(out)@ == old(out)@ + u64_le(v),
{
    out.push((v & 0xff) as u8);
    out.push(((v >> 8) & 0xff) as u8);
    out.push(((v >> 16) & 0xff) as u8);
    out.push(((v >> 24) & 0xff) as u8);
    out.push(((v >> 32) & 0xff) as u8);
    out.push(((v >> 40) & 0xff) as u8);
    out.push(((v >> 48) & 0xff) as u8);
    out.push(((v >> 56) & 0xff) as u8);
    assert(out@ =~= old(out)@ + u64_le(v));
}

/// Compares two byte vectors for equality.
pub fn bytes_eq(a: &Vec<u8>, b: &Vec<u8>) -> (r: bool)
    ensures
        r == (a@ == b@),
{
    if a.len() != b.len() {
        assert(a@ != b@);
        return false;
    }
    let mut i: usize = 0;
    while i < a.len()
        invariant
            i <= a.len(),
            a@.len() == b@.len(),
            forall|j: int| 0 <= j < i ==> a@[j] == b@[j],
        decreases a.len() - i,
    {
        if a[i] != b[i] {
            return false;
        }
        i = i + 1;
    }
    assert(a@ =~= b@);
    true
}

/// Reads the `u32` stored little-endian at `off` in `buf`.
pub fn read_u32_le(buf: &Vec<u8>, off: usize) -> (r: u32)
    requires
        off + 4 <= buf.len(),
    ensures
        r == u32_of_le(buf@.subrange(off as int, off + 4)),
{
    let r = (buf[off] as u32) | ((buf[off + 1] as u32) << 8u32) | ((buf[off + 2] as u32)
        << 16u32) | ((buf[off + 3] as u32) << 24u32);
    proof {
        let s = buf@.subrange(off as int, off + 4);
        assert(s[0] == buf@[off as int] && s[1] == buf@[off + 1] && s[2] == buf@[off + 2]
            && s[3] == buf@[off + 3]);
    }
    r
}

/// Reads the `u64` stored little-endian at `off` in `buf`.
pub fn read_u64_le(buf: &Vec<u8>, off: usize) -> (r: u64)
    requires
        off + 8 <= buf.len(),
    ensures
        r == u64_of_le(buf@.subrange(off as int, off + 8)),
{
    let r = (buf[off] as u64) | ((buf[off + 1] as u64) << 8u64) | ((buf[off + 2] as u64)
        << 16u64) | ((buf[off + 3] as u64) << 24u64) | ((buf[off + 4] as u64) << 32u64) | ((
    buf[off + 5] as u64) << 40u64) | ((buf[off + 6] as u64) << 48u64) | ((buf[off + 7] as u64)
        << 56u64);
    proof {
        let s = buf@.subrange(off as int, off + 8);
        assert(s[0] == buf@[off as int] && s[1] == buf@[off + 1] && s[2] == buf@[off + 2]
            && s[3] == buf@[off + 3] && s[4] == buf@[off + 4] && s[5] == buf@[off + 5] && s[6]
            == buf@[off + 6] && s[7] == buf@[off + 7]);
    }
    r
}

} // verus!
