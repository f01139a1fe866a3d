//! Little-endian integer fields inside byte buffers.
//!
//! Every on-page and on-log structure of the crate is laid out with the
//! functions of this module; the spec functions give each field's value as a
//! plain integer expression over the bytes.
use vstd::prelude::*;

verus! {

/// Value of the 2-byte field at offset `o`.
pub open spec fn u16_at(s: Seq<u8>, o: int) -> int {
    s[o] + 0x100 * s[o + 1]
}

/// Value of the 4-byte field at offset `o`.
pub open spec fn u32_at(s: Seq<u8>, o: int) -> int {
    s[o] + 0x100 * s[o + 1] + 0x1_0000 * s[o + 2] + 0x100_0000 * s[o + 3]
}

/// Value of the 8-byte field at offset `o`.
pub open spec fn u64_at(s: Seq<u8>, o: int) -> int {
    s[o] + 0x100 * s[o + 1] + 0x1_0000 * s[o + 2] + 0x100_0000 * s[o + 3] + 0x1_0000_0000 * s[o
        + 4] + 0x100_0000_0000 * s[o + 5] + 0x1_0000_0000_0000 * s[o + 6] + 0x100_0000_0000_0000
        * s[o + 7]
}

/// The 2 bytes of `v`.
pub open spec fn le2(v: int) -> Seq<u8> {
    seq![(v % 256) as u8, (v / 256 % 256) as u8]
}

/// The 4 bytes of `v`.
pub open spec fn le4(v: int) -> Seq<u8> {
    seq![
        (v % 256) as u8,
        (v / 256 % 256) as u8,
        (v / 256 / 256 % 256) as u8,
        (v / 256 / 256 / 256 % 256) as u8,
    ]
}

/// The 8 bytes of `v`.
pub open spec fn le8(v: int) -> Seq<u8> {
    seq![
        (v % 256) as u8,
        (v / 256 % 256) as u8,
        (v / 256 / 256 % 256) as u8,
        (v / 256 / 256 / 256 % 256) as u8,
        (v / 256 / 256 / 256 / 256 % 256) as u8,
        (v / 256 / 256 / 256 / 256 / 256 % 256) as u8,
        (v / 256 / 256 / 256 / 256 / 256 / 256 % 256) as u8,
        (v / 256 / 256 / 256 / 256 / 256 / 256 / 256 % 256) as u8,
    ]
}

/// `s` with the bytes from offset `o` on replaced by `t`.
pub open spec fn splice(s: Seq<u8>, o: int, t: Seq<u8>) -> Seq<u8> {
    Seq::new(
        s.len(),
        |i: int|
            if o <= i < o + t.len() {
                t[i - o]
            } else {
                s[i]
            },
    )
}

/// `n` zero bytes.
pub open spec fn zeros(n: int) -> Seq<u8> {
    Seq::new(n as nat, |i: int| 0u8)
}

/// A field written with `le2` reads back as the value written.
pub proof fn lemma_le2(v: int)
    requires
        0 <= v < 0x1_0000,
    ensures
        le2(v).len() == 2,
        u16_at(le2(v), 0) == v,
{
}

/// A field written with `le4` reads back as the value written.
pub proof fn lemma_le4(v: int)
    requires
        0 <= v < 0x1_0000_0000,
    ensures
        le4(v).len() == 4,
        u32_at(le4(v), 0) == v,
{
    let v1 = v / 256;
    let v2 = v1 / 256;
    let v3 = v2 / 256;
    assert(v == 256 * v1 + v % 256);
    assert(v1 == 256 * v2 + v1 % 256);
    assert(v2 == 256 * v3 + v2 % 256);
    assert(0 <= v3 < 256);
}

/// A field written with `le8` reads back as the value written.
pub proof fn lemma_le8(v: int)
    requires
        0 <= v < 0x1_0000_0000_0000_0000,
    ensures
        le8(v).len() == 8,
        u64_at(le8(v), 0) == v,
{
    let v1 = v / 256;
    let v2 = v1 / 256;
    let v3 = v2 / 256;
    let v4 = v3 / 256;
    let v5 = v4 / 256;
    let v6 = v5 / 256;
    let v7 = v6 / 256;
    assert(v == 256 * v1 + v % 256);
    assert(v1 == 256 * v2 + v1 % 256);
    assert(v2 == 256 * v3 + v2 % 256);
    assert(v3 == 256 * v4 + v3 % 256);
    assert(v4 == 256 * v5 + v4 % 256);
    assert(v5 == 256 * v6 + v5 % 256);
    assert(v6 == 256 * v7 + v6 % 256);
    assert(0 <= v7 < 256);
}

/// A field that lies at `o` inside a longer buffer has the value that was encoded.
pub proof fn lemma_field8(s: Seq<u8>, o: int, v: int)
    requires
        0 <= v < 0x1_0000_0000_0000_0000,
        0 <= o,
        o + 8 <= s.len(),
        s.subrange(o, o + 8) == le8(v),
    ensures
        u64_at(s, o) == v,
{
    lemma_le8(v);
    let t = s.subrange(o, o + 8);
    assert(forall|k: int| 0 <= k < 8 ==> t[k] == s[o + k]);
}

/// A field that lies at `o` inside a longer buffer has the value that was encoded.
pub proof fn lemma_field4(s: Seq<u8>, o: int, v: int)
    requires
        0 <= v < 0x1_0000_0000,
        0 <= o,
        o + 4 <= s.len(),
        s.subrange(o, o + 4) == le4(v),
    ensures
        u32_at(s, o) == v,
{
    lemma_le4(v);
    let t = s.subrange(o, o + 4);
    assert(forall|k: int| 0 <= k < 4 ==> t[k] == s[o + k]);
}

/// A field that lies at `o` inside a longer buffer has the value that was encoded.
pub proof fn lemma_field2(s: Seq<u8>, o: int, v: int)
    requires
        0 <= v < 0x1_0000,
        0 <= o,
        o + 2 <= s.len(),
        s.subrange(o, o + 2) == le2(v),
    ensures
        u16_at(s, o) == v,
{
    lemma_le2(v);
    let t = s.subrange(o, o + 2);
    assert(forall|k: int| 0 <= k < 2 ==> t[k] == s[o + k]);
}

/// Reads the 2-byte field at `o`.
pub fn get_u16(s: &[u8], o: usize) -> (r: u16)
    requires
        o + 2 <= s@.len(),
    ensures
        r == u16_at(s@, o as int),
{
    s[o] as u16 + 0x100 * (s[o + 1] as u16)
}

/// Reads the 4-byte field at `o`.
pub fn get_u32(s: &[u8], o: usize) -> (r: u32)
    requires
        o + 4 <= s@.len(),
    ensures
        r == u32_at(s@, o as int),
{
    s[o] as u32 + 0x100 * (s[o + 1] as u32) + 0x1_0000 * (s[o + 2] as u32) + 0x100_0000 * (s[o
        + 3] as u32)
}

/// Reads the 8-byte field at `o`.
pub fn get_u64(s: &[u8], o: usize) -> (r: u64)
    requires
        o + 8 <= s@.len(),
    ensures
        r == u64_at(s@, o as int),
{
    s[o] as u64 + 0x100 * (s[o + 1] as u64) + 0x1_0000 * (s[o + 2] as u64) + 0x100_0000 * (s[o
        + 3] as u64) + 0x1_0000_0000 * (s[o + 4] as u64) + 0x100_0000_0000 * (s[o + 5] as u64)
        + 0x1_0000_0000_0000 * (s[o + 6] as u64) + 0x100_0000_0000_0000 * (s[o + 7] as u64)
}

/// Writes the 2-byte field at `o`.
pub fn set_u16(buf: &mut Vec<u8>, o: usize, v: u16)
    requires
        o + 2 <= old(buf)@.len(),
    ensures
        final(buf)@ == splice(old(buf)@, o as int, le2(v as int)),
        u16_at(final(buf)@, o as int) == v,
{
    let len: usize = buf.len();
    buf[o] = (v % 256) as u8;
    buf[o + 1] = (v / 256 % 256) as u8;
    assert(buf@ =~= splice(old(buf)@, o as int, le2(v as int)));
}

/// Writes the 4-byte field at `o`.
pub fn set_u32(buf: &mut Vec<u8>, o: usize, v: u32)
    requires
        o + 4 <= old(buf)@.len(),
    ensures
        final(buf)@ == splice(old(buf)@, o as int, le4(v as int)),
        u32_at(final(buf)@, o as int) == v,
{
    let len: usize = buf.len();
    buf[o] = (v % 256) as u8;
    buf[o + 1] = (v / 256 % 256) as u8;
    buf[o + 2] = (v / 256 / 256 % 256) as u8;
    buf[o + 3] = (v / 256 / 256 / 256 % 256) as u8;
    proof {
        lemma_le4(v as int);
    }
    assert(buf@ =~= splice(old(buf)@, o as int, le4(v as int)));
}

/// Writes the 8-byte field at `o`.
pub fn set_u64(buf: &mut Vec<u8>, o: usize, v: u64)
    requires
        o + 8 <= old(buf)@.len(),
    ensures
        final(buf)@ == splice(old(buf)@, o as int, le8(v as int)),
        u64_at(final(buf)@, o as int) == v,
{
    let len: usize = buf.len();
    buf[o] = (v % 256) as u8;
    buf[o + 1] = (v / 256 % 256) as u8;
    buf[o + 2] = (v / 256 / 256 % 256) as u8;
    buf[o + 3] = (v / 256 / 256 / 256 % 256) as u8;
    buf[o + 4] = (v / 256 / 256 / 256 / 256 % 256) as u8;
    buf[o + 5] = (v / 256 / 256 / 256 / 256 / 256 % 256) as u8;
    buf[o + 6] = (v / 256 / 256 / 256 / 256 / 256 / 256 % 256) as u8;
    buf[o + 7] = (v / 256 / 256 / 256 / 256 / 256 / 256 / 256 % 256) as u8;
    proof {
        lemma_le8(v as int);
    }
    assert(buf@ =~= splice(old(buf)@, o as int, le8(v as int)));
}

/// Copies `src` over the bytes of `buf` from offset `o` on.
pub fn set_bytes(buf: &mut Vec<u8>, o: usize, src: &[u8])
    requires
        o + src@.len() <= old(buf)@.len(),
    ensures
        final(buf)@ == splice(old(buf)@, o as int, src@),
{
    let len: usize = buf.len();
    let n: usize = src.len();
    let mut i: usize = 0;
    while i < n
        invariant
            n == src@.len(),
            i <= n,
            o + n <= old(buf)@.len(),
            old(buf)@.len() == len,
            buf@ =~= splice(old(buf)@, o as int, src@.subrange(0, i as int)),
        decreases n - i,
    {
        buf[o + i] = src[i];
        i += 1;
    }
    assert(src@.subrange(0, n as int) =~= src@);
}

/// Sets `n` bytes of `buf` from offset `o` on to zero.
pub fn fill_zero(buf: &mut Vec<u8>, o: usize, n: usize)
    requires
        o + n <= old(buf)@.len(),
    ensures
        final(buf)@ == splice(old(buf)@, o as int, zeros(n as int)),
{
    let len: usize = buf.len();
    let mut i: usize = 0;
    while i < n
        invariant
            i <= n,
            o + n <= old(buf)@.len(),
            old(buf)@.len() == len,
            buf@ =~= splice(old(buf)@, o as int, zeros(i as int)),
        decreases n - i,
    {
        buf[o + i] = 0;
        i += 1;
    }
}

/// Appends the 2 bytes of `v`.
pub fn push_u16(buf: &mut Vec<u8>, v: u16)
    ensures
        final(buf)@ == old(buf)@ + le2(v as int),
{
    buf.push((v % 256) as u8);
    buf.push((v / 256 % 256) as u8);
    assert(buf@ =~= old(buf)@ + le2(v as int));
}

/// Appends the 4 bytes of `v`.
pub fn push_u32(buf: &mut Vec<u8>, v: u32)
    ensures
        final(buf)@ == old(buf)@ + le4(v as int),
{
    buf.push((v % 256) as u8);
    buf.push((v / 256 % 256) as u8);
    buf.push((v / 256 / 256 % 256) as u8);
    buf.push((v / 256 / 256 / 256 % 256) as u8);
    assert(buf@ =~= old(buf)@ + le4(v as int));
}

/// Appends the 8 bytes of `v`.
pub fn push_u64(buf: &mut Vec<u8>, v: u64)
    ensures
        final(buf)@ == old(buf)@ + le8(v as int),
{
    buf.push((v % 256) as u8);
    buf.push((v / 256 % 256) as u8);
    buf.push((v / 256 / 256 % 256) as u8);
    buf.push((v / 256 / 256 / 256 % 256) as u8);
    buf.push((v / 256 / 256 / 256 / 256 % 256) as u8);
    buf.push((v / 256 / 256 / 256 / 256 / 256 % 256) as u8);
    buf.push((v / 256 / 256 / 256 / 256 / 256 / 256 % 256) as u8);
    buf.push((v / 256 / 256 / 256 / 256 / 256 / 256 / 256 % 256) as u8);
    assert(buf@ =~= old(buf)@ + le8(v as int));
}

/// Appends the bytes of `src`.
pub fn push_bytes(buf: &mut Vec<u8>, src: &[u8])
    ensures
        final(buf)@ == old(buf)@ + src@,
{
    buf.extend_from_slice(src);
    assert(buf@ =~= old(buf)@ + src@);
}

/// A fresh buffer of `n` zero bytes.
pub fn zeroed(n: usize) -> (r: Vec<u8>)
    ensures
        r@ == zeros(n as int),
{
    let r: Vec<u8> = vec![0u8; n];
    assert(r@ =~= zeros(n as int));
    r
}

/// A copy of the bytes `[i, j)` of `s`.
pub fn copy_range(s: &[u8], i: usize, j: usize) -> (r: Vec<u8>)
    requires
        i <= j <= s@.len(),
    ensures
        r@ == s@.subrange(i as int, j as int),
{
    vstd::slice::slice_to_vec(vstd::slice::slice_subrange(s, i, j))
}

/// A copy of the bytes of `s`.
pub fn copy_bytes(s: &[u8]) -> (r: Vec<u8>)
    ensures
        r@ == s@,
{
    vstd::slice::slice_to_vec(s)
}

/// Whether two byte strings are equal.
pub fn bytes_eq(a: &[u8], b: &[u8]) -> (r: bool)
    ensures
        r == (a@ == b@),
{
    if a.len() != b.len() {
        return false;
    }
    let n: usize = a.len();
    let mut i: usize = 0;
    while i < n
        invariant
            n == a@.len(),
            n == b@.len(),
            i <= n,
            forall|k: int| 0 <= k < i ==> a@[k] == b@[k],
        decreases n - i,
    {
        if a[i] != b[i] {
            assert(a@[i as int] != b@[i as int]);
            return false;
        }
        i += 1;
    }
    assert(a@ =~= b@);
    true
}

/// Fields are stored with the least significant byte first: byte `k` of a field is the
/// digit of weight `256^k` of its value.
pub proof fn law_fields_are_little_endian(s: Seq<u8>, o: int)
    ensures
        u16_at(s, o) == s[o] + 256 * s[o + 1],
        u32_at(s, o) == u16_at(s, o) + 65536 * u16_at(s, o + 2),
        u64_at(s, o) == u32_at(s, o) + 4294967296 * u32_at(s, o + 4),
{
}

/// What is put into a page at `o` is found there, and every other byte stays.
pub proof fn law_splice_is_local(s: Seq<u8>, o: int, t: Seq<u8>)
    requires
        0 <= o,
        o + t.len() <= s.len(),
    ensures
        splice(s, o, t) == s.subrange(0, o) + t + s.subrange(o + t.len(), s.len() as int),
{
    assert(splice(s, o, t) =~= s.subrange(0, o) + t + s.subrange(o + t.len(), s.len() as int));
}

} // verus!
