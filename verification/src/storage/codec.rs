//! Little-endian integer fields inside byte buffers.
use vstd::prelude::*;

verus! {

/// The `u32` stored little-endian in the four bytes of `s` starting at `off`.
pub open spec fn le_u32_at(s: Seq<u8>, off: int) -> u32 {
    (s[off] as int + s[off + 1] as int * 0x100 + s[off + 2] as int * 0x1_0000
        + s[off + 3] as int * 0x100_0000) as u32
}

/// `s` with the four little-endian bytes of `v` written at `off`.
pub open spec fn put_u32(s: Seq<u8>, off: int, v: u32) -> Seq<u8> {
    s.update(off, (v % 0x100) as u8).update(off + 1, ((v / 0x100) % 0x100) as u8).update(
        off + 2,
        ((v / 0x1_0000) % 0x100) as u8,
    ).update(off + 3, (v / 0x100_0000) as u8)
}

proof fn lemma_u32_bytes(v: u32)
    ensures
        (v % 0x100) as int + ((v / 0x100) % 0x100) as int * 0x100 + ((v / 0x1_0000) % 0x100) as int
            * 0x1_0000 + (v / 0x100_0000) as int * 0x100_0000 == v,
        (v / 0x100_0000) < 0x100,
{
    assert((v % 0x100) as int + ((v / 0x100) % 0x100) as int * 0x100 + ((v / 0x1_0000) % 0x100) as int
        * 0x1_0000 + (v / 0x100_0000) as int * 0x100_0000 == v) by (bit_vector);
    assert((v / 0x100_0000) < 0x100) by (bit_vector);
}

/// The four little-endian bytes of `v`.
pub open spec fn u32_le_bytes(v: u32) -> Seq<u8> {
    seq![
        (v % 0x100) as u8,
        ((v / 0x100) % 0x100) as u8,
        ((v / 0x1_0000) % 0x100) as u8,
        (v / 0x100_0000) as u8,
    ]
}

/// Writing a field is splicing its four little-endian bytes in.
pub proof fn lemma_put_u32_splice(s: Seq<u8>, off: int, v: u32)
    requires
        0 <= off,
        off + 4 <= s.len(),
    ensures
        put_u32(s, off, v) == splice(s, off, u32_le_bytes(v)),
{
    assert(put_u32(s, off, v) =~= splice(s, off, u32_le_bytes(v)));
}

/// Reading back a field returns the value last written there.
pub broadcast proof fn lemma_put_u32_read(s: Seq<u8>, off: int, v: u32)
    requires
        0 <= off,
        off + 4 <= s.len(),
    ensures
        #[trigger] le_u32_at(put_u32(s, off, v), off) == v,
        put_u32(s, off, v).len() == s.len(),
{
    lemma_u32_bytes(v);
}

/// Reads the `u32` stored little-endian at `off` in a byte slice.
pub fn read_u32_le(s: &[u8], off: usize) -> (v: u32)
    requires
        off + 4 <= s@.len(),
    ensures
        v == le_u32_at(s@, off as int),
{
    let b0 = s[off] as u32;
    let b1 = s[off + 1] as u32;
    let b2 = s[off + 2] as u32;
    let b3 = s[off + 3] as u32;
    b0 + b1 * 0x100 + b2 * 0x1_0000 + b3 * 0x100_0000
}

/// Writes `v` little-endian into the four bytes of a slice at `off`.
pub fn write_u32_le(s: &mut [u8], off: usize, v: u32)
    requires
        off + 4 <= old(s)@.len(),
    ensures
        final(s)@ == put_u32(old(s)@, off as int, v),
{
    proof { lemma_u32_bytes(v); }
    s[off] = (v % 0x100) as u8;
    s[off + 1] = ((v / 0x100) % 0x100) as u8;
    s[off + 2] = ((v / 0x1_0000) % 0x100) as u8;
    s[off + 3] = (v / 0x100_0000) as u8;
}

/// `s` with the bytes `b` written over it starting at `off`.
pub open spec fn splice(s: Seq<u8>, off: int, b: Seq<u8>) -> Seq<u8> {
    s.subrange(0, off) + b + s.subrange(off + b.len(), s.len() as int)
}

/// Copies all of `src` into `dest` starting at `off`.
pub fn copy_bytes(dest: &mut [u8], off: usize, src: &[u8])
    requires
        off + src@.len() <= old(dest)@.len(),
    ensures
        final(dest)@ == splice(old(dest)@, off as int, src@),
{
    let n = src.len();
    let dest_len = dest.len();
    let mut i: usize = 0;
    while i < n
        invariant
            n == src@.len(),
            dest_len == dest@.len(),
            off + n <= dest@.len(),
            dest@.len() == old(dest)@.len(),
            0 <= i <= n,
            forall|j: int| 0 <= j < dest@.len() && !(off <= j < off + i) ==> dest@[j] == old(dest)@[j],
            forall|j: int| off <= j < off + i ==> dest@[j] == src@[j - off],
        decreases n - i,
    {
        dest[off + i] = src[i];
        i = i + 1;
    }
    assert(dest@ =~= splice(old(dest)@, off as int, src@));
}

/// Sets the bytes `off .. off + len` of `dest` to zero.
pub fn zero_bytes(dest: &mut [u8], off: usize, len: usize)
    requires
        off + len <= old(dest)@.len(),
    ensures
        final(dest)@ == splice(old(dest)@, off as int, Seq::new(len as nat, |k: int| 0u8)),
{
    let dest_len = dest.len();
    let mut i: usize = 0;
    while i < len
        invariant
            dest_len == dest@.len(),
            off + len <= dest@.len(),
            dest@.len() == old(dest)@.len(),
            0 <= i <= len,
            forall|j: int| 0 <= j < dest@.len() && !(off <= j < off + i) ==> dest@[j] == old(dest)@[j],
            forall|j: int| off <= j < off + i ==> dest@[j] == 0u8,
        decreases len - i,
    {
        dest[off + i] = 0;
        i = i + 1;
    }
    assert(dest@ =~= splice(old(dest)@, off as int, Seq::new(len as nat, |k: int| 0u8)));
}

/// Copies `len` bytes of `s` from `src` to `dst`, where the two ranges do not overlap.
pub fn move_bytes(s: &mut [u8], src: usize, dst: usize, len: usize)
    requires
        src + len <= dst || dst + len <= src,
        src + len <= old(s)@.len(),
        dst + len <= old(s)@.len(),
    ensures
        final(s)@ == splice(old(s)@, dst as int, old(s)@.subrange(src as int, src + len)),
{
    let s_len = s.len();
    let mut i: usize = 0;
    while i < len
        invariant
            s_len == s@.len(),
            s@.len() == old(s)@.len(),
            src + len <= dst || dst + len <= src,
            src + len <= s_len,
            dst + len <= s_len,
            0 <= i <= len,
            forall|j: int| 0 <= j < s@.len() && !(dst <= j < dst + i) ==> s@[j] == old(s)@[j],
            forall|j: int| dst <= j < dst + i ==> s@[j] == old(s)@[src + (j - dst)],
        decreases len - i,
    {
        let b = s[src + i];
        s[dst + i] = b;
        i = i + 1;
    }
    assert(s@ =~= splice(old(s)@, dst as int, old(s)@.subrange(src as int, src + len)));
}

} // verus!
