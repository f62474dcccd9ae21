//! Little-endian fixed-width integers on byte vectors: the building blocks
//! of every record the store persists.

use vstd::prelude::*;

verus! {

/// The two little-endian bytes of a 16-bit value.
pub open spec fn u16_le(v: u16) -> Seq<u8> {
    seq![(v as int % 256) as u8, (v as int / 256 % 256) as u8]
}

/// The four little-endian bytes of a 32-bit value.
pub open spec fn u32_le(v: u32) -> Seq<u8> {
    seq![
        (v as int % 256) as u8,
        (v as int / 256 % 256) as u8,
        (v as int / 0x10000 % 256) as u8,
        (v as int / 0x1000000 % 256) as u8,
    ]
}

/// The eight little-endian bytes of a 64-bit value.
pub open spec fn u64_le(v: u64) -> Seq<u8> {
    seq![
        (v as int % 256) as u8,
        (v as int / 256 % 256) as u8,
        (v as int / 0x10000 % 256) as u8,
        (v as int / 0x1000000 % 256) as u8,
        (v as int / 0x100000000 % 256) as u8,
        (v as int / 0x10000000000 % 256) as u8,
        (v as int / 0x1000000000000 % 256) as u8,
        (v as int / 0x100000000000000 % 256) as u8,
    ]
}

/// The 16-bit value two little-endian bytes carry.
pub open spec fn le16_val(b0: u8, b1: u8) -> int {
    b0 + 256 * b1
}

/// The 32-bit value four little-endian bytes carry.
pub open spec fn le32_val(b0: u8, b1: u8, b2: u8, b3: u8) -> int {
    b0 + 256 * b1 + 0x10000 * b2 + 0x1000000 * b3
}

/// The 64-bit value eight little-endian bytes carry.
pub open spec fn le64_val(b0: u8, b1: u8, b2: u8, b3: u8, b4: u8, b5: u8, b6: u8, b7: u8) -> int {
    b0 + 256 * b1 + 0x10000 * b2 + 0x1000000 * b3 + 0x100000000 * b4 + 0x10000000000 * b5
        + 0x1000000000000 * b6 + 0x100000000000000 * b7
}

/// Encoding a 16-bit value and reading the bytes back gives the value.
pub proof fn lemma_u16_le_val(v: u16)
    ensures
        u16_le(v).len() == 2,
        le16_val(u16_le(v)[0], u16_le(v)[1]) == v,
{
    assert(le16_val(u16_le(v)[0], u16_le(v)[1]) == v) by (nonlinear_arith)
        requires
            u16_le(v)[0] == (v as int % 256) as u8,
            u16_le(v)[1] == (v as int / 256 % 256) as u8,
    ;
}

/// Appends the two little-endian bytes of `v`.
pub fn push_u16(out: &mut Vec<u8>, v: u16)
    ensures
        final(out)@ == old(out)@ + u16_le(v),
{
    out.push((v % 256) as u8);
    out.push((v / 256) as u8);
    proof {
        assert(v as int / 256 % 256 == v as int / 256) by (nonlinear_arith)
            requires
                v <= 65535,
        ;
        assert(out@ =~= old(out)@ + u16_le(v));
    }
}

/// Appends the four little-endian bytes of `v`.
pub fn push_u32(out: &mut Vec<u8>, v: u32)
    ensures
        final(out)@ == old(out)@ + u32_le(v),
{
    out.push((v % 256) as u8);
    out.push((v / 256 % 256) as u8);
    out.push((v / 0x10000 % 256) as u8);
    out.push((v / 0x1000000 % 256) as u8);
    proof {
        assert(out@ =~= old(out)@ + u32_le(v));
    }
}

/// Appends the eight little-endian bytes of `v`.
pub fn push_u64(out: &mut Vec<u8>, v: u64)
    ensures
        final(out)@ == old(out)@ + u64_le(v),
{
    out.push((v % 256) as u8);
    out.push((v / 256 % 256) as u8);
    out.push((v / 0x10000 % 256) as u8);
    out.push((v / 0x1000000 % 256) as u8);
    out.push((v / 0x100000000 % 256) as u8);
    out.push((v / 0x10000000000 % 256) as u8);
    out.push((v / 0x1000000000000 % 256) as u8);
    out.push((v / 0x100000000000000 % 256) as u8);
    proof {
        assert(out@ =~= old(out)@ + u64_le(v));
    }
}

/// Reads the 16-bit value at offset `i`.
pub fn get_u16(b: &Vec<u8>, i: usize) -> (v: u16)
    requires
        i + 2 <= b.len(),
    ensures
        v == le16_val(b@[i as int], b@[i as int + 1]),
{
    b[i] as u16 + 256 * (b[i + 1] as u16)
}

/// Reads the 32-bit value at offset `i`.
pub fn get_u32(b: &Vec<u8>, i: usize) -> (v: u32)
    requires
        i + 4 <= b.len(),
    ensures
        v == le32_val(b@[i as int], b@[i as int + 1], b@[i as int + 2], b@[i as int + 3]),
{
    b[i] as u32 + 256 * (b[i + 1] as u32) + 0x10000 * (b[i + 2] as u32) + 0x1000000 * (b[i
        + 3] as u32)
}

/// Reads the 64-bit value at offset `i`.
pub fn get_u64(b: &Vec<u8>, i: usize) -> (v: u64)
    requires
        i + 8 <= b.len(),
    ensures
        v == le64_val(
            b@[i as int],
            b@[i as int + 1],
            b@[i as int + 2],
            b@[i as int + 3],
            b@[i as int + 4],
            b@[i as int + 5],
            b@[i as int + 6],
            b@[i as int + 7],
        ),
{
    b[i] as u64 + 256 * (b[i + 1] as u64) + 0x10000 * (b[i + 2] as u64) + 0x1000000 * (b[i
        + 3] as u64) + 0x100000000 * (b[i + 4] as u64) + 0x10000000000 * (b[i + 5] as u64)
        + 0x1000000000000 * (b[i + 6] as u64) + 0x100000000000000 * (b[i + 7] as u64)
}

/// Reading back the bytes of a 32-bit value gives the value.
pub proof fn lemma_u32_le_val(v: u32)
    ensures
        u32_le(v).len() == 4,
        le32_val(u32_le(v)[0], u32_le(v)[1], u32_le(v)[2], u32_le(v)[3]) == v,
{
    assert(le32_val(u32_le(v)[0], u32_le(v)[1], u32_le(v)[2], u32_le(v)[3]) == v)
        by (bit_vector)
        requires
            u32_le(v)[0] == (v as int % 256) as u8,
            u32_le(v)[1] == (v as int / 256 % 256) as u8,
            u32_le(v)[2] == (v as int / 0x10000 % 256) as u8,
            u32_le(v)[3] == (v as int / 0x1000000 % 256) as u8,
    ;
}

/// Reading back the bytes of a 64-bit value gives the value.
pub proof fn lemma_u64_le_val(v: u64)
    ensures
        u64_le(v).len() == 8,
        le64_val(
            u64_le(v)[0],
            u64_le(v)[1],
            u64_le(v)[2],
            u64_le(v)[3],
            u64_le(v)[4],
            u64_le(v)[5],
            u64_le(v)[6],
            u64_le(v)[7],
        ) == v,
{
    assert(le64_val(
        u64_le(v)[0],
        u64_le(v)[1],
        u64_le(v)[2],
        u64_le(v)[3],
        u64_le(v)[4],
        u64_le(v)[5],
        u64_le(v)[6],
        u64_le(v)[7],
    ) == v) by (bit_vector)
        requires
            u64_le(v)[0] == (v as int % 256) as u8,
            u64_le(v)[1] == (v as int / 256 % 256) as u8,
            u64_le(v)[2] == (v as int / 0x10000 % 256) as u8,
            u64_le(v)[3] == (v as int / 0x1000000 % 256) as u8,
            u64_le(v)[4] == (v as int / 0x100000000 % 256) as u8,
            u64_le(v)[5] == (v as int / 0x10000000000 % 256) as u8,
            u64_le(v)[6] == (v as int / 0x1000000000000 % 256) as u8,
            u64_le(v)[7] == (v as int / 0x100000000000000 % 256) as u8,
    ;
}

/// Whether two byte vectors hold the same bytes.
pub fn bytes_eq(a: &Vec<u8>, b: &Vec<u8>) -> (r: bool)
    ensures
        r == (a@ == b@),
{
    if a.len() != b.len() {
        return false;
    }
    let mut i: usize = 0;
    while i < a.len()
        invariant
            i <= a.len() == b.len(),
            forall|j: int| 0 <= j < i ==> a@[j] == b@[j],
        decreases a.len() - i,
    {
        if a[i] != b[i] {
            return false;
        }
        i = i + 1;
    }
    proof {
        assert(a@ =~= b@);
    }
    true
}

/// A fresh copy of a byte vector.
pub fn copy_bytes(a: &Vec<u8>) -> (r: Vec<u8>)
    ensures
        r@ == a@,
{
    let mut out: Vec<u8> = Vec::new();
    let mut i: usize = 0;
    while i < a.len()
        invariant
            i <= a.len(),
            out@ == a@.subrange(0, i as int),
        decreases a.len() - i,
    {
        out.push(a[i]);
        proof {
            assert(a@.subrange(0, i + 1) =~= a@.subrange(0, i as int).push(a@[i as int]));
        }
        i = i + 1;
    }
    proof {
        assert(a@.subrange(0, a@.len() as int) =~= a@);
    }
    out
}

/// Appends `n` copies of `v`.
pub fn push_repeat(out: &mut Vec<u8>, v: u8, n: usize)
    ensures
        final(out)@ == old(out)@ + Seq::new(n as nat, |i: int| v),
{
    let mut k: usize = 0;
    while k < n
        invariant
            k <= n,
            out@ == old(out)@ + Seq::new(k as nat, |i: int| v),
        decreases n - k,
    {
        out.push(v);
        proof {
            assert(Seq::new((k + 1) as nat, |i: int| v) =~= Seq::new(k as nat, |i: int| v).push(
                v,
            ));
            assert(out@ =~= old(out)@ + Seq::new((k + 1) as nat, |i: int| v));
        }
        k = k + 1;
    }
}

/// Appends `a@.subrange(0, a.len())`, that is, all of `a`.
pub fn push_bytes(out: &mut Vec<u8>, a: &Vec<u8>)
    ensures
        final(out)@ == old(out)@ + a@,
{
    let mut k: usize = 0;
    while k < a.len()
        invariant
            k <= a.len(),
            out@ == old(out)@ + a@.subrange(0, k as int),
        decreases a.len() - k,
    {
        out.push(a[k]);
        proof {
            assert(a@.subrange(0, k + 1) =~= a@.subrange(0, k as int).push(a@[k as int]));
            assert(out@ =~= old(out)@ + a@.subrange(0, k + 1));
        }
        k = k + 1;
    }
    proof {
        assert(a@.subrange(0, a@.len() as int) =~= a@);
    }
}

/// Copies `len` bytes of `src` starting at `at` into a fresh vector.
pub fn read_bytes(src: &Vec<u8>, at: usize, len: usize) -> (r: Vec<u8>)
    requires
        at + len <= src.len(),
    ensures
        r@ == src@.subrange(at as int, at as int + len as int),
{
    let mut out: Vec<u8> = Vec::new();
    let mut k: usize = 0;
    while k < len
        invariant
            k <= len,
            at + len <= src.len(),
            out@ == src@.subrange(at as int, at as int + k as int),
        decreases len - k,
    {
        out.push(src[at + k]);
        proof {
            assert(src@.subrange(at as int, at as int + k + 1) =~= src@.subrange(
                at as int,
                at as int + k as int,
            ).push(src@[at as int + k]));
        }
        k = k + 1;
    }
    out
}

} // verus!
