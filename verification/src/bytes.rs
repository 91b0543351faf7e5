//! Little-endian integers in byte images, the way the game's structures lie in
//! memory on its (little-endian) target.

use vstd::prelude::*;

verus! {

/// The `u16` stored little-endian at byte position `p`.
pub open spec fn spec_u16_le(d: Seq<u8>, p: int) -> u16 {
    (d[p] + 256 * d[p + 1]) as u16
}

/// The `u32` stored little-endian at byte position `p`.
pub open spec fn spec_u32_le(d: Seq<u8>, p: int) -> u32 {
    (d[p] + 256 * d[p + 1] + 65536 * d[p + 2] + 16777216 * d[p + 3]) as u32
}

/// The `u64` stored little-endian at byte position `p`.
pub open spec fn spec_u64_le(d: Seq<u8>, p: int) -> u64 {
    (spec_u32_le(d, p) + 4294967296 * spec_u32_le(d, p + 4)) as u64
}

/// The `i64` stored little-endian, in two's complement, at byte position `p`.
pub open spec fn spec_i64_le(d: Seq<u8>, p: int) -> i64 {
    let u = spec_u64_le(d, p);
    if u < 0x8000_0000_0000_0000 {
        u as i64
    } else {
        (u - 0x1_0000_0000_0000_0000int) as i64
    }
}

/// The two bytes that store `u` little-endian: low byte first.
pub open spec fn spec_u16_low(u: u16) -> u8 {
    (u % 256) as u8
}

/// The high byte of `u`, stored second.
pub open spec fn spec_u16_high(u: u16) -> u8 {
    (u / 256) as u8
}

/// Reads the `u16` at byte position `p`.
pub fn read_u16_le(d: &Vec<u8>, p: usize) -> (r: u16)
    requires
        p + 2 <= d.len(),
    ensures
        r == spec_u16_le(d@, p as int),
{
    d[p] as u16 + 256 * (d[p + 1] as u16)
}

/// Reads the `u32` at byte position `p`.
pub fn read_u32_le(d: &Vec<u8>, p: usize) -> (r: u32)
    requires
        p + 4 <= d.len(),
    ensures
        r == spec_u32_le(d@, p as int),
{
    d[p] as u32 + 256 * (d[p + 1] as u32) + 65536 * (d[p + 2] as u32) + 16777216 * (d[p + 3] as u32)
}

/// Reads the `u64` at byte position `p`.
pub fn read_u64_le(d: &Vec<u8>, p: usize) -> (r: u64)
    requires
        p + 8 <= d.len(),
    ensures
        r == spec_u64_le(d@, p as int),
{
    let lo = read_u32_le(d, p);
    let hi = read_u32_le(d, p + 4);
    lo as u64 + 4294967296 * (hi as u64)
}

/// Reads the `i64` at byte position `p`.
pub fn read_i64_le(d: &Vec<u8>, p: usize) -> (r: i64)
    requires
        p + 8 <= d.len(),
    ensures
        r == spec_i64_le(d@, p as int),
{
    let u = read_u64_le(d, p);
    if u < 0x8000_0000_0000_0000 {
        u as i64
    } else {
        ((u - 0x8000_0000_0000_0000) as i64) - 0x7FFF_FFFF_FFFF_FFFF - 1
    }
}

/// Stores `u` little-endian at byte position `p`.
pub fn write_u16_le(d: &mut Vec<u8>, p: usize, u: u16)
    requires
        p + 2 <= old(d).len(),
    ensures
        final(d)@ == old(d)@.update(p as int, spec_u16_low(u)).update(p + 1, spec_u16_high(u)),
{
    d.set(p, (u % 256) as u8);
    d.set(p + 1, (u / 256) as u8);
}

/// Byte `k` (from the least significant one) of `x`.
pub open spec fn spec_byte(x: int, k: int) -> u8 {
    if k == 0 {
        (x % 256) as u8
    } else if k == 1 {
        ((x / 0x100) % 256) as u8
    } else if k == 2 {
        ((x / 0x1_0000) % 256) as u8
    } else if k == 3 {
        ((x / 0x100_0000) % 256) as u8
    } else if k == 4 {
        ((x / 0x1_0000_0000) % 256) as u8
    } else if k == 5 {
        ((x / 0x100_0000_0000) % 256) as u8
    } else if k == 6 {
        ((x / 0x1_0000_0000_0000) % 256) as u8
    } else {
        ((x / 0x100_0000_0000_0000) % 256) as u8
    }
}

/// Bytes that store `x` little-endian read back as `x`.
pub proof fn lemma_u16_le_of(d: Seq<u8>, p: int, x: u16)
    requires
        0 <= p,
        p + 2 <= d.len(),
        forall|k: int| 0 <= k < 2 ==> d[p + k] == #[trigger] spec_byte(x as int, k),
    ensures
        spec_u16_le(d, p) == x,
{
    assert(d[p] == spec_byte(x as int, 0));
    assert(d[p + 1] == spec_byte(x as int, 1));
    let b0 = x % 256;
    let b1 = (x / 256) % 256;
    assert(b0 + 256 * b1 == x) by (bit_vector)
        requires
            b0 == x % 256,
            b1 == (x / 256) % 256,
    ;
}

/// Bytes that store `x` little-endian read back as `x`.
pub proof fn lemma_u32_le_of(d: Seq<u8>, p: int, x: u32)
    requires
        0 <= p,
        p + 4 <= d.len(),
        forall|k: int| 0 <= k < 4 ==> d[p + k] == #[trigger] spec_byte(x as int, k),
    ensures
        spec_u32_le(d, p) == x,
{
    assert(d[p] == spec_byte(x as int, 0));
    assert(d[p + 1] == spec_byte(x as int, 1));
    assert(d[p + 2] == spec_byte(x as int, 2));
    assert(d[p + 3] == spec_byte(x as int, 3));
    let b0 = x % 256;
    let b1 = (x / 0x100) % 256;
    let b2 = (x / 0x1_0000) % 256;
    let b3 = (x / 0x100_0000) % 256;
    assert(b0 + 256 * b1 + 65536 * b2 + 16777216 * b3 == x) by (bit_vector)
        requires
            b0 == x % 256,
            b1 == (x / 0x100) % 256,
            b2 == (x / 0x1_0000) % 256,
            b3 == (x / 0x100_0000) % 256,
    ;
}

/// Bytes that store `x` little-endian read back as `x`.
pub proof fn lemma_u64_le_of(d: Seq<u8>, p: int, x: u64)
    requires
        0 <= p,
        p + 8 <= d.len(),
        forall|k: int| 0 <= k < 8 ==> d[p + k] == #[trigger] spec_byte(x as int, k),
    ensures
        spec_u64_le(d, p) == x,
{
    let lo = (x % 0x1_0000_0000) as u32;
    let hi = (x / 0x1_0000_0000) as u32;
    assert forall|k: int| 0 <= k < 4 implies d[p + k] == #[trigger] spec_byte(lo as int, k) by {
        assert(d[p + k] == spec_byte(x as int, k));
        let x0 = x;
        let l0 = lo;
        if k == 0 {
            assert(x0 % 256 == l0 % 256) by (bit_vector) requires l0 == x0 % 0x1_0000_0000;
        } else if k == 1 {
            assert((x0 / 0x100) % 256 == (l0 / 0x100) % 256) by (bit_vector) requires l0 == x0 % 0x1_0000_0000;
        } else if k == 2 {
            assert((x0 / 0x1_0000) % 256 == (l0 / 0x1_0000) % 256) by (bit_vector) requires l0 == x0 % 0x1_0000_0000;
        } else {
            assert((x0 / 0x100_0000) % 256 == (l0 / 0x100_0000) % 256) by (bit_vector) requires l0 == x0 % 0x1_0000_0000;
        }
    }
    assert forall|k: int| 0 <= k < 4 implies d[p + 4 + k] == #[trigger] spec_byte(hi as int, k) by {
        assert(d[p + (k + 4)] == spec_byte(x as int, k + 4));
        let x0 = x;
        let h0 = hi;
        if k == 0 {
            assert((x0 / 0x1_0000_0000) % 256 == h0 % 256) by (bit_vector) requires h0 == x0 / 0x1_0000_0000;
        } else if k == 1 {
            assert((x0 / 0x100_0000_0000) % 256 == (h0 / 0x100) % 256) by (bit_vector) requires h0 == x0 / 0x1_0000_0000;
        } else if k == 2 {
            assert((x0 / 0x1_0000_0000_0000) % 256 == (h0 / 0x1_0000) % 256) by (bit_vector) requires h0 == x0 / 0x1_0000_0000;
        } else {
            assert((x0 / 0x100_0000_0000_0000) % 256 == (h0 / 0x100_0000) % 256) by (bit_vector) requires h0 == x0 / 0x1_0000_0000;
        }
    }
    lemma_u32_le_of(d, p, lo);
    lemma_u32_le_of(d, p + 4, hi);
    let x0 = x;
    let l0 = lo;
    let h0 = hi;
    assert(l0 + 0x1_0000_0000 * h0 == x0) by (bit_vector)
        requires
            l0 == x0 % 0x1_0000_0000,
            h0 == x0 / 0x1_0000_0000,
    ;
}

} // verus!
