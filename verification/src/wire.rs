//! Byte-level encoding helpers: signed 64-bit little-endian integers and
//! modulo-256 byte arithmetic, the two primitives of the delta wire format.

use vstd::prelude::*;

verus! {

/// The unsigned value held by eight little-endian bytes.
pub open spec fn le64_val(s: Seq<u8>) -> u64
    recommends
        s.len() == 8,
{
    (s[0] as u64) | ((s[1] as u64) << 8) | ((s[2] as u64) << 16) | ((s[3] as u64) << 24)
        | ((s[4] as u64) << 32) | ((s[5] as u64) << 40) | ((s[6] as u64) << 48) | ((s[7]
        as u64) << 56)
}

/// The eight little-endian bytes of an unsigned 64-bit value.
pub open spec fn le64_bytes(v: u64) -> Seq<u8> {
    seq![
        (v & 0xff) as u8,
        ((v >> 8) & 0xff) as u8,
        ((v >> 16) & 0xff) as u8,
        ((v >> 24) & 0xff) as u8,
        ((v >> 32) & 0xff) as u8,
        ((v >> 40) & 0xff) as u8,
        ((v >> 48) & 0xff) as u8,
        ((v >> 56) & 0xff) as u8,
    ]
}

/// The eight little-endian bytes of a signed 64-bit value (two's complement).
pub open spec fn i64_le_bytes(v: i64) -> Seq<u8> {
    le64_bytes(v as u64)
}

/// The signed value held by eight little-endian bytes (two's complement).
pub open spec fn le64_i64(s: Seq<u8>) -> i64 {
    le64_val(s) as i64
}

pub proof fn lemma_le64_round_trip(v: u64)
    ensures
        le64_val(le64_bytes(v)) == v,
{
    let s = le64_bytes(v);
    assert(s[0] == (v & 0xff) as u8);
    assert(s[1] == ((v >> 8) & 0xff) as u8);
    assert(s[2] == ((v >> 16) & 0xff) as u8);
    assert(s[3] == ((v >> 24) & 0xff) as u8);
    assert(s[4] == ((v >> 32) & 0xff) as u8);
    assert(s[5] == ((v >> 40) & 0xff) as u8);
    assert(s[6] == ((v >> 48) & 0xff) as u8);
    assert(s[7] == ((v >> 56) & 0xff) as u8);
    assert((((v & 0xff) as u8) as u64) | (((((v >> 8) & 0xff) as u8) as u64) << 8) | (((((v >> 16)
        & 0xff) as u8) as u64) << 16) | (((((v >> 24) & 0xff) as u8) as u64) << 24) | (((((v >> 32)
        & 0xff) as u8) as u64) << 32) | (((((v >> 40) & 0xff) as u8) as u64) << 40) | (((((v >> 48)
        & 0xff) as u8) as u64) << 48) | (((((v >> 56) & 0xff) as u8) as u64) << 56) == v)
        by (bit_vector);
}

pub proof fn lemma_i64_le_round_trip(v: i64)
    ensures
        le64_i64(i64_le_bytes(v)) == v,
{
    lemma_le64_round_trip(v as u64);
    assert(((v as u64) as i64) == v) by (bit_vector);
}

/// Writes the eight little-endian bytes of `v` to the end of `out`.
pub fn le64_write(v: i64, out: &mut Vec<u8>)
    ensures
        final(out)@ == old(out)@ + i64_le_bytes(v),
{
    let u = v as u64;
    out.push((u & 0xff) as u8);
    out.push(((u >> 8) & 0xff) as u8);
    out.push(((u >> 16) & 0xff) as u8);
    out.push(((u >> 24) & 0xff) as u8);
    out.push(((u >> 32) & 0xff) as u8);
    out.push(((u >> 40) & 0xff) as u8);
    out.push(((u >> 48) & 0xff) as u8);
    out.push(((u >> 56) & 0xff) as u8);
    proof {
        assert(out@ =~= old(out)@ + i64_le_bytes(v));
    }
}

/// Reads the signed 64-bit little-endian value at `off`.
pub fn le64_read(bytes: &[u8], off: usize) -> (r: i64)
    requires
        off + 8 <= bytes@.len(),
    ensures
        r == le64_i64(bytes@.subrange(off as int, off as int + 8)),
{
    let u: u64 = (bytes[off] as u64) | ((bytes[off + 1] as u64) << 8) | ((bytes[off + 2]
        as u64) << 16) | ((bytes[off + 3] as u64) << 24) | ((bytes[off + 4] as u64) << 32) | ((
    bytes[off + 5] as u64) << 40) | ((bytes[off + 6] as u64) << 48) | ((bytes[off + 7]
        as u64) << 56);
    proof {
        let s = bytes@.subrange(off as int, off as int + 8);
        assert(s[0] == bytes@[off as int]);
        assert(s[1] == bytes@[off as int + 1]);
        assert(s[2] == bytes@[off as int + 2]);
        assert(s[3] == bytes@[off as int + 3]);
        assert(s[4] == bytes@[off as int + 4]);
        assert(s[5] == bytes@[off as int + 5]);
        assert(s[6] == bytes@[off as int + 6]);
        assert(s[7] == bytes@[off as int + 7]);
    }
    u as i64
}

/// Byte addition modulo 256.
pub open spec fn wrap_add(a: u8, b: u8) -> u8 {
    if a + b > 255 {
        (a + b - 256) as u8
    } else {
        (a + b) as u8
    }
}

/// Byte subtraction modulo 256.
pub open spec fn wrap_sub(a: u8, b: u8) -> u8 {
    if a - b < 0 {
        (a - b + 256) as u8
    } else {
        (a - b) as u8
    }
}

/// A delta payload byte `wrap_sub(n, o)` recombines with the base byte `o`
/// to give back exactly the target byte `n`, for every pair of byte values.
pub proof fn lemma_wrap_round_trip(n: u8, o: u8)
    ensures
        wrap_add(wrap_sub(n, o), o) == n,
{
}

/// Byte addition modulo 256.
pub fn byte_add(a: u8, b: u8) -> (r: u8)
    ensures
        r == wrap_add(a, b),
{
    a.wrapping_add(b)
}

/// Byte subtraction modulo 256.
pub fn byte_sub(a: u8, b: u8) -> (r: u8)
    ensures
        r == wrap_sub(a, b),
{
    a.wrapping_sub(b)
}

pub proof fn lemma_u64_i64_cast(v: u64)
    ensures
        ((v as i64) as u64) == v,
{
    assert(((v as i64) as u64) == v) by (bit_vector);
}

} // verus!
