//! Big-endian integer readers over a byte buffer, with their mathematical
//! counterparts as spec functions.

use vstd::prelude::*;

verus! {

/// Value of the 2 bytes at `pos`, big-endian, as a natural number.
pub open spec fn be16(s: Seq<u8>, pos: int) -> nat
    recommends
        0 <= pos,
        pos + 2 <= s.len(),
{
    s[pos] as nat * 0x100 + s[pos + 1] as nat
}

/// Value of the 4 bytes at `pos`, big-endian, as a natural number.
pub open spec fn be32(s: Seq<u8>, pos: int) -> nat
    recommends
        0 <= pos,
        pos + 4 <= s.len(),
{
    s[pos] as nat * 0x1000000 + s[pos + 1] as nat * 0x10000 + s[pos + 2] as nat * 0x100 + s[pos
        + 3] as nat
}

/// Value of the 8 bytes at `pos`, big-endian, as a natural number.
pub open spec fn be64(s: Seq<u8>, pos: int) -> nat
    recommends
        0 <= pos,
        pos + 8 <= s.len(),
{
    be32(s, pos) * 0x100000000 + be32(s, pos + 4)
}

/// Two's-complement reading of an 8-bit value.
pub open spec fn as_i8(n: nat) -> int
    recommends
        n < 0x100,
{
    if n < 0x80 {
        n as int
    } else {
        n - 0x100
    }
}

/// Two's-complement reading of a 16-bit value.
pub open spec fn as_i16(n: nat) -> int
    recommends
        n < 0x10000,
{
    if n < 0x8000 {
        n as int
    } else {
        n - 0x10000
    }
}

/// Two's-complement reading of a 32-bit value.
pub open spec fn as_i32(n: nat) -> int
    recommends
        n < 0x100000000,
{
    if n < 0x80000000 {
        n as int
    } else {
        n - 0x100000000
    }
}

/// Two's-complement reading of a 64-bit value.
pub open spec fn as_i64(n: nat) -> int
    recommends
        n < 0x10000000000000000,
{
    if n < 0x8000000000000000 {
        n as int
    } else {
        n - 0x10000000000000000
    }
}

/// Reads the 2 bytes at `pos` as a big-endian unsigned integer.
pub fn read_u16(bytes: &Vec<u8>, pos: usize) -> (r: u16)
    requires
        pos + 2 <= bytes@.len(),
    ensures
        r as nat == be16(bytes@, pos as int),
{
    // binds the buffer length to a machine word, so index arithmetic fits
    let _n: usize = bytes.len();
    (bytes[pos] as u16) * 0x100 + (bytes[pos + 1] as u16)
}

/// Reads the 4 bytes at `pos` as a big-endian unsigned integer.
pub fn read_u32(bytes: &Vec<u8>, pos: usize) -> (r: u32)
    requires
        pos + 4 <= bytes@.len(),
    ensures
        r as nat == be32(bytes@, pos as int),
{
    // binds the buffer length to a machine word, so index arithmetic fits
    let _n: usize = bytes.len();
    (bytes[pos] as u32) * 0x1000000 + (bytes[pos + 1] as u32) * 0x10000 + (bytes[pos
        + 2] as u32) * 0x100 + (bytes[pos + 3] as u32)
}

/// Reads the 8 bytes at `pos` as a big-endian unsigned integer.
pub fn read_u64(bytes: &Vec<u8>, pos: usize) -> (r: u64)
    requires
        pos + 8 <= bytes@.len(),
    ensures
        r as nat == be64(bytes@, pos as int),
{
    // binds the buffer length to a machine word, so index arithmetic fits
    let _n: usize = bytes.len();
    (read_u32(bytes, pos) as u64) * 0x100000000 + (read_u32(bytes, pos + 4) as u64)
}

/// Reinterprets a byte as a signed 8-bit integer (two's complement).
pub fn to_i8(x: u8) -> (r: i8)
    ensures
        r as int == as_i8(x as nat),
{
    if x < 0x80 {
        x as i8
    } else {
        ((x - 0x80) as i8) - 0x7f - 1
    }
}

/// Reinterprets a 16-bit value as signed (two's complement).
pub fn to_i16(x: u16) -> (r: i16)
    ensures
        r as int == as_i16(x as nat),
{
    if x < 0x8000 {
        x as i16
    } else {
        ((x - 0x8000) as i16) - 0x7fff - 1
    }
}

/// Reinterprets a 32-bit value as signed (two's complement).
pub fn to_i32(x: u32) -> (r: i32)
    ensures
        r as int == as_i32(x as nat),
{
    if x < 0x80000000 {
        x as i32
    } else {
        ((x - 0x80000000) as i32) - 0x7fffffff - 1
    }
}

/// Reinterprets a 64-bit value as signed (two's complement).
pub fn to_i64(x: u64) -> (r: i64)
    ensures
        r as int == as_i64(x as nat),
{
    if x < 0x8000000000000000 {
        x as i64
    } else {
        ((x - 0x8000000000000000) as i64) - 0x7fffffffffffffff - 1
    }
}

/// Copies the `len` bytes starting at `pos` into a fresh buffer.
pub fn read_data(bytes: &Vec<u8>, pos: usize, len: usize) -> (r: Vec<u8>)
    requires
        pos + len <= bytes@.len(),
    ensures
        r@ == bytes@.subrange(pos as int, pos as int + len as int),
{
    let n: usize = bytes.len();
    let mut out: Vec<u8> = Vec::new();
    let mut i: usize = 0;
    while i < len
        invariant
            pos + len <= n,
            n == bytes@.len(),
            i <= len,
            out@ == bytes@.subrange(pos as int, pos as int + i as int),
        decreases len - i,
    {
        out.push(bytes[pos + i]);
        proof {
            assert(out@ =~= bytes@.subrange(pos as int, pos as int + (i + 1) as int));
        }
        i = i + 1;
    }
    out
}

} // verus!
