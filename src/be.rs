use vstd::prelude::*;

verus! {

/// The byte at `pos`, as an integer.
pub open spec fn spec_u8(data: Seq<u8>, pos: int) -> int {
    data[pos] as int
}

/// The big-endian value of the two bytes at `pos`.
pub open spec fn spec_be16(data: Seq<u8>, pos: int) -> int {
    (data[pos] as int) * 256 + (data[pos + 1] as int)
}

/// The big-endian value of the four bytes at `pos`.
pub open spec fn spec_be32(data: Seq<u8>, pos: int) -> int {
    spec_be16(data, pos) * 65536 + spec_be16(data, pos + 2)
}

/// The big-endian value of the eight bytes at `pos`.
pub open spec fn spec_be64(data: Seq<u8>, pos: int) -> int {
    spec_be32(data, pos) * 4294967296 + spec_be32(data, pos + 4)
}

pub proof fn lemma_be16_bound(data: Seq<u8>, pos: int)
    requires
        0 <= pos,
        pos + 2 <= data.len(),
    ensures
        0 <= spec_be16(data, pos) < 65536,
{
}

pub proof fn lemma_be32_bound(data: Seq<u8>, pos: int)
    requires
        0 <= pos,
        pos + 4 <= data.len(),
    ensures
        0 <= spec_be32(data, pos) < 4294967296,
{
    let hi = spec_be16(data, pos);
    let lo = spec_be16(data, pos + 2);
    assert(0 <= hi * 65536 + lo < 4294967296) by (nonlinear_arith)
        requires
            0 <= hi < 65536,
            0 <= lo < 65536,
    ;
}

/// Reads the byte at `pos`.
pub fn read_u8(data: &[u8], pos: usize) -> (r: u8)
    requires
        pos < data.len(),
    ensures
        r as int == spec_u8(data@, pos as int),
{
    data[pos]
}

/// Reads a big-endian `u16` at `pos`.
pub fn read_be16(data: &[u8], pos: usize) -> (r: u16)
    requires
        pos + 2 <= data.len(),
    ensures
        r as int == spec_be16(data@, pos as int),
{
    (data[pos] as u16) * 256 + (data[pos + 1] as u16)
}

/// Reads a big-endian `u32` at `pos`.
pub fn read_be32(data: &[u8], pos: usize) -> (r: u32)
    requires
        pos + 4 <= data.len(),
    ensures
        r as int == spec_be32(data@, pos as int),
{
    let hi = read_be16(data, pos) as u32;
    let lo = read_be16(data, pos + 2) as u32;
    assert(hi * 65536 + lo < 4294967296) by (nonlinear_arith)
        requires
            hi < 65536,
            lo < 65536,
    ;
    hi * 65536 + lo
}

/// Reads a big-endian `u64` at `pos`.
pub fn read_be64(data: &[u8], pos: usize) -> (r: u64)
    requires
        pos + 8 <= data.len(),
    ensures
        r as int == spec_be64(data@, pos as int),
{
    let hi = read_be32(data, pos) as u64;
    let lo = read_be32(data, pos + 4) as u64;
    assert(hi * 4294967296 + lo < 18446744073709551616) by (nonlinear_arith)
        requires
            hi < 4294967296,
            lo < 4294967296,
    ;
    hi * 4294967296 + lo
}

} // verus!
