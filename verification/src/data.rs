use vstd::prelude::*;

verus! {

/// Bytes taken by one packed reference vector: 14 dimensions of 3 bytes.
pub const VEC_BYTES: usize = 42;

/// Number of dimensions of a reference vector.
pub const DIMS: usize = 14;

/// The signed value of the 24-bit little-endian two's complement number
/// whose bytes are `b0`, `b1`, `b2`.
pub open spec fn int24_value(b0: u8, b1: u8, b2: u8) -> int {
    let u = b0 + 256 * b1 + 65536 * b2;
    if u >= 0x80_0000 {
        u - 0x100_0000
    } else {
        u
    }
}

/// Reads the signed 24-bit little-endian number that starts at `off`.
pub fn read_dim(vectors: &[u8], off: usize) -> (r: i32)
    requires
        off + 2 < vectors@.len(),
    ensures
        r == int24_value(vectors@[off as int], vectors@[off + 1], vectors@[off + 2]),
        -0x80_0000 <= r < 0x80_0000,
{
    let b0 = vectors[off];
    let b1 = vectors[off + 1];
    let b2 = vectors[off + 2];
    let r = (((b0 as u32) << 8) | ((b1 as u32) << 16) | ((b2 as u32) << 24)) as i32 >> 8;
    assert(r == int24_value(b0, b1, b2) && -0x80_0000 <= r < 0x80_0000) by (bit_vector)
        requires
            r == (((b0 as u32) << 8) | ((b1 as u32) << 16) | ((b2 as u32) << 24)) as i32 >> 8,
    ;
    r
}

/// The unsigned value of the four little-endian bytes at `off`.
pub open spec fn le_u32_at(s: Seq<u8>, off: int) -> int {
    s[off] + 0x100 * s[off + 1] + 0x1_0000 * s[off + 2] + 0x100_0000 * s[off + 3]
}

/// The two's complement value of the four little-endian bytes at `off`.
pub open spec fn le_i32_at(s: Seq<u8>, off: int) -> int {
    let u = le_u32_at(s, off);
    if u >= 0x8000_0000 {
        u - 0x1_0000_0000
    } else {
        u
    }
}

/// The two's complement value of the eight little-endian bytes at `off`.
pub open spec fn le_i64_at(s: Seq<u8>, off: int) -> int {
    let u = le_u32_at(s, off) + 0x1_0000_0000 * le_u32_at(s, off + 4);
    if u >= 0x8000_0000_0000_0000 {
        u - 0x1_0000_0000_0000_0000
    } else {
        u
    }
}

/// Reads the little-endian `u32` at `off`.
pub fn read_u32_le(s: &[u8], off: usize) -> (r: u32)
    requires
        off + 4 <= s@.len(),
    ensures
        r == le_u32_at(s@, off as int),
{
    let b0 = s[off];
    let b1 = s[off + 1];
    let b2 = s[off + 2];
    let b3 = s[off + 3];
    let r = (b0 as u32) | ((b1 as u32) << 8) | ((b2 as u32) << 16) | ((b3 as u32) << 24);
    assert(r == b0 + 0x100 * b1 + 0x1_0000 * b2 + 0x100_0000 * b3) by (bit_vector)
        requires
            r == (b0 as u32) | ((b1 as u32) << 8) | ((b2 as u32) << 16) | ((b3 as u32) << 24),
    ;
    r
}

/// Reads the little-endian `i32` at `off`.
pub fn read_i32_le(s: &[u8], off: usize) -> (r: i32)
    requires
        off + 4 <= s@.len(),
    ensures
        r == le_i32_at(s@, off as int),
{
    let u = read_u32_le(s, off);
    let r = u as i32;
    assert(r == if u >= 0x8000_0000 { u - 0x1_0000_0000 } else { u as int }) by (bit_vector)
        requires
            r == u as i32,
    ;
    r
}

/// Reads the little-endian `i64` at `off`.
pub fn read_i64_le(s: &[u8], off: usize) -> (r: i64)
    requires
        off + 8 <= s@.len(),
    ensures
        r == le_i64_at(s@, off as int),
{
    let len = s.len();
    assert(off + 8 <= len);
    let lo = read_u32_le(s, off);
    let hi = read_u32_le(s, off + 4);
    let u = (lo as u64) | ((hi as u64) << 32);
    let r = u as i64;
    assert(u == lo + 0x1_0000_0000 * hi) by (bit_vector)
        requires
            u == (lo as u64) | ((hi as u64) << 32),
    ;
    assert(r == if u >= 0x8000_0000_0000_0000 { u - 0x1_0000_0000_0000_0000 } else { u as int })
        by (bit_vector)
        requires
            r == u as i64,
    ;
    r
}

/// Why a data file was refused.
#[derive(Clone, Copy, PartialEq, Eq, Debug)]
pub enum FormatError {
    /// The file does not start with the expected four magic bytes.
    BadMagic,
    /// The vector file has a version other than 1 or a dimension count other than 14.
    VersionOrDims,
    /// The label file does not hold exactly one byte per vector.
    LabelsSize,
    /// The tree file has a version other than 1 or covers another number of vectors.
    VersionOrCount,
    /// The tree body is not a whole number of 20-byte nodes.
    BodySize,
    /// The tree has no root, or its root does not cover every vector.
    MalformedRoot,
}

/// What the 16-byte header of the vector file announces.
#[derive(Clone, Copy)]
pub struct VectorsHeader {
    /// Number of packed vectors in the file.
    pub count: u32,
    /// Where the packed vectors start in the file.
    pub payload_offset: usize,
}

/// The first four bytes are the ASCII magic `m0 m1 m2 m3`.
pub open spec fn has_magic(s: Seq<u8>, m0: u8, m1: u8, m2: u8, m3: u8) -> bool {
    s[0] == m0 && s[1] == m1 && s[2] == m2 && s[3] == m3
}

/// Checks the header of the vector file: magic `VEC3`, version 1 and 14
/// dimensions; the vectors follow the header.
pub fn parse_vectors_header(header: &[u8]) -> (r: std::result::Result<VectorsHeader, FormatError>)
    requires
        header@.len() == 16,
    ensures
        !has_magic(header@, 0x56, 0x45, 0x43, 0x33) ==> r == Err::<VectorsHeader, FormatError>(
            FormatError::BadMagic,
        ),
        has_magic(header@, 0x56, 0x45, 0x43, 0x33) && (le_u32_at(header@, 4) != 1 || le_u32_at(
            header@,
            12,
        ) != 14) ==> r == Err::<VectorsHeader, FormatError>(FormatError::VersionOrDims),
        has_magic(header@, 0x56, 0x45, 0x43, 0x33) && le_u32_at(header@, 4) == 1 && le_u32_at(
            header@,
            12,
        ) == 14 ==> (r matches Ok(h) && h.count == le_u32_at(header@, 8) && h.payload_offset == 16),
{
    // "VEC3"
    if !(header[0] == 0x56 && header[1] == 0x45 && header[2] == 0x43 && header[3] == 0x33) {
        return Err(FormatError::BadMagic);
    }
    let version = read_u32_le(header, 4);
    let count = read_u32_le(header, 8);
    let dims = read_u32_le(header, 12);
    if version != 1 || dims != 14 {
        return Err(FormatError::VersionOrDims);
    }
    Ok(VectorsHeader { count, payload_offset: 16 })
}

/// Checks that the label file holds one byte per vector.
pub fn check_labels_len(len: u64, count: u32) -> (r: std::result::Result<(), FormatError>)
    ensures
        r is Ok <==> len == count,
        r is Err ==> r == Err::<(), FormatError>(FormatError::LabelsSize),
{
    if len != count as u64 {
        return Err(FormatError::LabelsSize);
    }
    Ok(())
}

} // verus!
