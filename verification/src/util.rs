//! Little-endian primitive reads over a byte slice.
//!
//! Every reader takes the slice together with a mutable offset, advances the
//! offset past the bytes it consumed, and reports `UnexpectedEof` (leaving the
//! offset untouched) when the slice is too short.

use crate::Error;
use vstd::bytes::*;
use vstd::prelude::*;
use vstd::slice::{slice_index_get, slice_subrange};
use vstd::utf8::{decode_utf8, valid_utf8};

verus! {

/// Plain disjoint union of two alternatives.
pub enum Either<L, R> {
    Left(L),
    Right(R),
}

/// The `u32` encoded little-endian at byte offset `off` of `b`.
pub open spec fn le32_at(b: Seq<u8>, off: int) -> u32 {
    spec_u32_from_le_bytes(b.subrange(off, off + 4))
}

/// The `u64` encoded little-endian at byte offset `off` of `b`.
pub open spec fn le64_at(b: Seq<u8>, off: int) -> u64 {
    spec_u64_from_le_bytes(b.subrange(off, off + 8))
}

/// The signed value represented by the bits of `u` in two's complement.
pub open spec fn as_signed_32(u: u32) -> int {
    if u < 0x8000_0000 {
        u as int
    } else {
        u - 0x1_0000_0000
    }
}

/// The signed value represented by the bits of `u` in two's complement.
pub open spec fn as_signed_64(u: u64) -> int {
    if u < 0x8000_0000_0000_0000 {
        u as int
    } else {
        u - 0x1_0000_0000_0000_0000
    }
}

/// Position of the first zero byte of `b` at or after `off`, if any.
pub open spec fn null_pos(b: Seq<u8>, off: int) -> Option<int>
    decreases b.len() - off,
{
    if off < 0 || off >= b.len() {
        None
    } else if b[off] == 0 {
        Some(off)
    } else {
        null_pos(b, off + 1)
    }
}

/// Consume `n` raw bytes.
pub fn read_bytes<'a>(slice: &'a [u8], n: usize, offset: &mut usize) -> (r: Result<&'a [u8], Error>)
    ensures
        match r {
            Ok(bytes) => *old(offset) + n <= slice@.len() && *final(offset) == *old(offset) + n
                && bytes@ == slice@.subrange(*old(offset) as int, *old(offset) + n),
            Err(e) => *old(offset) + n > slice@.len() && *final(offset) == *old(offset) && (e
                matches Error::UnexpectedEof),
        },
{
    if n <= slice.len() && *offset <= slice.len() - n {
        let r = slice_subrange(slice, *offset, *offset + n);
        *offset = *offset + n;
        Ok(r)
    } else {
        Err(Error::UnexpectedEof)
    }
}

/// Consume 4 bytes as a little-endian `u32`.
pub fn read_u32(slice: &[u8], offset: &mut usize) -> (r: Result<u32, Error>)
    ensures
        match r {
            Ok(v) => *old(offset) + 4 <= slice@.len() && *final(offset) == *old(offset) + 4 && v
                == le32_at(slice@, *old(offset) as int),
            Err(e) => *old(offset) + 4 > slice@.len() && *final(offset) == *old(offset) && (e
                matches Error::UnexpectedEof),
        },
{
    if 4 <= slice.len() && *offset <= slice.len() - 4 {
        let bytes = slice_subrange(slice, *offset, *offset + 4);
        let v = u32_from_le_bytes(bytes);
        *offset = *offset + 4;
        Ok(v)
    } else {
        Err(Error::UnexpectedEof)
    }
}

/// Consume 8 bytes as a little-endian `u64`.
pub fn read_u64(slice: &[u8], offset: &mut usize) -> (r: Result<u64, Error>)
    ensures
        match r {
            Ok(v) => *old(offset) + 8 <= slice@.len() && *final(offset) == *old(offset) + 8 && v
                == le64_at(slice@, *old(offset) as int),
            Err(e) => *old(offset) + 8 > slice@.len() && *final(offset) == *old(offset) && (e
                matches Error::UnexpectedEof),
        },
{
    if 8 <= slice.len() && *offset <= slice.len() - 8 {
        let bytes = slice_subrange(slice, *offset, *offset + 8);
        let v = u64_from_le_bytes(bytes);
        *offset = *offset + 8;
        Ok(v)
    } else {
        Err(Error::UnexpectedEof)
    }
}

/// Consume 4 bytes as a little-endian two's-complement `i32`.
pub fn read_i32(slice: &[u8], offset: &mut usize) -> (r: Result<i32, Error>)
    ensures
        match r {
            Ok(v) => *old(offset) + 4 <= slice@.len() && *final(offset) == *old(offset) + 4 && v
                as int == as_signed_32(le32_at(slice@, *old(offset) as int)),
            Err(e) => *old(offset) + 4 > slice@.len() && *final(offset) == *old(offset) && (e
                matches Error::UnexpectedEof),
        },
{
    let u = match read_u32(slice, offset) {
        Ok(u) => u,
        Err(e) => {
            return Err(e);
        },
    };
    if u < 0x8000_0000 {
        Ok(u as i32)
    } else {
        Ok(-((0xFFFF_FFFFu32 - u) as i32) - 1)
    }
}

/// Consume 8 bytes as a little-endian two's-complement `i64`.
pub fn read_i64(slice: &[u8], offset: &mut usize) -> (r: Result<i64, Error>)
    ensures
        match r {
            Ok(v) => *old(offset) + 8 <= slice@.len() && *final(offset) == *old(offset) + 8 && v
                as int == as_signed_64(le64_at(slice@, *old(offset) as int)),
            Err(e) => *old(offset) + 8 > slice@.len() && *final(offset) == *old(offset) && (e
                matches Error::UnexpectedEof),
        },
{
    let u = match read_u64(slice, offset) {
        Ok(u) => u,
        Err(e) => {
            return Err(e);
        },
    };
    if u < 0x8000_0000_0000_0000 {
        Ok(u as i64)
    } else {
        Ok(-((0xFFFF_FFFF_FFFF_FFFFu64 - u) as i64) - 1)
    }
}

/// Position of the first zero byte at or after `from`, scanning forward.
pub fn scan_null(slice: &[u8], from: usize) -> (r: Option<usize>)
    requires
        from <= slice@.len(),
    ensures
        match r {
            Some(p) => null_pos(slice@, from as int) == Some(p as int) && from <= p < slice@.len(),
            None => null_pos(slice@, from as int) is None,
        },
{
    let mut i = from;
    while i < slice.len()
        invariant
            from <= i <= slice@.len(),
            null_pos(slice@, from as int) == null_pos(slice@, i as int),
        decreases slice@.len() - i,
    {
        if *slice_index_get(slice, i) == 0 {
            return Some(i);
        }
        i = i + 1;
    }
    None
}

/// Read a null-terminated UTF-8 string and step past its terminator.
///
/// Fails with `UnexpectedEof` when no terminator follows, and with
/// `BadPathEncoding` when the bytes before the terminator are not UTF-8;
/// the offset is left unchanged on failure.
pub fn find_cstring(slice: &[u8], offset: &mut usize) -> (r: Result<String, Error>)
    ensures
        match r {
            Ok(s) => {
                &&& *old(offset) <= slice@.len()
                &&& null_pos(slice@, *old(offset) as int) is Some
                &&& {
                    let p = null_pos(slice@, *old(offset) as int)->Some_0;
                    &&& valid_utf8(slice@.subrange(*old(offset) as int, p))
                    &&& s@ == decode_utf8(slice@.subrange(*old(offset) as int, p))
                    &&& *final(offset) == p + 1
                }
            },
            Err(e) => *final(offset) == *old(offset) && match e {
                Error::UnexpectedEof => *old(offset) > slice@.len() || null_pos(
                    slice@,
                    *old(offset) as int,
                ) is None,
                Error::BadPathEncoding => null_pos(slice@, *old(offset) as int) matches Some(p)
                    && !valid_utf8(slice@.subrange(*old(offset) as int, p)),
                _ => false,
            },
        },
{
    if *offset > slice.len() {
        return Err(Error::UnexpectedEof);
    }
    match scan_null(slice, *offset) {
        Some(p) => {
            let bytes = slice_subrange(slice, *offset, p);
            match crate::text::utf8_to_string(bytes) {
                Some(s) => {
                    *offset = p + 1;
                    Ok(s)
                },
                None => Err(Error::BadPathEncoding),
            }
        },
        None => Err(Error::UnexpectedEof),
    }
}

} // verus!
