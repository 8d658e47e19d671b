//! Text decoding helpers: UTF-8 byte sequences to strings, and the UTF-16
//! reader used for metadata sources.

use crate::Error;
use vstd::prelude::*;
use vstd::slice::slice_subrange;
use vstd::utf8::{decode_utf8, valid_utf8};

verus! {

/// Relies on `core::str::from_utf8`: it succeeds exactly on valid UTF-8 and
/// yields its decoding, and `str::to_owned` keeps the characters.
#[verifier::external_body]
pub fn utf8_to_string(bytes: &[u8]) -> (r: Option<String>)
    ensures
        r is Some <==> valid_utf8(bytes@),
        r is Some ==> r->Some_0@ == decode_utf8(bytes@),
{
    match core::str::from_utf8(bytes) {
        Ok(s) => Some(s.to_owned()),
        Err(_) => None,
    }
}

/// What `String::from_utf16` returns: the character sequence decoded from the
/// given UTF-16 code units, or nothing when the units are ill-formed.
pub uninterp spec fn utf16_decode(units: Seq<u16>) -> Option<Seq<char>>;

/// Relies on `String::from_utf16`: the result depends on the code units alone;
/// it succeeds exactly on well-formed UTF-16.
#[verifier::external_body]
pub fn utf16_to_string(units: &[u16]) -> (r: Option<String>)
    ensures
        r is Some <==> utf16_decode(units@) is Some,
        r is Some ==> r->Some_0@ == utf16_decode(units@)->Some_0,
{
    String::from_utf16(units).ok()
}

/// The `u16` code units stored little-endian in `b`, two bytes each.
pub open spec fn utf16_units(b: Seq<u8>) -> Seq<u16> {
    Seq::new((b.len() / 2) as nat, |i: int| vstd::bytes::spec_u16_from_le_bytes(b.subrange(2 * i, 2 * i + 2)))
}

/// Decode a little-endian UTF-16 byte stream into a string.
///
/// Fails with `BadPathEncoding` when the byte count is odd or the code units
/// are not well-formed UTF-16.
pub fn read_string_from_utf16(src: &[u8]) -> (r: Result<String, Error>)
    ensures
        match r {
            Ok(s) => src@.len() % 2 == 0 && utf16_decode(utf16_units(src@)) is Some && s@
                == utf16_decode(utf16_units(src@))->Some_0,
            Err(e) => (src@.len() % 2 != 0 || utf16_decode(utf16_units(src@)) is None) && (e
                matches Error::BadPathEncoding),
        },
{
    if src.len() % 2 != 0 {
        return Err(Error::BadPathEncoding);
    }
    let n = src.len() / 2;
    let mut units: Vec<u16> = Vec::new();
    let mut i: usize = 0;
    while i < n
        invariant
            0 <= i <= n,
            n == src@.len() / 2,
            src@.len() % 2 == 0,
            2 * n == src@.len(),
            src@.len() <= usize::MAX,
            units@.len() == i,
            forall|j: int| 0 <= j < i ==> units@[j] == utf16_units(src@)[j],
        decreases n - i,
    {
        let pair = slice_subrange(src, 2 * i, 2 * i + 2);
        let u = vstd::bytes::u16_from_le_bytes(pair);
        units.push(u);
        i = i + 1;
    }
    proof {
        assert(units@ =~= utf16_units(src@));
    }
    match utf16_to_string(units.as_slice()) {
        Some(s) => Ok(s),
        None => Err(Error::BadPathEncoding),
    }
}

} // verus!
