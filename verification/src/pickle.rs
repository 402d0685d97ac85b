//! Little-endian fixed-width and varint decoding for record payloads.
//!
//! Each reader takes a byte slice and a cursor; on success the value is
//! returned and the cursor advances past the consumed bytes, on failure the
//! cursor is left where it was.

use vstd::bytes::{spec_u16_from_le_bytes, spec_u32_from_le_bytes, u16_from_le_bytes, u32_from_le_bytes};
use vstd::prelude::*;
use vstd::slice::slice_subrange;

verus! {

#[derive(Debug, PartialEq, Eq, Clone, Copy, Structural)]
pub enum Error {
    Short,
    Overflow,
}

/// One step of the base-128 varint decoder: `v` is the value of the bytes
/// already consumed, `i` the number of bytes that may still be read (at most
/// five in all).  The final byte may only add seven bits if the accumulated
/// value leaves room for them.
pub open spec fn spec_read_v32_rec(s: Seq<u8>, pos: int, v: u32, i: nat) -> Result<(u32, int), Error>
    decreases i,
{
    if pos >= s.len() {
        Err(Error::Short)
    } else {
        let b = s[pos];
        let bits = (b & 0x7f) as u32;
        let last = b & 0x80 == 0;
        if i <= 1 {
            if last && v & 0xfe000000 == 0 {
                Ok(((v << 7) | bits, pos + 1))
            } else {
                Err(Error::Overflow)
            }
        } else {
            if last {
                Ok(((v << 7) | bits, pos + 1))
            } else {
                spec_read_v32_rec(s, pos + 1, (v << 7) | bits, (i - 1) as nat)
            }
        }
    }
}

/// Outcome of decoding a varint at `pos`: the value and the cursor past it,
/// or the error the decoder reports.
pub open spec fn spec_read_v32(s: Seq<u8>, pos: int) -> Result<(u32, int), Error> {
    spec_read_v32_rec(s, pos, 0, 5)
}

pub fn read_u8(data: &[u8], pos: &mut usize) -> (r: Result<u8, Error>)
    requires
        *old(pos) <= data@.len(),
    ensures
        *old(pos) + 1 <= data@.len() ==> r == Ok::<u8, Error>(data@[*old(pos) as int])
            && *final(pos) == *old(pos) + 1,
        *old(pos) + 1 > data@.len() ==> r == Err::<u8, Error>(Error::Short)
            && *final(pos) == *old(pos),
{
    if data.len() - *pos >= 1 {
        let v = data[*pos];
        *pos = *pos + 1;
        Ok(v)
    } else {
        Err(Error::Short)
    }
}

pub fn read_u16(data: &[u8], pos: &mut usize) -> (r: Result<u16, Error>)
    requires
        *old(pos) <= data@.len(),
    ensures
        *old(pos) + 2 <= data@.len() ==> r == Ok::<u16, Error>(
            spec_u16_from_le_bytes(data@.subrange(*old(pos) as int, *old(pos) + 2)),
        ) && *final(pos) == *old(pos) + 2,
        *old(pos) + 2 > data@.len() ==> r == Err::<u16, Error>(Error::Short)
            && *final(pos) == *old(pos),
{
    if data.len() - *pos >= 2 {
        let v = u16_from_le_bytes(slice_subrange(data, *pos, *pos + 2));
        *pos = *pos + 2;
        Ok(v)
    } else {
        Err(Error::Short)
    }
}

pub fn read_u32(data: &[u8], pos: &mut usize) -> (r: Result<u32, Error>)
    requires
        *old(pos) <= data@.len(),
    ensures
        *old(pos) + 4 <= data@.len() ==> r == Ok::<u32, Error>(
            spec_u32_from_le_bytes(data@.subrange(*old(pos) as int, *old(pos) + 4)),
        ) && *final(pos) == *old(pos) + 4,
        *old(pos) + 4 > data@.len() ==> r == Err::<u32, Error>(Error::Short)
            && *final(pos) == *old(pos),
{
    if data.len() - *pos >= 4 {
        let v = u32_from_le_bytes(slice_subrange(data, *pos, *pos + 4));
        *pos = *pos + 4;
        Ok(v)
    } else {
        Err(Error::Short)
    }
}

fn read_v32_rec(data: &[u8], pos: usize, v: u32, i: usize) -> (r: Result<(u32, usize), Error>)
    requires
        pos <= data@.len(),
        1 <= i,
    ensures
        match r {
            Ok((rv, rp)) => spec_read_v32_rec(data@, pos as int, v, i as nat) == Ok::<(u32, int), Error>((rv, rp as int))
                && pos < rp <= data@.len(),
            Err(e) => spec_read_v32_rec(data@, pos as int, v, i as nat) == Err::<(u32, int), Error>(e),
        },
    decreases i,
{
    if pos >= data.len() {
        return Err(Error::Short);
    }
    let b = data[pos];
    let bits = (b & 0x7f) as u32;
    let last = b & 0x80 == 0;
    if i <= 1 {
        if last && v & 0xfe000000 == 0 {
            Ok(((v << 7) | bits, pos + 1))
        } else {
            Err(Error::Overflow)
        }
    } else {
        if last {
            Ok(((v << 7) | bits, pos + 1))
        } else {
            read_v32_rec(data, pos + 1, (v << 7) | bits, i - 1)
        }
    }
}

/// Decode a base-128 varint of at most five bytes, most significant group
/// first; a value that would not fit in 32 bits is an `Overflow`.
pub fn read_v32(data: &[u8], pos: &mut usize) -> (r: Result<u32, Error>)
    requires
        *old(pos) <= data@.len(),
    ensures
        match r {
            Ok(rv) => spec_read_v32(data@, *old(pos) as int) == Ok::<(u32, int), Error>((rv, *final(pos) as int))
                && *old(pos) < *final(pos) <= data@.len(),
            Err(e) => spec_read_v32(data@, *old(pos) as int) == Err::<(u32, int), Error>(e)
                && *final(pos) == *old(pos),
        },
{
    match read_v32_rec(data, *pos, 0, 5) {
        Ok((v, p)) => {
            *pos = p;
            Ok(v)
        },
        Err(e) => Err(e),
    }
}

} // verus!
