//! Big-endian scalar and variable-length-quantity decoding over a byte
//! buffer.  Every reader takes the buffer together with a cursor position
//! and advances the cursor; a short read fails with `UnexpectedEof`.

use vstd::prelude::*;
use crate::errors::MidiError;

verus! {

/// The big-endian 16-bit value at `pos`.
pub open spec fn spec_u16_be(data: Seq<u8>, pos: int) -> int {
    data[pos] * 0x100 + data[pos + 1]
}

/// The big-endian 32-bit value at `pos`.
pub open spec fn spec_u32_be(data: Seq<u8>, pos: int) -> int {
    data[pos] * 0x1000000 + data[pos + 1] * 0x10000 + data[pos + 2] * 0x100 + data[pos + 3]
}

/// The signed value of a 16-bit two's-complement word.
pub open spec fn spec_i16_of(v: int) -> int {
    if v >= 0x8000 {
        v - 0x10000
    } else {
        v
    }
}

/// The variable-length quantity at `pos`, read within `data` but never at
/// or past `avail`: 7-bit groups accumulate while the top bit is set, over
/// at most four bytes.  Returns the value and the position after it, or the
/// error a reader raises.
pub open spec fn spec_varlen(data: Seq<u8>, pos: int, avail: int) -> Result<(u32, int), MidiError> {
    if !(pos < avail && pos < data.len()) {
        Err(MidiError::UnexpectedEof)
    } else if data[pos] < 0x80 {
        Ok(((data[pos] & 0x7F) as u32, pos + 1))
    } else if !(pos + 1 < avail && pos + 1 < data.len()) {
        Err(MidiError::UnexpectedEof)
    } else if data[pos + 1] < 0x80 {
        Ok((((data[pos] & 0x7F) * 0x80 + (data[pos + 1] & 0x7F)) as u32, pos + 2))
    } else if !(pos + 2 < avail && pos + 2 < data.len()) {
        Err(MidiError::UnexpectedEof)
    } else if data[pos + 2] < 0x80 {
        Ok((((data[pos] & 0x7F) * 0x4000 + (data[pos + 1] & 0x7F) * 0x80 + (data[pos + 2] & 0x7F)) as u32, pos + 3))
    } else if !(pos + 3 < avail && pos + 3 < data.len()) {
        Err(MidiError::UnexpectedEof)
    } else if data[pos + 3] < 0x80 {
        Ok((((data[pos] & 0x7F) * 0x200000 + (data[pos + 1] & 0x7F) * 0x4000 + (data[pos + 2] & 0x7F) * 0x80 + (data[pos + 3] & 0x7F)) as u32, pos + 4))
    } else {
        Err(MidiError::OverlongVarlen)
    }
}

/// Reads one byte, within `data` and strictly below the bound `avail`.
pub fn read_u8_bounded(data: &Vec<u8>, pos: &mut usize, avail: usize) -> (r: Result<u8, MidiError>)
    ensures
        match r {
            Ok(b) => {
                &&& *old(pos) < avail && *old(pos) < data@.len()
                &&& b == data@[*old(pos) as int]
                &&& *final(pos) == *old(pos) + 1
            },
            Err(e) => {
                &&& e == MidiError::UnexpectedEof
                &&& !(*old(pos) < avail && *old(pos) < data@.len())
                &&& *final(pos) == *old(pos)
            },
        },
{
    if *pos < avail && *pos < data.len() {
        let b = data[*pos];
        *pos = *pos + 1;
        Ok(b)
    } else {
        Err(MidiError::UnexpectedEof)
    }
}

/// Reads one byte.
pub fn read_u8(data: &Vec<u8>, pos: &mut usize) -> (r: Result<u8, MidiError>)
    ensures
        match r {
            Ok(b) => {
                &&& *old(pos) < data@.len()
                &&& b == data@[*old(pos) as int]
                &&& *final(pos) == *old(pos) + 1
            },
            Err(e) => {
                &&& e == MidiError::UnexpectedEof
                &&& *old(pos) >= data@.len()
                &&& *final(pos) == *old(pos)
            },
        },
{
    if *pos < data.len() {
        let b = data[*pos];
        *pos = *pos + 1;
        Ok(b)
    } else {
        Err(MidiError::UnexpectedEof)
    }
}

/// Reads a big-endian unsigned 16-bit integer.
pub fn read_u16_be(data: &Vec<u8>, pos: &mut usize) -> (r: Result<u16, MidiError>)
    ensures
        match r {
            Ok(v) => {
                &&& *old(pos) + 2 <= data@.len()
                &&& v == spec_u16_be(data@, *old(pos) as int)
                &&& *final(pos) == *old(pos) + 2
            },
            Err(e) => {
                &&& e == MidiError::UnexpectedEof
                &&& *old(pos) + 2 > data@.len()
            },
        },
{
    if *pos < data.len() && data.len() - *pos >= 2 {
        let b0 = data[*pos];
        let b1 = data[*pos + 1];
        *pos = *pos + 2;
        Ok((b0 as u16) * 0x100 + (b1 as u16))
    } else {
        Err(MidiError::UnexpectedEof)
    }
}

/// Reads a big-endian signed 16-bit integer, widened to `i32`.
pub fn read_i16_be(data: &Vec<u8>, pos: &mut usize) -> (r: Result<i32, MidiError>)
    ensures
        match r {
            Ok(v) => {
                &&& *old(pos) + 2 <= data@.len()
                &&& v == spec_i16_of(spec_u16_be(data@, *old(pos) as int))
                &&& *final(pos) == *old(pos) + 2
            },
            Err(e) => {
                &&& e == MidiError::UnexpectedEof
                &&& *old(pos) + 2 > data@.len()
            },
        },
{
    let v = read_u16_be(data, pos)?;
    if v >= 0x8000 {
        Ok(v as i32 - 0x10000)
    } else {
        Ok(v as i32)
    }
}

/// Reads a big-endian unsigned 32-bit integer.
pub fn read_u32_be(data: &Vec<u8>, pos: &mut usize) -> (r: Result<u32, MidiError>)
    ensures
        match r {
            Ok(v) => {
                &&& *old(pos) + 4 <= data@.len()
                &&& v == spec_u32_be(data@, *old(pos) as int)
                &&& *final(pos) == *old(pos) + 4
            },
            Err(e) => {
                &&& e == MidiError::UnexpectedEof
                &&& *old(pos) + 4 > data@.len()
            },
        },
{
    if *pos < data.len() && data.len() - *pos >= 4 {
        let b0 = data[*pos];
        let b1 = data[*pos + 1];
        let b2 = data[*pos + 2];
        let b3 = data[*pos + 3];
        *pos = *pos + 4;
        Ok((b0 as u32) * 0x1000000 + (b1 as u32) * 0x10000 + (b2 as u32) * 0x100 + (b3 as u32))
    } else {
        Err(MidiError::UnexpectedEof)
    }
}

/// Reads a four-character chunk tag, packed big-endian into a `u32`.
pub fn read_four_cc(data: &Vec<u8>, pos: &mut usize) -> (r: Result<u32, MidiError>)
    ensures
        match r {
            Ok(v) => {
                &&& *old(pos) + 4 <= data@.len()
                &&& v == spec_u32_be(data@, *old(pos) as int)
                &&& *final(pos) == *old(pos) + 4
            },
            Err(e) => {
                &&& e == MidiError::UnexpectedEof
                &&& *old(pos) + 4 > data@.len()
            },
        },
{
    read_u32_be(data, pos)
}

/// Advances the cursor over `n` bytes, failing when fewer are available.
pub fn discard_data(data: &Vec<u8>, pos: &mut usize, n: usize) -> (r: Result<(), MidiError>)
    ensures
        match r {
            Ok(()) => {
                &&& *old(pos) + n <= data@.len()
                &&& *final(pos) == *old(pos) + n
            },
            Err(e) => {
                &&& e == MidiError::UnexpectedEof
                &&& *old(pos) + n > data@.len()
                &&& *final(pos) == *old(pos)
            },
        },
{
    if *pos <= data.len() && data.len() - *pos >= n {
        *pos = *pos + n;
        Ok(())
    } else {
        Err(MidiError::UnexpectedEof)
    }
}

/// Reads a variable-length quantity, staying strictly below the bound
/// `avail`: at most four 7-bit groups, accumulating while the top bit of
/// each byte is set.
pub fn read_varlen(data: &Vec<u8>, pos: &mut usize, avail: usize) -> (r: Result<u32, MidiError>)
    ensures
        match r {
            Ok(v) => {
                &&& spec_varlen(data@, *old(pos) as int, avail as int) == Ok::<_, MidiError>((v, *final(pos) as int))
                &&& v < 0x10000000
                &&& *old(pos) < *final(pos) <= *old(pos) + 4
                &&& *final(pos) <= avail && *final(pos) <= data@.len()
            },
            Err(e) => spec_varlen(data@, *old(pos) as int, avail as int) == Err::<(u32, int), _>(e),
        },
{
    let b0 = read_u8_bounded(data, pos, avail)?;
    if b0 < 0x80 {
        return Ok((b0 & 0x7F) as u32);
    }
    let b1 = read_u8_bounded(data, pos, avail)?;
    if b1 < 0x80 {
        return Ok(((b0 & 0x7F) as u32) * 0x80 + ((b1 & 0x7F) as u32));
    }
    let b2 = read_u8_bounded(data, pos, avail)?;
    if b2 < 0x80 {
        return Ok(((b0 & 0x7F) as u32) * 0x4000 + ((b1 & 0x7F) as u32) * 0x80 + ((b2 & 0x7F) as u32));
    }
    let b3 = read_u8_bounded(data, pos, avail)?;
    if b3 < 0x80 {
        assert(b0 & 0x7F <= 0x7F && b1 & 0x7F <= 0x7F && b2 & 0x7F <= 0x7F && b3 & 0x7F <= 0x7F)
            by (bit_vector);
        return Ok(
            ((b0 & 0x7F) as u32) * 0x200000 + ((b1 & 0x7F) as u32) * 0x4000 + ((b2 & 0x7F) as u32)
                * 0x80 + ((b3 & 0x7F) as u32),
        );
    }
    Err(MidiError::OverlongVarlen)
}

} // verus!
