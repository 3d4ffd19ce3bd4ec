//! Zone tables of a SoundFont bank: each zone names where its generators
//! and modulators begin, and its counts are the distance to the next
//! zone's indices.

use vstd::prelude::*;
use crate::binary_reader::{read_u16_be, spec_u16_be};

verus! {

/// What can go wrong while reading a zone list.
#[derive(Clone, Copy, Debug, PartialEq, Eq, Structural)]
pub enum ZoneError {
    /// The chunk size is negative or not a multiple of four.
    InvalidZoneList,
    /// The chunk claims more zones than the data holds.
    UnexpectedEof,
}

/// One zone of the table: where its generators and modulators start, and
/// how many it owns.
#[derive(Clone, Copy, Debug, PartialEq, Eq, Structural)]
pub struct ZoneInfo {
    pub generator_index: i32,
    pub modulator_index: i32,
    pub generator_count: i32,
    pub modulator_count: i32,
}

/// The two big-endian 16-bit indices of the `k`-th zone record at `pos`.
pub open spec fn spec_zone_at(data: Seq<u8>, pos: int, k: int) -> (int, int) {
    (spec_u16_be(data, pos + 4 * k), spec_u16_be(data, pos + 4 * k + 2))
}

impl ZoneInfo {
    /// Reads one zone record: its generator and modulator indices, with
    /// the counts still zero.
    pub fn new(data: &Vec<u8>, pos: &mut usize) -> (r: Result<ZoneInfo, ZoneError>)
        ensures
            match r {
                Ok(z) => {
                    &&& *old(pos) + 4 <= data@.len()
                    &&& *final(pos) == *old(pos) + 4
                    &&& z.generator_index == spec_u16_be(data@, *old(pos) as int)
                    &&& z.modulator_index == spec_u16_be(data@, *old(pos) as int + 2)
                    &&& z.generator_count == 0
                    &&& z.modulator_count == 0
                },
                Err(e) => {
                    &&& e == ZoneError::UnexpectedEof
                    &&& *old(pos) + 4 > data@.len()
                },
            },
    {
        let generator_index = match read_u16_be(data, pos) {
            Ok(v) => v as i32,
            Err(_) => {
                return Err(ZoneError::UnexpectedEof);
            },
        };
        let modulator_index = match read_u16_be(data, pos) {
            Ok(v) => v as i32,
            Err(_) => {
                return Err(ZoneError::UnexpectedEof);
            },
        };
        Ok(
            ZoneInfo {
                generator_index,
                modulator_index,
                generator_count: 0,
                modulator_count: 0,
            },
        )
    }
}

/// Reads a whole zone list of `size` bytes: one record for every four
/// bytes, each zone's counts set to the distance to the next zone's
/// indices, and the last zone's counts left zero.
#[verifier::rlimit(60)]
pub fn read_from_chunk(data: &Vec<u8>, pos: &mut usize, size: i32) -> (r: Result<
    Vec<ZoneInfo>,
    ZoneError,
>)
    ensures
        match r {
            Ok(zs) => {
                &&& size >= 0 && size % 4 == 0
                &&& (size > 0 ==> *old(pos) + size <= data@.len())
                &&& *final(pos) == *old(pos) + size
                &&& zs@.len() == size as int / 4
                &&& forall|k: int|
                    0 <= k < zs@.len() ==> {
                        let z = spec_zone_at(data@, *old(pos) as int, k);
                        &&& (#[trigger] zs@[k]).generator_index == z.0
                        &&& zs@[k].modulator_index == z.1
                    }
                &&& forall|k: int|
                    0 <= k < zs@.len() - 1 ==> {
                        let z = spec_zone_at(data@, *old(pos) as int, k);
                        let nz = spec_zone_at(data@, *old(pos) as int, k + 1);
                        &&& (#[trigger] zs@[k]).generator_count == nz.0 - z.0
                        &&& zs@[k].modulator_count == nz.1 - z.1
                    }
                &&& zs@.len() > 0 ==> zs@[zs@.len() - 1].generator_count == 0 && zs@[zs@.len()
                    - 1].modulator_count == 0
            },
            Err(ZoneError::InvalidZoneList) => size < 0 || size % 4 != 0,
            Err(ZoneError::UnexpectedEof) => {
                &&& size >= 0 && size % 4 == 0
                &&& *old(pos) + size > data@.len()
            },
        },
{
    if size < 0 || size % 4 != 0 {
        return Err(ZoneError::InvalidZoneList);
    }
    let count: usize = (size / 4) as usize;
    let ghost pos0: int = *pos as int;
    let mut raw: Vec<ZoneInfo> = Vec::new();
    let mut i: usize = 0;
    while i < count
        invariant
            pos0 == *old(pos) as int,
            i <= count,
            count as int == size as int / 4,
            0 <= size,
            size % 4 == 0,
            *pos as int == pos0 + 4 * i,
            i > 0 ==> pos0 + 4 * i <= data@.len(),
            raw@.len() == i,
            forall|k: int|
                0 <= k < i ==> {
                    let z = spec_zone_at(data@, pos0, k);
                    &&& (#[trigger] raw@[k]).generator_index == z.0
                    &&& raw@[k].modulator_index == z.1
                    &&& raw@[k].generator_count == 0
                    &&& raw@[k].modulator_count == 0
                },
        decreases count - i,
    {
        let z = match ZoneInfo::new(data, pos) {
            Ok(z) => z,
            Err(e) => {
                proof {
                    assert(4 * (count as int) == size as int);
                    assert(pos0 + 4 * (i as int) + 4 > data@.len());
                    assert(pos0 + size > data@.len());
                }
                return Err(ZoneError::UnexpectedEof);
            },
        };
        raw.push(z);
        i = i + 1;
    }
    let mut out: Vec<ZoneInfo> = Vec::new();
    let mut j: usize = 0;
    while j < count
        invariant
            j <= count,
            count as int == raw@.len(),
            out@.len() == j,
            forall|k: int|
                0 <= k < raw@.len() ==> {
                    let z = spec_zone_at(data@, pos0, k);
                    &&& (#[trigger] raw@[k]).generator_index == z.0
                    &&& raw@[k].modulator_index == z.1
                    &&& raw@[k].generator_count == 0
                    &&& raw@[k].modulator_count == 0
                },
            forall|k: int|
                0 <= k < j ==> {
                    let z = spec_zone_at(data@, pos0, k);
                    &&& (#[trigger] out@[k]).generator_index == z.0
                    &&& out@[k].modulator_index == z.1
                },
            forall|k: int|
                0 <= k < j && k < count as int - 1 ==> {
                    let z = spec_zone_at(data@, pos0, k);
                    let nz = spec_zone_at(data@, pos0, k + 1);
                    &&& (#[trigger] out@[k]).generator_count == nz.0 - z.0
                    &&& out@[k].modulator_count == nz.1 - z.1
                },
            forall|k: int|
                0 <= k < j && k == count as int - 1 ==> (#[trigger] out@[k]).generator_count == 0
                    && out@[k].modulator_count == 0,
        decreases count - j,
    {
        let z = raw[j];
        if j + 1 < count {
            let nz = raw[j + 1];
            out.push(
                ZoneInfo {
                    generator_index: z.generator_index,
                    modulator_index: z.modulator_index,
                    generator_count: nz.generator_index - z.generator_index,
                    modulator_count: nz.modulator_index - z.modulator_index,
                },
            );
        } else {
            out.push(z);
        }
        j = j + 1;
    }
    Ok(out)
}

} // verus!
