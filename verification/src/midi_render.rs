//! The driver of the multi-track offline renderer: it reads the file
//! header, designates the tempo map, indexes the track chunks, and prepares
//! each track for rendering.  The per-track synthesis itself and the
//! floating-point mix are left to the caller; everything the driver decides
//! is exact integer work.

use vstd::prelude::*;
use crate::binary_reader::{
    read_four_cc, read_i16_be, read_u16_be, read_u32_be, spec_i16_of, spec_u16_be, spec_u32_be,
};
use crate::errors::{MidiError, FOUR_CC_MTHD};
use crate::messages::{Message, MidiFileLoopType};
use crate::midifile::{filter_tempo, has_tempo, has_tempo_msg, spec_track_addr, tempo_events,
    track_addr, addr_view, lemma_tempo_events_wf};
use crate::timing::{
    cast_delta, cast_events, merge_events, merge_by_tick, ticks_from, ticks_sorted, times_view,
    MidiTrack, DEFAULT_USPQ,
};
use crate::track_parser::{
    events_wf, lemma_parse_events_wf, parse_events, read_track, spec_read_track, track_view,
};

verus! {

/// The header of an SMF as the renderer accepts it: format 0 or 1, the
/// declared track count, and a positive resolution in ticks per quarter.
pub open spec fn spec_render_header(data: Seq<u8>) -> Result<(int, int, int), MidiError> {
    if 4 > data.len() {
        Err(MidiError::UnexpectedEof)
    } else if spec_u32_be(data, 0) != FOUR_CC_MTHD {
        Err(
            MidiError::InvalidChunkType {
                expected: FOUR_CC_MTHD,
                actual: spec_u32_be(data, 0) as u32,
                at: 4u64,
            },
        )
    } else if 8 > data.len() {
        Err(MidiError::UnexpectedEof)
    } else if spec_u32_be(data, 4) != 6 {
        Err(MidiError::InvalidChunkData(FOUR_CC_MTHD))
    } else if 10 > data.len() {
        Err(MidiError::UnexpectedEof)
    } else if spec_i16_of(spec_u16_be(data, 8)) != 0 && spec_i16_of(spec_u16_be(data, 8)) != 1 {
        Err(MidiError::UnsupportedFormat(spec_i16_of(spec_u16_be(data, 8)) as i32))
    } else if 12 > data.len() {
        Err(MidiError::UnexpectedEof)
    } else if 14 > data.len() {
        Err(MidiError::UnexpectedEof)
    } else if spec_i16_of(spec_u16_be(data, 12)) <= 0 {
        Err(MidiError::InvalidChunkData(FOUR_CC_MTHD))
    } else {
        Ok(
            (
                spec_i16_of(spec_u16_be(data, 8)),
                spec_u16_be(data, 10),
                spec_i16_of(spec_u16_be(data, 12)),
            ),
        )
    }
}

/// On success a track read ends past where it began and within the data.
pub proof fn lemma_read_track_ok_end(data: Seq<u8>, pos: int, loop_type: MidiFileLoopType)
    requires
        spec_read_track(data, pos, loop_type) is Ok,
    ensures
        pos < spec_read_track(data, pos, loop_type)->Ok_0.1 <= data.len(),
{
    let size = spec_u32_be(data, pos + 4);
    lemma_parse_events_ok_end(data, pos + 8 + size, pos + 8, 0, 0, loop_type);
}

proof fn lemma_parse_events_ok_end(
    data: Seq<u8>,
    chunk_end: int,
    pos: int,
    tick: int,
    last_status: u8,
    loop_type: MidiFileLoopType,
)
    requires
        parse_events(data, chunk_end, pos, tick, last_status, loop_type) is Ok,
    ensures
        chunk_end <= data.len(),
    decreases chunk_end - pos,
{
    let avail = crate::track_parser::spec_min(chunk_end, data.len() as int);
    if let Ok((delta, p1)) = crate::binary_reader::spec_varlen(data, pos, avail) {
        let t = tick + delta;
        if p1 < avail {
            let first = data[p1];
            let p2 = p1 + 1;
            if first < 0x80 {
                let command = last_status & 0xF0;
                if command == 0xC0 || command == 0xD0 {
                    lemma_parse_events_ok_end(data, chunk_end, p2, t, last_status, loop_type);
                } else if p2 < avail {
                    lemma_parse_events_ok_end(data, chunk_end, p2 + 1, t, last_status, loop_type);
                }
            } else if first == 0xF0 || first == 0xF7 {
                if let Ok((sz, p3)) = crate::binary_reader::spec_varlen(data, p2, avail) {
                    if p3 + sz <= avail {
                        lemma_parse_events_ok_end(
                            data,
                            chunk_end,
                            p3 + sz,
                            t,
                            last_status,
                            loop_type,
                        );
                    }
                }
            } else if first == 0xFF {
                if p2 < avail {
                    let meta = data[p2];
                    let p3 = p2 + 1;
                    if meta == 0x2F {
                    } else if meta == 0x51 {
                        if let Ok((sz, p4)) = crate::binary_reader::spec_varlen(data, p3, avail) {
                            if sz == 3 && p4 + 2 < avail {
                                lemma_parse_events_ok_end(
                                    data,
                                    chunk_end,
                                    p4 + 3,
                                    t,
                                    last_status,
                                    loop_type,
                                );
                            }
                        }
                    } else {
                        if let Ok((sz, p4)) = crate::binary_reader::spec_varlen(data, p3, avail) {
                            if p4 + sz <= avail {
                                lemma_parse_events_ok_end(
                                    data,
                                    chunk_end,
                                    p4 + sz,
                                    t,
                                    last_status,
                                    loop_type,
                                );
                            }
                        }
                    }
                }
            } else {
                let command = first & 0xF0;
                if command == 0xC0 || command == 0xD0 {
                    if p2 < avail {
                        lemma_parse_events_ok_end(data, chunk_end, p2 + 1, t, first, loop_type);
                    }
                } else if p2 + 1 < avail {
                    lemma_parse_events_ok_end(data, chunk_end, p2 + 2, t, first, loop_type);
                }
            }
        }
    }
}

/// The first track, read in file order from `pos`, that carries a tempo
/// change; `None` when a track fails to read before one is found.
pub open spec fn spec_scan_tempo(data: Seq<u8>, pos: int, loop_type: MidiFileLoopType) -> Option<
    Seq<(Message, int)>,
>
    decreases data.len() - pos,
    via spec_scan_tempo_decreases
{
    match spec_read_track(data, pos, loop_type) {
        Err(_) => None::<Seq<(Message, int)>>,
        Ok((evs, end)) => if has_tempo_msg(evs) {
            Some(evs)
        } else {
            spec_scan_tempo(data, end, loop_type)
        },
    }
}

#[via_fn]
proof fn spec_scan_tempo_decreases(data: Seq<u8>, pos: int, loop_type: MidiFileLoopType) {
    if spec_read_track(data, pos, loop_type) is Ok {
        lemma_read_track_ok_end(data, pos, loop_type);
    }
}

/// Reads tracks in order from the cursor until one carries a tempo change,
/// and returns it; `None` when a read fails first.
pub fn scan_tempo(data: &Vec<u8>, pos: &mut usize, loop_type: MidiFileLoopType) -> (r: Option<
    Vec<(Message, u64)>,
>)
    ensures
        match r {
            Some(t) => {
                &&& spec_scan_tempo(data@, *old(pos) as int, loop_type) == Some(track_view(t@))
                &&& events_wf(track_view(t@), 0)
            },
            None => spec_scan_tempo(data@, *old(pos) as int, loop_type) is None,
        },
{
    let ghost pos0: int = *pos as int;
    let mut p: usize = *pos;
    loop
        invariant
            pos0 == *old(pos) as int,
            p as int <= data@.len() || p as int == pos0,
            spec_scan_tempo(data@, pos0, loop_type) == spec_scan_tempo(
                data@,
                p as int,
                loop_type,
            ),
        decreases data@.len() - p as int + 1,
    {
        let ghost p_e: int = p as int;
        let track = match read_track(data, &mut p, loop_type) {
            Ok(t) => t,
            Err(e) => {
                proof {
                    assert(spec_scan_tempo(data@, p_e, loop_type) is None);
                }
                return None;
            },
        };
        if has_tempo(&track) {
            proof {
                assert(spec_scan_tempo(data@, p_e, loop_type) == Some(track_view(track@)));
            }
            *pos = p;
            return Some(track);
        }
        proof {
            assert(spec_scan_tempo(data@, p_e, loop_type) == spec_scan_tempo(
                data@,
                p as int,
                loop_type,
            ));
        }
    }
}

/// Everything the renderer fixes at construction, seen abstractly.
pub ghost struct RenderModel {
    pub format: int,
    pub track_count: int,
    pub resolution: int,
    pub tempo_map: Seq<(Message, int)>,
    pub track_addr: Seq<(int, int)>,
}

/// The whole construction: the header, the tempo map (the tempo events of
/// the first track that has any), and the track index.  A file without a
/// tempo map is rejected as unsupported.
pub open spec fn spec_renderer_new(data: Seq<u8>) -> Result<RenderModel, MidiError> {
    match spec_render_header(data) {
        Err(e) => Err(e),
        Ok((format, track_count, resolution)) => match spec_scan_tempo(
            data,
            14,
            MidiFileLoopType::LoopPoint(0),
        ) {
            None => Err(MidiError::UnsupportedFormat(format as i32)),
            Some(evs) => match spec_track_addr(data, 14, 0, track_count) {
                Err(e) => Err(e),
                Ok(addrs) => Ok(
                    RenderModel {
                        format,
                        track_count,
                        resolution,
                        tempo_map: tempo_events(evs),
                        track_addr: addrs,
                    },
                ),
            },
        },
    }
}

/// Drives the multi-track render: fixed header data, the shared tempo map,
/// the chunk index, and the live progress counter.
#[derive(Debug)]
pub struct ThreadedRender {
    /// Ticks per quarter note, always positive.
    pub resolution: i32,
    /// The tempo-change events every track is fused with.
    pub tempo_map: Vec<(Message, u64)>,
    /// Offset of each MTrk chunk from the first one, and its whole size.
    pub track_addr: Vec<(usize, usize)>,
    /// Samples per second of the output.
    pub sample_rate: u32,
    /// How many MTrk chunks the file declares.
    pub track_count: i32,
    /// How many tracks have been rendered so far; never decreases and never
    /// passes `track_count`.
    pub rendered_track_count: i32,
}

impl ThreadedRender {
    /// The invariant every constructed renderer keeps.
    pub open spec fn wf(&self) -> bool {
        &&& self.resolution > 0
        &&& ticks_sorted(track_view(self.tempo_map@))
        &&& ticks_from(track_view(self.tempo_map@), 0)
        &&& 0 <= self.rendered_track_count <= self.track_count
    }

    /// Parses the header and the track index of the SMF bytes and finds the
    /// tempo map.  Fails exactly as the model says: a wrong tag or header
    /// size, a format other than 0 or 1, a non-positive resolution, a file
    /// without a tempo change anywhere, or a truncated chunk.
    pub fn new(data: &Vec<u8>, sample_rate: u32) -> (r: Result<ThreadedRender, MidiError>)
        ensures
            match r {
                Ok(t) => {
                    &&& spec_renderer_new(data@) matches Ok(m)
                    &&& t.track_count as int == m.track_count
                    &&& t.resolution as int == m.resolution
                    &&& track_view(t.tempo_map@) == m.tempo_map
                    &&& addr_view(t.track_addr@) == m.track_addr
                    &&& t.sample_rate == sample_rate
                    &&& t.rendered_track_count == 0
                    &&& t.wf()
                },
                Err(e) => spec_renderer_new(data@) == Err::<RenderModel, _>(e),
            },
    {
        let mut p: usize = 0;
        let tag = match read_four_cc(data, &mut p) {
            Ok(v) => v,
            Err(e) => {
                return Err(e);
            },
        };
        if tag != FOUR_CC_MTHD {
            return Err(
                MidiError::InvalidChunkType { expected: FOUR_CC_MTHD, actual: tag, at: 4u64 },
            );
        }
        let size = match read_u32_be(data, &mut p) {
            Ok(v) => v,
            Err(e) => {
                return Err(e);
            },
        };
        if size != 6 {
            return Err(MidiError::InvalidChunkData(FOUR_CC_MTHD));
        }
        let format = match read_i16_be(data, &mut p) {
            Ok(v) => v,
            Err(e) => {
                return Err(e);
            },
        };
        if !(format == 0 || format == 1) {
            return Err(MidiError::UnsupportedFormat(format));
        }
        let track_count_raw = match read_u16_be(data, &mut p) {
            Ok(v) => v,
            Err(e) => {
                return Err(e);
            },
        };
        let track_count: i32 = track_count_raw as i32;
        let resolution = match read_i16_be(data, &mut p) {
            Ok(v) => v,
            Err(e) => {
                return Err(e);
            },
        };
        if resolution <= 0 {
            return Err(MidiError::InvalidChunkData(FOUR_CC_MTHD));
        }
        let mut sp: usize = 14;
        let tempo_track = match scan_tempo(data, &mut sp, MidiFileLoopType::LoopPoint(0)) {
            Some(t) => t,
            None => {
                return Err(MidiError::UnsupportedFormat(format));
            },
        };
        let tempo_map = filter_tempo(&tempo_track);
        proof {
            lemma_tempo_events_wf(track_view(tempo_track@), 0);
        }
        let mut ap: usize = 14;
        let addrs = match track_addr(data, &mut ap, track_count) {
            Ok(a) => a,
            Err(e) => {
                return Err(e);
            },
        };
        Ok(
            ThreadedRender {
                resolution,
                tempo_map,
                track_addr: addrs,
                sample_rate,
                track_count,
                rendered_track_count: 0,
            },
        )
    }

    /// Prepares one track chunk for rendering: parses it, fuses it stably
    /// with the shared tempo map, and resolves ticks to time stamps.  The
    /// second component is the track length in tick-microseconds.
    pub fn prepare_track(&self, chunk: &Vec<u8>) -> (r: Result<(MidiTrack, u128), MidiError>)
        requires
            self.wf(),
        ensures
            match r {
                Ok(t) => {
                    &&& spec_read_track(chunk@, 0, MidiFileLoopType::LoopPoint(0)) matches Ok(pr)
                    &&& ({
                        let c = cast_events(
                            merge_by_tick(pr.0, track_view(self.tempo_map@)),
                            0,
                            0,
                            DEFAULT_USPQ as int,
                        );
                        &&& t.0.messages@ == c.0
                        &&& times_view(t.0.times@) == c.1
                        &&& t.1 as int == c.2
                    })
                },
                Err(e) => spec_read_track(chunk@, 0, MidiFileLoopType::LoopPoint(0)) == Err::<
                    (Seq<(Message, int)>, int),
                    _,
                >(e),
            },
    {
        let mut p: usize = 0;
        let raw = match read_track(chunk, &mut p, MidiFileLoopType::LoopPoint(0)) {
            Ok(t) => t,
            Err(e) => {
                return Err(e);
            },
        };
        let merged = merge_events(&raw, &self.tempo_map);
        proof {
            crate::timing::lemma_merge_wf(track_view(raw@), track_view(self.tempo_map@), 0);
        }
        let (track, length) = cast_delta(&merged);
        Ok((track, length))
    }

    /// How many stereo samples a track of the given length fills at the
    /// renderer's sample rate: the exact floor of `sample_rate` times the
    /// length in seconds.  The length must be below `2^88`, which every
    /// resolved track respects.
    pub fn sample_count(&self, length: u128) -> (r: u128)
        requires
            self.wf(),
            length < 0x10000000000000000000000,
        ensures
            r == (self.sample_rate as int * length as int) / (self.resolution as int * 1000000),
    {
        proof {
            assert((self.sample_rate as int * length as int) < 0x100000000
                * 0x10000000000000000000000) by (nonlinear_arith)
                requires
                    (self.sample_rate as int) < 0x100000000,
                    (length as int) < 0x10000000000000000000000,
                    0 <= self.sample_rate as int,
                    0 <= length as int,
            ;
        }
        (self.sample_rate as u128 * length) / (self.resolution as u128 * 1000000)
    }

    /// Records that one more track finished rendering.  The counter grows
    /// by exactly one and never passes the track count.
    pub fn record_rendered(&mut self)
        requires
            old(self).wf(),
            old(self).rendered_track_count < old(self).track_count,
        ensures
            final(self).rendered_track_count == old(self).rendered_track_count + 1,
            final(self).wf(),
            final(self).resolution == old(self).resolution,
            final(self).tempo_map == old(self).tempo_map,
            final(self).track_addr == old(self).track_addr,
            final(self).sample_rate == old(self).sample_rate,
            final(self).track_count == old(self).track_count,
    {
        self.rendered_track_count = self.rendered_track_count + 1;
    }
}

} // verus!
