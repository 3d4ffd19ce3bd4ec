//! Parsing of one MTrk chunk into a raw track: a sequence of
//! `(Message, tick)` pairs, honoring running status and the configured
//! loop dialect, terminated by exactly one end-of-track marker.
//!
//! All reads stay within the declared chunk, so the parser never consumes
//! bytes of a following chunk even on malformed input.

use vstd::prelude::*;
use crate::binary_reader::{
    discard_data, read_four_cc, read_u32_be, read_u8_bounded, read_varlen, spec_u32_be,
    spec_varlen,
};
use crate::errors::{MidiError, FOUR_CC_MTRK};
use crate::messages::{
    spec_common1, spec_common2, spec_end_of_track, spec_tempo_change, Message, MidiFileLoopType,
    END_OF_TRACK,
};
use crate::read_counter::ReadCounter;

verus! {

/// The smaller of two integers.
pub open spec fn spec_min(a: int, b: int) -> int {
    if a <= b {
        a
    } else {
        b
    }
}

/// A raw track seen abstractly: each event as its message and its absolute
/// tick, in parse order.
pub open spec fn track_view(t: Seq<(Message, u64)>) -> Seq<(Message, int)> {
    t.map_values(|p: (Message, u64)| (p.0, p.1 as int))
}

/// One MTrk payload, parsed from `pos` with accumulated absolute tick
/// `tick` and running status `last_status`.  `chunk_end` is where the
/// declared payload ends; no read crosses it.  The result is the remaining
/// event list, ending with the end-of-track marker, or the first error.
pub open spec fn parse_events(
    data: Seq<u8>,
    chunk_end: int,
    pos: int,
    tick: int,
    last_status: u8,
    loop_type: MidiFileLoopType,
) -> Result<Seq<(Message, int)>, MidiError>
    decreases chunk_end - pos,
{
    let avail = spec_min(chunk_end, data.len() as int);
    match spec_varlen(data, pos, avail) {
        Err(e) => Err(e),
        Ok((delta, p1)) => {
            let t = tick + delta;
            if !(p1 < avail) {
                Err(MidiError::UnexpectedEof)
            } else {
                let first = data[p1];
                let p2 = p1 + 1;
                if first < 0x80 {
                    // running status: the byte is already the first data byte
                    let command = last_status & 0xF0;
                    if command == 0xC0 || command == 0xD0 {
                        match parse_events(data, chunk_end, p2, t, last_status, loop_type) {
                            Ok(rest) => Ok(seq![(spec_common1(last_status, first), t)] + rest),
                            Err(e) => Err(e),
                        }
                    } else if !(p2 < avail) {
                        Err(MidiError::UnexpectedEof)
                    } else {
                        match parse_events(data, chunk_end, p2 + 1, t, last_status, loop_type) {
                            Ok(rest) => Ok(
                                seq![(spec_common2(last_status, first, data[p2], loop_type), t)]
                                    + rest,
                            ),
                            Err(e) => Err(e),
                        }
                    }
                } else if first == 0xF0 || first == 0xF7 {
                    // system exclusive: skip the announced payload
                    match spec_varlen(data, p2, avail) {
                        Err(e) => Err(e),
                        Ok((sz, p3)) => {
                            if p3 + sz > avail {
                                Err(MidiError::UnexpectedEof)
                            } else {
                                parse_events(data, chunk_end, p3 + sz, t, last_status, loop_type)
                            }
                        },
                    }
                } else if first == 0xFF {
                    if !(p2 < avail) {
                        Err(MidiError::UnexpectedEof)
                    } else {
                        let meta = data[p2];
                        let p3 = p2 + 1;
                        if meta == 0x2F {
                            // end of track: one ignored length byte, then the
                            // rest of the declared chunk is discarded
                            if !(p3 < avail) {
                                Err(MidiError::UnexpectedEof)
                            } else if chunk_end <= data.len() {
                                Ok(seq![(spec_end_of_track(), t)])
                            } else {
                                Err(MidiError::UnexpectedEof)
                            }
                        } else if meta == 0x51 {
                            // set tempo: length must be 3, payload big-endian
                            match spec_varlen(data, p3, avail) {
                                Err(e) => Err(e),
                                Ok((sz, p4)) => {
                                    if sz != 3 {
                                        Err(MidiError::InvalidTempoValue)
                                    } else if !(p4 + 2 < avail) {
                                        Err(MidiError::UnexpectedEof)
                                    } else {
                                        let tempo = data[p4] * 0x10000 + data[p4 + 1] * 0x100
                                            + data[p4 + 2];
                                        match parse_events(
                                            data,
                                            chunk_end,
                                            p4 + 3,
                                            t,
                                            last_status,
                                            loop_type,
                                        ) {
                                            Ok(rest) => Ok(
                                                seq![(spec_tempo_change(tempo), t)] + rest,
                                            ),
                                            Err(e) => Err(e),
                                        }
                                    }
                                },
                            }
                        } else {
                            // any other meta event: skip the announced payload
                            match spec_varlen(data, p3, avail) {
                                Err(e) => Err(e),
                                Ok((sz, p4)) => {
                                    if p4 + sz > avail {
                                        Err(MidiError::UnexpectedEof)
                                    } else {
                                        parse_events(
                                            data,
                                            chunk_end,
                                            p4 + sz,
                                            t,
                                            last_status,
                                            loop_type,
                                        )
                                    }
                                },
                            }
                        }
                    }
                } else {
                    // a status byte: it becomes the running status
                    let command = first & 0xF0;
                    if command == 0xC0 || command == 0xD0 {
                        if !(p2 < avail) {
                            Err(MidiError::UnexpectedEof)
                        } else {
                            match parse_events(data, chunk_end, p2 + 1, t, first, loop_type) {
                                Ok(rest) => Ok(seq![(spec_common1(first, data[p2]), t)] + rest),
                                Err(e) => Err(e),
                            }
                        }
                    } else if !(p2 + 1 < avail) {
                        Err(MidiError::UnexpectedEof)
                    } else {
                        match parse_events(data, chunk_end, p2 + 2, t, first, loop_type) {
                            Ok(rest) => Ok(
                                seq![(spec_common2(first, data[p2], data[p2 + 1], loop_type), t)]
                                    + rest,
                            ),
                            Err(e) => Err(e),
                        }
                    }
                }
            }
        },
    }
}

/// One whole MTrk chunk read from `pos`: the `MTrk` tag, the payload size,
/// then the events.  On success the second component is the position just
/// past the declared chunk.
pub open spec fn spec_read_track(data: Seq<u8>, pos: int, loop_type: MidiFileLoopType) -> Result<
    (Seq<(Message, int)>, int),
    MidiError,
> {
    if pos + 4 > data.len() {
        Err(MidiError::UnexpectedEof)
    } else if spec_u32_be(data, pos) != FOUR_CC_MTRK {
        Err(
            MidiError::InvalidChunkType {
                expected: FOUR_CC_MTRK,
                actual: spec_u32_be(data, pos) as u32,
                at: (pos + 4) as u64,
            },
        )
    } else if pos + 8 > data.len() {
        Err(MidiError::UnexpectedEof)
    } else {
        let size = spec_u32_be(data, pos + 4);
        match parse_events(data, pos + 8 + size, pos + 8, 0, 0, loop_type) {
            Ok(evs) => Ok((evs, pos + 8 + size)),
            Err(e) => Err(e),
        }
    }
}

/// Well-formedness of a parsed event list whose parse began at absolute
/// tick `tick`: it is non-empty, only its last event is the end-of-track
/// marker, and ticks are non-decreasing, never below `tick`.
pub open spec fn events_wf(evs: Seq<(Message, int)>, tick: int) -> bool {
    &&& evs.len() >= 1
    &&& evs[evs.len() - 1].0 == spec_end_of_track()
    &&& (forall|i: int| 0 <= i < evs.len() - 1 ==> (#[trigger] evs[i]).0.channel != END_OF_TRACK)
    &&& (forall|i: int| 0 <= i < evs.len() ==> tick <= (#[trigger] evs[i]).1)
    &&& (forall|i: int, j: int|
        #![trigger evs[i], evs[j]]
        0 <= i <= j < evs.len() ==> evs[i].1 <= evs[j].1)
}

proof fn lemma_status_nibbles(status: u8)
    ensures
        status & 0x0F < 16,
{
    assert(status & 0x0F < 16) by (bit_vector);
}

/// Every successfully parsed event list is well formed: the end-of-track
/// marker stands exactly once, at the end, and ticks never decrease.
pub proof fn lemma_parse_events_wf(
    data: Seq<u8>,
    chunk_end: int,
    pos: int,
    tick: int,
    last_status: u8,
    loop_type: MidiFileLoopType,
)
    requires
        parse_events(data, chunk_end, pos, tick, last_status, loop_type) is Ok,
    ensures
        events_wf(parse_events(data, chunk_end, pos, tick, last_status, loop_type)->Ok_0, tick),
    decreases chunk_end - pos,
{
    let avail = spec_min(chunk_end, data.len() as int);
    if let Ok((delta, p1)) = spec_varlen(data, pos, avail) {
        let t = tick + delta;
        if p1 < avail {
            let first = data[p1];
            let p2 = p1 + 1;
            if first < 0x80 {
                let command = last_status & 0xF0;
                lemma_status_nibbles(last_status);
                if command == 0xC0 || command == 0xD0 {
                    lemma_parse_events_wf(data, chunk_end, p2, t, last_status, loop_type);
                } else if p2 < avail {
                    lemma_parse_events_wf(data, chunk_end, p2 + 1, t, last_status, loop_type);
                }
            } else if first == 0xF0 || first == 0xF7 {
                if let Ok((sz, p3)) = spec_varlen(data, p2, avail) {
                    if p3 + sz <= avail {
                        lemma_parse_events_wf(data, chunk_end, p3 + sz, t, last_status, loop_type);
                    }
                }
            } else if first == 0xFF {
                if p2 < avail {
                    let meta = data[p2];
                    let p3 = p2 + 1;
                    if meta == 0x2F {
                        // base case: the single end-of-track event
                    } else if meta == 0x51 {
                        if let Ok((sz, p4)) = spec_varlen(data, p3, avail) {
                            if sz == 3 && p4 + 2 < avail {
                                lemma_parse_events_wf(
                                    data,
                                    chunk_end,
                                    p4 + 3,
                                    t,
                                    last_status,
                                    loop_type,
                                );
                            }
                        }
                    } else {
                        if let Ok((sz, p4)) = spec_varlen(data, p3, avail) {
                            if p4 + sz <= avail {
                                lemma_parse_events_wf(
                                    data,
                                    chunk_end,
                                    p4 + sz,
                                    t,
                                    last_status,
                                    loop_type,
                                );
                            }
                        }
                    }
                }
            } else {
                let command = first & 0xF0;
                lemma_status_nibbles(first);
                if command == 0xC0 || command == 0xD0 {
                    if p2 < avail {
                        lemma_parse_events_wf(data, chunk_end, p2 + 1, t, first, loop_type);
                    }
                } else if p2 + 1 < avail {
                    lemma_parse_events_wf(data, chunk_end, p2 + 2, t, first, loop_type);
                }
            }
        }
    }
}

/// A successfully read track is well formed from tick 0: the end-of-track
/// marker stands exactly once, at the end, and ticks never decrease.
pub proof fn lemma_read_track_ok_wf(data: Seq<u8>, pos: int, loop_type: MidiFileLoopType)
    requires
        spec_read_track(data, pos, loop_type) is Ok,
    ensures
        events_wf(spec_read_track(data, pos, loop_type)->Ok_0.0, 0),
{
    let size = spec_u32_be(data, pos + 4);
    lemma_parse_events_wf(data, pos + 8 + size, pos + 8, 0, 0, loop_type);
}

/// Reads one MTrk chunk at the cursor and returns its raw track: the
/// `(message, absolute tick)` pairs in parse order, ending with the
/// end-of-track marker.  Bytes that trail inside the declared chunk after
/// the end-of-track event are discarded, and on success the cursor stands
/// just past the declared chunk.
#[verifier::rlimit(100)]
pub fn read_track(data: &Vec<u8>, pos: &mut usize, loop_type: MidiFileLoopType) -> (r: Result<
    Vec<(Message, u64)>,
    MidiError,
>)
    ensures
        match r {
            Ok(t) => {
                &&& spec_read_track(data@, *old(pos) as int, loop_type) == Ok::<_, MidiError>(
                    (track_view(t@), *final(pos) as int),
                )
                &&& *old(pos) < *final(pos) <= data@.len()
                &&& events_wf(track_view(t@), 0)
            },
            Err(e) => spec_read_track(data@, *old(pos) as int, loop_type) == Err::<
                (Seq<(Message, int)>, int),
                _,
            >(e),
        },
{
    let ghost pos0: int = *pos as int;
    let mut p: usize = *pos;
    let tag = match read_four_cc(data, &mut p) {
        Ok(v) => v,
        Err(e) => {
            return Err(e);
        },
    };
    if tag != FOUR_CC_MTRK {
        return Err(
            MidiError::InvalidChunkType { expected: FOUR_CC_MTRK, actual: tag, at: p as u64 },
        );
    }
    let size = match read_u32_be(data, &mut p) {
        Ok(v) => v,
        Err(e) => {
            return Err(e);
        },
    };
    let ghost pstart: int = p as int;
    let ghost chunk_end: int = p as int + size as int;
    let counter = ReadCounter::new(p);
    let avail: usize = if data.len() - p >= size as usize {
        p + size as usize
    } else {
        data.len()
    };
    assert(avail as int == spec_min(chunk_end, data@.len() as int));

    let mut events: Vec<(Message, u64)> = Vec::new();
    let mut tick: u64 = 0;
    let mut last_status: u8 = 0;
    proof {
        if let Ok(rest) = parse_events(data@, chunk_end, pstart as int, 0, 0, loop_type) {
            assert(track_view(events@) + rest =~= rest);
        }
    }

    loop
        invariant
            pos0 == *old(pos) as int,
            pstart <= p as int <= avail as int,
            avail as int == spec_min(chunk_end, data@.len() as int),
            avail as int <= data@.len(),
            chunk_end == pstart + size as int,
            pstart == pos0 + 8,
            pos0 + 8 <= data@.len(),
            spec_u32_be(data@, pos0) == FOUR_CC_MTRK,
            spec_u32_be(data@, pos0 + 4) == size as int,
            counter.spec_start() == pstart,
            tick as int <= 0x0FFFFFFF * (p as int - pstart),
            (match parse_events(data@, chunk_end, p as int, tick as int, last_status, loop_type) {
                Ok(rest) => parse_events(data@, chunk_end, pstart, 0, 0, loop_type) == Ok::<
                    _,
                    MidiError,
                >(track_view(events@) + rest),
                Err(e) => parse_events(data@, chunk_end, pstart, 0, 0, loop_type) == Err::<
                    Seq<(Message, int)>,
                    _,
                >(e),
            }),
        decreases avail as int - p as int,
    {
        let ghost pos_e: int = p as int;
        let ghost tick_e: int = tick as int;
        let ghost last_e: u8 = last_status;
        let ghost old_events: Seq<(Message, u64)> = events@;
        let ghost top = parse_events(data@, chunk_end, pstart, 0, 0, loop_type);
        let ghost cur = parse_events(data@, chunk_end, pos_e, tick_e, last_e, loop_type);

        let delta = match read_varlen(data, &mut p, avail) {
            Ok(v) => v,
            Err(e) => {
                proof {
                    assert(cur == Err::<Seq<(Message, int)>, MidiError>(e));
                }
                return Err(e);
            },
        };
        proof {
            assert(tick as int + delta as int <= 0x0FFFFFFF * (p as int - pstart)) by {
                assert(tick as int <= 0x0FFFFFFF * (pos_e - pstart));
                assert(delta as int <= 0x0FFFFFFF);
                assert(pos_e + 1 <= p as int);
                assert(0x0FFFFFFF * (pos_e - pstart) + 0x0FFFFFFF * 1 <= 0x0FFFFFFF * (
                p as int - pstart)) by (nonlinear_arith)
                    requires
                        pos_e + 1 <= p as int,
                ;
            }
            assert(0x0FFFFFFF * (p as int - pstart) <= 0x0FFFFFFF * (0xFFFFFFFF as int))
                by (nonlinear_arith)
                requires
                    p as int - pstart <= 0xFFFFFFFF as int,
            ;
        }
        let new_tick: u64 = tick + delta as u64;
        tick = new_tick;
        let ghost t_int: int = tick as int;
        assert(t_int == tick_e + delta as int);

        let first = match read_u8_bounded(data, &mut p, avail) {
            Ok(v) => v,
            Err(e) => {
                proof {
                    assert(cur == Err::<Seq<(Message, int)>, MidiError>(e));
                }
                return Err(e);
            },
        };

        if first < 0x80 {
            // running status: reuse the previous status byte
            let command = last_status & 0xF0;
            let msg: Message;
            if command == 0xC0 || command == 0xD0 {
                msg = Message::common1(last_status, first);
            } else {
                let data2 = match read_u8_bounded(data, &mut p, avail) {
                    Ok(v) => v,
                    Err(e) => {
                        proof {
                            assert(cur == Err::<Seq<(Message, int)>, MidiError>(e));
                        }
                        return Err(e);
                    },
                };
                msg = Message::common2(last_status, first, data2, loop_type);
            }
            events.push((msg, tick));
            proof {
                lemma_continuation_step(
                    top,
                    cur,
                    old_events,
                    events@,
                    (msg, tick),
                    parse_events(data@, chunk_end, p as int, t_int, last_e, loop_type),
                );
            }
        } else if first == 0xF0 || first == 0xF7 {
            let sz = match read_varlen(data, &mut p, avail) {
                Ok(v) => v,
                Err(e) => {
                    proof {
                        assert(cur == Err::<Seq<(Message, int)>, MidiError>(e));
                    }
                    return Err(e);
                },
            };
            if avail - p >= sz as usize {
                p = p + sz as usize;
            } else {
                proof {
                    assert(cur == Err::<Seq<(Message, int)>, MidiError>(MidiError::UnexpectedEof));
                }
                return Err(MidiError::UnexpectedEof);
            }
        } else if first == 0xFF {
            let meta = match read_u8_bounded(data, &mut p, avail) {
                Ok(v) => v,
                Err(e) => {
                    proof {
                        assert(cur == Err::<Seq<(Message, int)>, MidiError>(e));
                    }
                    return Err(e);
                },
            };
            if meta == 0x2F {
                // end of track: one ignored length byte, then trailing bytes
                // inside the declared chunk are discarded
                let _len = match read_u8_bounded(data, &mut p, avail) {
                    Ok(v) => v,
                    Err(e) => {
                        proof {
                            assert(cur == Err::<Seq<(Message, int)>, MidiError>(e));
                        }
                        return Err(e);
                    },
                };
                events.push((Message::end_of_track(), tick));
                let consumed = counter.bytes_read(p);
                if consumed < size as usize {
                    match discard_data(data, &mut p, size as usize - consumed) {
                        Ok(()) => {},
                        Err(e) => {
                            proof {
                                assert(chunk_end > data@.len());
                                assert(cur == Err::<Seq<(Message, int)>, MidiError>(
                                    MidiError::UnexpectedEof,
                                ));
                            }
                            return Err(e);
                        },
                    }
                }
                proof {
                    assert(chunk_end <= data@.len());
                    assert(p as int == chunk_end);
                    assert(cur == Ok::<_, MidiError>(
                        seq![(spec_end_of_track(), t_int)],
                    ));
                    assert(track_view(events@) =~= track_view(old_events) + seq![
                        (spec_end_of_track(), t_int),
                    ]);
                    assert(top == Ok::<_, MidiError>(track_view(events@)));
                    lemma_parse_events_wf(data@, chunk_end, pstart, 0, 0, loop_type);
                }
                *pos = p;
                return Ok(events);
            } else if meta == 0x51 {
                let sz = match read_varlen(data, &mut p, avail) {
                    Ok(v) => v,
                    Err(e) => {
                        proof {
                            assert(cur == Err::<Seq<(Message, int)>, MidiError>(e));
                        }
                        return Err(e);
                    },
                };
                if sz != 3 {
                    proof {
                        assert(cur == Err::<Seq<(Message, int)>, MidiError>(
                            MidiError::InvalidTempoValue,
                        ));
                    }
                    return Err(MidiError::InvalidTempoValue);
                }
                let b1 = match read_u8_bounded(data, &mut p, avail) {
                    Ok(v) => v,
                    Err(e) => {
                        proof {
                            assert(cur == Err::<Seq<(Message, int)>, MidiError>(e));
                        }
                        return Err(e);
                    },
                };
                let b2 = match read_u8_bounded(data, &mut p, avail) {
                    Ok(v) => v,
                    Err(e) => {
                        proof {
                            assert(cur == Err::<Seq<(Message, int)>, MidiError>(e));
                        }
                        return Err(e);
                    },
                };
                let b3 = match read_u8_bounded(data, &mut p, avail) {
                    Ok(v) => v,
                    Err(e) => {
                        proof {
                            assert(cur == Err::<Seq<(Message, int)>, MidiError>(e));
                        }
                        return Err(e);
                    },
                };
                let tempo: u32 = (b1 as u32) * 0x10000 + (b2 as u32) * 0x100 + (b3 as u32);
                let msg = Message::tempo_change(tempo);
                events.push((msg, tick));
                proof {
                    lemma_continuation_step(
                        top,
                        cur,
                        old_events,
                        events@,
                        (msg, tick),
                        parse_events(data@, chunk_end, p as int, t_int, last_e, loop_type),
                    );
                }
            } else {
                let sz = match read_varlen(data, &mut p, avail) {
                    Ok(v) => v,
                    Err(e) => {
                        proof {
                            assert(cur == Err::<Seq<(Message, int)>, MidiError>(e));
                        }
                        return Err(e);
                    },
                };
                if avail - p >= sz as usize {
                    p = p + sz as usize;
                } else {
                    proof {
                        assert(cur == Err::<Seq<(Message, int)>, MidiError>(
                            MidiError::UnexpectedEof,
                        ));
                    }
                    return Err(MidiError::UnexpectedEof);
                }
            }
        } else {
            // a genuine status byte: it becomes the running status
            let command = first & 0xF0;
            let msg: Message;
            if command == 0xC0 || command == 0xD0 {
                let data1 = match read_u8_bounded(data, &mut p, avail) {
                    Ok(v) => v,
                    Err(e) => {
                        proof {
                            assert(cur == Err::<Seq<(Message, int)>, MidiError>(e));
                        }
                        return Err(e);
                    },
                };
                msg = Message::common1(first, data1);
            } else {
                let data1 = match read_u8_bounded(data, &mut p, avail) {
                    Ok(v) => v,
                    Err(e) => {
                        proof {
                            assert(cur == Err::<Seq<(Message, int)>, MidiError>(e));
                        }
                        return Err(e);
                    },
                };
                let data2 = match read_u8_bounded(data, &mut p, avail) {
                    Ok(v) => v,
                    Err(e) => {
                        proof {
                            assert(cur == Err::<Seq<(Message, int)>, MidiError>(e));
                        }
                        return Err(e);
                    },
                };
                msg = Message::common2(first, data1, data2, loop_type);
            }
            last_status = first;
            events.push((msg, tick));
            proof {
                lemma_continuation_step(
                    top,
                    cur,
                    old_events,
                    events@,
                    (msg, tick),
                    parse_events(data@, chunk_end, p as int, t_int, first, loop_type),
                );
            }
        }
    }
}

/// One parse step that emitted `ev`: when the entry-point result `cur`
/// unfolds to `ev` followed by whatever `next` yields, the continuation
/// equation carries from `old_events` to `new_events == old_events + [ev]`.
proof fn lemma_continuation_step(
    top: Result<Seq<(Message, int)>, MidiError>,
    cur: Result<Seq<(Message, int)>, MidiError>,
    old_events: Seq<(Message, u64)>,
    new_events: Seq<(Message, u64)>,
    ev: (Message, u64),
    next: Result<Seq<(Message, int)>, MidiError>,
)
    requires
        new_events == old_events.push(ev),
        (match cur {
            Ok(evs) => match next {
                Ok(rest) => evs == seq![(ev.0, ev.1 as int)] + rest,
                Err(_) => false,
            },
            Err(e) => next == Err::<Seq<(Message, int)>, MidiError>(e),
        }),
        (match cur {
            Ok(rest) => top == Ok::<_, MidiError>(track_view(old_events) + rest),
            Err(e) => top == Err::<Seq<(Message, int)>, _>(e),
        }),
    ensures
        (match next {
            Ok(rest) => top == Ok::<_, MidiError>(track_view(new_events) + rest),
            Err(e) => top == Err::<Seq<(Message, int)>, _>(e),
        }),
{
    match next {
        Ok(rest) => {
            assert(track_view(new_events) =~= track_view(old_events).push((ev.0, ev.1 as int)));
            assert(track_view(old_events) + (seq![(ev.0, ev.1 as int)] + rest) =~= track_view(
                new_events,
            ) + rest);
        },
        Err(_) => {},
    }
}

} // verus!
