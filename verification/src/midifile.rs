//! The chunked layout of a Standard MIDI File: the track index, the tempo
//! map, and the loop-point injection applied before time resolution.

use vstd::prelude::*;
use rayon::iter::IntoParallelIterator;
use rayon::iter::IntoParallelRefIterator;
use rayon::iter::ParallelIterator;
use crate::binary_reader::{
    read_four_cc, read_i16_be, read_u32_be, spec_i16_of, spec_u16_be, spec_u32_be,
};
use crate::errors::{MidiError, FOUR_CC_MTHD, FOUR_CC_MTRK};
use crate::messages::{spec_loop_start, spec_message_type, Message, MidiFileLoopType, TEMPO_CHANGE};
use crate::track_parser::{
    events_wf, lemma_read_track_ok_wf, read_track, spec_read_track, track_view,
};
use crate::timing::{
    cast_delta, cast_events, lemma_merge_wf, merge_by_tick, merge_events, ticks_from, ticks_sorted,
    times_view, MidiTrack, DEFAULT_USPQ,
};

verus! {

/// The track index read without decoding events: for `n` consecutive MTrk
/// chunks from `pos`, the offset of each chunk from the first one and its
/// whole size including the eight header bytes.  `index` is the offset
/// already covered.
pub open spec fn spec_track_addr(data: Seq<u8>, pos: int, index: int, n: int) -> Result<
    Seq<(int, int)>,
    MidiError,
>
    decreases n,
{
    if n <= 0 {
        Ok(Seq::<(int, int)>::empty())
    } else if pos + 4 > data.len() {
        Err(MidiError::UnexpectedEof)
    } else if spec_u32_be(data, pos) != FOUR_CC_MTRK {
        Err(
            MidiError::InvalidChunkType {
                expected: FOUR_CC_MTRK,
                actual: spec_u32_be(data, pos) as u32,
                at: index as u64,
            },
        )
    } else if pos + 8 > data.len() {
        Err(MidiError::UnexpectedEof)
    } else {
        let size = spec_u32_be(data, pos + 4);
        if pos + 8 + size > data.len() {
            Err(MidiError::UnexpectedEof)
        } else {
            match spec_track_addr(data, pos + 8 + size, index + size + 8, n - 1) {
                Ok(rest) => Ok(seq![(index, size + 8)] + rest),
                Err(e) => Err(e),
            }
        }
    }
}

/// The address pairs seen abstractly.
pub open spec fn addr_view(a: Seq<(usize, usize)>) -> Seq<(int, int)> {
    a.map_values(|p: (usize, usize)| (p.0 as int, p.1 as int))
}

/// Scans `track_count` MTrk chunk headers from the cursor, without decoding
/// events, and returns each chunk's offset from the first one together with
/// its size including the eight header bytes.
#[verifier::rlimit(60)]
pub fn track_addr(data: &Vec<u8>, pos: &mut usize, track_count: i32) -> (r: Result<
    Vec<(usize, usize)>,
    MidiError,
>)
    ensures
        match r {
            Ok(a) => {
                &&& spec_track_addr(data@, *old(pos) as int, 0, track_count as int) == Ok::<
                    _,
                    MidiError,
                >(addr_view(a@))
                &&& forall|k: int|
                    0 <= k < a@.len() ==> (#[trigger] a@[k]).0 + 8 <= *old(pos) + (
                    #[trigger] a@[k]).0 + a@[k].1 <= data@.len()
            },
            Err(e) => spec_track_addr(data@, *old(pos) as int, 0, track_count as int) == Err::<
                Seq<(int, int)>,
                _,
            >(e),
        },
{
    let ghost pos0: int = *pos as int;
    let mut p: usize = *pos;
    let mut out: Vec<(usize, usize)> = Vec::new();
    let mut index: usize = 0;
    let mut remaining: i32 = track_count;
    proof {
        if let Ok(rest) = spec_track_addr(data@, pos0, 0, track_count as int) {
            assert(addr_view(out@) + rest =~= rest);
        }
    }
    while remaining > 0
        invariant
            pos0 == *old(pos) as int,
            p as int == pos0 + index as int,
            out@.len() <= index,
            remaining <= track_count,
            p as int <= data@.len() || out@.len() == 0,
            forall|k: int|
                0 <= k < out@.len() ==> (#[trigger] out@[k]).0 + 8 <= pos0 + (#[trigger] out@[k]).0
                    + out@[k].1 <= data@.len(),
            (match spec_track_addr(data@, p as int, index as int, remaining as int) {
                Ok(rest) => spec_track_addr(data@, pos0, 0, track_count as int) == Ok::<
                    _,
                    MidiError,
                >(addr_view(out@) + rest),
                Err(e) => spec_track_addr(data@, pos0, 0, track_count as int) == Err::<
                    Seq<(int, int)>,
                    _,
                >(e),
            }),
        decreases remaining,
    {
        let ghost old_out = out@;
        let ghost cur = spec_track_addr(data@, p as int, index as int, remaining as int);
        let tag = match read_four_cc(data, &mut p) {
            Ok(v) => v,
            Err(e) => {
                proof {
                    assert(cur == Err::<Seq<(int, int)>, MidiError>(e));
                }
                return Err(e);
            },
        };
        if tag != FOUR_CC_MTRK {
            proof {
                assert(cur matches Err(_));
            }
            return Err(
                MidiError::InvalidChunkType {
                    expected: FOUR_CC_MTRK,
                    actual: tag,
                    at: index as u64,
                },
            );
        }
        let size = match read_u32_be(data, &mut p) {
            Ok(v) => v,
            Err(e) => {
                proof {
                    assert(cur == Err::<Seq<(int, int)>, MidiError>(e));
                }
                return Err(e);
            },
        };
        if data.len() - p < size as usize {
            proof {
                assert(cur == Err::<Seq<(int, int)>, MidiError>(MidiError::UnexpectedEof));
            }
            return Err(MidiError::UnexpectedEof);
        }
        p = p + size as usize;
        let entry: (usize, usize) = (index, size as usize + 8);
        out.push(entry);
        index = index + size as usize + 8;
        remaining = remaining - 1;
        proof {
            let next = spec_track_addr(data@, p as int, index as int, remaining as int);
            if let Ok(rest2) = next {
                assert(cur == Ok::<_, MidiError>(
                    seq![(entry.0 as int, entry.1 as int)] + rest2,
                ));
                assert(addr_view(out@) =~= addr_view(old_out).push((entry.0 as int, entry.1 as int)));
                assert(addr_view(old_out) + (seq![(entry.0 as int, entry.1 as int)] + rest2)
                    =~= addr_view(out@) + rest2);
            }
        }
    }
    proof {
        assert(spec_track_addr(data@, p as int, index as int, remaining as int) == Ok::<
            _,
            MidiError,
        >(Seq::<(int, int)>::empty()));
        assert(addr_view(out@) + Seq::<(int, int)>::empty() =~= addr_view(out@));
    }
    *pos = p;
    Ok(out)
}

/// Whether an event list contains a tempo change.
pub open spec fn has_tempo_msg(evs: Seq<(Message, int)>) -> bool {
    exists|k: int| 0 <= k < evs.len() && spec_message_type((#[trigger] evs[k]).0) == TEMPO_CHANGE
}

/// The tempo-change events of an event list, in order.
pub open spec fn tempo_events(evs: Seq<(Message, int)>) -> Seq<(Message, int)>
    decreases evs.len(),
{
    if evs.len() == 0 {
        Seq::<(Message, int)>::empty()
    } else {
        let rest = tempo_events(evs.drop_first());
        if spec_message_type(evs[0].0) == TEMPO_CHANGE {
            seq![evs[0]] + rest
        } else {
            rest
        }
    }
}

/// Extracting the tempo events keeps tick order and tick lower bounds.
pub proof fn lemma_tempo_events_wf(evs: Seq<(Message, int)>, tick: int)
    requires
        ticks_sorted(evs),
        ticks_from(evs, tick),
    ensures
        ticks_sorted(tempo_events(evs)),
        ticks_from(tempo_events(evs), tick),
        tempo_events(evs).len() <= evs.len(),
    decreases evs.len(),
{
    if evs.len() > 0 {
        let rest = evs.drop_first();
        assert(ticks_sorted(rest) && ticks_from(rest, evs[0].1)) by {
            assert(forall|i: int| 0 <= i < rest.len() ==> rest[i] == evs[i + 1]);
        }
        lemma_tempo_events_wf(rest, evs[0].1);
        let m = tempo_events(rest);
        if spec_message_type(evs[0].0) == TEMPO_CHANGE {
            assert(forall|i: int|
                0 <= i < tempo_events(evs).len() ==> #[trigger] tempo_events(evs)[i] == (
                if i == 0 {
                    evs[0]
                } else {
                    m[i - 1]
                }));
        }
        assert(ticks_from(tempo_events(evs), tick));
    }
}

/// Whether the track holds a tempo change.
pub fn has_tempo(track: &Vec<(Message, u64)>) -> (r: bool)
    ensures
        r == has_tempo_msg(track_view(track@)),
{
    let mut i: usize = 0;
    while i < track.len()
        invariant
            i <= track@.len(),
            forall|k: int|
                0 <= k < i ==> spec_message_type(track_view(track@)[k].0) != TEMPO_CHANGE,
        decreases track@.len() - i,
    {
        let t = track[i].0.get_message_type();
        proof {
            assert(track_view(track@)[i as int] == (track@[i as int].0, track@[i as int].1 as int));
        }
        if t == TEMPO_CHANGE {
            return true;
        }
        i = i + 1;
    }
    proof {
        assert(!has_tempo_msg(track_view(track@)));
    }
    false
}

/// Returns the tempo-change events of a track, in order.
pub fn filter_tempo(track: &Vec<(Message, u64)>) -> (r: Vec<(Message, u64)>)
    ensures
        track_view(r@) == tempo_events(track_view(track@)),
{
    let ghost full: Seq<(Message, int)> = track_view(track@);
    let ghost top = tempo_events(full);
    let mut out: Vec<(Message, u64)> = Vec::new();
    let mut i: usize = 0;
    proof {
        assert(full.skip(0) =~= full);
        assert(track_view(out@) + tempo_events(full) =~= tempo_events(full));
    }
    while i < track.len()
        invariant
            i <= track@.len(),
            full == track_view(track@),
            full.len() == track@.len(),
            top == tempo_events(full),
            top == track_view(out@) + tempo_events(full.skip(i as int)),
        decreases track@.len() - i,
    {
        let ghost old_out = out@;
        let e = track[i];
        proof {
            assert(full.skip(i as int)[0] == full[i as int]);
            assert(full[i as int] == (e.0, e.1 as int));
            assert(full.skip(i as int).drop_first() =~= full.skip(i as int + 1));
        }
        let t = e.0.get_message_type();
        if t == TEMPO_CHANGE {
            out.push(e);
        }
        i = i + 1;
        proof {
            let rest2 = tempo_events(full.skip(i as int));
            if t == TEMPO_CHANGE {
                assert(track_view(out@) =~= track_view(old_out).push((e.0, e.1 as int)));
                assert(track_view(old_out) + (seq![(e.0, e.1 as int)] + rest2) =~= track_view(
                    out@,
                ) + rest2);
            }
        }
    }
    proof {
        assert(full.skip(i as int) =~= Seq::<(Message, int)>::empty());
        assert(track_view(out@) + Seq::<(Message, int)>::empty() =~= track_view(out@));
    }
    out
}

/// The loop-start marker for tick `p` inserted immediately before the first
/// event whose tick is at least `p`, or appended when every tick is below.
pub open spec fn spec_inject(track: Seq<(Message, int)>, p: int) -> Seq<(Message, int)>
    decreases track.len(),
{
    if track.len() == 0 {
        seq![(spec_loop_start(), p)]
    } else if track[0].1 >= p {
        seq![(spec_loop_start(), p)] + track
    } else {
        seq![track[0]] + spec_inject(track.drop_first(), p)
    }
}

proof fn lemma_inject_at(track: Seq<(Message, int)>, p: int, idx: int)
    requires
        0 <= idx <= track.len(),
        forall|j: int| 0 <= j < idx ==> (#[trigger] track[j]).1 < p,
        idx < track.len() ==> track[idx].1 >= p,
    ensures
        spec_inject(track, p) == track.take(idx) + seq![(spec_loop_start(), p)] + track.skip(idx),
    decreases idx,
{
    if idx == 0 {
        if track.len() == 0 {
            assert(spec_inject(track, p) =~= track.take(0) + seq![(spec_loop_start(), p)]
                + track.skip(0));
        } else {
            assert(track.skip(0) =~= track);
            assert(track.take(0) + seq![(spec_loop_start(), p)] + track =~= seq![
                (spec_loop_start(), p),
            ] + track);
        }
    } else {
        let rest = track.drop_first();
        assert(forall|j: int| 0 <= j < idx - 1 ==> rest[j] == track[j + 1]);
        if idx - 1 < rest.len() {
            assert(rest[idx - 1] == track[idx]);
        }
        lemma_inject_at(rest, p, idx - 1);
        assert(seq![track[0]] + (rest.take(idx - 1) + seq![(spec_loop_start(), p)] + rest.skip(
            idx - 1,
        )) =~= track.take(idx) + seq![(spec_loop_start(), p)] + track.skip(idx));
    }
}

/// Injection keeps ticks sorted when `p` itself respects the order at the
/// insertion point.
pub proof fn lemma_inject_sorted(track: Seq<(Message, int)>, p: int)
    requires
        ticks_sorted(track),
        0 <= p,
        ticks_from(track, 0),
    ensures
        ticks_sorted(spec_inject(track, p)),
        ticks_from(spec_inject(track, p), 0),
    decreases track.len(),
{
    if track.len() == 0 {
    } else if track[0].1 >= p {
        let r = spec_inject(track, p);
        assert(forall|i: int|
            0 <= i < r.len() ==> #[trigger] r[i] == (
            if i == 0 {
                (spec_loop_start(), p)
            } else {
                track[i - 1]
            }));
    } else {
        let rest = track.drop_first();
        assert(ticks_sorted(rest) && ticks_from(rest, track[0].1)) by {
            assert(forall|i: int| 0 <= i < rest.len() ==> rest[i] == track[i + 1]);
        }
        assert(ticks_from(rest, 0));
        lemma_inject_sorted(rest, p);
        let m = spec_inject(rest, p);
        assert(ticks_from(m, track[0].1)) by {
            lemma_inject_from(rest, p, track[0].1);
        }
        assert(forall|i: int|
            0 <= i < spec_inject(track, p).len() ==> #[trigger] spec_inject(track, p)[i] == (
            if i == 0 {
                track[0]
            } else {
                m[i - 1]
            }));
    }
}

proof fn lemma_inject_from(track: Seq<(Message, int)>, p: int, tick: int)
    requires
        ticks_from(track, tick),
        tick <= p,
    ensures
        ticks_from(spec_inject(track, p), tick),
    decreases track.len(),
{
    if track.len() == 0 {
    } else if track[0].1 >= p {
    } else {
        let rest = track.drop_first();
        assert(ticks_from(rest, tick)) by {
            assert(forall|i: int| 0 <= i < rest.len() ==> rest[i] == track[i + 1]);
        }
        lemma_inject_from(rest, p, tick);
        let m = spec_inject(rest, p);
        assert(forall|i: int|
            0 <= i < spec_inject(track, p).len() ==> #[trigger] spec_inject(track, p)[i] == (
            if i == 0 {
                track[0]
            } else {
                m[i - 1]
            }));
    }
}

/// Inserts the loop-start marker for tick `p` before the first event whose
/// tick is at least `p`, or appends it after every event otherwise.
pub fn inject_loop_start(track: &mut Vec<(Message, u64)>, p: u64)
    ensures
        track_view(final(track)@) == spec_inject(track_view(old(track)@), p as int),
        final(track)@.len() == old(track)@.len() + 1,
{
    let ghost full: Seq<(Message, int)> = track_view(track@);
    let mut i: usize = 0;
    while i < track.len() && track[i].1 < p
        invariant
            i <= track@.len(),
            full == track_view(track@),
            full.len() == track@.len(),
            forall|j: int| 0 <= j < i ==> (#[trigger] full[j]).1 < p as int,
        decreases track@.len() - i,
    {
        proof {
            assert(full[i as int] == (track@[i as int].0, track@[i as int].1 as int));
        }
        i = i + 1;
    }
    let marker = crate::messages::Message::loop_start();
    proof {
        if i < track@.len() {
            assert(full[i as int] == (track@[i as int].0, track@[i as int].1 as int));
        }
        lemma_inject_at(full, p as int, i as int);
    }
    if i < track.len() {
        track.insert(i, (marker, p));
    } else {
        track.push((marker, p));
    }
    proof {
        assert(track_view(track@) =~= full.take(i as int) + seq![(spec_loop_start(), p as int)]
            + full.skip(i as int));
    }
}

/// The raw tracks of a list of vectors, seen abstractly.
pub open spec fn views_of(ts: Seq<Vec<(Message, u64)>>) -> Seq<Seq<(Message, int)>> {
    ts.map_values(|v: Vec<(Message, u64)>| track_view(v@))
}

/// Every chunk of the index parsed in file order; the first failure wins.
pub open spec fn spec_parse_all(
    data: Seq<u8>,
    addrs: Seq<(int, int)>,
    base: int,
    loop_type: MidiFileLoopType,
) -> Result<Seq<Seq<(Message, int)>>, MidiError>
    decreases addrs.len(),
{
    if addrs.len() == 0 {
        Ok(Seq::<Seq<(Message, int)>>::empty())
    } else {
        match spec_read_track(data, base + addrs[0].0, loop_type) {
            Err(e) => Err(e),
            Ok(pr) => match spec_parse_all(data, addrs.drop_first(), base, loop_type) {
                Ok(rest) => Ok(seq![pr.0] + rest),
                Err(e) => Err(e),
            },
        }
    }
}

/// The index of the first track holding a tempo change, or `-1`.
pub open spec fn spec_first_tempo_index(tracks: Seq<Seq<(Message, int)>>) -> int
    decreases tracks.len(),
{
    if tracks.len() == 0 {
        -1
    } else if has_tempo_msg(tracks[0]) {
        0
    } else {
        let r = spec_first_tempo_index(tracks.drop_first());
        if r == -1 {
            -1
        } else {
            r + 1
        }
    }
}

proof fn lemma_first_tempo_index(tracks: Seq<Seq<(Message, int)>>, i: int)
    requires
        0 <= i <= tracks.len(),
        forall|k: int| 0 <= k < i ==> !has_tempo_msg(#[trigger] tracks[k]),
        i < tracks.len() ==> has_tempo_msg(tracks[i]),
    ensures
        spec_first_tempo_index(tracks) == if i < tracks.len() {
            i
        } else {
            -1
        },
    decreases i,
{
    if tracks.len() == 0 {
    } else if i == 0 {
    } else {
        let rest = tracks.drop_first();
        assert(forall|k: int| 0 <= k < rest.len() ==> rest[k] == tracks[k + 1]);
        lemma_first_tempo_index(rest, i - 1);
    }
}

/// Each non-tempo-map track fused with the tempo events of the tempo map;
/// the tempo map itself, and every track when there is none, stays as is.
pub open spec fn spec_fuse(tracks: Seq<Seq<(Message, int)>>, ti: int) -> Seq<Seq<(Message, int)>> {
    Seq::new(
        tracks.len(),
        |i: int|
            if ti < 0 || i == ti {
                tracks[i]
            } else {
                merge_by_tick(tracks[i], tempo_events(tracks[ti]))
            },
    )
}

/// The resolved form of every track.
pub open spec fn casts_of(tracks: Seq<Seq<(Message, int)>>) -> Seq<(Seq<Message>, Seq<int>)> {
    Seq::new(
        tracks.len(),
        |i: int|
            {
                let c = cast_events(tracks[i], 0, 0, DEFAULT_USPQ as int);
                (c.0, c.1)
            },
    )
}

/// The largest resolved track length, or 0 with no tracks.
pub open spec fn max_len(tracks: Seq<Seq<(Message, int)>>) -> int
    decreases tracks.len(),
{
    if tracks.len() == 0 {
        0
    } else {
        let r = max_len(tracks.drop_last());
        let c = cast_events(tracks.last(), 0, 0, DEFAULT_USPQ as int).2;
        if c > r {
            c
        } else {
            r
        }
    }
}

/// A whole format-1 file decoded: the header, the track index, every track
/// parsed, fused with the tempo map, the loop point injected into the first
/// track, and all tracks resolved to time stamps with the longest length.
pub open spec fn spec_midi_file(data: Seq<u8>, loop_type: MidiFileLoopType) -> Result<
    (Seq<(Seq<Message>, Seq<int>)>, int),
    MidiError,
> {
    if 4 > data.len() {
        Err(MidiError::UnexpectedEof)
    } else if spec_u32_be(data, 0) != FOUR_CC_MTHD {
        Err(
            MidiError::InvalidChunkType {
                expected: FOUR_CC_MTHD,
                actual: spec_u32_be(data, 0) as u32,
                at: 0u64,
            },
        )
    } else if 8 > data.len() {
        Err(MidiError::UnexpectedEof)
    } else if spec_u32_be(data, 4) != 6 {
        Err(MidiError::InvalidChunkData(FOUR_CC_MTHD))
    } else if 10 > data.len() {
        Err(MidiError::UnexpectedEof)
    } else if spec_i16_of(spec_u16_be(data, 8)) != 1 {
        Err(MidiError::UnsupportedFormat(spec_i16_of(spec_u16_be(data, 8)) as i32))
    } else if 12 > data.len() {
        Err(MidiError::UnexpectedEof)
    } else if 14 > data.len() {
        Err(MidiError::UnexpectedEof)
    } else if spec_i16_of(spec_u16_be(data, 12)) <= 0 {
        Err(MidiError::InvalidChunkData(FOUR_CC_MTHD))
    } else {
        let track_count = spec_i16_of(spec_u16_be(data, 10));
        match spec_track_addr(data, 14, 0, track_count) {
            Err(e) => Err(e),
            Ok(addrs) => match spec_parse_all(data, addrs, 14, loop_type) {
                Err(e) => Err(e),
                Ok(tracks) => {
                    let fused = spec_fuse(tracks, spec_first_tempo_index(tracks));
                    let injected = if loop_type matches MidiFileLoopType::LoopPoint(p) && p != 0
                        && fused.len() > 0 {
                        fused.update(
                            0,
                            spec_inject(fused[0], loop_type->LoopPoint_0 as int),
                        )
                    } else {
                        fused
                    };
                    Ok((casts_of(injected), max_len(injected)))
                },
            },
        }
    }
}

/// Relies on rayon's parallel iterator `map` and order-preserving
/// `collect`: each chunk of the index is read independently with
/// `read_track`, and the results come back in index order.
#[verifier::external_body]
fn par_read_tracks(
    data: &Vec<u8>,
    addrs: &Vec<(usize, usize)>,
    base: usize,
    loop_type: MidiFileLoopType,
) -> (r: Vec<Result<Vec<(Message, u64)>, MidiError>>)
    requires
        forall|k: int| 0 <= k < addrs@.len() ==> base + (#[trigger] addrs@[k]).0 <= usize::MAX,
    ensures
        r@.len() == addrs@.len(),
        forall|k: int|
            0 <= k < r@.len() ==> (match #[trigger] r@[k] {
                Ok(t) => {
                    &&& spec_read_track(data@, base + addrs@[k].0, loop_type) matches Ok(pr)
                    &&& pr.0 == track_view(t@)
                },
                Err(e) => spec_read_track(data@, base + addrs@[k].0, loop_type) == Err::<
                    (Seq<(Message, int)>, int),
                    _,
                >(e),
            }),
{
    addrs.par_iter().map(
        |a: &(usize, usize)|
            {
                let mut p: usize = base + a.0;
                read_track(data, &mut p, loop_type)
            },
    ).collect()
}

/// Relies on rayon's parallel iterator `map` and order-preserving
/// `collect`: each tick-sorted track is resolved independently with
/// `cast_delta`, and the results come back in order.
#[verifier::external_body]
fn par_cast_tracks(tracks: Vec<Vec<(Message, u64)>>) -> (r: Vec<(MidiTrack, u128)>)
    requires
        forall|k: int| 0 <= k < tracks@.len() ==> ticks_sorted(views_of(tracks@)[k]),
    ensures
        r@.len() == tracks@.len(),
        forall|k: int|
            0 <= k < r@.len() ==> {
                let c = cast_events(views_of(tracks@)[k], 0, 0, DEFAULT_USPQ as int);
                &&& (#[trigger] r@[k]).0.messages@ == c.0
                &&& times_view(r@[k].0.times@) == c.1
                &&& r@[k].1 as int == c.2
            },
{
    tracks.into_par_iter().map(|t: Vec<(Message, u64)>| cast_delta(&t)).collect()
}

/// A decoded standard MIDI file: every track resolved to time stamps, and
/// the length of the longest one in tick-microseconds.
#[derive(Debug)]
pub struct MidiFile {
    pub tracks: Vec<MidiTrack>,
    pub length: u128,
}

/// Resolves every tick-sorted track in parallel and takes the longest
/// length.
#[verifier::rlimit(60)]
pub fn merge_tracks(tracks: Vec<Vec<(Message, u64)>>) -> (r: (Vec<MidiTrack>, u128))
    requires
        forall|k: int| 0 <= k < tracks@.len() ==> ticks_sorted(views_of(tracks@)[k]),
    ensures
        r.0@.len() == tracks@.len(),
        forall|k: int|
            0 <= k < r.0@.len() ==> {
                let c = cast_events(views_of(tracks@)[k], 0, 0, DEFAULT_USPQ as int);
                &&& (#[trigger] r.0@[k]).messages@ == c.0
                &&& times_view(r.0@[k].times@) == c.1
            },
        r.1 as int == max_len(views_of(tracks@)),
{
    let ghost all: Seq<Seq<(Message, int)>> = views_of(tracks@);
    let mut pairs = par_cast_tracks(tracks);
    let ghost pairs0: Seq<(MidiTrack, u128)> = pairs@;
    let n: usize = pairs.len();
    let mut out: Vec<MidiTrack> = Vec::new();
    let mut maxv: u128 = 0;
    let mut i: usize = 0;
    proof {
        assert(all.take(0) =~= Seq::<Seq<(Message, int)>>::empty());
    }
    while pairs.len() > 0
        invariant
            pairs0.len() == n as int,
            i + pairs@.len() == pairs0.len(),
            i <= pairs0.len(),
            pairs@ == pairs0.skip(i as int),
            pairs0.len() == all.len(),
            out@.len() == i,
            forall|k: int|
                0 <= k < pairs0.len() ==> {
                    let c = cast_events(all[k], 0, 0, DEFAULT_USPQ as int);
                    &&& (#[trigger] pairs0[k]).0.messages@ == c.0
                    &&& times_view(pairs0[k].0.times@) == c.1
                    &&& pairs0[k].1 as int == c.2
                },
            forall|k: int| 0 <= k < i ==> #[trigger] out@[k] == pairs0[k].0,
            maxv as int == max_len(all.take(i as int)),
        decreases pairs@.len(),
    {
        let pr = pairs.remove(0);
        proof {
            assert(pairs0.skip(i as int)[0] == pairs0[i as int]);
            assert(pairs0.skip(i as int).remove(0) =~= pairs0.skip(i as int + 1));
        }
        let (t, len) = pr;
        out.push(t);
        if len > maxv {
            maxv = len;
        }
        i = i + 1;
        proof {
            assert(all.take(i as int).drop_last() =~= all.take(i as int - 1));
            assert(all.take(i as int).last() == all[i as int - 1]);
        }
    }
    proof {
        assert(all.take(i as int) =~= all);
    }
    (out, maxv)
}

impl MidiFile {
    /// Loads a format-1 MIDI file from its bytes, with no loop handling.
    pub fn new(data: &Vec<u8>) -> (r: Result<MidiFile, MidiError>)
        ensures
            match r {
                Ok(f) => {
                    &&& spec_midi_file(data@, MidiFileLoopType::LoopPoint(0)) matches Ok(m)
                    &&& f.tracks@.len() == m.0.len()
                    &&& forall|k: int|
                        0 <= k < m.0.len() ==> (#[trigger] f.tracks@[k]).messages@ == m.0[k].0
                            && times_view(f.tracks@[k].times@) == m.0[k].1
                    &&& f.length as int == m.1
                },
                Err(e) => spec_midi_file(data@, MidiFileLoopType::LoopPoint(0)) == Err::<
                    (Seq<(Seq<Message>, Seq<int>)>, int),
                    _,
                >(e),
            },
    {
        MidiFile::new_with_loop_type(data, MidiFileLoopType::LoopPoint(0))
    }

    /// Loads a format-1 MIDI file from its bytes with the given loop
    /// dialect: the header is checked, every track is parsed in parallel,
    /// fused with the tempo map, the explicit loop point is injected into
    /// the first track, and every track is resolved to time stamps.
    #[verifier::rlimit(100)]
    pub fn new_with_loop_type(data: &Vec<u8>, loop_type: MidiFileLoopType) -> (r: Result<
        MidiFile,
        MidiError,
    >)
        ensures
            match r {
                Ok(f) => {
                    &&& spec_midi_file(data@, loop_type) matches Ok(m)
                    &&& f.tracks@.len() == m.0.len()
                    &&& forall|k: int|
                        0 <= k < m.0.len() ==> (#[trigger] f.tracks@[k]).messages@ == m.0[k].0
                            && times_view(f.tracks@[k].times@) == m.0[k].1
                    &&& f.length as int == m.1
                },
                Err(e) => spec_midi_file(data@, loop_type) == Err::<
                    (Seq<(Seq<Message>, Seq<int>)>, int),
                    _,
                >(e),
            },
    {
        let mut p: usize = 0;
        let tag = match read_four_cc(data, &mut p) {
            Ok(v) => v,
            Err(e) => {
                return Err(e);
            },
        };
        if tag != FOUR_CC_MTHD {
            return Err(
                MidiError::InvalidChunkType { expected: FOUR_CC_MTHD, actual: tag, at: 0u64 },
            );
        }
        let size = match read_u32_be(data, &mut p) {
            Ok(v) => v,
            Err(e) => {
                return Err(e);
            },
        };
        if size != 6 {
            return Err(MidiError::InvalidChunkData(FOUR_CC_MTHD));
        }
        let format = match read_i16_be(data, &mut p) {
            Ok(v) => v,
            Err(e) => {
                return Err(e);
            },
        };
        if format != 1 {
            return Err(MidiError::UnsupportedFormat(format));
        }
        let track_count = match read_i16_be(data, &mut p) {
            Ok(v) => v,
            Err(e) => {
                return Err(e);
            },
        };
        let resolution = match read_i16_be(data, &mut p) {
            Ok(v) => v,
            Err(e) => {
                return Err(e);
            },
        };
        if resolution <= 0 {
            return Err(MidiError::InvalidChunkData(FOUR_CC_MTHD));
        }
        let addrs = match track_addr(data, &mut p, track_count) {
            Ok(a) => a,
            Err(e) => {
                return Err(e);
            },
        };
        let dlen: usize = data.len();
        proof {
            assert forall|k: int| 0 <= k < addrs@.len() implies 14 + (#[trigger] addrs@[k]).0
                <= usize::MAX by {
                assert(addrs@[k].0 + 8 <= 14 + addrs@[k].0 + addrs@[k].1 <= data@.len());
                assert(data@.len() == dlen as int);
            }
        }
        let results = par_read_tracks(data, &addrs, 14, loop_type);
        let tracks = match collect_tracks(results, &addrs, data, loop_type) {
            Ok(ts) => ts,
            Err(e) => {
                return Err(e);
            },
        };
        let ghost all: Seq<Seq<(Message, int)>> = views_of(tracks@);
        let tn: usize = tracks.len();

        let mut ti: usize = 0;
        let mut found = false;
        while !found && ti < tracks.len()
            invariant
                tracks@.len() == tn as int,
                all == views_of(tracks@),
                ti <= tn,
                forall|k: int| 0 <= k < ti ==> !has_tempo_msg(#[trigger] all[k]),
                found ==> ti < tn && has_tempo_msg(all[ti as int]),
            decreases tn as int - ti as int + (if found { 0int } else { 1int }),
        {
            proof {
                assert(all[ti as int] == track_view(tracks@[ti as int]@));
            }
            if has_tempo(&tracks[ti]) {
                found = true;
            } else {
                ti = ti + 1;
            }
        }
        let ghost fti: int = spec_first_tempo_index(all);
        proof {
            if found {
                lemma_first_tempo_index(all, ti as int);
            } else {
                lemma_first_tempo_index(all, tn as int);
            }
        }
        let tempo_evs: Vec<(Message, u64)> = if found {
            proof {
                assert(all[ti as int] == track_view(tracks@[ti as int]@));
            }
            filter_tempo(&tracks[ti])
        } else {
            Vec::new()
        };
        proof {
            if found {
                assert(track_view(tempo_evs@) == tempo_events(all[fti]));
            }
        }

        let mut fused = fuse_tracks(tracks, &tempo_evs, ti, found);
        let ghost fused_v: Seq<Seq<(Message, int)>> = views_of(fused@);

        match loop_type {
            MidiFileLoopType::LoopPoint(lp) => {
                if lp != 0 && fused.len() > 0 {
                    let mut t0 = tracks_first(&mut fused);
                    proof {
                        assert(track_view(t0@) == fused_v[0]);
                        lemma_inject_sorted(fused_v[0], lp as u64 as int);
                    }
                    inject_loop_start(&mut t0, lp as u64);
                    fused.insert(0, t0);
                    proof {
                        assert(views_of(fused@) =~= fused_v.update(
                            0,
                            spec_inject(fused_v[0], lp as u64 as int),
                        ));
                    }
                }
            },
            _ => {},
        }
        let ghost injected: Seq<Seq<(Message, int)>> = views_of(fused@);
        proof {
            assert forall|k: int| 0 <= k < injected.len() implies ticks_sorted(
                #[trigger] views_of(fused@)[k],
            ) by {
                if !(loop_type matches MidiFileLoopType::LoopPoint(lp) && lp != 0
                    && fused_v.len() > 0) {
                    assert(views_of(fused@)[k] == spec_fuse(all, fti)[k]);
                }
            }
        }
        let (mt, length) = merge_tracks(fused);
        Ok(MidiFile { tracks: mt, length })
    }

    /// The length of the longest track, in tick-microseconds.
    pub fn get_length(&self) -> (r: u128)
        ensures
            r == self.length,
    {
        self.length
    }
}

/// Collects the parallel parse results in index order, keeping the first
/// error.
#[verifier::rlimit(100)]
fn collect_tracks(
    results: Vec<Result<Vec<(Message, u64)>, MidiError>>,
    addrs: &Vec<(usize, usize)>,
    data: &Vec<u8>,
    loop_type: MidiFileLoopType,
) -> (r: Result<Vec<Vec<(Message, u64)>>, MidiError>)
    requires
        results@.len() == addrs@.len(),
        forall|k: int|
            0 <= k < results@.len() ==> (match #[trigger] results@[k] {
                Ok(t) => {
                    &&& spec_read_track(data@, 14 + addrs@[k].0, loop_type) matches Ok(pr)
                    &&& pr.0 == track_view(t@)
                },
                Err(e) => spec_read_track(data@, 14 + addrs@[k].0, loop_type) == Err::<
                    (Seq<(Message, int)>, int),
                    _,
                >(e),
            }),
    ensures
        match r {
            Ok(ts) => {
                &&& spec_parse_all(data@, addr_view(addrs@), 14, loop_type) == Ok::<
                    _,
                    MidiError,
                >(views_of(ts@))
                &&& ts@.len() == addrs@.len()
                &&& forall|k: int|
                    0 <= k < ts@.len() ==> events_wf(#[trigger] views_of(ts@)[k], 0)
            },
            Err(e) => spec_parse_all(data@, addr_view(addrs@), 14, loop_type) == Err::<
                Seq<Seq<(Message, int)>>,
                _,
            >(e),
        },
{
    let ghost addr_v: Seq<(int, int)> = addr_view(addrs@);
    let ghost results0 = results@;
    let mut results = results;
    let rn: usize = results.len();
    let mut tracks: Vec<Vec<(Message, u64)>> = Vec::new();
    let mut i: usize = 0;
    proof {
        assert(addr_v.skip(0) =~= addr_v);
        if let Ok(rest) = spec_parse_all(data@, addr_v, 14, loop_type) {
            assert(views_of(tracks@) + rest =~= rest);
        }
    }
    while results.len() > 0
        invariant
            results0.len() == rn as int,
            results0.len() == addr_v.len(),
            addr_v == addr_view(addrs@),
            i + results@.len() == rn as int,
            i <= rn,
            results@ == results0.skip(i as int),
            tracks@.len() == i,
            forall|k: int|
                0 <= k < results0.len() ==> (match #[trigger] results0[k] {
                    Ok(t) => {
                        &&& spec_read_track(data@, 14 + addrs@[k].0, loop_type) matches Ok(pr)
                        &&& pr.0 == track_view(t@)
                    },
                    Err(e) => spec_read_track(data@, 14 + addrs@[k].0, loop_type) == Err::<
                        (Seq<(Message, int)>, int),
                        _,
                    >(e),
                }),
            forall|k: int| 0 <= k < i ==> events_wf(#[trigger] views_of(tracks@)[k], 0),
            (match spec_parse_all(data@, addr_v.skip(i as int), 14, loop_type) {
                Ok(rest) => spec_parse_all(data@, addr_v, 14, loop_type) == Ok::<_, MidiError>(
                    views_of(tracks@) + rest,
                ),
                Err(e) => spec_parse_all(data@, addr_v, 14, loop_type) == Err::<
                    Seq<Seq<(Message, int)>>,
                    _,
                >(e),
            }),
        decreases results@.len(),
    {
        let ghost old_tracks = tracks@;
        let ghost cur = spec_parse_all(data@, addr_v.skip(i as int), 14, loop_type);
        let r0 = results.remove(0);
        proof {
            assert(results0.skip(i as int)[0] == results0[i as int]);
            assert(results0.skip(i as int).remove(0) =~= results0.skip(i as int + 1));
            assert(addr_v.skip(i as int)[0] == addr_v[i as int]);
            assert(addr_v[i as int] == (addrs@[i as int].0 as int, addrs@[i as int].1 as int));
            assert(addr_v.skip(i as int).drop_first() =~= addr_v.skip(i as int + 1));
        }
        match r0 {
            Err(e) => {
                proof {
                    assert(cur == Err::<Seq<Seq<(Message, int)>>, MidiError>(e));
                }
                return Err(e);
            },
            Ok(t) => {
                proof {
                    lemma_read_track_ok_wf(data@, 14 + addr_v[i as int].0, loop_type);
                }
                tracks.push(t);
                proof {
                    let next = spec_parse_all(data@, addr_v.skip(i as int + 1), 14, loop_type);
                    if let Ok(rest2) = next {
                        assert(cur == Ok::<_, MidiError>(seq![track_view(t@)] + rest2));
                        assert(views_of(tracks@) =~= views_of(old_tracks).push(track_view(t@)));
                        assert(views_of(old_tracks) + (seq![track_view(t@)] + rest2) =~= views_of(
                            tracks@,
                        ) + rest2);
                    }
                    assert forall|k: int| 0 <= k < i + 1 implies events_wf(
                        #[trigger] views_of(tracks@)[k],
                        0,
                    ) by {
                        if k < i {
                            assert(views_of(tracks@)[k] == views_of(old_tracks)[k]);
                        }
                    }
                }
                i = i + 1;
            },
        }
    }
    proof {
        assert(addr_v.skip(i as int) =~= Seq::<(int, int)>::empty());
        assert(spec_parse_all(data@, addr_v.skip(i as int), 14, loop_type) == Ok::<_, MidiError>(
            Seq::<Seq<(Message, int)>>::empty(),
        ));
        assert(views_of(tracks@) + Seq::<Seq<(Message, int)>>::empty() =~= views_of(tracks@));
    }
    Ok(tracks)
}

/// Fuses every track but the tempo map itself with the tempo events.
#[verifier::rlimit(100)]
fn fuse_tracks(
    tracks: Vec<Vec<(Message, u64)>>,
    tempo_evs: &Vec<(Message, u64)>,
    ti: usize,
    found: bool,
) -> (fused: Vec<Vec<(Message, u64)>>)
    requires
        found ==> ti < tracks@.len() && track_view(tempo_evs@) == tempo_events(
            views_of(tracks@)[ti as int],
        ),
        forall|k: int| 0 <= k < tracks@.len() ==> events_wf(#[trigger] views_of(tracks@)[k], 0),
    ensures
        views_of(fused@) == spec_fuse(
            views_of(tracks@),
            if found {
                ti as int
            } else {
                -1
            },
        ),
        fused@.len() == tracks@.len(),
        forall|k: int|
            0 <= k < fused@.len() ==> ticks_sorted(#[trigger] views_of(fused@)[k]) && ticks_from(
                views_of(fused@)[k],
                0,
            ),
{
    let ghost tracks_s = tracks@;
    let ghost all: Seq<Seq<(Message, int)>> = views_of(tracks@);
    let ghost fti: int = if found {
        ti as int
    } else {
        -1
    };
    let tn: usize = tracks.len();
    let mut tracks = tracks;
    let mut fused: Vec<Vec<(Message, u64)>> = Vec::new();
    let mut j: usize = 0;
    while tracks.len() > 0
        invariant
            tracks_s.len() == tn as int,
            all == views_of(tracks_s),
            all.len() == tn as int,
            j + tracks@.len() == tn as int,
            j <= tn,
            tracks@ == tracks_s.skip(j as int),
            fused@.len() == j,
            fti == (if found {
                ti as int
            } else {
                -1int
            }),
            found ==> fti < tn as int && track_view(tempo_evs@) == tempo_events(all[fti]),
            forall|k: int| 0 <= k < tn as int ==> events_wf(#[trigger] all[k], 0),
            forall|k: int|
                0 <= k < j ==> #[trigger] views_of(fused@)[k] == spec_fuse(all, fti)[k],
            forall|k: int|
                0 <= k < j ==> ticks_sorted(#[trigger] views_of(fused@)[k]) && ticks_from(
                    views_of(fused@)[k],
                    0,
                ),
        decreases tracks@.len(),
    {
        let ghost old_fused = fused@;
        let t = tracks.remove(0);
        proof {
            assert(tracks_s.skip(j as int)[0] == tracks_s[j as int]);
            assert(tracks_s.skip(j as int).remove(0) =~= tracks_s.skip(j as int + 1));
            assert(all[j as int] == track_view(tracks_s[j as int]@));
            assert(events_wf(all[j as int], 0));
        }
        if found && j != ti {
            proof {
                lemma_tempo_events_wf(all[fti], 0);
                lemma_merge_wf(track_view(t@), track_view(tempo_evs@), 0);
            }
            let merged = merge_events(&t, tempo_evs);
            fused.push(merged);
        } else {
            fused.push(t);
        }
        j = j + 1;
        proof {
            assert forall|k: int| 0 <= k < j implies #[trigger] views_of(fused@)[k] == spec_fuse(
                all,
                fti,
            )[k] by {
                if k < j - 1 {
                    assert(views_of(fused@)[k] == views_of(old_fused)[k]);
                } else {
                    assert(views_of(fused@)[k] == track_view(fused@[k]@));
                }
            }
            assert forall|k: int| 0 <= k < j implies ticks_sorted(#[trigger] views_of(fused@)[k])
                && ticks_from(views_of(fused@)[k], 0) by {
                if k < j - 1 {
                    assert(views_of(fused@)[k] == views_of(old_fused)[k]);
                } else {
                    assert(views_of(fused@)[k] == spec_fuse(all, fti)[k]);
                }
            }
        }
    }
    proof {
        assert(views_of(fused@) =~= spec_fuse(all, fti));
    }
    fused
}

/// Takes the first track out of the list.
fn tracks_first(fused: &mut Vec<Vec<(Message, u64)>>) -> (r: Vec<(Message, u64)>)
    requires
        old(fused)@.len() > 0,
    ensures
        r == old(fused)@[0],
        final(fused)@ == old(fused)@.remove(0),
{
    fused.remove(0)
}

} // verus!
