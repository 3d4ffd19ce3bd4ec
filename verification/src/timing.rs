//! Fusing a track with the tempo map and resolving integer tick deltas
//! into exact time stamps.
//!
//! A time stamp is an integer numerator in "tick-microseconds": a value
//! `t` stands for `t / (resolution * 1_000_000)` seconds.  The interval
//! ending at an event's tick is integrated with the tempo in force before
//! it, so a tempo change takes effect at its own tick; the default tempo
//! is 120 beats per minute, 500_000 microseconds per quarter note.

use vstd::prelude::*;
use crate::messages::{spec_message_type, spec_tempo_of, Message, TEMPO_CHANGE};
use crate::track_parser::track_view;

verus! {

/// The default tempo, in microseconds per quarter note: 120 beats per minute.
pub const DEFAULT_USPQ: u32 = 500000;

/// A track resolved to time stamps: `times[i]` is when `messages[i]` is due,
/// in tick-microseconds.  Tempo changes are consumed during resolution and
/// appear in neither array.
#[derive(Debug)]
pub struct MidiTrack {
    pub messages: Vec<Message>,
    pub times: Vec<u128>,
}

/// The times of a resolved track, seen abstractly.
pub open spec fn times_view(t: Seq<u128>) -> Seq<int> {
    t.map_values(|x: u128| x as int)
}

/// Ticks are non-decreasing along the event list.
pub open spec fn ticks_sorted(evs: Seq<(Message, int)>) -> bool {
    forall|i: int, j: int|
        #![trigger evs[i], evs[j]]
        0 <= i <= j < evs.len() ==> evs[i].1 <= evs[j].1
}

/// Every tick is at least `tick`.
pub open spec fn ticks_from(evs: Seq<(Message, int)>, tick: int) -> bool {
    forall|i: int| 0 <= i < evs.len() ==> tick <= (#[trigger] evs[i]).1
}

/// Resolves an event list left to right, carrying the current tick, the
/// accumulated time and the tempo in force.  Returns the kept messages,
/// their time stamps, and the final accumulated time.
pub open spec fn cast_events(evs: Seq<(Message, int)>, tick: int, time: int, uspq: int) -> (
    Seq<Message>,
    Seq<int>,
    int,
)
    decreases evs.len(),
{
    if evs.len() == 0 {
        (Seq::<Message>::empty(), Seq::<int>::empty(), time)
    } else {
        let m = evs[0].0;
        let next_tick = evs[0].1;
        let t2 = time + (next_tick - tick) * uspq;
        if spec_message_type(m) == TEMPO_CHANGE {
            cast_events(evs.drop_first(), next_tick, t2, spec_tempo_of(m))
        } else {
            let rest = cast_events(evs.drop_first(), next_tick, t2, uspq);
            (seq![m] + rest.0, seq![t2] + rest.1, rest.2)
        }
    }
}

/// What `cast_events` guarantees: parallel arrays free of tempo changes,
/// with non-decreasing time stamps that never fall below the accumulated
/// time and never exceed the returned track length.
pub proof fn lemma_cast_events_wf(evs: Seq<(Message, int)>, tick: int, time: int, uspq: int)
    requires
        ticks_sorted(evs),
        ticks_from(evs, tick),
        0 <= time,
        0 <= uspq,
    ensures
        ({
            let c = cast_events(evs, tick, time, uspq);
            &&& c.0.len() == c.1.len()
            &&& c.0.len() <= evs.len()
            &&& forall|k: int| 0 <= k < c.0.len() ==> spec_message_type(#[trigger] c.0[k]) != TEMPO_CHANGE
            &&& forall|k: int| 0 <= k < c.1.len() ==> time <= #[trigger] c.1[k] <= c.2
            &&& forall|i: int, j: int|
                #![trigger c.1[i], c.1[j]]
                0 <= i <= j < c.1.len() ==> c.1[i] <= c.1[j]
            &&& time <= c.2
        }),
    decreases evs.len(),
{
    if evs.len() > 0 {
        let m = evs[0].0;
        let next_tick = evs[0].1;
        let t2 = time + (next_tick - tick) * uspq;
        assert(0 <= (next_tick - tick) * uspq) by (nonlinear_arith)
            requires
                0 <= next_tick - tick,
                0 <= uspq,
        ;
        let rest = evs.drop_first();
        assert(ticks_sorted(rest) && ticks_from(rest, next_tick)) by {
            assert(forall|i: int| 0 <= i < rest.len() ==> rest[i] == evs[i + 1]);
        }
        if spec_message_type(m) == TEMPO_CHANGE {
            lemma_cast_events_wf(rest, next_tick, t2, spec_tempo_of(m));
        } else {
            lemma_cast_events_wf(rest, next_tick, t2, uspq);
        }
    }
}

/// Resolves a tick-sorted raw track into a `MidiTrack` and its total
/// length in tick-microseconds.
///
/// The time stamps come out non-decreasing, in an array as long as the
/// message array, and no kept message is a tempo change.
#[verifier::rlimit(60)]
pub fn cast_delta(track: &Vec<(Message, u64)>) -> (r: (MidiTrack, u128))
    requires
        ticks_sorted(track_view(track@)),
    ensures
        ({
            let c = cast_events(track_view(track@), 0, 0, DEFAULT_USPQ as int);
            &&& r.0.messages@ == c.0
            &&& times_view(r.0.times@) == c.1
            &&& r.1 as int == c.2
            &&& r.0.messages@.len() == r.0.times@.len()
            &&& forall|k: int|
                0 <= k < r.0.messages@.len() ==> spec_message_type(
                    #[trigger] r.0.messages@[k],
                ) != TEMPO_CHANGE
            &&& forall|i: int, j: int|
                #![trigger r.0.times@[i], r.0.times@[j]]
                0 <= i <= j < r.0.times@.len() ==> r.0.times@[i] <= r.0.times@[j]
        }),
{
    let ghost full: Seq<(Message, int)> = track_view(track@);
    let ghost top = cast_events(full, 0, 0, DEFAULT_USPQ as int);
    proof {
        assert forall|k: int| 0 <= k < full.len() implies 0 <= (#[trigger] full[k]).1 by {
            assert(full[k] == (track@[k].0, track@[k].1 as int));
        }
        lemma_cast_events_wf(full, 0, 0, DEFAULT_USPQ as int);
    }

    let mut messages: Vec<Message> = Vec::new();
    let mut times: Vec<u128> = Vec::new();
    let mut i: usize = 0;
    let mut tick: u64 = 0;
    let mut time: u128 = 0;
    let mut uspq: u32 = DEFAULT_USPQ;

    proof {
        let c0 = cast_events(full.skip(0), 0, 0, DEFAULT_USPQ as int);
        assert(full.skip(0) =~= full);
        assert(messages@ + c0.0 =~= c0.0);
        assert(times_view(times@) + c0.1 =~= c0.1);
    }

    while i < track.len()
        invariant
            i <= track.len(),
            full == track_view(track@),
            full.len() == track@.len(),
            top == cast_events(full, 0, 0, DEFAULT_USPQ as int),
            ticks_sorted(full),
            i == 0 ==> tick == 0,
            i > 0 ==> tick as int == full[i - 1].1,
            uspq < 0x1000000,
            time as int <= tick as int * 0x1000000,
            ({
                let c = cast_events(full.skip(i as int), tick as int, time as int, uspq as int);
                &&& top.0 == messages@ + c.0
                &&& top.1 == times_view(times@) + c.1
                &&& top.2 == c.2
            }),
        decreases track@.len() - i,
    {
        let ghost c_in = cast_events(full.skip(i as int), tick as int, time as int, uspq as int);
        let (msg, next_tick) = track[i];
        proof {
            assert(full[i as int] == (msg, next_tick as int));
            assert(full.skip(i as int)[0] == full[i as int]);
            assert(i < full.len());
            assert(tick <= next_tick) by {
                if i > 0 {
                    assert(full[i - 1].1 <= full[i as int].1);
                }
            }
            assert(full.skip(i as int).drop_first() =~= full.skip(i as int + 1));
        }
        let dt: u64 = next_tick - tick;
        proof {
            assert((dt as int) * (uspq as int) <= (dt as int) * 0x1000000) by (nonlinear_arith)
                requires
                    (uspq as int) <= 0x1000000,
                    0 <= dt as int,
            ;
            assert(0 <= (dt as int) * (uspq as int)) by (nonlinear_arith)
                requires
                    0 <= dt as int,
                    0 <= uspq as int,
            ;
            assert(tick as int * 0x1000000 + dt as int * 0x1000000 == next_tick as int
                * 0x1000000) by (nonlinear_arith)
                requires
                    tick as int + dt as int == next_tick as int,
            ;
            assert(next_tick as int * 0x1000000 < 0x10000000000000000 * 0x1000000)
                by (nonlinear_arith)
                requires
                    (next_tick as int) < 0x10000000000000000,
            ;
        }
        let new_time: u128 = time + (dt as u128) * (uspq as u128);
        time = new_time;
        tick = next_tick;
        let is_tempo = msg.get_message_type() == TEMPO_CHANGE;
        if is_tempo {
            uspq = msg.get_tempo_microseconds();
        } else {
            messages.push(msg);
            times.push(time);
        }
        i = i + 1;
        proof {
            let c_out = cast_events(
                full.skip(i as int),
                tick as int,
                time as int,
                uspq as int,
            );
            if !is_tempo {
                assert(c_in.0 == seq![msg] + c_out.0);
                assert(messages@ =~= messages@.subrange(0, messages@.len() - 1).push(msg));
                assert(messages@.subrange(0, messages@.len() - 1) + (seq![msg] + c_out.0)
                    =~= messages@ + c_out.0);
                assert(times_view(times@) =~= times_view(
                    times@.subrange(0, times@.len() - 1),
                ).push(time as int));
                assert(times_view(times@.subrange(0, times@.len() - 1)) + (seq![time as int]
                    + c_out.1) =~= times_view(times@) + c_out.1);
            }
        }
    }
    proof {
        assert(full.skip(i as int) =~= Seq::<(Message, int)>::empty());
        assert(messages@ + Seq::<Message>::empty() =~= messages@);
        assert(times_view(times@) + Seq::<int>::empty() =~= times_view(times@));
        let c = cast_events(full, 0, 0, DEFAULT_USPQ as int);
        assert(messages@ == c.0);
        assert(times_view(times@) == c.1);
        assert(times@.len() == times_view(times@).len());
        assert forall|x: int, y: int| 0 <= x <= y < times@.len() implies times@[x] <= times@[y] by {
            assert(times_view(times@)[x] == times@[x] as int);
            assert(times_view(times@)[y] == times@[y] as int);
            assert(c.1[x] <= c.1[y]);
        }
        assert forall|k: int| 0 <= k < messages@.len() implies spec_message_type(
            #[trigger] messages@[k],
        ) != TEMPO_CHANGE by {
            assert(messages@[k] == c.0[k]);
        }
    }
    (MidiTrack { messages, times }, time)
}

impl MidiTrack {
    /// The length of the track: its last time stamp, in tick-microseconds.
    pub fn get_length(&self) -> (r: u128)
        requires
            self.times@.len() > 0,
        ensures
            r == self.times@[self.times@.len() - 1],
    {
        self.times[self.times.len() - 1]
    }
}

/// The law of a lone tempo change: for a track holding one tempo change of
/// value `uspq` at tick 0, one other message at tick `k`, and the
/// end-of-track marker at tick `k2`, resolution emits exactly those two
/// messages, the first timed at `k * uspq` tick-microseconds - that is,
/// `60 * k / (resolution * (60_000_000 / uspq))` seconds - and the second
/// at `k * uspq + (k2 - k) * uspq`.
pub proof fn lemma_single_tempo_note_time(track: Seq<(Message, int)>, k: int, k2: int, uspq: int)
    requires
        track.len() == 3,
        spec_message_type(track[0].0) == TEMPO_CHANGE,
        spec_tempo_of(track[0].0) == uspq,
        track[0].1 == 0,
        spec_message_type(track[1].0) != TEMPO_CHANGE,
        track[1].1 == k,
        spec_message_type(track[2].0) != TEMPO_CHANGE,
        track[2].1 == k2,
        0 <= k <= k2,
    ensures
        ({
            let c = cast_events(track, 0, 0, DEFAULT_USPQ as int);
            &&& c.0 == seq![track[1].0, track[2].0]
            &&& c.1 == seq![k * uspq, k * uspq + (k2 - k) * uspq]
            &&& c.2 == k * uspq + (k2 - k) * uspq
        }),
{
    let t1 = track.drop_first();
    let t2 = t1.drop_first();
    let t3 = t2.drop_first();
    assert(t1[0] == track[1] && t1[1] == track[2] && t1.len() == 2);
    assert(t2[0] == track[2] && t2.len() == 1);
    assert(t3.len() == 0);
    let c3 = cast_events(t3, k2, k * uspq + (k2 - k) * uspq, uspq);
    let c2 = cast_events(t2, k, k * uspq, uspq);
    let c1 = cast_events(t1, 0, 0, uspq);
    let c = cast_events(track, 0, 0, DEFAULT_USPQ as int);
    assert(c2.0 =~= seq![track[2].0] + c3.0);
    assert(c1.0 =~= seq![track[1].0] + c2.0);
    assert(c.0 =~= seq![track[1].0, track[2].0]);
    assert(c.1 =~= seq![k * uspq, k * uspq + (k2 - k) * uspq]);
}

/// The stable merge of two tick-sorted event lists: at equal ticks the
/// events of `a` keep their place before those of `b`, so the result is
/// what a stable sort of `a + b` by tick yields.
pub open spec fn merge_by_tick(a: Seq<(Message, int)>, b: Seq<(Message, int)>) -> Seq<
    (Message, int),
>
    decreases a.len() + b.len(),
{
    if a.len() == 0 {
        b
    } else if b.len() == 0 {
        a
    } else if a[0].1 <= b[0].1 {
        seq![a[0]] + merge_by_tick(a.drop_first(), b)
    } else {
        seq![b[0]] + merge_by_tick(a, b.drop_first())
    }
}

/// The merge of two tick-sorted lists is tick-sorted, keeps every event,
/// and never falls below either lower tick bound.
pub proof fn lemma_merge_wf(a: Seq<(Message, int)>, b: Seq<(Message, int)>, tick: int)
    requires
        ticks_sorted(a),
        ticks_sorted(b),
        ticks_from(a, tick),
        ticks_from(b, tick),
    ensures
        merge_by_tick(a, b).len() == a.len() + b.len(),
        ticks_sorted(merge_by_tick(a, b)),
        ticks_from(merge_by_tick(a, b), tick),
    decreases a.len() + b.len(),
{
    if a.len() == 0 || b.len() == 0 {
    } else if a[0].1 <= b[0].1 {
        assert(ticks_sorted(a.drop_first()) && ticks_from(a.drop_first(), a[0].1)) by {
            assert(forall|i: int| 0 <= i < a.drop_first().len() ==> a.drop_first()[i] == a[i + 1]);
        }
        assert(ticks_from(b, a[0].1));
        lemma_merge_wf(a.drop_first(), b, a[0].1);
        let m = merge_by_tick(a.drop_first(), b);
        assert(forall|i: int|
            0 <= i < merge_by_tick(a, b).len() ==> #[trigger] merge_by_tick(a, b)[i] == (
            if i == 0 {
                a[0]
            } else {
                m[i - 1]
            }));
    } else {
        assert(ticks_sorted(b.drop_first()) && ticks_from(b.drop_first(), b[0].1)) by {
            assert(forall|i: int| 0 <= i < b.drop_first().len() ==> b.drop_first()[i] == b[i + 1]);
        }
        assert(ticks_from(a, b[0].1));
        lemma_merge_wf(a, b.drop_first(), b[0].1);
        let m = merge_by_tick(a, b.drop_first());
        assert(forall|i: int|
            0 <= i < merge_by_tick(a, b).len() ==> #[trigger] merge_by_tick(a, b)[i] == (
            if i == 0 {
                b[0]
            } else {
                m[i - 1]
            }));
    }
}

/// Merges a raw track with the tempo map events, stably by tick: the
/// result is the stable tick-sort of the concatenation, with the track's
/// own events first at equal ticks.
#[verifier::rlimit(60)]
pub fn merge_events(a: &Vec<(Message, u64)>, b: &Vec<(Message, u64)>) -> (r: Vec<(Message, u64)>)
    ensures
        track_view(r@) == merge_by_tick(track_view(a@), track_view(b@)),
        r@.len() == a@.len() + b@.len(),
{
    let ghost va: Seq<(Message, int)> = track_view(a@);
    let ghost vb: Seq<(Message, int)> = track_view(b@);
    let ghost top = merge_by_tick(va, vb);
    let mut out: Vec<(Message, u64)> = Vec::new();
    let mut i: usize = 0;
    let mut j: usize = 0;
    proof {
        assert(va.skip(0) =~= va);
        assert(vb.skip(0) =~= vb);
        assert(track_view(out@) + merge_by_tick(va, vb) =~= merge_by_tick(va, vb));
    }
    while i < a.len() || j < b.len()
        invariant
            i <= a@.len(),
            j <= b@.len(),
            va == track_view(a@),
            vb == track_view(b@),
            va.len() == a@.len(),
            vb.len() == b@.len(),
            top == merge_by_tick(va, vb),
            out@.len() == i + j,
            top == track_view(out@) + merge_by_tick(va.skip(i as int), vb.skip(j as int)),
        decreases a@.len() + b@.len() - i - j,
    {
        let ghost rest = merge_by_tick(va.skip(i as int), vb.skip(j as int));
        let ghost old_out = out@;
        let take_a: bool = if j >= b.len() {
            true
        } else if i >= a.len() {
            false
        } else {
            a[i].1 <= b[j].1
        };
        if take_a {
            let e = a[i];
            proof {
                assert(va.skip(i as int)[0] == va[i as int]);
                assert(va[i as int] == (e.0, e.1 as int));
                assert(va.skip(i as int).drop_first() =~= va.skip(i as int + 1));
                if j < b@.len() {
                    assert(vb.skip(j as int)[0] == vb[j as int]);
                }
            }
            out.push(e);
            i = i + 1;
            proof {
                let rest2 = merge_by_tick(va.skip(i as int), vb.skip(j as int));
                assert(rest == seq![(e.0, e.1 as int)] + rest2);
                assert(track_view(out@) =~= track_view(old_out).push((e.0, e.1 as int)));
                assert(track_view(old_out) + (seq![(e.0, e.1 as int)] + rest2) =~= track_view(
                    out@,
                ) + rest2);
            }
        } else {
            let e = b[j];
            proof {
                assert(vb.skip(j as int)[0] == vb[j as int]);
                assert(vb[j as int] == (e.0, e.1 as int));
                assert(vb.skip(j as int).drop_first() =~= vb.skip(j as int + 1));
                if i < a@.len() {
                    assert(va.skip(i as int)[0] == va[i as int]);
                }
            }
            out.push(e);
            j = j + 1;
            proof {
                let rest2 = merge_by_tick(va.skip(i as int), vb.skip(j as int));
                assert(rest == seq![(e.0, e.1 as int)] + rest2);
                assert(track_view(out@) =~= track_view(old_out).push((e.0, e.1 as int)));
                assert(track_view(old_out) + (seq![(e.0, e.1 as int)] + rest2) =~= track_view(
                    out@,
                ) + rest2);
            }
        }
    }
    proof {
        assert(va.skip(i as int) =~= Seq::<(Message, int)>::empty());
        assert(vb.skip(j as int) =~= Seq::<(Message, int)>::empty());
        assert(track_view(out@) + Seq::<(Message, int)>::empty() =~= track_view(out@));
    }
    out
}

} // verus!
