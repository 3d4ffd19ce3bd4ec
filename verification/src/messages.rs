//! Compact MIDI channel messages and synthetic meta-markers.

use vstd::prelude::*;

verus! {

/// Sentinel `channel` value of a tempo-change marker.
pub const TEMPO_CHANGE: u8 = 252;

/// Sentinel `channel` value of a loop-start marker.
pub const LOOP_START: u8 = 253;

/// Sentinel `channel` value of a loop-end marker.
pub const LOOP_END: u8 = 254;

/// Sentinel `channel` value of an end-of-track marker.
pub const END_OF_TRACK: u8 = 255;

/// Message type of a plain channel message.
pub const NORMAL: u8 = 0;

/// How loop extensions hidden in control-change events are interpreted.
///
/// * `LoopPoint(tick)` - an explicit loop start point; `LoopPoint(0)` means
///   no loop handling at all.
/// * `RpgMaker` - CC #111 marks the loop start.
/// * `IncredibleMachine` - CC #110 and #111 mark loop start and end.
/// * `FinalFantasy` - CC #116 and #117 mark loop start and end.
#[derive(Clone, Copy, Debug, PartialEq, Eq, Structural)]
pub enum MidiFileLoopType {
    LoopPoint(usize),
    RpgMaker,
    IncredibleMachine,
    FinalFantasy,
}

/// A fixed four-byte MIDI record.  `channel` below 16 marks a normal channel
/// message; the sentinel values 252..=255 mark meta-markers.  A tempo-change
/// marker packs the 24-bit microseconds-per-quarter-note value big-endian
/// across `command`, `data1`, `data2`.
#[derive(Clone, Copy, Debug, PartialEq, Eq, Structural)]
pub struct Message {
    pub channel: u8,
    pub command: u8,
    pub data1: u8,
    pub data2: u8,
}

/// The loop-dialect rewriting applied to a two-data-byte channel message:
/// under the configured dialect, certain control-change events become loop
/// markers; every other message keeps its fields.
pub open spec fn spec_common2(status: u8, data1: u8, data2: u8, loop_type: MidiFileLoopType) -> Message {
    if status & 0xF0 == 0xB0 && loop_type is RpgMaker && data1 == 111 {
        spec_loop_start()
    } else if status & 0xF0 == 0xB0 && loop_type is IncredibleMachine && data1 == 110 {
        spec_loop_start()
    } else if status & 0xF0 == 0xB0 && loop_type is IncredibleMachine && data1 == 111 {
        spec_loop_end()
    } else if status & 0xF0 == 0xB0 && loop_type is FinalFantasy && data1 == 116 {
        spec_loop_start()
    } else if status & 0xF0 == 0xB0 && loop_type is FinalFantasy && data1 == 117 {
        spec_loop_end()
    } else {
        Message { channel: status & 0x0F, command: status & 0xF0, data1, data2 }
    }
}

pub open spec fn spec_common1(status: u8, data1: u8) -> Message {
    Message { channel: status & 0x0F, command: status & 0xF0, data1, data2: 0 }
}

pub open spec fn spec_loop_start() -> Message {
    Message { channel: LOOP_START, command: 0, data1: 0, data2: 0 }
}

pub open spec fn spec_loop_end() -> Message {
    Message { channel: LOOP_END, command: 0, data1: 0, data2: 0 }
}

pub open spec fn spec_end_of_track() -> Message {
    Message { channel: END_OF_TRACK, command: 0, data1: 0, data2: 0 }
}

/// The tempo-change marker for `tempo` microseconds per quarter note,
/// packed big-endian across the three payload bytes.
pub open spec fn spec_tempo_change(tempo: int) -> Message {
    Message {
        channel: TEMPO_CHANGE,
        command: (tempo / 0x10000) as u8,
        data1: ((tempo / 0x100) % 0x100) as u8,
        data2: (tempo % 0x100) as u8,
    }
}

/// The message type: one of the four sentinels, or `NORMAL`.
pub open spec fn spec_message_type(m: Message) -> u8 {
    if m.channel == TEMPO_CHANGE {
        TEMPO_CHANGE
    } else if m.channel == LOOP_START {
        LOOP_START
    } else if m.channel == LOOP_END {
        LOOP_END
    } else if m.channel == END_OF_TRACK {
        END_OF_TRACK
    } else {
        NORMAL
    }
}

/// The 24-bit microseconds-per-quarter-note value carried by a
/// tempo-change marker.
pub open spec fn spec_tempo_of(m: Message) -> int {
    m.command * 0x10000 + m.data1 * 0x100 + m.data2
}

impl Message {
    /// A single-data-byte channel message (program change, channel pressure).
    pub fn common1(status: u8, data1: u8) -> (r: Message)
        ensures
            r == spec_common1(status, data1),
    {
        Message { channel: status & 0x0F, command: status & 0xF0, data1, data2: 0 }
    }

    /// A two-data-byte channel message, rewritten into a loop marker when the
    /// configured dialect claims this control-change number.
    ///
    /// Under `RpgMaker`, CC #111 becomes a loop start; under `LoopPoint(_)`
    /// the message is kept unchanged.
    pub fn common2(status: u8, data1: u8, data2: u8, loop_type: MidiFileLoopType) -> (r: Message)
        ensures
            r == spec_common2(status, data1, data2, loop_type),
    {
        let command = status & 0xF0;
        if command == 0xB0 {
            match loop_type {
                MidiFileLoopType::RpgMaker => {
                    if data1 == 111 {
                        return Message::loop_start();
                    }
                }
                MidiFileLoopType::IncredibleMachine => {
                    if data1 == 110 {
                        return Message::loop_start();
                    }
                    if data1 == 111 {
                        return Message::loop_end();
                    }
                }
                MidiFileLoopType::FinalFantasy => {
                    if data1 == 116 {
                        return Message::loop_start();
                    }
                    if data1 == 117 {
                        return Message::loop_end();
                    }
                }
                MidiFileLoopType::LoopPoint(_) => {}
            }
        }
        Message { channel: status & 0x0F, command, data1, data2 }
    }

    /// The tempo-change marker for `tempo` microseconds per quarter note.
    pub fn tempo_change(tempo: u32) -> (r: Message)
        requires
            tempo < 0x1000000,
        ensures
            r == spec_tempo_change(tempo as int),
            spec_tempo_of(r) == tempo as int,
    {
        let r = Message {
            channel: TEMPO_CHANGE,
            command: (tempo / 0x10000) as u8,
            data1: ((tempo / 0x100) % 0x100) as u8,
            data2: (tempo % 0x100) as u8,
        };
        assert(spec_tempo_of(r) == tempo as int) by {
            assert(tempo as int == (tempo as int / 0x10000) * 0x10000 + (tempo as int % 0x10000));
            assert(tempo as int % 0x10000 == ((tempo as int / 0x100) % 0x100) * 0x100 + (tempo as int % 0x100)) by (nonlinear_arith);
        }
        r
    }

    /// The loop-start marker.
    pub fn loop_start() -> (r: Message)
        ensures
            r == spec_loop_start(),
    {
        Message { channel: LOOP_START, command: 0, data1: 0, data2: 0 }
    }

    /// The loop-end marker.
    pub fn loop_end() -> (r: Message)
        ensures
            r == spec_loop_end(),
    {
        Message { channel: LOOP_END, command: 0, data1: 0, data2: 0 }
    }

    /// The end-of-track marker.
    pub fn end_of_track() -> (r: Message)
        ensures
            r == spec_end_of_track(),
    {
        Message { channel: END_OF_TRACK, command: 0, data1: 0, data2: 0 }
    }

    /// Classifies the message by its `channel` field.
    pub fn get_message_type(&self) -> (r: u8)
        ensures
            r == spec_message_type(*self),
    {
        if self.channel == TEMPO_CHANGE {
            TEMPO_CHANGE
        } else if self.channel == LOOP_START {
            LOOP_START
        } else if self.channel == LOOP_END {
            LOOP_END
        } else if self.channel == END_OF_TRACK {
            END_OF_TRACK
        } else {
            NORMAL
        }
    }

    /// The microseconds-per-quarter-note value of a tempo-change marker.
    /// The tempo in beats per minute equals `60_000_000` divided by it.
    pub fn get_tempo_microseconds(&self) -> (r: u32)
        ensures
            r == spec_tempo_of(*self),
            r < 0x1000000,
    {
        (self.command as u32) * 0x10000 + (self.data1 as u32) * 0x100 + (self.data2 as u32)
    }
}

} // verus!
