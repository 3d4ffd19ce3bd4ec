//! Decoding of Standard MIDI Files and the driver logic of a multi-track
//! offline renderer.
//!
//! The crate parses SMF bytes into per-track event lists, fuses each track
//! with the global tempo map, and converts tick deltas into exact time
//! stamps.  Times are kept as integer numerators in "tick-microseconds":
//! a value `t` stands for `t / (resolution * 1_000_000)` seconds, so the
//! piecewise-constant tempo integration is exact.

pub mod binary_reader;
pub mod errors;
pub mod messages;
pub mod midi_render;
pub mod midifile;
pub mod read_counter;
pub mod timing;
pub mod track_parser;
pub mod zone_info;
