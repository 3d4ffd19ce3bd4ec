// The renderer driver: construction, per-track preparation, sample counts,
// progress, and the zone tables.

use midi_render::errors::MidiError;
use midi_render::messages::MidiFileLoopType;
use midi_render::midi_render::ThreadedRender;
use midi_render::midifile::{filter_tempo, has_tempo};
use midi_render::read_counter::ReadCounter;
use midi_render::timing::{cast_delta, merge_events};
use midi_render::track_parser::read_track;
use midi_render::zone_info::{read_from_chunk, ZoneError, ZoneInfo};

fn header(format: u16, ntrks: u16, division: u16) -> Vec<u8> {
    let mut v = Vec::new();
    v.extend_from_slice(b"MThd");
    v.extend_from_slice(&[0, 0, 0, 6]);
    v.extend_from_slice(&format.to_be_bytes());
    v.extend_from_slice(&ntrks.to_be_bytes());
    v.extend_from_slice(&division.to_be_bytes());
    v
}

fn mtrk(payload: &[u8]) -> Vec<u8> {
    let mut v = Vec::new();
    v.extend_from_slice(b"MTrk");
    v.extend_from_slice(&(payload.len() as u32).to_be_bytes());
    v.extend_from_slice(payload);
    v
}

const TEMPO_120: [u8; 7] = [0x00, 0xFF, 0x51, 0x03, 0x07, 0xA1, 0x20];
const EOT_NOW: [u8; 4] = [0x00, 0xFF, 0x2F, 0x00];

fn two_track_file() -> Vec<u8> {
    let mut data = header(1, 2, 480);
    let mut t0 = Vec::new();
    t0.extend_from_slice(&TEMPO_120);
    t0.extend_from_slice(&[0x83, 0x60, 0xFF, 0x2F, 0x00]);
    data.extend_from_slice(&mtrk(&t0));
    let mut t1 = Vec::new();
    t1.extend_from_slice(&[0x00, 0x90, 0x3C, 0x40]);
    t1.extend_from_slice(&[0x83, 0x60, 0x80, 0x3C, 0x40]);
    t1.extend_from_slice(&EOT_NOW);
    data.extend_from_slice(&mtrk(&t1));
    data
}

#[test]
fn renderer_construction() {
    let data = two_track_file();
    let r = ThreadedRender::new(&data, 44100).unwrap();
    assert_eq!(r.track_count, 2);
    assert_eq!(r.resolution, 480);
    assert_eq!(r.rendered_track_count, 0);
    assert_eq!(r.track_addr.len(), 2);
    // offsets are relative to the first track chunk; sizes include headers
    assert_eq!(r.track_addr[0], (0, 8 + 12));
    assert_eq!(r.track_addr[1], (20, 8 + 13));
    // the tempo map holds exactly the one tempo change
    assert_eq!(r.tempo_map.len(), 1);
    assert_eq!(r.tempo_map[0].0.get_message_type(), 252);
    assert_eq!(r.tempo_map[0].0.get_tempo_microseconds(), 500_000);
}

#[test]
fn renderer_accepts_format_zero() {
    let mut data = header(0, 1, 480);
    let mut t0 = Vec::new();
    t0.extend_from_slice(&TEMPO_120);
    t0.extend_from_slice(&EOT_NOW);
    data.extend_from_slice(&mtrk(&t0));
    let r = ThreadedRender::new(&data, 44100).unwrap();
    assert_eq!(r.track_count, 1);
}

#[test]
fn renderer_rejects_format_two() {
    let mut data = header(2, 1, 480);
    let mut t0 = Vec::new();
    t0.extend_from_slice(&TEMPO_120);
    t0.extend_from_slice(&EOT_NOW);
    data.extend_from_slice(&mtrk(&t0));
    assert_eq!(ThreadedRender::new(&data, 44100).unwrap_err(), MidiError::UnsupportedFormat(2));
}

#[test]
fn renderer_rejects_missing_tempo() {
    let mut data = header(1, 1, 480);
    let mut t0 = Vec::new();
    t0.extend_from_slice(&[0x00, 0x90, 0x3C, 0x40]);
    t0.extend_from_slice(&EOT_NOW);
    data.extend_from_slice(&mtrk(&t0));
    assert_eq!(ThreadedRender::new(&data, 44100).unwrap_err(), MidiError::UnsupportedFormat(1));
}

#[test]
fn renderer_rejects_empty_file() {
    // with no track chunk at all there is no tempo map to find
    let data = header(1, 0, 480);
    assert_eq!(ThreadedRender::new(&data, 44100).unwrap_err(), MidiError::UnsupportedFormat(1));
}

#[test]
fn sample_count_exact() {
    let data = two_track_file();
    let r = ThreadedRender::new(&data, 44100).unwrap();
    let (start, size) = r.track_addr[1];
    let chunk: Vec<u8> = data[14 + start..14 + start + size].to_vec();
    let (track, length) = r.prepare_track(&chunk).unwrap();
    assert_eq!(track.times, vec![0u128, 240_000_000, 240_000_000]);
    assert_eq!(length, 240_000_000);
    // 0.5 seconds at 44100 Hz
    assert_eq!(r.sample_count(length), 22_050);
    assert_eq!(r.sample_count(0), 0);
}

#[test]
fn prepare_track_uses_tempo_map() {
    // the note track alone carries no tempo change; the fused tempo map
    // makes tick 480 land at 0.5 s instead of the default-only timing
    let data = two_track_file();
    let r = ThreadedRender::new(&data, 44100).unwrap();
    let (start, size) = r.track_addr[1];
    let chunk: Vec<u8> = data[14 + start..14 + start + size].to_vec();
    let (track, _) = r.prepare_track(&chunk).unwrap();
    assert_eq!(track.messages.len(), 3);
    assert_eq!(track.messages[0].command, 0x90);
    assert_eq!(track.times[1], 240_000_000);
}

#[test]
fn progress_counts_to_track_count() {
    let data = two_track_file();
    let mut r = ThreadedRender::new(&data, 44100).unwrap();
    let mut seen = vec![r.rendered_track_count];
    while r.rendered_track_count < r.track_count {
        r.record_rendered();
        seen.push(r.rendered_track_count);
    }
    assert_eq!(seen, vec![0, 1, 2]);
    assert_eq!(r.rendered_track_count, r.track_count);
}

#[test]
fn merge_is_stable_at_equal_ticks() {
    let data = two_track_file();
    let r = ThreadedRender::new(&data, 44100).unwrap();
    let chunk = {
        let mut t1 = Vec::new();
        t1.extend_from_slice(&[0x00, 0x90, 0x3C, 0x40]);
        t1.extend_from_slice(&[0x0A, 0xFF, 0x2F, 0x00]);
        mtrk(&t1)
    };
    let mut pos = 0usize;
    let raw = read_track(&chunk, &mut pos, MidiFileLoopType::LoopPoint(0)).unwrap();
    let merged = merge_events(&raw, &r.tempo_map);
    // at tick 0 the track's own note-on stays before the merged tempo event
    assert_eq!(merged.len(), 3);
    assert_eq!(merged[0].0.command, 0x90);
    assert_eq!((merged[1].0.get_message_type(), merged[1].1), (252, 0));
    assert_eq!((merged[2].0.get_message_type(), merged[2].1), (255, 10));
}

#[test]
fn cast_delta_consumes_tempo_changes() {
    let chunk = {
        let mut t = Vec::new();
        t.extend_from_slice(&TEMPO_120);
        t.extend_from_slice(&[0x60, 0x90, 0x3C, 0x40]);
        t.extend_from_slice(&EOT_NOW);
        mtrk(&t)
    };
    let mut pos = 0usize;
    let raw = read_track(&chunk, &mut pos, MidiFileLoopType::LoopPoint(0)).unwrap();
    assert!(has_tempo(&raw));
    assert_eq!(filter_tempo(&raw).len(), 1);
    let (track, length) = cast_delta(&raw);
    assert_eq!(track.messages.len(), 2);
    assert!(track.messages.iter().all(|m| m.get_message_type() != 252));
    assert_eq!(track.times, vec![0x60 * 500_000u128, 0x60 * 500_000u128]);
    assert_eq!(length, 0x60 * 500_000u128);
    assert_eq!(track.get_length(), length);
}

#[test]
fn read_counter_counts_from_start() {
    let c = ReadCounter::new(5);
    assert_eq!(c.bytes_read(5), 0);
    assert_eq!(c.bytes_read(9), 4);
}

#[test]
fn zone_list_counts() {
    let data: Vec<u8> = vec![0, 0, 0, 0, 0, 2, 0, 1, 0, 5, 0, 3];
    let mut pos = 0usize;
    let zones = read_from_chunk(&data, &mut pos, 12).unwrap();
    assert_eq!(pos, 12);
    assert_eq!(zones.len(), 3);
    assert_eq!(
        zones[0],
        ZoneInfo { generator_index: 0, modulator_index: 0, generator_count: 2, modulator_count: 1 }
    );
    assert_eq!(
        zones[1],
        ZoneInfo { generator_index: 2, modulator_index: 1, generator_count: 3, modulator_count: 2 }
    );
    assert_eq!(
        zones[2],
        ZoneInfo { generator_index: 5, modulator_index: 3, generator_count: 0, modulator_count: 0 }
    );
}

#[test]
fn zone_list_rejects_ragged_size() {
    let data: Vec<u8> = vec![0, 0, 0, 0];
    let mut pos = 0usize;
    assert_eq!(read_from_chunk(&data, &mut pos, 6).unwrap_err(), ZoneError::InvalidZoneList);
    assert_eq!(read_from_chunk(&data, &mut pos, -4).unwrap_err(), ZoneError::InvalidZoneList);
}

#[test]
fn zone_list_rejects_short_data() {
    let data: Vec<u8> = vec![0, 0, 0, 0];
    let mut pos = 0usize;
    assert_eq!(read_from_chunk(&data, &mut pos, 8).unwrap_err(), ZoneError::UnexpectedEof);
}
