// End-to-end decoding scenarios on hand-crafted SMF bytes.

use midi_render::errors::MidiError;
use midi_render::messages::{Message, MidiFileLoopType};
use midi_render::midifile::MidiFile;
use midi_render::track_parser::read_track;

fn header(format: u16, ntrks: u16, division: u16) -> Vec<u8> {
    let mut v = Vec::new();
    v.extend_from_slice(b"MThd");
    v.extend_from_slice(&[0, 0, 0, 6]);
    v.extend_from_slice(&format.to_be_bytes());
    v.extend_from_slice(&ntrks.to_be_bytes());
    v.extend_from_slice(&division.to_be_bytes());
    v
}

fn mtrk(payload: &[u8]) -> Vec<u8> {
    let mut v = Vec::new();
    v.extend_from_slice(b"MTrk");
    v.extend_from_slice(&(payload.len() as u32).to_be_bytes());
    v.extend_from_slice(payload);
    v
}

/// 500000 microseconds per quarter note = 120 beats per minute.
const TEMPO_120: [u8; 7] = [0x00, 0xFF, 0x51, 0x03, 0x07, 0xA1, 0x20];
const EOT_NOW: [u8; 4] = [0x00, 0xFF, 0x2F, 0x00];

#[test]
fn minimal_file_renders_zero_samples() {
    let mut data = header(1, 1, 480);
    let mut payload = Vec::new();
    payload.extend_from_slice(&TEMPO_120);
    payload.extend_from_slice(&EOT_NOW);
    data.extend_from_slice(&mtrk(&payload));

    let f = MidiFile::new(&data).unwrap();
    assert_eq!(f.tracks.len(), 1);
    assert_eq!(f.get_length(), 0);
    // the only events are at tick 0, so the file renders zero samples
    assert_eq!(f.tracks[0].times, vec![0u128]);
}

fn two_track_file() -> Vec<u8> {
    let mut data = header(1, 2, 480);
    // track 0: the tempo track, 120 BPM, end of track at tick 480
    let mut t0 = Vec::new();
    t0.extend_from_slice(&TEMPO_120);
    t0.extend_from_slice(&[0x83, 0x60, 0xFF, 0x2F, 0x00]);
    data.extend_from_slice(&mtrk(&t0));
    // track 1: note-on at tick 0, note-off at tick 480, end of track
    let mut t1 = Vec::new();
    t1.extend_from_slice(&[0x00, 0x90, 0x3C, 0x40]);
    t1.extend_from_slice(&[0x83, 0x60, 0x80, 0x3C, 0x40]);
    t1.extend_from_slice(&EOT_NOW);
    data.extend_from_slice(&mtrk(&t1));
    data
}

#[test]
fn two_tracks_single_note_times() {
    let data = two_track_file();
    let f = MidiFile::new(&data).unwrap();
    assert_eq!(f.tracks.len(), 2);
    // times in tick-microseconds; seconds = t / (480 * 1_000_000)
    assert_eq!(f.tracks[1].times, vec![0u128, 240_000_000, 240_000_000]);
    let seconds: Vec<f64> = f.tracks[1]
        .times
        .iter()
        .map(|t| *t as f64 / (480.0 * 1_000_000.0))
        .collect();
    assert_eq!(seconds, vec![0.0, 0.5, 0.5]);
    assert_eq!(f.tracks[1].messages.len(), 3);
    assert_eq!(f.get_length(), 240_000_000);
}

#[test]
fn running_status_reuses_status_byte() {
    let payload: Vec<u8> = vec![
        0x00, 0x90, 0x3C, 0x7F, 0x10, 0x40, 0x7F, 0x10, 0x80, 0x3C, 0x00, 0x00, 0xFF, 0x2F, 0x00,
    ];
    let data = mtrk(&payload);
    let mut pos = 0usize;
    let track = read_track(&data, &mut pos, MidiFileLoopType::LoopPoint(0)).unwrap();
    assert_eq!(track.len(), 4);
    let (m0, t0) = track[0];
    assert_eq!((m0.channel, m0.command, m0.data1, m0.data2, t0), (0, 0x90, 0x3C, 0x7F, 0));
    // the second note-on reuses the 0x90 status byte
    let (m1, t1) = track[1];
    assert_eq!((m1.channel, m1.command, m1.data1, m1.data2, t1), (0, 0x90, 0x40, 0x7F, 0x10));
    let (m2, t2) = track[2];
    assert_eq!((m2.channel, m2.command, m2.data1, m2.data2, t2), (0, 0x80, 0x3C, 0x00, 0x20));
    assert_eq!(track[3].0.channel, 255);
}

#[test]
fn running_status_data_pairs() {
    // 9x 3C 40, then two running-status note-ons: data pairs (0x3C, 0x40),
    // (0x40, 0x40), and the next read byte becomes the third pair's data1
    let payload: Vec<u8> = vec![
        0x00, 0x93, 0x3C, 0x40, 0x00, 0x40, 0x40, 0x00, 0x40, 0x55, 0x00, 0xFF, 0x2F, 0x00,
    ];
    let data = mtrk(&payload);
    let mut pos = 0usize;
    let track = read_track(&data, &mut pos, MidiFileLoopType::LoopPoint(0)).unwrap();
    assert_eq!(track.len(), 4);
    assert_eq!((track[0].0.data1, track[0].0.data2), (0x3C, 0x40));
    assert_eq!((track[1].0.data1, track[1].0.data2), (0x40, 0x40));
    assert_eq!((track[2].0.data1, track[2].0.data2), (0x40, 0x55));
    for e in &track[..3] {
        assert_eq!((e.0.channel, e.0.command), (3, 0x90));
    }
}

#[test]
fn tempo_change_mid_track() {
    // 120 BPM for the first 480 ticks, then 60 BPM; note-on at tick 960
    let mut data = header(1, 1, 480);
    let mut t0 = Vec::new();
    t0.extend_from_slice(&TEMPO_120);
    // at tick 480: tempo 1_000_000 microseconds per quarter = 60 BPM
    t0.extend_from_slice(&[0x83, 0x60, 0xFF, 0x51, 0x03, 0x0F, 0x42, 0x40]);
    t0.extend_from_slice(&[0x83, 0x60, 0x90, 0x3C, 0x40]);
    t0.extend_from_slice(&EOT_NOW);
    data.extend_from_slice(&mtrk(&t0));
    let f = MidiFile::new(&data).unwrap();
    // 0.5 s + 1.0 s = 1.5 s
    assert_eq!(f.tracks[0].times[0], 720_000_000);
    assert_eq!(f.tracks[0].times[0] as f64 / (480.0 * 1_000_000.0), 1.5);
}

#[test]
fn loop_dialect_rpg_maker() {
    let mut data = header(1, 1, 480);
    let mut t0 = Vec::new();
    t0.extend_from_slice(&TEMPO_120);
    t0.extend_from_slice(&[0x64, 0xB0, 0x6F, 0x40]);
    t0.extend_from_slice(&EOT_NOW);
    data.extend_from_slice(&mtrk(&t0));

    let f = MidiFile::new_with_loop_type(&data, MidiFileLoopType::RpgMaker).unwrap();
    // the CC #111 event appears as a loop start at the time of tick 100
    assert_eq!(f.tracks[0].messages[0].channel, 253);
    assert_eq!(f.tracks[0].times[0], 100 * 500_000);

    // without the dialect it stays a normal control change
    let g = MidiFile::new(&data).unwrap();
    let m = g.tracks[0].messages[0];
    assert_eq!((m.channel, m.command, m.data1, m.data2), (0, 0xB0, 111, 0x40));
}

#[test]
fn single_tempo_note_time_exact() {
    // one tempo change of 300000 at tick 0 and one note-on at tick 123
    let mut data = header(1, 1, 480);
    let mut t0 = Vec::new();
    t0.extend_from_slice(&[0x00, 0xFF, 0x51, 0x03, 0x04, 0x93, 0xE0]);
    t0.extend_from_slice(&[0x7B, 0x90, 0x3C, 0x40]);
    t0.extend_from_slice(&EOT_NOW);
    data.extend_from_slice(&mtrk(&t0));
    let f = MidiFile::new(&data).unwrap();
    assert_eq!(f.tracks[0].times[0], 123 * 300_000);
    let got = f.tracks[0].times[0] as f64 / (480.0 * 1_000_000.0);
    let expected = 60.0 * 123.0 / (480.0 * (60_000_000.0 / 300_000.0));
    assert!((got - expected).abs() <= expected * f64::EPSILON);
}

#[test]
fn loop_point_injection() {
    let data = two_track_file();
    let f = MidiFile::new_with_loop_type(&data, MidiFileLoopType::LoopPoint(240)).unwrap();
    // the loop start lands in track 0 before the first event at tick >= 240
    assert_eq!(f.tracks[0].messages[0].channel, 253);
    assert_eq!(f.tracks[0].times[0], 240 * 500_000);
}

#[test]
fn loop_point_past_last_tick_is_appended() {
    let data = two_track_file();
    let f = MidiFile::new_with_loop_type(&data, MidiFileLoopType::LoopPoint(960)).unwrap();
    // every tick of track 0 is below 960, so the loop start comes last
    let last = f.tracks[0].messages.len() - 1;
    assert_eq!(f.tracks[0].messages[last].channel, 253);
    assert_eq!(f.tracks[0].times[last], 960 * 500_000);
}

#[test]
fn zero_tracks_file_is_empty() {
    let data = header(1, 0, 480);
    let f = MidiFile::new(&data).unwrap();
    assert_eq!(f.tracks.len(), 0);
    assert_eq!(f.get_length(), 0);
}

#[test]
fn rejection_bad_track_tag() {
    let mut data = header(1, 1, 480);
    let mut chunk = mtrk(&EOT_NOW);
    chunk[0] = b'X';
    data.extend_from_slice(&chunk);
    match MidiFile::new(&data).unwrap_err() {
        MidiError::InvalidChunkType { expected, at, .. } => {
            assert_eq!(expected, 0x4D54726B);
            assert_eq!(at, 0);
        },
        e => panic!("unexpected error {:?}", e),
    }
}

#[test]
fn rejection_wrong_format() {
    let mut data = header(2, 1, 480);
    let mut t0 = Vec::new();
    t0.extend_from_slice(&TEMPO_120);
    t0.extend_from_slice(&EOT_NOW);
    data.extend_from_slice(&mtrk(&t0));
    assert_eq!(MidiFile::new(&data).unwrap_err(), MidiError::UnsupportedFormat(2));
}

#[test]
fn rejection_bad_tag() {
    let mut data = header(1, 1, 480);
    data[0] = b'X';
    match MidiFile::new(&data).unwrap_err() {
        MidiError::InvalidChunkType { expected, at, .. } => {
            assert_eq!(expected, 0x4D546864);
            assert_eq!(at, 0);
        },
        e => panic!("unexpected error {:?}", e),
    }
}

#[test]
fn rejection_bad_header_size() {
    let mut data = header(1, 1, 480);
    data[7] = 7;
    assert_eq!(MidiFile::new(&data).unwrap_err(), MidiError::InvalidChunkData(0x4D546864));
}

#[test]
fn rejection_bad_tempo_length() {
    let mut data = header(1, 1, 480);
    let payload: Vec<u8> = vec![0x00, 0xFF, 0x51, 0x02, 0x07, 0xA1];
    data.extend_from_slice(&mtrk(&payload));
    assert_eq!(MidiFile::new(&data).unwrap_err(), MidiError::InvalidTempoValue);
}

#[test]
fn rejection_truncated_track() {
    let mut data = header(1, 1, 480);
    data.extend_from_slice(b"MTrk");
    data.extend_from_slice(&[0, 0, 0, 50]);
    data.extend_from_slice(&[0x00, 0x90, 0x3C]);
    assert_eq!(MidiFile::new(&data).unwrap_err(), MidiError::UnexpectedEof);
}

#[test]
fn rejection_overlong_varlen() {
    let payload: Vec<u8> = vec![0xFF, 0xFF, 0xFF, 0xFF, 0xFF, 0x01];
    let data = mtrk(&payload);
    let mut pos = 0usize;
    assert_eq!(
        read_track(&data, &mut pos, MidiFileLoopType::LoopPoint(0)).unwrap_err(),
        MidiError::OverlongVarlen
    );
}

#[test]
fn sysex_and_unknown_meta_are_skipped() {
    let mut data = header(1, 1, 480);
    let mut t0 = Vec::new();
    t0.extend_from_slice(&TEMPO_120);
    // SysEx of 3 bytes, then a text meta event of 2 bytes
    t0.extend_from_slice(&[0x00, 0xF0, 0x03, 0x01, 0x02, 0x03]);
    t0.extend_from_slice(&[0x00, 0xFF, 0x01, 0x02, 0x41, 0x42]);
    t0.extend_from_slice(&[0x00, 0x90, 0x3C, 0x40]);
    t0.extend_from_slice(&EOT_NOW);
    data.extend_from_slice(&mtrk(&t0));
    let f = MidiFile::new(&data).unwrap();
    // only the note-on and the end-of-track marker remain
    assert_eq!(f.tracks[0].messages.len(), 2);
    assert_eq!(f.tracks[0].messages[0].command, 0x90);
}

#[test]
fn trailing_bytes_after_eot_are_discarded() {
    let mut payload = Vec::new();
    payload.extend_from_slice(&EOT_NOW);
    payload.extend_from_slice(&[0xDE, 0xAD, 0xBE, 0xEF]);
    let data = mtrk(&payload);
    let mut pos = 0usize;
    let track = read_track(&data, &mut pos, MidiFileLoopType::LoopPoint(0)).unwrap();
    assert_eq!(track.len(), 1);
    assert_eq!(pos, data.len());
}

#[test]
fn message_constructors() {
    let t = Message::tempo_change(500_000);
    assert_eq!(t.get_tempo_microseconds(), 500_000);
    assert_eq!(t.get_message_type(), 252);
    assert_eq!(Message::loop_start().get_message_type(), 253);
    assert_eq!(Message::loop_end().get_message_type(), 254);
    assert_eq!(Message::end_of_track().get_message_type(), 255);
    let m = Message::common1(0xC5, 0x10);
    assert_eq!((m.channel, m.command, m.data1, m.data2), (5, 0xC0, 0x10, 0));
    assert_eq!(m.get_message_type(), 0);
}

#[test]
fn loop_dialect_table() {
    let lt = MidiFileLoopType::RpgMaker;
    assert_eq!(Message::common2(0xB2, 111, 9, lt).channel, 253);
    let im = MidiFileLoopType::IncredibleMachine;
    assert_eq!(Message::common2(0xB0, 110, 9, im).channel, 253);
    assert_eq!(Message::common2(0xB0, 111, 9, im).channel, 254);
    let ff = MidiFileLoopType::FinalFantasy;
    assert_eq!(Message::common2(0xB0, 116, 9, ff).channel, 253);
    assert_eq!(Message::common2(0xB0, 117, 9, ff).channel, 254);
    // no rewriting under an explicit loop point, nor away from CC
    let none = MidiFileLoopType::LoopPoint(0);
    let kept = Message::common2(0xB1, 111, 9, none);
    assert_eq!((kept.channel, kept.command, kept.data1, kept.data2), (1, 0xB0, 111, 9));
    let other = Message::common2(0x92, 111, 9, lt);
    assert_eq!((other.channel, other.command), (2, 0x90));
}
