//! Decoding standard MIDI file bytes into playable sequences.

use midi_piano::errors::FormatError;
use midi_piano::sequence::{encode_midi_message, escape_payload, sysex_payload, MidiSequence};
use midi_piano::smf::{MidiMessage, Smf, SmfFormat, Timing, TrackEventKind};

fn header(format: u16, ntrks: u16, division: u16) -> Vec<u8> {
    let mut b = vec![0x4D, 0x54, 0x68, 0x64, 0, 0, 0, 6];
    b.extend_from_slice(&format.to_be_bytes());
    b.extend_from_slice(&ntrks.to_be_bytes());
    b.extend_from_slice(&division.to_be_bytes());
    b
}

fn track_chunk(events: &[u8]) -> Vec<u8> {
    let mut b = vec![0x4D, 0x54, 0x72, 0x6B];
    b.extend_from_slice(&(events.len() as u32).to_be_bytes());
    b.extend_from_slice(events);
    b
}

#[test]
fn note_off_at_tick_480_is_500ms_at_default_tempo() {
    // 120 BPM default, ppq = 480: note-on at tick 0, note-off at tick 480.
    let mut bytes = header(0, 1, 480);
    // delta 0, note-on ch0; delta 480 (VLQ 0x83 0x60), note-off ch0
    bytes.extend_from_slice(&track_chunk(&[
        0x00, 0x90, 0x3C, 0x64, 0x83, 0x60, 0x80, 0x3C, 0x00,
    ]));
    let seq = MidiSequence::from_bytes(&bytes).unwrap();
    assert_eq!(seq.events.len(), 2);
    assert_eq!(seq.events[0].at, 0);
    assert_eq!(seq.events[0].data, vec![0x90, 0x3C, 0x64]);
    assert_eq!(seq.events[1].at, 500_000);
    assert_eq!(seq.events[1].data, vec![0x80, 0x3C, 0x00]);
    assert_eq!(seq.duration, 500_000);
}

#[test]
fn sequential_format_is_rejected() {
    let mut bytes = header(2, 1, 480);
    bytes.extend_from_slice(&track_chunk(&[0x00, 0x90, 0x3C, 0x64]));
    assert!(matches!(MidiSequence::from_bytes(&bytes), Err(FormatError)));
}

#[test]
fn timecode_timing_is_rejected() {
    // division with the high bit set: 25 fps, 40 subframes
    let mut bytes = header(0, 1, 0xE728);
    bytes.extend_from_slice(&track_chunk(&[0x00, 0x90, 0x3C, 0x64]));
    assert!(matches!(MidiSequence::from_bytes(&bytes), Err(FormatError)));
}

#[test]
fn zero_resolution_is_rejected() {
    let mut bytes = header(0, 1, 0);
    bytes.extend_from_slice(&track_chunk(&[0x00, 0x90, 0x3C, 0x64]));
    assert!(matches!(MidiSequence::from_bytes(&bytes), Err(FormatError)));
}

#[test]
fn garbage_is_rejected() {
    assert!(MidiSequence::from_bytes(&[1, 2, 3]).is_err());
    assert!(MidiSequence::from_bytes(&[]).is_err());
    // header alone is fine (an empty performance)...
    let bytes = header(0, 0, 480);
    assert!(MidiSequence::from_bytes(&bytes).is_ok());
    // ...but a truncated chunk is not
    let mut bad = header(0, 1, 480);
    bad.extend_from_slice(&[0x4D, 0x54, 0x72, 0x6B, 0, 0, 0, 9, 0x00]);
    assert!(MidiSequence::from_bytes(&bad).is_err());
}

#[test]
fn tempo_change_rescales_offsets() {
    // tempo 250000 us per quarter at tick 0: tick 480 lands at 250 ms
    let mut bytes = header(0, 1, 480);
    bytes.extend_from_slice(&track_chunk(&[
        0x00, 0xFF, 0x51, 0x03, 0x03, 0xD0, 0x90, // tempo = 250000
        0x00, 0x90, 0x3C, 0x64, 0x83, 0x60, 0x80, 0x3C, 0x00,
    ]));
    let seq = MidiSequence::from_bytes(&bytes).unwrap();
    assert_eq!(seq.events[1].at, 250_000);
    assert_eq!(seq.duration, 250_000);
}

#[test]
fn later_tempo_at_same_tick_wins() {
    // two tempo events at tick 0: the later one (250000) must win
    let mut bytes = header(0, 1, 480);
    bytes.extend_from_slice(&track_chunk(&[
        0x00, 0xFF, 0x51, 0x03, 0x07, 0xA1, 0x20, // tempo = 500000
        0x00, 0xFF, 0x51, 0x03, 0x03, 0xD0, 0x90, // tempo = 250000
        0x00, 0x90, 0x3C, 0x64, 0x83, 0x60, 0x80, 0x3C, 0x00,
    ]));
    let seq = MidiSequence::from_bytes(&bytes).unwrap();
    assert_eq!(seq.events[1].at, 250_000);
}

#[test]
fn running_status_reuses_the_last_status_byte() {
    let mut bytes = header(0, 1, 480);
    bytes.extend_from_slice(&track_chunk(&[
        0x00, 0x91, 0x3C, 0x64, // note-on ch1
        0x00, 0x3E, 0x50, // running status: another note-on ch1
    ]));
    let seq = MidiSequence::from_bytes(&bytes).unwrap();
    assert_eq!(seq.events.len(), 2);
    assert_eq!(seq.events[0].data, vec![0x91, 0x3C, 0x64]);
    assert_eq!(seq.events[1].data, vec![0x91, 0x3E, 0x50]);
}

#[test]
fn unknown_chunks_are_skipped() {
    let mut bytes = header(0, 1, 480);
    bytes.extend_from_slice(&[0x58, 0x46, 0x45, 0x52, 0, 0, 0, 2, 0xAA, 0xBB]);
    bytes.extend_from_slice(&track_chunk(&[0x00, 0x90, 0x3C, 0x64]));
    let seq = MidiSequence::from_bytes(&bytes).unwrap();
    assert_eq!(seq.events.len(), 1);
}

#[test]
fn sysex_and_escape_payloads_are_framed() {
    let mut bytes = header(0, 1, 480);
    bytes.extend_from_slice(&track_chunk(&[
        0x00, 0xF0, 0x03, 0x7D, 0x01, 0x02, // sysex without trailing end marker
        0x00, 0xF7, 0x02, 0x41, 0x42, // escape payload
        0x00, 0xF0, 0x02, 0x7D, 0xF7, // sysex already terminated
    ]));
    let seq = MidiSequence::from_bytes(&bytes).unwrap();
    assert_eq!(seq.events.len(), 3);
    let mut datas: Vec<Vec<u8>> = seq.events.iter().map(|e| e.data.clone()).collect();
    datas.sort();
    assert!(datas.contains(&vec![0xF0, 0x7D, 0x01, 0x02, 0xF7]));
    assert!(datas.contains(&vec![0xF7, 0x41, 0x42]));
    assert!(datas.contains(&vec![0xF0, 0x7D, 0xF7]));
}

#[test]
fn equal_ticks_keep_per_track_encounter_order() {
    // three events at tick 0, different lengths: encounter order is kept
    let mut bytes = header(0, 1, 480);
    bytes.extend_from_slice(&track_chunk(&[
        0x00, 0xF0, 0x03, 0x7D, 0x01, 0x02, // long sysex first
        0x00, 0xC0, 0x05, // short program change second
        0x00, 0x90, 0x3C, 0x64, // note-on third
    ]));
    let seq = MidiSequence::from_bytes(&bytes).unwrap();
    assert_eq!(seq.events[0].data, vec![0xF0, 0x7D, 0x01, 0x02, 0xF7]);
    assert_eq!(seq.events[1].data, vec![0xC0, 0x05]);
    assert_eq!(seq.events[2].data, vec![0x90, 0x3C, 0x64]);
}

#[test]
fn two_tracks_merge_by_tick() {
    let mut bytes = header(1, 2, 480);
    bytes.extend_from_slice(&track_chunk(&[0x83, 0x60, 0x90, 0x3C, 0x64])); // tick 480
    bytes.extend_from_slice(&track_chunk(&[0x00, 0x91, 0x40, 0x40])); // tick 0
    let seq = MidiSequence::from_bytes(&bytes).unwrap();
    assert_eq!(seq.events[0].data, vec![0x91, 0x40, 0x40]);
    assert_eq!(seq.events[1].data, vec![0x90, 0x3C, 0x64]);
    assert_eq!(seq.duration, 500_000);
}

#[test]
fn encode_covers_every_channel_voice_message() {
    assert_eq!(
        encode_midi_message(2, &MidiMessage::NoteOff { key: 60, vel: 10 }),
        vec![0x82, 60, 10]
    );
    assert_eq!(
        encode_midi_message(0, &MidiMessage::NoteOn { key: 61, vel: 100 }),
        vec![0x90, 61, 100]
    );
    assert_eq!(
        encode_midi_message(5, &MidiMessage::Aftertouch { key: 1, vel: 2 }),
        vec![0xA5, 1, 2]
    );
    assert_eq!(
        encode_midi_message(15, &MidiMessage::Controller { controller: 7, value: 99 }),
        vec![0xBF, 7, 99]
    );
    assert_eq!(
        encode_midi_message(3, &MidiMessage::ProgramChange { program: 42 }),
        vec![0xC3, 42]
    );
    assert_eq!(
        encode_midi_message(9, &MidiMessage::ChannelAftertouch { vel: 77 }),
        vec![0xD9, 77]
    );
    // 0x2345 = 9029: low seven bits 0x45, high seven bits 0x46
    assert_eq!(
        encode_midi_message(1, &MidiMessage::PitchBend { bend: 0x2345 }),
        vec![0xE1, 0x45, 0x46]
    );
}

#[test]
fn payload_wrappers_add_markers() {
    assert_eq!(sysex_payload(&vec![1, 2]), vec![0xF0, 1, 2, 0xF7]);
    assert_eq!(sysex_payload(&vec![1, 0xF7]), vec![0xF0, 1, 0xF7]);
    assert_eq!(sysex_payload(&vec![]), vec![0xF0, 0xF7]);
    assert_eq!(escape_payload(&vec![9, 8]), vec![0xF7, 9, 8]);
}

#[test]
fn parse_exposes_header_fields() {
    let mut bytes = header(1, 1, 96);
    bytes.extend_from_slice(&track_chunk(&[0x00, 0x90, 0x3C, 0x64]));
    let smf = Smf::parse(&bytes).unwrap();
    assert_eq!(smf.format, SmfFormat::Parallel);
    assert_eq!(smf.timing, Timing::Metrical(96));
    assert_eq!(smf.tracks.len(), 1);
    assert_eq!(smf.tracks[0].len(), 1);
    match &smf.tracks[0][0].kind {
        TrackEventKind::Midi { channel, message } => {
            assert_eq!(*channel, 0);
            assert_eq!(*message, MidiMessage::NoteOn { key: 0x3C, vel: 0x64 });
        }
        other => panic!("unexpected event kind: {other:?}"),
    }
}
