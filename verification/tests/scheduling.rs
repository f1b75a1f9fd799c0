//! The playback scheduler: session lifecycle, batching, and throttling.

use midi_piano::player::{
    completion_events, delivery_plan, error_events, should_report_progress, MidiPlayer,
    PlayerEvent,
};
use midi_piano::sequence::{MidiSequence, PlaybackEvent};
use midi_piano::sink::pack_ble_midi_message;

fn ev(at: u64, data: &[u8]) -> PlaybackEvent {
    PlaybackEvent { at, data: data.to_vec() }
}

fn seq_of(events: Vec<PlaybackEvent>) -> MidiSequence {
    let duration = events.iter().map(|e| e.at).max().unwrap_or(0);
    MidiSequence { events, duration }
}

#[test]
fn empty_sequence_is_rejected_and_emits_nothing() {
    let mut player = MidiPlayer::new();
    let empty = MidiSequence { events: Vec::new(), duration: 0 };
    assert!(player.start_playback(&empty).is_err());
    // nothing was started: a stop finds no active session and emits nothing
    assert_eq!(player.stop(), Vec::<PlayerEvent>::new());
}

#[test]
fn start_emits_started_then_initial_progress() {
    let mut player = MidiPlayer::new();
    let seq = seq_of(vec![ev(0, &[0x90, 60, 100])]);
    let start = player.start_playback(&seq).unwrap();
    assert_eq!(
        start.emit,
        vec![
            PlayerEvent::Started { total: 0 },
            PlayerEvent::Progress { elapsed: 0, total: 0 },
        ]
    );
    assert_eq!(start.total, 0);
}

#[test]
fn stop_emits_one_stopped_before_the_next_start() {
    let mut player = MidiPlayer::new();
    let seq = seq_of(vec![ev(0, &[0x90, 60, 100]), ev(1000, &[0x80, 60, 0])]);
    let first = player.start_playback(&seq).unwrap();
    assert!(!first.emit.contains(&PlayerEvent::Stopped));

    let stopped = player.stop();
    assert_eq!(stopped, vec![PlayerEvent::Stopped]);

    let second = player.start_playback(&seq).unwrap();
    assert_eq!(second.emit[0], PlayerEvent::Started { total: 1000 });
    assert!(!second.emit.contains(&PlayerEvent::Stopped));
    assert!(second.session > first.session);

    // a second stop finds no session
    player.stop();
    assert_eq!(player.stop(), Vec::<PlayerEvent>::new());
}

#[test]
fn starting_over_an_active_session_supersedes_it() {
    let mut player = MidiPlayer::new();
    let seq = seq_of(vec![ev(0, &[0x90, 60, 100])]);
    player.start_playback(&seq).unwrap();
    let second = player.start_playback(&seq).unwrap();
    // exactly one Stopped, strictly before the new session's Started
    assert_eq!(
        second.emit,
        vec![
            PlayerEvent::Stopped,
            PlayerEvent::Started { total: 0 },
            PlayerEvent::Progress { elapsed: 0, total: 0 },
        ]
    );
}

#[test]
fn equal_offsets_form_exactly_one_batch() {
    let events = vec![
        ev(0, &[1]),
        ev(0, &[2]),
        ev(0, &[3]),
        ev(500_000, &[4]),
        ev(500_000, &[5]),
        ev(700_000, &[6]),
    ];
    let plan = delivery_plan(&events);
    assert_eq!(plan.len(), 3);
    assert_eq!(plan[0].at, 0);
    assert_eq!(plan[0].payloads, vec![vec![1], vec![2], vec![3]]);
    assert_eq!(plan[1].at, 500_000);
    assert_eq!(plan[1].payloads, vec![vec![4], vec![5]]);
    assert_eq!(plan[2].at, 700_000);
    assert_eq!(plan[2].payloads, vec![vec![6]]);
}

#[test]
fn plan_of_nothing_is_empty() {
    assert_eq!(delivery_plan(&Vec::new()).len(), 0);
}

#[test]
fn progress_is_throttled_to_the_step() {
    assert!(should_report_progress(100_000, 0, 10_000_000));
    assert!(!should_report_progress(99_999, 0, 10_000_000));
    assert!(should_report_progress(250_000, 150_000, 10_000_000));
    assert!(!should_report_progress(249_999, 150_000, 10_000_000));
    // the final event always reports
    assert!(should_report_progress(10_000_000, 9_999_999, 10_000_000));
}

#[test]
fn completion_reports_the_total_then_finished() {
    assert_eq!(
        completion_events(1_234),
        vec![
            PlayerEvent::Progress { elapsed: 1_234, total: 1_234 },
            PlayerEvent::Finished,
        ]
    );
}

#[test]
fn a_delivery_failure_reports_one_error_event() {
    assert_eq!(
        error_events("the wire came loose".to_string()),
        vec![PlayerEvent::Error("the wire came loose".to_string())]
    );
}

#[test]
fn wireless_frames_prepend_the_zero_offset_header() {
    assert_eq!(pack_ble_midi_message(&[0x90, 60, 100]), vec![0x80, 0x90, 60, 100]);
    assert_eq!(pack_ble_midi_message(&[]), vec![0x80]);
}
