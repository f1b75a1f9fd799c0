//! The tempo map's tick-to-time conversion.

use midi_piano::smf::{Smf, SmfFormat, Timing, TrackEvent, TrackEventKind};
use midi_piano::tempo::{segment_duration, TempoEntry, TempoMap};

fn tempo_event(delta: u32, micros_per_quarter: u32) -> TrackEvent {
    TrackEvent { delta, kind: TrackEventKind::Tempo(micros_per_quarter) }
}

fn smf_with_track(track: Vec<TrackEvent>) -> Smf {
    Smf { format: SmfFormat::Single, timing: Timing::Metrical(480), tracks: vec![track] }
}

#[test]
fn segment_duration_is_micros_per_quarter_times_ticks_over_ppq() {
    assert_eq!(segment_duration(500_000, 480, 480), 500_000);
    assert_eq!(segment_duration(500_000, 240, 480), 250_000);
    assert_eq!(segment_duration(500_000, 0, 480), 0);
    // integer division rounds down
    assert_eq!(segment_duration(500_000, 1, 480), 1041);
}

#[test]
fn default_tempo_is_120_bpm() {
    let tm = TempoMap::from_smf(&smf_with_track(vec![]), 480);
    assert_eq!(tm.ticks_to_duration(0), 0);
    assert_eq!(tm.ticks_to_duration(480), 500_000);
    assert_eq!(tm.ticks_to_duration(960), 1_000_000);
}

#[test]
fn conversion_is_piecewise_across_tempo_changes() {
    // default 500000 up to tick 480, then 250000 from tick 480 on
    let tm = TempoMap::from_smf(&smf_with_track(vec![tempo_event(480, 250_000)]), 480);
    assert_eq!(tm.ticks_to_duration(480), 500_000);
    assert_eq!(tm.ticks_to_duration(720), 625_000);
    assert_eq!(tm.ticks_to_duration(960), 750_000);
}

#[test]
fn a_tempo_at_tick_zero_replaces_the_default() {
    let tm = TempoMap::from_smf(&smf_with_track(vec![tempo_event(0, 250_000)]), 480);
    assert_eq!(tm.ticks_to_duration(480), 250_000);
    assert_eq!(tm.entries.len(), 1);
    assert_eq!(tm.entries[0].micros_per_quarter, 250_000);
}

#[test]
fn tempos_merge_across_tracks_sorted_by_tick() {
    let smf = Smf {
        format: SmfFormat::Parallel,
        timing: Timing::Metrical(480),
        tracks: vec![
            vec![tempo_event(960, 100_000)],
            vec![tempo_event(480, 250_000)],
        ],
    };
    let tm = TempoMap::from_smf(&smf, 480);
    assert_eq!(tm.entries.len(), 3);
    assert_eq!(tm.entries[0].tick, 0);
    assert_eq!(tm.entries[1].tick, 480);
    assert_eq!(tm.entries[1].micros_per_quarter, 250_000);
    assert_eq!(tm.entries[2].tick, 960);
    assert_eq!(tm.entries[2].micros_per_quarter, 100_000);
}

#[test]
fn conversion_clamps_at_the_64_bit_limit() {
    let tm = TempoMap {
        entries: vec![TempoEntry { tick: 0, micros_per_quarter: u32::MAX }],
        ppq: 1,
    };
    assert_eq!(tm.ticks_to_duration(u64::MAX), u64::MAX);
}

#[test]
fn conversion_never_decreases_as_ticks_grow() {
    let tm = TempoMap::from_smf(
        &smf_with_track(vec![tempo_event(100, 1), tempo_event(400, 750_000)]),
        480,
    );
    let mut last = 0u64;
    let mut t = 0u64;
    while t < 2000 {
        let d = tm.ticks_to_duration(t);
        assert!(d >= last);
        last = d;
        t += 37;
    }
}
