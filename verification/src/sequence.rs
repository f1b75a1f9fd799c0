//! The decoded sequence: every playable event of a file, wire-encoded, merged
//! into one timeline ordered by tick, and stamped with its wall-clock offset.
//!
//! Channel-voice messages become one status byte (message-type nibble plus
//! the channel number) followed by one or two data bytes; a pitch bend's
//! 14-bit value is split into its low seven bits, then its high seven bits.
//! System-exclusive payloads are wrapped with the `0xF0` start marker and a
//! trailing `0xF7` end marker if not already terminated; escape payloads are
//! prefixed with the `0xF7` byte. Events with equal ticks keep their original
//! per-track encounter order.

use vstd::prelude::*;

use crate::errors::FormatError;
use crate::smf::{
    delta_prefix, lemma_delta_prefix_mono, lemma_parse_smf_wf, message_wf, smf_wf,
    spec_header, spec_parse_smf, total_delta, EventKindModel, EventModel, MidiMessage, Smf,
    SmfFormat, SmfModel, Timing, TrackEvent, TrackEventKind,
};
use crate::sorting::{
    insert_ord, lemma_insert_ord_at, lemma_insert_ord_sorted, sort_ord, sorted_ord, total_ord,
    transitive_ord,
};
use crate::tempo::{
    entry_pairs, spec_tempo_pairs, spec_ticks_to_duration_clamped,
    lemma_ticks_to_duration_monotonic, TempoMap,
};

verus! {

/// One scheduled event: wire-encoded protocol bytes and their offset from the
/// sequence start, in microseconds.
#[derive(Debug, Clone, PartialEq, Eq)]
pub struct PlaybackEvent {
    /// Microseconds since the start of the sequence.
    pub at: u64,
    /// Wire-encoded protocol bytes, ready for delivery.
    pub data: Vec<u8>,
}

/// A decoded file: the events in delivery order and the total duration in
/// microseconds (the largest offset; zero when empty).
#[derive(Debug, Clone)]
pub struct MidiSequence {
    pub events: Vec<PlaybackEvent>,
    pub duration: u64,
}

/// Mathematical model of a scheduled event.
#[verifier::ext_equal]
pub struct PlaybackEventModel {
    pub at: nat,
    pub data: Seq<u8>,
}

/// Mathematical model of a decoded sequence.
#[verifier::ext_equal]
pub struct MidiSequenceModel {
    pub events: Seq<PlaybackEventModel>,
    pub duration: nat,
}

impl View for PlaybackEvent {
    type V = PlaybackEventModel;

    open spec fn view(&self) -> PlaybackEventModel {
        PlaybackEventModel { at: self.at as nat, data: self.data@ }
    }
}

impl View for MidiSequence {
    type V = MidiSequenceModel;

    open spec fn view(&self) -> MidiSequenceModel {
        MidiSequenceModel {
            events: self.events@.map_values(|e: PlaybackEvent| e@),
            duration: self.duration as nat,
        }
    }
}

/// The canonical wire bytes of a channel-voice message: the message-type
/// nibble plus the channel as the status byte, then the data bytes; a pitch
/// bend carries its low seven bits, then its high seven bits.
pub open spec fn spec_encode_message(channel: u8, m: MidiMessage) -> Seq<u8> {
    match m {
        MidiMessage::NoteOff { key, vel } => seq![(0x80 + channel) as u8, key, vel],
        MidiMessage::NoteOn { key, vel } => seq![(0x90 + channel) as u8, key, vel],
        MidiMessage::Aftertouch { key, vel } => seq![(0xA0 + channel) as u8, key, vel],
        MidiMessage::Controller { controller, value } => seq![
            (0xB0 + channel) as u8,
            controller,
            value,
        ],
        MidiMessage::ProgramChange { program } => seq![(0xC0 + channel) as u8, program],
        MidiMessage::ChannelAftertouch { vel } => seq![(0xD0 + channel) as u8, vel],
        MidiMessage::PitchBend { bend } => seq![
            (0xE0 + channel) as u8,
            (bend % 0x80) as u8,
            ((bend / 0x80) % 0x80) as u8,
        ],
    }
}

/// Encode a channel-voice message to its canonical wire bytes.
pub fn encode_midi_message(channel: u8, message: &MidiMessage) -> (r: Vec<u8>)
    requires
        channel < 16,
        message_wf(*message),
    ensures
        r@ == spec_encode_message(channel, *message),
{
    match message {
        MidiMessage::NoteOff { key, vel } => {
            let mut r: Vec<u8> = Vec::new();
            r.push(0x80 + channel);
            r.push(*key);
            r.push(*vel);
            proof {
                assert(r@ =~= spec_encode_message(channel, *message));
            }
            r
        },
        MidiMessage::NoteOn { key, vel } => {
            let mut r: Vec<u8> = Vec::new();
            r.push(0x90 + channel);
            r.push(*key);
            r.push(*vel);
            proof {
                assert(r@ =~= spec_encode_message(channel, *message));
            }
            r
        },
        MidiMessage::Aftertouch { key, vel } => {
            let mut r: Vec<u8> = Vec::new();
            r.push(0xA0 + channel);
            r.push(*key);
            r.push(*vel);
            proof {
                assert(r@ =~= spec_encode_message(channel, *message));
            }
            r
        },
        MidiMessage::Controller { controller, value } => {
            let mut r: Vec<u8> = Vec::new();
            r.push(0xB0 + channel);
            r.push(*controller);
            r.push(*value);
            proof {
                assert(r@ =~= spec_encode_message(channel, *message));
            }
            r
        },
        MidiMessage::ProgramChange { program } => {
            let mut r: Vec<u8> = Vec::new();
            r.push(0xC0 + channel);
            r.push(*program);
            proof {
                assert(r@ =~= spec_encode_message(channel, *message));
            }
            r
        },
        MidiMessage::ChannelAftertouch { vel } => {
            let mut r: Vec<u8> = Vec::new();
            r.push(0xD0 + channel);
            r.push(*vel);
            proof {
                assert(r@ =~= spec_encode_message(channel, *message));
            }
            r
        },
        MidiMessage::PitchBend { bend } => {
            let b: u16 = *bend;
            let lsb = (b & 0x7F) as u8;
            let msb = ((b >> 7) & 0x7F) as u8;
            proof {
                assert((b & 0x7F) == b % 0x80 && ((b >> 7) & 0x7F) == (b / 0x80) % 0x80)
                    by (bit_vector);
            }
            let mut r: Vec<u8> = Vec::new();
            r.push(0xE0 + channel);
            r.push(lsb);
            r.push(msb);
            proof {
                assert(r@ =~= spec_encode_message(channel, *message));
            }
            r
        },
    }
}

/// A system-exclusive payload wrapped for the wire: the `0xF0` start marker,
/// the payload, and a trailing `0xF7` end marker if not already terminated.
pub open spec fn spec_sysex_payload(data: Seq<u8>) -> Seq<u8> {
    if data.len() > 0 && data.last() == 0xF7 {
        seq![0xF0u8] + data
    } else {
        seq![0xF0u8] + data + seq![0xF7u8]
    }
}

/// Wrap a system-exclusive payload for the wire.
pub fn sysex_payload(data: &Vec<u8>) -> (r: Vec<u8>)
    ensures
        r@ == spec_sysex_payload(data@),
{
    let mut r: Vec<u8> = Vec::new();
    r.push(0xF0);
    r.extend_from_slice(data.as_slice());
    if data.len() == 0 || data[data.len() - 1] != 0xF7 {
        r.push(0xF7);
        proof {
            assert(r@ =~= seq![0xF0u8] + data@ + seq![0xF7u8]);
        }
    } else {
        proof {
            assert(r@ =~= seq![0xF0u8] + data@);
        }
    }
    r
}

/// An escape payload prefixed for the wire with the `0xF7` byte.
pub open spec fn spec_escape_payload(data: Seq<u8>) -> Seq<u8> {
    seq![0xF7u8] + data
}

/// Prefix an escape payload for the wire.
pub fn escape_payload(data: &Vec<u8>) -> (r: Vec<u8>)
    ensures
        r@ == spec_escape_payload(data@),
{
    let mut r: Vec<u8> = Vec::new();
    r.push(0xF7);
    r.extend_from_slice(data.as_slice());
    proof {
        assert(r@ =~= seq![0xF7u8] + data@);
    }
    r
}

/// The wire bytes of one track event, if it is playable.
pub open spec fn spec_event_data(ev: EventModel) -> Option<Seq<u8>> {
    match ev.kind {
        EventKindModel::Midi { channel, message } => Some(spec_encode_message(channel, message)),
        EventKindModel::SysEx(data) => Some(spec_sysex_payload(data)),
        EventKindModel::Escape(data) => Some(spec_escape_payload(data)),
        _ => None,
    }
}

/// The playable events of one track from event `k` on, as pairs of absolute
/// tick and wire bytes, given the ticks accumulated so far.
pub open spec fn raws_from(track: Seq<EventModel>, k: int, tick: nat) -> Seq<(nat, Seq<u8>)>
    decreases track.len() - k,
{
    if k < 0 || k >= track.len() {
        Seq::empty()
    } else {
        let tick2 = tick + track[k].delta;
        (match spec_event_data(track[k]) {
            Some(data) => seq![(tick2, data)],
            None => Seq::empty(),
        }) + raws_from(track, k + 1, tick2)
    }
}

/// The playable events of one track, with absolute ticks.
pub open spec fn track_raws(track: Seq<EventModel>) -> Seq<(nat, Seq<u8>)> {
    raws_from(track, 0, 0)
}

/// The playable events of every track, in track order.
pub open spec fn all_raws(tracks: Seq<Seq<EventModel>>) -> Seq<(nat, Seq<u8>)>
    decreases tracks.len(),
{
    if tracks.len() == 0 {
        Seq::empty()
    } else {
        all_raws(tracks.drop_last()) + track_raws(tracks.last())
    }
}

/// The ordering of raw events: by tick.
pub open spec fn raw_le() -> spec_fn((nat, Seq<u8>), (nat, Seq<u8>)) -> bool {
    |a: (nat, Seq<u8>), b: (nat, Seq<u8>)| a.0 <= b.0
}

/// All playable events merged into one timeline: a stable sort by tick, so
/// events with equal ticks keep their per-track encounter order.
pub open spec fn spec_sorted_raws(tracks: Seq<Seq<EventModel>>) -> Seq<(nat, Seq<u8>)> {
    sort_ord(all_raws(tracks), raw_le())
}

/// The largest offset of any event; zero when there is none.
pub open spec fn spec_max_at(events: Seq<PlaybackEventModel>) -> nat
    decreases events.len(),
{
    if events.len() == 0 {
        0
    } else if events.last().at >= spec_max_at(events.drop_last()) {
        events.last().at
    } else {
        spec_max_at(events.drop_last())
    }
}

/// Whether a file can be decoded at all: metrical timing with a non-zero
/// resolution, and a format whose tracks form one simultaneous performance.
pub open spec fn spec_decodable(m: SmfModel) -> bool {
    &&& m.timing matches Timing::Metrical(p) && p >= 1
    &&& m.format != SmfFormat::Sequential
}

/// The ticks-per-quarter-note resolution of a decodable file.
pub open spec fn spec_ppq(m: SmfModel) -> nat {
    m.timing->Metrical_0 as nat
}

/// The decoded sequence of a decodable file: every playable event,
/// wire-encoded, merged by tick, and converted to a microsecond offset
/// through the tempo map.
pub open spec fn spec_sequence(m: SmfModel) -> MidiSequenceModel {
    let tempos = spec_tempo_pairs(m.tracks);
    let events = spec_sorted_raws(m.tracks).map_values(
        |p: (nat, Seq<u8>)|
            PlaybackEventModel {
                at: spec_ticks_to_duration_clamped(tempos, spec_ppq(m), p.0),
                data: p.1,
            },
    );
    MidiSequenceModel { events, duration: spec_max_at(events) }
}

impl MidiSequence {
    /// A valid sequence: events sorted by offset ascending (so events with
    /// equal offsets are adjacent), and the duration is the largest offset,
    /// zero when empty.
    pub open spec fn wf(&self) -> bool {
        &&& forall|i: int, j: int|
            0 <= i < j < self.events@.len() ==> (#[trigger] self.events@[i]).at <= (
            #[trigger] self.events@[j]).at
        &&& self.duration as nat == spec_max_at(self@.events)
    }
}

/// A raw event: wire bytes at an absolute tick, before time conversion.
struct RawEvent {
    tick: u64,
    data: Vec<u8>,
}

/// The mathematical model of a raw event list.
spec fn raw_pairs(v: Seq<RawEvent>) -> Seq<(nat, Seq<u8>)> {
    v.map_values(|r: RawEvent| (r.tick as nat, r.data@))
}

proof fn lemma_raw_le_props()
    ensures
        total_ord::<(nat, Seq<u8>)>(raw_le()),
        transitive_ord::<(nat, Seq<u8>)>(raw_le()),
{
    assert forall|a: (nat, Seq<u8>), b: (nat, Seq<u8>)| #[trigger]
        raw_le()(a, b) || #[trigger] raw_le()(b, a) by {
        if a.0 <= b.0 {
            assert(raw_le()(a, b));
        } else {
            assert(raw_le()(b, a));
        }
    }
    assert forall|a: (nat, Seq<u8>), b: (nat, Seq<u8>), c: (nat, Seq<u8>)| #[trigger]
        raw_le()(a, b) && #[trigger] raw_le()(b, c) implies raw_le()(a, c) by {
        assert(a.0 <= b.0 <= c.0);
    }
}

/// Insert a raw event into a tick-sorted list, after every event at or before
/// its tick, keeping the list sorted (the stable-merge step).
fn insert_raw(sorted: &mut Vec<RawEvent>, x: RawEvent)
    requires
        sorted_ord(raw_pairs(old(sorted)@), raw_le()),
    ensures
        raw_pairs(final(sorted)@) == insert_ord(
            raw_pairs(old(sorted)@),
            (x.tick as nat, x.data@),
            raw_le(),
        ),
        sorted_ord(raw_pairs(final(sorted)@), raw_le()),
{
    let ghost old_pairs = raw_pairs(sorted@);
    let ghost xp = (x.tick as nat, x.data@);
    let mut j: usize = sorted.len();
    while j > 0 && sorted[j - 1].tick > x.tick
        invariant
            j <= sorted@.len(),
            raw_pairs(sorted@) == old_pairs,
            forall|m: int|
                j <= m < sorted@.len() ==> (#[trigger] raw_pairs(sorted@)[m]).0 > x.tick as nat,
        decreases j,
    {
        proof {
            assert(raw_pairs(sorted@)[j - 1].0 == sorted@[j - 1].tick as nat);
        }
        j = j - 1;
    }
    proof {
        lemma_raw_le_props();
        assert forall|m: int| j <= m < old_pairs.len() implies !raw_le()(
            #[trigger] old_pairs[m],
            xp,
        ) by {
            assert(old_pairs[m].0 > x.tick as nat);
        }
        if j > 0 {
            assert(old_pairs[j - 1].0 == sorted@[j - 1].tick as nat);
            assert(raw_le()(old_pairs[j - 1], xp));
        }
        lemma_insert_ord_at(old_pairs, xp, raw_le(), j as int);
        lemma_insert_ord_sorted(old_pairs, xp, raw_le());
    }
    sorted.insert(j, x);
    proof {
        assert(raw_pairs(sorted@) =~= old_pairs.subrange(0, j as int) + seq![xp]
            + old_pairs.subrange(j as int, old_pairs.len() as int));
    }
}

impl MidiSequence {
    /// Decode a parsed file into a playable sequence.
    ///
    /// Fails when the file uses timecode timing, a zero tick resolution, or
    /// the independent-sequential-tracks format variant; otherwise the result
    /// is exactly [`spec_sequence`]: every playable event wire-encoded,
    /// merged by tick with per-track encounter order kept on ties, stamped
    /// with its microsecond offset through the tempo map, and the duration
    /// set to the largest offset.
    #[verifier::rlimit(80)]
    pub fn from_smf(smf: &Smf) -> (r: Result<MidiSequence, FormatError>)
        requires
            smf_wf(smf@),
        ensures
            match r {
                Ok(s) => spec_decodable(smf@) && s@ == spec_sequence(smf@) && s.wf(),
                Err(_) => !spec_decodable(smf@),
            },
    {
        let ghost m = smf@;
        let ppq_raw: u16 = match smf.timing {
            Timing::Metrical(p) => p,
            Timing::Timecode(_, _) => {
                return Err(FormatError);
            },
        };
        if ppq_raw == 0 {
            return Err(FormatError);
        }
        if smf.format == SmfFormat::Sequential {
            return Err(FormatError);
        }
        let ppq = ppq_raw as u32;
        let tm = TempoMap::from_smf(smf, ppq);
        let ghost tempos = spec_tempo_pairs(m.tracks);

        // First pass is inside `TempoMap::from_smf`; second pass: collect
        // every playable event, inserting it straight into its tick-sorted
        // position (equal ticks keep encounter order).
        let mut sorted: Vec<RawEvent> = Vec::new();
        let ghost mut collected: Seq<(nat, Seq<u8>)> = Seq::empty();
        let mut ti: usize = 0;
        proof {
            assert(m.tracks.take(0) =~= Seq::<Seq<EventModel>>::empty());
            assert(raw_pairs(sorted@) =~= Seq::<(nat, Seq<u8>)>::empty());
        }
        while ti < smf.tracks.len()
            invariant
                ti <= smf.tracks@.len(),
                m == smf@,
                smf_wf(m),
                collected == all_raws(m.tracks.take(ti as int)),
                raw_pairs(sorted@) == sort_ord(collected, raw_le()),
                sorted_ord(raw_pairs(sorted@), raw_le()),
            decreases smf.tracks@.len() - ti,
        {
            let track = &smf.tracks[ti];
            let ghost tmodel = m.tracks[ti as int];
            let mut tick: u64 = 0;
            let mut k: usize = 0;
            proof {
                assert(tmodel == track@.map_values(|e: TrackEvent| e@));
            }
            while k < track.len()
                invariant
                    k <= track@.len(),
                    m == smf@,
                    smf_wf(m),
                    ti < m.tracks.len(),
                    track == &smf.tracks[ti as int],
                    tmodel == m.tracks[ti as int],
                    tmodel == track@.map_values(|e: TrackEvent| e@),
                    tick as nat == delta_prefix(tmodel, k as int),
                    collected + raws_from(tmodel, k as int, tick as nat) == all_raws(
                        m.tracks.take(ti as int),
                    ) + track_raws(tmodel),
                    raw_pairs(sorted@) == sort_ord(collected, raw_le()),
                    sorted_ord(raw_pairs(sorted@), raw_le()),
                decreases track@.len() - k,
            {
                let ghost old_collected = collected;
                let ghost old_tick = tick as nat;
                proof {
                    assert(tmodel[k as int] == track@[k as int]@);
                    lemma_delta_prefix_mono(tmodel, k + 1, tmodel.len() as int);
                    assert(total_delta(tmodel) < 0x1000000000000000);
                    assert(delta_prefix(tmodel, k + 1) == delta_prefix(tmodel, k as int)
                        + tmodel[k as int].delta);
                }
                let ev = &track[k];
                tick = tick + ev.delta as u64;
                let data: Option<Vec<u8>> = match &ev.kind {
                    TrackEventKind::Midi { channel, message } => {
                        proof {
                            assert(crate::smf::event_wf(tmodel[k as int]));
                        }
                        Some(encode_midi_message(*channel, message))
                    },
                    TrackEventKind::SysEx(d) => Some(sysex_payload(d)),
                    TrackEventKind::Escape(d) => Some(escape_payload(d)),
                    TrackEventKind::Tempo(_) => None,
                    TrackEventKind::Other => None,
                };
                match data {
                    Some(data) => {
                        let ghost p = (tick as nat, data@);
                        proof {
                            assert(spec_event_data(tmodel[k as int]) == Some(data@));
                            assert(raws_from(tmodel, k as int, old_tick) == seq![p] + raws_from(
                                tmodel,
                                k + 1,
                                tick as nat,
                            ));
                        }
                        insert_raw(&mut sorted, RawEvent { tick, data });
                        proof {
                            assert(collected.push(p).drop_last() =~= collected);
                            assert(collected.push(p).last() == p);
                            assert(sort_ord(collected.push(p), raw_le()) == insert_ord(
                                sort_ord(collected, raw_le()),
                                p,
                                raw_le(),
                            ));
                            collected = collected.push(p);
                            assert(old_collected + (seq![p] + raws_from(tmodel, k + 1, tick as nat))
                                =~= collected + raws_from(tmodel, k + 1, tick as nat));
                        }
                    },
                    None => {
                        proof {
                            assert(spec_event_data(tmodel[k as int]) is None);
                            assert(raws_from(tmodel, k as int, old_tick) == raws_from(
                                tmodel,
                                k + 1,
                                tick as nat,
                            ));
                        }
                    },
                }
                k = k + 1;
            }
            proof {
                assert(raws_from(tmodel, track@.len() as int, tick as nat) =~= Seq::<
                    (nat, Seq<u8>),
                >::empty());
                assert(collected + Seq::<(nat, Seq<u8>)>::empty() =~= collected);
                assert(m.tracks.take(ti + 1).drop_last() =~= m.tracks.take(ti as int));
                assert(m.tracks.take(ti + 1).last() == tmodel);
                assert(all_raws(m.tracks.take(ti + 1)) == all_raws(m.tracks.take(ti as int))
                    + track_raws(tmodel));
            }
            ti = ti + 1;
        }
        proof {
            assert(m.tracks.take(m.tracks.len() as int) =~= m.tracks);
            assert(raw_pairs(sorted@) == spec_sorted_raws(m.tracks));
            assert(spec_ppq(m) == ppq as nat);
        }

        // Convert ticks to wall-clock offsets and track the largest offset.
        let ghost all = raw_pairs(sorted@);
        let ghost target = spec_sequence(m).events;
        proof {
            assert(target.len() == all.len());
        }
        let mut events: Vec<PlaybackEvent> = Vec::new();
        let mut duration: u64 = 0;
        let mut sorted = sorted;
        proof {
            assert(all.skip(0) =~= all);
            assert(target.take(0) =~= Seq::<PlaybackEventModel>::empty());
            assert(events@.map_values(|e: PlaybackEvent| e@) =~= Seq::<PlaybackEventModel>::empty());
        }
        while sorted.len() > 0
            invariant
                m == smf@,
                tm.wf(),
                entry_pairs(tm.entries@) == tempos,
                tempos == spec_tempo_pairs(m.tracks),
                tm.ppq == ppq,
                spec_ppq(m) == ppq as nat,
                target == spec_sequence(m).events,
                all == spec_sorted_raws(m.tracks),
                target.len() == all.len(),
                events@.len() + sorted@.len() == all.len(),
                raw_pairs(sorted@) == all.skip(events@.len() as int),
                events@.map_values(|e: PlaybackEvent| e@) == target.take(events@.len() as int),
                duration as nat == spec_max_at(target.take(events@.len() as int)),
            decreases sorted@.len(),
        {
            let ghost done = events@.len() as int;
            let ghost pre = sorted@;
            let raw = sorted.remove(0);
            proof {
                assert(raw == pre[0]);
                assert(raw_pairs(pre)[0] == (raw.tick as nat, raw.data@));
                assert(raw_pairs(pre) == all.skip(done));
                assert((raw.tick as nat, raw.data@) == all[done]);
                assert(sorted@ =~= pre.subrange(1, pre.len() as int));
                assert forall|x: int| 0 <= x < sorted@.len() implies raw_pairs(sorted@)[x] == all[done + 1 + x] by {
                    assert(sorted@[x] == pre[x + 1]);
                    assert(raw_pairs(pre)[x + 1] == all.skip(done)[x + 1]);
                }
                assert(raw_pairs(sorted@) =~= all.skip(done + 1));
                assert(target[done] == PlaybackEventModel {
                    at: spec_ticks_to_duration_clamped(tempos, spec_ppq(m), all[done].0),
                    data: all[done].1,
                });
            }
            let at = tm.ticks_to_duration(raw.tick);
            events.push(PlaybackEvent { at, data: raw.data });
            if at > duration {
                duration = at;
            }
            proof {
                assert(events@.map_values(|e: PlaybackEvent| e@) =~= target.take(done).push(
                    target[done],
                ));
                assert(target.take(done + 1).drop_last() =~= target.take(done));
                assert(target.take(done + 1).last() == target[done]);
                assert(events@.map_values(|e: PlaybackEvent| e@) =~= target.take(done + 1));
            }
        }
        proof {
            assert(target.take(target.len() as int) =~= target);
        }
        let s = MidiSequence { events, duration };
        proof {
            assert(s@.events == target);
            // offsets are sorted because ticks are and the conversion is monotone
            assert forall|i: int, j: int|
                0 <= i < j < s.events@.len() implies (#[trigger] s.events@[i]).at <= (
            #[trigger] s.events@[j]).at by {
                assert(sorted_ord(all, raw_le())) by {
                    assert(all == spec_sorted_raws(m.tracks));
                    lemma_raw_le_props();
                    crate::sorting::lemma_sort_ord_sorted(all_raws(m.tracks), raw_le());
                }
                assert(raw_le()(all[i], all[j]));
                assert(all[i].0 <= all[j].0);
                lemma_ticks_to_duration_monotonic(tempos, ppq as nat, all[i].0, all[j].0);
                assert(s.events@[i]@ == target[i]);
                assert(s.events@[j]@ == target[j]);
            }
        }
        Ok(s)
    }

    /// Decode raw file bytes: parse the container, then build the sequence.
    ///
    /// Fails exactly when the byte grammar rejects the file or the header
    /// declares timecode timing, a zero resolution, or the
    /// independent-sequential-tracks format variant. In particular, a file
    /// whose header declares the sequential format, or timecode timing, is
    /// always rejected.
    pub fn from_bytes(bytes: &[u8]) -> (r: Result<MidiSequence, FormatError>)
        ensures
            match r {
                Ok(s) => spec_parse_smf(bytes@) matches Some(m) && spec_decodable(m) && s@
                    == spec_sequence(m) && s.wf(),
                Err(_) => spec_parse_smf(bytes@) is None || !spec_decodable(
                    spec_parse_smf(bytes@)->0,
                ),
            },
            (spec_header(bytes@) matches Some((f, t, i)) && f == SmfFormat::Sequential) ==> r
                is Err,
            (spec_header(bytes@) matches Some((f, t, i)) && t is Timecode) ==> r is Err,
    {
        proof {
            lemma_parse_smf_wf(bytes@);
        }
        match Smf::parse(bytes) {
            Err(e) => Err(e),
            Ok(smf) => MidiSequence::from_smf(&smf),
        }
    }
}

} // verus!
