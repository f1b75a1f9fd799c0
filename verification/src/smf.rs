//! Standard MIDI file container: the data model and the byte-level grammar.
//!
//! A file is one `MThd` header chunk followed by a sequence of chunks; `MTrk`
//! chunks hold track events, any other chunk is skipped. Track events carry a
//! variable-length delta time and one of: a tempo meta event, a channel-voice
//! message, a system-exclusive payload, an escape payload, or anything else
//! (kept only as a tick-advancing placeholder).
//!
//! The spec functions in this module define the grammar over `Seq<u8>`; the
//! executable parser is proved to return exactly what the grammar yields.

use vstd::prelude::*;

use crate::errors::FormatError;

verus! {

/// The container's format variant.
#[derive(Debug, Clone, Copy, PartialEq, Eq, Structural)]
pub enum SmfFormat {
    /// Format 0: a single multi-channel track.
    Single,
    /// Format 1: simultaneous tracks of one performance.
    Parallel,
    /// Format 2: independent sequential tracks (not playable by this core).
    Sequential,
}

/// The header's timing mode.
#[derive(Debug, Clone, Copy, PartialEq, Eq, Structural)]
pub enum Timing {
    /// Metrical timing: ticks per quarter note.
    Metrical(u16),
    /// Timecode timing: frames per second and subframe resolution
    /// (not playable by this core).
    Timecode(u8, u8),
}

/// A channel-voice message, with 7-bit data values (14-bit for pitch bend).
#[derive(Debug, Clone, Copy, PartialEq, Eq, Structural)]
pub enum MidiMessage {
    NoteOff { key: u8, vel: u8 },
    NoteOn { key: u8, vel: u8 },
    Aftertouch { key: u8, vel: u8 },
    Controller { controller: u8, value: u8 },
    ProgramChange { program: u8 },
    ChannelAftertouch { vel: u8 },
    PitchBend { bend: u16 },
}

/// What one track event carries.
#[derive(Debug, Clone, PartialEq, Eq)]
pub enum TrackEventKind {
    /// A tempo meta event: microseconds per quarter note (24 bits).
    Tempo(u32),
    /// A channel-voice message on the given channel (0..=15).
    Midi { channel: u8, message: MidiMessage },
    /// A system-exclusive payload: the bytes after the `0xF0` status.
    SysEx(Vec<u8>),
    /// An escape payload: the bytes after the `0xF7` status.
    Escape(Vec<u8>),
    /// Any other event (other meta events); only its delta time matters.
    Other,
}

/// One track event: a delta time in ticks and its kind.
#[derive(Debug, Clone, PartialEq, Eq)]
pub struct TrackEvent {
    pub delta: u32,
    pub kind: TrackEventKind,
}

/// A parsed file: header fields and the events of every `MTrk` chunk.
#[derive(Debug, Clone)]
pub struct Smf {
    pub format: SmfFormat,
    pub timing: Timing,
    pub tracks: Vec<Vec<TrackEvent>>,
}

/// Mathematical model of a track event kind.
pub enum EventKindModel {
    Tempo(nat),
    Midi { channel: u8, message: MidiMessage },
    SysEx(Seq<u8>),
    Escape(Seq<u8>),
    Other,
}

/// Mathematical model of a track event.
pub struct EventModel {
    pub delta: nat,
    pub kind: EventKindModel,
}

/// Mathematical model of a parsed file.
pub struct SmfModel {
    pub format: SmfFormat,
    pub timing: Timing,
    pub tracks: Seq<Seq<EventModel>>,
}

impl View for TrackEventKind {
    type V = EventKindModel;

    open spec fn view(&self) -> EventKindModel {
        match self {
            TrackEventKind::Tempo(t) => EventKindModel::Tempo(*t as nat),
            TrackEventKind::Midi { channel, message } => EventKindModel::Midi {
                channel: *channel,
                message: *message,
            },
            TrackEventKind::SysEx(data) => EventKindModel::SysEx(data@),
            TrackEventKind::Escape(data) => EventKindModel::Escape(data@),
            TrackEventKind::Other => EventKindModel::Other,
        }
    }
}

impl View for TrackEvent {
    type V = EventModel;

    open spec fn view(&self) -> EventModel {
        EventModel { delta: self.delta as nat, kind: self.kind@ }
    }
}

impl View for Smf {
    type V = SmfModel;

    open spec fn view(&self) -> SmfModel {
        SmfModel {
            format: self.format,
            timing: self.timing,
            tracks: self.tracks@.map_values(|t: Vec<TrackEvent>| t@.map_values(|e: TrackEvent| e@)),
        }
    }
}

/// A big-endian 16-bit value at index `i`.
pub open spec fn be16(b: Seq<u8>, i: int) -> nat {
    (b[i] as nat) * 0x100 + (b[i + 1] as nat)
}

/// A big-endian 32-bit value at index `i`.
pub open spec fn be32(b: Seq<u8>, i: int) -> nat {
    (b[i] as nat) * 0x1000000 + (b[i + 1] as nat) * 0x10000 + (b[i + 2] as nat) * 0x100 + (b[i
        + 3] as nat)
}

/// A variable-length quantity read at `i` with `budget` bytes still allowed
/// (at most four in total): continuation bytes have the high bit set, and the
/// seven low bits of each byte extend the accumulator.
pub open spec fn spec_vlq_at(b: Seq<u8>, i: int, end: int, acc: nat, budget: nat) -> Option<
    (nat, int),
>
    decreases budget,
{
    if budget == 0 || i < 0 || i >= end || end > b.len() {
        None
    } else {
        let acc2 = acc * 0x80 + (b[i] as nat) % 0x80;
        if b[i] < 0x80 {
            Some((acc2, i + 1))
        } else {
            spec_vlq_at(b, i + 1, end, acc2, (budget - 1) as nat)
        }
    }
}

/// A variable-length quantity at `i`: the value and the index after it.
pub open spec fn spec_vlq(b: Seq<u8>, i: int, end: int) -> Option<(nat, int)> {
    spec_vlq_at(b, i, end, 0, 4)
}

/// How many data bytes the channel-voice message with status nibble `hi`
/// carries: one for program change and channel aftertouch, two otherwise.
pub open spec fn spec_data_count(hi: nat) -> nat {
    if hi == 0xC || hi == 0xD {
        1
    } else {
        2
    }
}

/// The channel-voice message with status byte `status` and data bytes at
/// `i`: `None` when the data is missing or a data byte has its high bit set.
pub open spec fn spec_channel_message(b: Seq<u8>, i: int, end: int, status: u8) -> Option<
    (EventKindModel, int),
> {
    let hi = (status as nat) / 16;
    let channel = ((status as nat) % 16) as u8;
    let n = spec_data_count(hi);
    if i + n > end {
        None
    } else if b[i] >= 0x80 || (n == 2 && b[i + 1] >= 0x80) {
        None
    } else {
        let d0 = b[i];
        let message = if hi == 0x8 {
            Some(MidiMessage::NoteOff { key: d0, vel: b[i + 1] })
        } else if hi == 0x9 {
            Some(MidiMessage::NoteOn { key: d0, vel: b[i + 1] })
        } else if hi == 0xA {
            Some(MidiMessage::Aftertouch { key: d0, vel: b[i + 1] })
        } else if hi == 0xB {
            Some(MidiMessage::Controller { controller: d0, value: b[i + 1] })
        } else if hi == 0xC {
            Some(MidiMessage::ProgramChange { program: d0 })
        } else if hi == 0xD {
            Some(MidiMessage::ChannelAftertouch { vel: d0 })
        } else if hi == 0xE {
            Some(
                MidiMessage::PitchBend {
                    bend: ((d0 as nat) + (b[i + 1] as nat) * 0x80) as u16,
                },
            )
        } else {
            None
        };
        match message {
            Some(m) => Some((EventKindModel::Midi { channel, message: m }, i + n)),
            None => None,
        }
    }
}

/// The event body at `i` (after the delta time): the kind, the index after
/// the event, and the running status after it. Meta, system-exclusive and
/// escape events cancel running status; a data byte in status position reuses
/// the running status.
pub open spec fn spec_event_body(b: Seq<u8>, i: int, end: int, running: Option<u8>) -> Option<
    (EventKindModel, int, Option<u8>),
> {
    if i >= end {
        None
    } else {
        let s = b[i];
        if s == 0xFF {
            // Meta event: type byte, length, data.
            if i + 2 > end {
                None
            } else {
                let ty = b[i + 1];
                match spec_vlq(b, i + 2, end) {
                    None => None,
                    Some((len, j)) => if j + len > end {
                        None
                    } else if ty == 0x51 {
                        if len == 3 {
                            Some(
                                (
                                    EventKindModel::Tempo(
                                        (b[j] as nat) * 0x10000 + (b[j + 1] as nat) * 0x100 + (b[j
                                            + 2] as nat),
                                    ),
                                    j + len,
                                    None,
                                ),
                            )
                        } else {
                            None
                        }
                    } else {
                        Some((EventKindModel::Other, j + len, None))
                    },
                }
            }
        } else if s == 0xF0 {
            match spec_vlq(b, i + 1, end) {
                None => None,
                Some((len, j)) => if j + len > end {
                    None
                } else {
                    Some((EventKindModel::SysEx(b.subrange(j, j + len)), j + len, None))
                },
            }
        } else if s == 0xF7 {
            match spec_vlq(b, i + 1, end) {
                None => None,
                Some((len, j)) => if j + len > end {
                    None
                } else {
                    Some((EventKindModel::Escape(b.subrange(j, j + len)), j + len, None))
                },
            }
        } else if s >= 0x80 {
            // A new channel-voice status (0x80..=0xEF) sets the running status.
            if s < 0xF0 {
                match spec_channel_message(b, i + 1, end, s) {
                    None => None,
                    Some((kind, j)) => Some((kind, j, Some(s))),
                }
            } else {
                // 0xF1..=0xF6, 0xF8..=0xFE: not valid inside a track chunk.
                None
            }
        } else {
            // A data byte in status position: running status.
            match running {
                None => None,
                Some(status) => match spec_channel_message(b, i, end, status) {
                    None => None,
                    Some((kind, j)) => Some((kind, j, Some(status))),
                },
            }
        }
    }
}

/// One full track event at `i`: delta time, then the event body.
pub open spec fn spec_event(b: Seq<u8>, i: int, end: int, running: Option<u8>) -> Option<
    (EventModel, int, Option<u8>),
> {
    match spec_vlq(b, i, end) {
        None => None,
        Some((delta, j)) => match spec_event_body(b, j, end, running) {
            None => None,
            Some((kind, k, running2)) => Some((EventModel { delta, kind }, k, running2)),
        },
    }
}

/// All events of a track chunk body `[i, end)`: `None` on malformed data or
/// when an event crosses the chunk boundary.
pub open spec fn spec_events(b: Seq<u8>, i: int, end: int, running: Option<u8>) -> Option<
    Seq<EventModel>,
>
    decreases end - i,
{
    if i == end {
        Some(Seq::empty())
    } else {
        match spec_event(b, i, end, running) {
            None => None,
            Some((ev, j, running2)) => if i < j <= end {
                match spec_events(b, j, end, running2) {
                    None => None,
                    Some(rest) => Some(seq![ev] + rest),
                }
            } else {
                None
            },
        }
    }
}

/// Whether the four bytes at `i` spell `MTrk`.
pub open spec fn spec_is_mtrk(b: Seq<u8>, i: int) -> bool {
    b[i] == 0x4D && b[i + 1] == 0x54 && b[i + 2] == 0x72 && b[i + 3] == 0x6B
}

/// The tracks of every chunk from `i` to the end of the file: each chunk is a
/// four-byte type, a big-endian 32-bit length, and the body; `MTrk` bodies are
/// parsed, other chunks are skipped.
pub open spec fn spec_chunks(b: Seq<u8>, i: int) -> Option<Seq<Seq<EventModel>>>
    decreases b.len() - i,
{
    if i == b.len() {
        Some(Seq::empty())
    } else if i < 0 || i + 8 > b.len() {
        None
    } else {
        let len = be32(b, i + 4);
        let body_end = i + 8 + len;
        if body_end > b.len() {
            None
        } else if spec_is_mtrk(b, i) {
            match spec_events(b, i + 8, body_end, None) {
                None => None,
                Some(events) => match spec_chunks(b, body_end) {
                    None => None,
                    Some(rest) => Some(seq![events] + rest),
                },
            }
        } else {
            spec_chunks(b, body_end)
        }
    }
}

/// Whether the four bytes at 0 spell `MThd`.
pub open spec fn spec_is_mthd(b: Seq<u8>) -> bool {
    b[0] == 0x4D && b[1] == 0x54 && b[2] == 0x68 && b[3] == 0x64
}

/// The header chunk: format, timing, and the index of the first chunk after
/// it. The declared header length must be at least six; extra header bytes
/// are skipped.
pub open spec fn spec_header(b: Seq<u8>) -> Option<(SmfFormat, Timing, int)> {
    if b.len() < 14 || !spec_is_mthd(b) {
        None
    } else {
        let hlen = be32(b, 4);
        if hlen < 6 || 8 + hlen > b.len() {
            None
        } else {
            let f = be16(b, 8);
            let division = be16(b, 12);
            let timing = if division >= 0x8000 {
                Timing::Timecode(((0x100 - (b[12] as nat)) % 0x100) as u8, b[13])
            } else {
                Timing::Metrical(division as u16)
            };
            if f == 0 {
                Some((SmfFormat::Single, timing, 8 + hlen as int))
            } else if f == 1 {
                Some((SmfFormat::Parallel, timing, 8 + hlen as int))
            } else if f == 2 {
                Some((SmfFormat::Sequential, timing, 8 + hlen as int))
            } else {
                None
            }
        }
    }
}

/// The whole container: the header, then every chunk to the end of the file.
pub open spec fn spec_parse_smf(b: Seq<u8>) -> Option<SmfModel> {
    match spec_header(b) {
        None => None,
        Some((format, timing, i)) => match spec_chunks(b, i) {
            None => None,
            Some(tracks) => Some(SmfModel { format, timing, tracks }),
        },
    }
}

/// Powers of 128, used to bound variable-length quantities.
spec fn pow128(n: nat) -> nat
    decreases n,
{
    if n == 0 {
        1
    } else {
        0x80 * pow128((n - 1) as nat)
    }
}

proof fn lemma_pow128_at_least_128(n: nat)
    requires
        n >= 1,
    ensures
        pow128(n) >= 0x80,
    decreases n,
{
    if n == 1 {
        assert(pow128(1) == 0x80 * pow128(0));
        assert(pow128(0) == 1);
    } else {
        lemma_pow128_at_least_128((n - 1) as nat);
        assert(pow128(n) == 0x80 * pow128((n - 1) as nat));
        assert(0x80 * pow128((n - 1) as nat) >= 0x80 * 1) by (nonlinear_arith)
            requires
                pow128((n - 1) as nat) >= 1,
        ;
    }
}

/// When the variable-length quantity at `i` is well formed, its value is
/// bounded by four seven-bit groups and it consumes at most four bytes.
proof fn lemma_vlq_at_bound(b: Seq<u8>, i: int, end: int, acc: nat, budget: nat)
    ensures
        spec_vlq_at(b, i, end, acc, budget) matches Some((v, j)) ==> v < (acc + 1) * pow128(
            budget,
        ) && i < j <= i + budget && j <= end,
    decreases budget,
{
    if budget > 0 && 0 <= i < end && end <= b.len() {
        let acc2 = acc * 0x80 + (b[i] as nat) % 0x80;
        assert(acc2 + 1 <= (acc + 1) * 0x80);
        if b[i] < 0x80 {
            assert((acc + 1) * 0x80 <= (acc + 1) * pow128(budget)) by {
                lemma_pow128_at_least_128(budget);
                vstd::arithmetic::mul::lemma_mul_inequality(
                    0x80,
                    pow128(budget) as int,
                    (acc + 1) as int,
                );
                vstd::arithmetic::mul::lemma_mul_is_commutative(
                    (acc + 1) as int,
                    pow128(budget) as int,
                );
                vstd::arithmetic::mul::lemma_mul_is_commutative((acc + 1) as int, 0x80);
            }
        } else {
            lemma_vlq_at_bound(b, i + 1, end, acc2, (budget - 1) as nat);
            if spec_vlq_at(b, i + 1, end, acc2, (budget - 1) as nat) matches Some((v, j)) {
                assert((acc2 + 1) * pow128((budget - 1) as nat) <= (acc + 1) * pow128(budget)) by {
                    vstd::arithmetic::mul::lemma_mul_inequality(
                        (acc2 + 1) as int,
                        ((acc + 1) * 0x80) as int,
                        pow128((budget - 1) as nat) as int,
                    );
                    assert(((acc + 1) * 0x80) * pow128((budget - 1) as nat) == (acc + 1) * pow128(
                        budget,
                    )) by (nonlinear_arith)
                        requires
                            pow128(budget) == 0x80 * pow128((budget - 1) as nat),
                    ;
                }
            }
        }
    }
}

/// A well-formed variable-length quantity is below `2^28`.
proof fn lemma_vlq_bound(b: Seq<u8>, i: int, end: int)
    ensures
        spec_vlq(b, i, end) matches Some((v, j)) ==> v < 0x10000000 && i < j <= i + 4 && j <= end,
{
    lemma_vlq_at_bound(b, i, end, 0, 4);
    assert(pow128(0) == 1);
    assert(pow128(1) == 0x80);
    assert(pow128(2) == 0x4000);
    assert(pow128(3) == 0x200000);
    assert(pow128(4) == 0x10000000);
}

/// Read the variable-length quantity at `i`, staying inside `[i, end)`.
fn parse_vlq(b: &[u8], i: usize, end: usize) -> (r: Option<(u32, usize)>)
    requires
        i <= end <= b@.len(),
    ensures
        match r {
            Some((v, j)) => spec_vlq(b@, i as int, end as int) == Some(((v as nat), j as int)) && i
                < j <= end && v < 0x10000000,
            None => spec_vlq(b@, i as int, end as int) is None,
        },
{
    let mut acc: u32 = 0;
    let mut idx: usize = i;
    let mut budget: u32 = 4;
    loop
        invariant
            i <= idx <= end <= b@.len(),
            budget <= 4,
            budget == 4 ==> acc == 0,
            budget == 3 ==> acc < 0x80,
            budget == 2 ==> acc < 0x4000,
            budget == 1 ==> acc < 0x200000,
            spec_vlq(b@, i as int, end as int) == spec_vlq_at(
                b@,
                idx as int,
                end as int,
                acc as nat,
                budget as nat,
            ),
        decreases budget,
    {
        if budget == 0 || idx >= end {
            return None;
        }
        let byte = b[idx];
        assert(byte & 0x7f == byte % 0x80) by (bit_vector);
        acc = acc * 0x80 + (byte & 0x7f) as u32;
        idx = idx + 1;
        budget = budget - 1;
        if byte < 0x80 {
            proof {
                lemma_vlq_bound(b@, i as int, end as int);
            }
            return Some((acc, idx));
        }
    }
}

/// Read the channel-voice message whose status byte is `status` and whose
/// data bytes start at `i`.
fn parse_channel_message(b: &[u8], i: usize, end: usize, status: u8) -> (r: Option<
    (TrackEventKind, usize),
>)
    requires
        i <= end <= b@.len(),
        0x80 <= status < 0xF0,
    ensures
        match r {
            Some((kind, j)) => spec_channel_message(b@, i as int, end as int, status) == Some(
                (kind@, j as int),
            ) && i < j <= end,
            None => spec_channel_message(b@, i as int, end as int, status) is None,
        },
{
    let hi = status >> 4;
    let channel = status & 0x0F;
    assert(hi == status / 16 && channel == status % 16 && 8 <= hi < 15) by (bit_vector)
        requires
            hi == status >> 4,
            channel == status & 0x0F,
            0x80 <= status < 0xF0,
    ;
    let n: usize = if hi == 0xC || hi == 0xD {
        1
    } else {
        2
    };
    if end - i < n {
        return None;
    }
    let d0 = b[i];
    if d0 >= 0x80 {
        return None;
    }
    if n == 2 {
        let d1 = b[i + 1];
        if d1 >= 0x80 {
            return None;
        }
        let message = if hi == 0x8 {
            MidiMessage::NoteOff { key: d0, vel: d1 }
        } else if hi == 0x9 {
            MidiMessage::NoteOn { key: d0, vel: d1 }
        } else if hi == 0xA {
            MidiMessage::Aftertouch { key: d0, vel: d1 }
        } else if hi == 0xB {
            MidiMessage::Controller { controller: d0, value: d1 }
        } else {
            MidiMessage::PitchBend { bend: (d0 as u16) + (d1 as u16) * 0x80 }
        };
        Some((TrackEventKind::Midi { channel, message }, i + 2))
    } else {
        let message = if hi == 0xC {
            MidiMessage::ProgramChange { program: d0 }
        } else {
            MidiMessage::ChannelAftertouch { vel: d0 }
        };
        Some((TrackEventKind::Midi { channel, message }, i + 1))
    }
}

/// Read the event body at `i` (after the delta time), with `running` as the
/// running status; returns the kind, the index after the event, and the new
/// running status.
fn parse_event_body(b: &[u8], i: usize, end: usize, running: Option<u8>) -> (r: Option<
    (TrackEventKind, usize, Option<u8>),
>)
    requires
        i <= end <= b@.len(),
        running matches Some(s) ==> 0x80 <= s < 0xF0,
    ensures
        match r {
            Some((kind, j, running2)) => spec_event_body(b@, i as int, end as int, running) == Some(
                (kind@, j as int, running2),
            ) && i < j <= end && (running2 matches Some(s) ==> 0x80 <= s < 0xF0),
            None => spec_event_body(b@, i as int, end as int, running) is None,
        },
{
    if i >= end {
        return None;
    }
    let s = b[i];
    if s == 0xFF {
        if end - i < 2 {
            return None;
        }
        let ty = b[i + 1];
        match parse_vlq(b, i + 2, end) {
            None => None,
            Some((len, j)) => {
                if (len as usize) > end - j {
                    return None;
                }
                let data_end = j + len as usize;
                if ty == 0x51 {
                    if len == 3 {
                        let tempo: u32 = (b[j] as u32) * 0x10000 + (b[j + 1] as u32) * 0x100 + (b[j
                            + 2] as u32);
                        Some((TrackEventKind::Tempo(tempo), data_end, None))
                    } else {
                        None
                    }
                } else {
                    Some((TrackEventKind::Other, data_end, None))
                }
            },
        }
    } else if s == 0xF0 {
        match parse_vlq(b, i + 1, end) {
            None => None,
            Some((len, j)) => {
                if (len as usize) > end - j {
                    return None;
                }
                let data = vstd::slice::slice_to_vec(
                    vstd::slice::slice_subrange(b, j, j + len as usize),
                );
                Some((TrackEventKind::SysEx(data), j + len as usize, None))
            },
        }
    } else if s == 0xF7 {
        match parse_vlq(b, i + 1, end) {
            None => None,
            Some((len, j)) => {
                if (len as usize) > end - j {
                    return None;
                }
                let data = vstd::slice::slice_to_vec(
                    vstd::slice::slice_subrange(b, j, j + len as usize),
                );
                Some((TrackEventKind::Escape(data), j + len as usize, None))
            },
        }
    } else if s >= 0x80 {
        if s < 0xF0 {
            match parse_channel_message(b, i + 1, end, s) {
                None => None,
                Some((kind, j)) => Some((kind, j, Some(s))),
            }
        } else {
            None
        }
    } else {
        match running {
            None => None,
            Some(status) => match parse_channel_message(b, i, end, status) {
                None => None,
                Some((kind, j)) => Some((kind, j, Some(status))),
            },
        }
    }
}

/// Read one full track event (delta time, then body) at `i`.
fn parse_event(b: &[u8], i: usize, end: usize, running: Option<u8>) -> (r: Option<
    (TrackEvent, usize, Option<u8>),
>)
    requires
        i <= end <= b@.len(),
        running matches Some(s) ==> 0x80 <= s < 0xF0,
    ensures
        match r {
            Some((ev, j, running2)) => spec_event(b@, i as int, end as int, running) == Some(
                (ev@, j as int, running2),
            ) && i < j <= end && ev.delta < 0x10000000 && (running2 matches Some(s) ==> 0x80 <= s
                < 0xF0),
            None => spec_event(b@, i as int, end as int, running) is None,
        },
{
    match parse_vlq(b, i, end) {
        None => None,
        Some((delta, j)) => match parse_event_body(b, j, end, running) {
            None => None,
            Some((kind, k, running2)) => Some((TrackEvent { delta, kind }, k, running2)),
        },
    }
}

/// `r` with `prefix` prepended to its contents, when it has any.
pub open spec fn with_prefix(prefix: Seq<EventModel>, r: Option<Seq<EventModel>>) -> Option<
    Seq<EventModel>,
> {
    match r {
        None => None,
        Some(s) => Some(prefix + s),
    }
}

/// Parse the events of one `MTrk` chunk body `[start, end)`.
fn parse_track(b: &[u8], start: usize, end: usize) -> (r: Option<Vec<TrackEvent>>)
    requires
        start <= end <= b@.len(),
    ensures
        match r {
            Some(track) => spec_events(b@, start as int, end as int, None) == Some(
                track@.map_values(|e: TrackEvent| e@),
            ),
            None => spec_events(b@, start as int, end as int, None) is None,
        },
{
    let mut events: Vec<TrackEvent> = Vec::new();
    let mut i: usize = start;
    let mut running: Option<u8> = None;
    while i < end
        invariant
            start <= i <= end <= b@.len(),
            running matches Some(s) ==> 0x80 <= s < 0xF0,
            spec_events(b@, start as int, end as int, None) == with_prefix(
                events@.map_values(|e: TrackEvent| e@),
                spec_events(b@, i as int, end as int, running),
            ),
        decreases end - i,
    {
        let ghost old_events = events@;
        let ghost old_i = i as int;
        let ghost old_running = running;
        match parse_event(b, i, end, running) {
            None => {
                return None;
            },
            Some((ev, j, running2)) => {
                events.push(ev);
                i = j;
                running = running2;
                proof {
                    let prefix = old_events.map_values(|e: TrackEvent| e@);
                    assert(events@.map_values(|e: TrackEvent| e@) =~= prefix.push(ev@));
                    let se = spec_events(b@, i as int, end as int, running);
                    if se is Some {
                        let rest = se->0;
                        assert(spec_events(b@, old_i, end as int, old_running) == Some(
                            seq![ev@] + rest,
                        ));
                        assert(prefix + (seq![ev@] + rest) =~= prefix.push(ev@) + rest);
                    }
                }
            },
        }
    }
    proof {
        assert(spec_events(b@, i as int, end as int, running) == Some(Seq::<EventModel>::empty()));
        assert(events@.map_values(|e: TrackEvent| e@) + Seq::<EventModel>::empty()
            =~= events@.map_values(|e: TrackEvent| e@));
    }
    Some(events)
}

/// `r` with `prefix` prepended to its list of tracks, when it has any.
pub open spec fn with_tracks_prefix(
    prefix: Seq<Seq<EventModel>>,
    r: Option<Seq<Seq<EventModel>>>,
) -> Option<Seq<Seq<EventModel>>> {
    match r {
        None => None,
        Some(s) => Some(prefix + s),
    }
}

/// Read the big-endian 16-bit value at `i`.
fn read_be16(b: &[u8], i: usize) -> (r: u16)
    requires
        i + 2 <= b@.len(),
    ensures
        r as nat == be16(b@, i as int),
{
    (b[i] as u16) * 0x100 + (b[i + 1] as u16)
}

/// Read the big-endian 32-bit value at `i`.
fn read_be32(b: &[u8], i: usize) -> (r: u32)
    requires
        i + 4 <= b@.len(),
    ensures
        r as nat == be32(b@, i as int),
{
    (b[i] as u32) * 0x1000000 + (b[i + 1] as u32) * 0x10000 + (b[i + 2] as u32) * 0x100 + (b[i
        + 3] as u32)
}

impl Smf {
    /// Parse a whole standard MIDI file: the header, then every chunk to the
    /// end of the bytes. Returns exactly what the byte grammar
    /// [`spec_parse_smf`] yields, or an error where the grammar rejects.
    #[verifier::rlimit(60)]
    pub fn parse(bytes: &[u8]) -> (r: Result<Smf, FormatError>)
        ensures
            match r {
                Ok(smf) => spec_parse_smf(bytes@) == Some(smf@),
                Err(_) => spec_parse_smf(bytes@) is None,
            },
    {
        if bytes.len() < 14 {
            return Err(FormatError);
        }
        if !(bytes[0] == 0x4D && bytes[1] == 0x54 && bytes[2] == 0x68 && bytes[3] == 0x64) {
            return Err(FormatError);
        }
        let hlen = read_be32(bytes, 4);
        if hlen < 6 || (hlen as usize) > bytes.len() - 8 {
            return Err(FormatError);
        }
        let f = read_be16(bytes, 8);
        let division = read_be16(bytes, 12);
        let timing = if division >= 0x8000 {
            Timing::Timecode((0x100u16 - (bytes[12] as u16) % 0x100) as u8, bytes[13])
        } else {
            Timing::Metrical(division)
        };
        let format = if f == 0 {
            SmfFormat::Single
        } else if f == 1 {
            SmfFormat::Parallel
        } else if f == 2 {
            SmfFormat::Sequential
        } else {
            return Err(FormatError);
        };
        proof {
            assert(spec_header(bytes@) == Some((format, timing, 8 + hlen as int)));
        }
        let start: usize = 8 + hlen as usize;
        let mut tracks: Vec<Vec<TrackEvent>> = Vec::new();
        let mut i: usize = start;
        while i < bytes.len()
            invariant
                start <= i <= bytes@.len(),
                spec_header(bytes@) == Some((format, timing, start as int)),
                spec_chunks(bytes@, start as int) == with_tracks_prefix(
                    tracks@.map_values(|t: Vec<TrackEvent>| t@.map_values(|e: TrackEvent| e@)),
                    spec_chunks(bytes@, i as int),
                ),
            decreases bytes@.len() - i,
        {
            let ghost old_tracks = tracks@;
            let ghost old_i = i as int;
            if bytes.len() - i < 8 {
                return Err(FormatError);
            }
            let clen = read_be32(bytes, i + 4);
            if (clen as usize) > bytes.len() - (i + 8) {
                return Err(FormatError);
            }
            let body_start = i + 8;
            let body_end = body_start + clen as usize;
            let is_mtrk = bytes[i] == 0x4D && bytes[i + 1] == 0x54 && bytes[i + 2] == 0x72
                && bytes[i + 3] == 0x6B;
            if is_mtrk {
                match parse_track(bytes, body_start, body_end) {
                    None => {
                        return Err(FormatError);
                    },
                    Some(track) => {
                        tracks.push(track);
                        proof {
                            let view_fn = |t: Vec<TrackEvent>| t@.map_values(|e: TrackEvent| e@);
                            assert(tracks@.map_values(view_fn) =~= old_tracks.map_values(
                                view_fn,
                            ).push(view_fn(tracks@.last())));
                            let sc = spec_chunks(bytes@, body_end as int);
                            if sc is Some {
                                let rest = sc->0;
                                assert(spec_chunks(bytes@, old_i) == Some(
                                    seq![view_fn(tracks@.last())] + rest,
                                ));
                                assert(old_tracks.map_values(view_fn) + (seq![
                                    view_fn(tracks@.last()),
                                ] + rest) =~= tracks@.map_values(view_fn) + rest);
                            }
                        }
                    },
                }
            } else {
                proof {
                    assert(spec_chunks(bytes@, old_i) == spec_chunks(bytes@, body_end as int));
                }
            }
            i = body_end;
        }
        proof {
            assert(spec_chunks(bytes@, i as int) == Some(Seq::<Seq<EventModel>>::empty()));
            let view_fn = |t: Vec<TrackEvent>| t@.map_values(|e: TrackEvent| e@);
            assert(tracks@.map_values(view_fn) + Seq::<Seq<EventModel>>::empty()
                =~= tracks@.map_values(view_fn));
        }
        let smf = Smf { format, timing, tracks };
        proof {
            assert(spec_parse_smf(bytes@) == Some(smf@));
        }
        Ok(smf)
    }
}

/// The sum of the first `k` delta times of a track, in ticks.
pub open spec fn delta_prefix(evs: Seq<EventModel>, k: int) -> nat
    decreases k,
{
    if k <= 0 {
        0
    } else {
        delta_prefix(evs, k - 1) + evs[k - 1].delta
    }
}

/// The sum of all delta times of a track, in ticks.
pub open spec fn total_delta(evs: Seq<EventModel>) -> nat {
    delta_prefix(evs, evs.len() as int)
}

/// Prepending one event shifts the delta prefix sums by its delta.
proof fn lemma_delta_prefix_cons(ev: EventModel, rest: Seq<EventModel>, k: int)
    requires
        0 <= k <= rest.len(),
    ensures
        delta_prefix(seq![ev] + rest, k + 1) == ev.delta + delta_prefix(rest, k),
    decreases k,
{
    let c = seq![ev] + rest;
    if k == 0 {
        assert(delta_prefix(c, 1) == delta_prefix(c, 0) + c[0].delta);
        assert(c[0] == ev);
    } else {
        lemma_delta_prefix_cons(ev, rest, k - 1);
        assert(c[k] == rest[k - 1]);
    }
}

/// Delta prefix sums are monotone in the prefix length.
pub proof fn lemma_delta_prefix_mono(evs: Seq<EventModel>, k1: int, k2: int)
    requires
        0 <= k1 <= k2,
    ensures
        delta_prefix(evs, k1) <= delta_prefix(evs, k2),
    decreases k2 - k1,
{
    if k1 < k2 {
        lemma_delta_prefix_mono(evs, k1, k2 - 1);
    }
}

/// Whether a channel-voice message carries only 7-bit data values (14 bits
/// for pitch bend).
pub open spec fn message_wf(m: MidiMessage) -> bool {
    match m {
        MidiMessage::NoteOff { key, vel } => key < 0x80 && vel < 0x80,
        MidiMessage::NoteOn { key, vel } => key < 0x80 && vel < 0x80,
        MidiMessage::Aftertouch { key, vel } => key < 0x80 && vel < 0x80,
        MidiMessage::Controller { controller, value } => controller < 0x80 && value < 0x80,
        MidiMessage::ProgramChange { program } => program < 0x80,
        MidiMessage::ChannelAftertouch { vel } => vel < 0x80,
        MidiMessage::PitchBend { bend } => bend < 0x4000,
    }
}

/// Whether one event is in the shape the grammar can produce: a channel
/// number below 16 with well-formed data, a 24-bit tempo, and a delta time
/// below `2^28`.
pub open spec fn event_wf(ev: EventModel) -> bool {
    &&& ev.delta < 0x10000000
    &&& match ev.kind {
        EventKindModel::Midi { channel, message } => channel < 16 && message_wf(message),
        EventKindModel::Tempo(t) => t < 0x1000000,
        _ => true,
    }
}

/// Whether a parsed file is in the shape the grammar can produce: every event
/// well formed, and every track's total delta time below `2^60` (each track
/// body is at most `2^32 - 1` bytes and each delta below `2^28`).
pub open spec fn smf_wf(m: SmfModel) -> bool {
    &&& forall|t: int|
        0 <= t < m.tracks.len() ==> total_delta(#[trigger] m.tracks[t]) < 0x1000000000000000
    &&& forall|t: int, k: int|
        0 <= t < m.tracks.len() && 0 <= k < m.tracks[t].len() ==> event_wf(
            #[trigger] m.tracks[t][k],
        )
}

proof fn lemma_event_wf(b: Seq<u8>, i: int, end: int, running: Option<u8>)
    ensures
        spec_event(b, i, end, running) matches Some((ev, j, r2)) ==> event_wf(ev) && i < j <= end,
{
    lemma_vlq_bound(b, i, end);
    match spec_vlq(b, i, end) {
        None => {},
        Some((delta, m)) => {
            if m < end {
                let st = b[m];
                if st == 0xFF {
                    lemma_vlq_bound(b, m + 2, end);
                } else if st == 0xF0 || st == 0xF7 {
                    lemma_vlq_bound(b, m + 1, end);
                }
            }
        },
    }
}

/// Every event list the grammar yields is well formed, no longer than the
/// bytes it was read from, and its total delta time is bounded by the byte
/// count times the largest delta.
proof fn lemma_events_wf(b: Seq<u8>, i: int, end: int, running: Option<u8>)
    ensures
        spec_events(b, i, end, running) matches Some(evs) ==> total_delta(evs) <= (end - i)
            * 0x10000000 && (forall|k: int| 0 <= k < evs.len() ==> event_wf(#[trigger] evs[k])),
    decreases end - i,
{
    if i != end {
        match spec_event(b, i, end, running) {
            None => {},
            Some((ev, j, r2)) => {
                lemma_event_wf(b, i, end, running);
                if i < j <= end {
                    lemma_events_wf(b, j, end, r2);
                    match spec_events(b, j, end, r2) {
                        None => {},
                        Some(rest) => {
                            let evs = seq![ev] + rest;
                            lemma_delta_prefix_cons(ev, rest, rest.len() as int);
                            assert(total_delta(evs) == ev.delta + total_delta(rest));
                            assert(ev.delta < 0x10000000);
                            assert((j - i) * 0x10000000 >= 1 * 0x10000000) by {
                                vstd::arithmetic::mul::lemma_mul_inequality(1, j - i, 0x10000000);
                            }
                            assert((j - i) * 0x10000000 + (end - j) * 0x10000000 == (end - i)
                                * 0x10000000) by {
                                vstd::arithmetic::mul::lemma_mul_is_distributive_add_other_way(
                                    0x10000000,
                                    j - i,
                                    end - j,
                                );
                            }
                            assert forall|k: int| 0 <= k < evs.len() implies event_wf(
                                #[trigger] evs[k],
                            ) by {
                                if k == 0 {
                                    assert(evs[0] == ev);
                                } else {
                                    assert(evs[k] == rest[k - 1]);
                                }
                            }
                        },
                    }
                }
            },
        }
    }
}

proof fn lemma_chunks_wf(b: Seq<u8>, i: int)
    ensures
        spec_chunks(b, i) matches Some(tracks) ==> (forall|t: int|
            0 <= t < tracks.len() ==> total_delta(#[trigger] tracks[t]) < 0x1000000000000000)
            && (forall|t: int, k: int|
            0 <= t < tracks.len() && 0 <= k < tracks[t].len() ==> event_wf(
                #[trigger] tracks[t][k],
            )),
    decreases b.len() - i,
{
    if i == b.len() || i < 0 || i + 8 > b.len() {
    } else {
        let len = be32(b, i + 4);
        let body_end = i + 8 + len;
        if body_end <= b.len() {
            lemma_chunks_wf(b, body_end);
            if spec_is_mtrk(b, i) {
                lemma_events_wf(b, i + 8, body_end, None);
                match spec_events(b, i + 8, body_end, None) {
                    None => {},
                    Some(events) => {
                        assert(len < 0x100000000);
                        assert(len * 0x10000000 <= 0xFFFFFFFF * 0x10000000) by {
                            vstd::arithmetic::mul::lemma_mul_inequality(
                                len as int,
                                0xFFFFFFFF,
                                0x10000000,
                            );
                        }
                        match spec_chunks(b, body_end) {
                            None => {},
                            Some(rest) => {
                                let tracks = seq![events] + rest;
                                assert forall|t: int|
                                    0 <= t < tracks.len() implies total_delta(
                                    #[trigger] tracks[t],
                                ) < 0x1000000000000000 by {
                                    if t == 0 {
                                        assert(tracks[0] == events);
                                    } else {
                                        assert(tracks[t] == rest[t - 1]);
                                    }
                                }
                                assert forall|t: int, k: int|
                                    0 <= t < tracks.len() && 0 <= k
                                    < tracks[t].len() implies event_wf(#[trigger] tracks[t][k]) by {
                                    if t == 0 {
                                        assert(tracks[0] == events);
                                    } else {
                                        assert(tracks[t] == rest[t - 1]);
                                    }
                                }
                            },
                        }
                    },
                }
            }
        }
    }
}

/// Everything the grammar accepts is well formed in the sense of [`smf_wf`].
pub proof fn lemma_parse_smf_wf(b: Seq<u8>)
    ensures
        spec_parse_smf(b) matches Some(m) ==> smf_wf(m),
{
    match spec_header(b) {
        None => {},
        Some((format, timing, i)) => {
            lemma_chunks_wf(b, i);
        },
    }
}

} // verus!
