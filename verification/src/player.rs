//! The playback scheduler's decisions: session lifecycle, batched delivery
//! planning, and progress throttling.
//!
//! The player itself is a state machine. Starting a playback supersedes the
//! current session (emitting `Stopped` for it), then emits `Started` and an
//! initial `Progress`, and hands back a delivery plan: the sequence's events
//! grouped into one batch per distinct offset, so that simultaneous events are
//! never split across two deliveries. The caller drives the plan against
//! wall-clock deadlines, delivers each batch with a single call to its sink,
//! and consults [`should_report_progress`] to throttle `Progress` events.
//! Stopping emits exactly one `Stopped`, before anything a later session
//! emits.

use vstd::prelude::*;

use crate::errors::NoPlayableEventsError;
use crate::sequence::{MidiSequence, PlaybackEvent, PlaybackEventModel};

verus! {

/// Throttle for `Progress` events: report only when at least this many
/// microseconds have passed since the last reported value.
pub const PROGRESS_UPDATE_STEP_MICROS: u64 = 100_000;

/// A lifecycle or progress event of one playback session. Durations are in
/// microseconds.
#[derive(Debug, Clone, PartialEq)]
pub enum PlayerEvent {
    Started { total: u64 },
    Progress { elapsed: u64, total: u64 },
    Finished,
    Stopped,
    Error(String),
}

/// One batched delivery: every event payload that shares the offset `at`,
/// in original encounter order, to be handed to the sink in a single call.
#[derive(Debug, Clone, PartialEq)]
pub struct DeliveryBatch {
    /// Microseconds since the session start.
    pub at: u64,
    /// The wire bytes of every event at this offset, in order.
    pub payloads: Vec<Vec<u8>>,
}

/// Mathematical model of a batch.
#[verifier::ext_equal]
pub struct BatchModel {
    pub at: nat,
    pub payloads: Seq<Seq<u8>>,
}

impl View for DeliveryBatch {
    type V = BatchModel;

    open spec fn view(&self) -> BatchModel {
        BatchModel { at: self.at as nat, payloads: self.payloads@.map_values(|p: Vec<u8>| p@) }
    }
}

/// Extend a plan by one event: into the last batch when the offset matches,
/// else as a new batch.
pub open spec fn spec_add_event(plan: Seq<BatchModel>, e: PlaybackEventModel) -> Seq<BatchModel> {
    if plan.len() > 0 && plan.last().at == e.at {
        plan.drop_last().push(
            BatchModel { at: e.at, payloads: plan.last().payloads.push(e.data) },
        )
    } else {
        plan.push(BatchModel { at: e.at, payloads: seq![e.data] })
    }
}

/// The delivery plan of an event list: one batch per run of equal offsets,
/// payloads in encounter order.
pub open spec fn spec_plan(events: Seq<PlaybackEventModel>) -> Seq<BatchModel>
    decreases events.len(),
{
    if events.len() == 0 {
        Seq::empty()
    } else {
        spec_add_event(spec_plan(events.drop_last()), events.last())
    }
}

/// All payloads of a plan, in delivery order.
pub open spec fn flatten_plan(plan: Seq<BatchModel>) -> Seq<Seq<u8>>
    decreases plan.len(),
{
    if plan.len() == 0 {
        Seq::empty()
    } else {
        flatten_plan(plan.drop_last()) + plan.last().payloads
    }
}

/// Events sorted by offset, ascending.
pub open spec fn sorted_by_at(events: Seq<PlaybackEventModel>) -> bool {
    forall|i: int, j: int|
        0 <= i < j < events.len() ==> (#[trigger] events[i]).at <= (#[trigger] events[j]).at
}

/// The batching law: under a sorted event list, the delivery plan has one
/// batch per distinct offset, with strictly increasing offsets; each batch
/// holds exactly the payloads of the events at its offset, in their original
/// order, and never less than one; and the concatenation of all batches is
/// the original payload sequence. So all events sharing an offset are
/// delivered in exactly one batched call, never split across two.
pub proof fn lemma_plan_batches_by_offset(events: Seq<PlaybackEventModel>)
    requires
        sorted_by_at(events),
    ensures
        flatten_plan(spec_plan(events)) == events.map_values(|e: PlaybackEventModel| e.data),
        forall|b1: int, b2: int|
            0 <= b1 < b2 < spec_plan(events).len() ==> (#[trigger] spec_plan(events)[b1]).at < (
            #[trigger] spec_plan(events)[b2]).at,
        forall|b: int|
            0 <= b < spec_plan(events).len() ==> (#[trigger] spec_plan(events)[b]).payloads
                == events.filter(
                |e: PlaybackEventModel| e.at == spec_plan(events)[b].at,
            ).map_values(|e: PlaybackEventModel| e.data),
        forall|i: int|
            0 <= i < events.len() ==> exists|b: int|
                0 <= b < spec_plan(events).len() && (#[trigger] spec_plan(events)[b]).at == (
                #[trigger] events[i]).at,
        events.len() > 0 ==> spec_plan(events).len() > 0 && spec_plan(events).last().at
            == events.last().at,
    decreases events.len(),
{
    reveal(Seq::filter);
    if events.len() > 0 {
        let prefix = events.drop_last();
        let e = events.last();
        assert(sorted_by_at(prefix)) by {
            assert forall|i: int, j: int|
                0 <= i < j < prefix.len() implies (#[trigger] prefix[i]).at <= (
            #[trigger] prefix[j]).at by {
                assert(events[i] == prefix[i]);
                assert(events[j] == prefix[j]);
            }
        }
        lemma_plan_batches_by_offset(prefix);
        let sub = spec_plan(prefix);
        let plan = spec_plan(events);
        let data_of = |ev: PlaybackEventModel| ev.data;
        assert(events.map_values(data_of) =~= prefix.map_values(data_of).push(e.data));
        if sub.len() > 0 && sub.last().at == e.at {
            // merged into the last batch
            let merged = BatchModel { at: e.at, payloads: sub.last().payloads.push(e.data) };
            assert(plan =~= sub.drop_last().push(merged));
            assert(plan.drop_last() =~= sub.drop_last());
            assert(flatten_plan(plan) == flatten_plan(sub.drop_last()) + merged.payloads);
            assert(flatten_plan(sub) == flatten_plan(sub.drop_last()) + sub.last().payloads);
            assert(flatten_plan(plan) =~= flatten_plan(sub).push(e.data));
            assert(sub[sub.len() - 1] == sub.last());
            assert(plan[plan.len() - 1] == merged);
            assert forall|b1: int, b2: int| 0 <= b1 < b2 < plan.len() implies (
            #[trigger] plan[b1]).at < (#[trigger] plan[b2]).at by {
                assert(plan[b1].at == sub[b1].at);
                assert(plan[b2].at == sub[b2].at);
                assert(sub[b1].at < sub[b2].at);
            }
            assert forall|b: int| 0 <= b < plan.len() implies (#[trigger] plan[b]).payloads
                == events.filter(|ev: PlaybackEventModel| ev.at == plan[b].at).map_values(
                data_of,
            ) by {
                let keep = |ev: PlaybackEventModel| ev.at == plan[b].at;
                assert(events.drop_last() == prefix);
                assert(events.last() == e);
                if b < plan.len() - 1 {
                    assert(plan[b] == sub[b]);
                    // the last event does not belong to an earlier batch
                    assert(sub[b].at < sub[sub.len() - 1].at);
                    assert(!keep(e));
                    assert(events.filter(keep) == prefix.filter(keep));
                } else {
                    assert(plan[b] == merged);
                    assert(keep(e));
                    assert(events.filter(keep) == prefix.filter(keep).push(e));
                    assert(sub.last().payloads == prefix.filter(
                        |ev: PlaybackEventModel| ev.at == sub.last().at,
                    ).map_values(data_of));
                    assert((|ev: PlaybackEventModel| ev.at == sub.last().at) =~= keep);
                    assert(prefix.filter(keep).push(e).map_values(data_of) =~= prefix.filter(
                        keep,
                    ).map_values(data_of).push(e.data));
                }
            }
            assert forall|i: int| 0 <= i < events.len() implies exists|b: int|
                0 <= b < plan.len() && (#[trigger] plan[b]).at == (#[trigger] events[i]).at by {
                if i < events.len() - 1 {
                    assert(events[i] == prefix[i]);
                    let b0 = choose|b0: int| 0 <= b0 < sub.len() && sub[b0].at == prefix[i].at;
                    if b0 < sub.len() - 1 {
                        assert(plan[b0].at == events[i].at);
                    } else {
                        assert(plan[plan.len() - 1].at == events[i].at);
                    }
                } else {
                    assert(plan[plan.len() - 1].at == e.at);
                }
            }
        } else {
            // a new batch
            let fresh = BatchModel { at: e.at, payloads: seq![e.data] };
            assert(plan =~= sub.push(fresh));
            assert(plan.drop_last() =~= sub);
            assert(flatten_plan(plan) == flatten_plan(sub) + fresh.payloads);
            assert(flatten_plan(plan) =~= flatten_plan(sub).push(e.data));
            assert(plan[plan.len() - 1] == fresh);
            if sub.len() > 0 {
                // the new offset lies strictly above every earlier one
                assert(sub[sub.len() - 1] == sub.last());
                assert(sub.last().at <= e.at) by {
                    assert(prefix.len() > 0);
                    assert(sub.last().at == prefix.last().at);
                    assert(events[events.len() - 2] == prefix[prefix.len() - 1]);
                    assert(prefix[prefix.len() - 1] == prefix.last());
                    assert(events[events.len() - 2].at <= events[events.len() - 1].at);
                    assert(events[events.len() - 1] == e);
                }
                assert(sub.last().at < e.at);
            }
            assert forall|b1: int, b2: int| 0 <= b1 < b2 < plan.len() implies (
            #[trigger] plan[b1]).at < (#[trigger] plan[b2]).at by {
                if b2 < plan.len() - 1 {
                    assert(plan[b1] == sub[b1] && plan[b2] == sub[b2]);
                } else {
                    if b1 < plan.len() - 1 {
                        assert(plan[b1] == sub[b1]);
                        if b1 < sub.len() - 1 {
                            assert(sub[b1].at < sub[sub.len() - 1].at);
                        }
                        assert(sub[b1].at <= sub[sub.len() - 1].at);
                    }
                }
            }
            // no earlier event carries the new offset
            assert forall|ii: int| 0 <= ii < prefix.len() implies (#[trigger] prefix[ii]).at
                != e.at by {
                let b0 = choose|b0: int| 0 <= b0 < sub.len() && sub[b0].at == prefix[ii].at;
                if b0 < sub.len() - 1 {
                    assert(sub[b0].at < sub[sub.len() - 1].at);
                }
                assert(sub[b0].at <= sub[sub.len() - 1].at);
                assert(sub[sub.len() - 1].at < e.at);
            }
            assert forall|b: int| 0 <= b < plan.len() implies (#[trigger] plan[b]).payloads
                == events.filter(|ev: PlaybackEventModel| ev.at == plan[b].at).map_values(
                data_of,
            ) by {
                let keep = |ev: PlaybackEventModel| ev.at == plan[b].at;
                assert(events.drop_last() == prefix);
                assert(events.last() == e);
                if b < plan.len() - 1 {
                    assert(plan[b] == sub[b]);
                    assert(!keep(e)) by {
                        if b < sub.len() - 1 {
                            assert(sub[b].at < sub[sub.len() - 1].at);
                        }
                        assert(sub[b].at <= sub[sub.len() - 1].at);
                    }
                    assert(events.filter(keep) == prefix.filter(keep));
                } else {
                    assert(plan[b] == fresh);
                    assert(keep(e));
                    assert(events.filter(keep) == prefix.filter(keep).push(e));
                    assert forall|ii: int| 0 <= ii < prefix.len() implies !(#[trigger] keep(
                        prefix[ii],
                    )) by {
                        assert(prefix[ii].at != e.at);
                    }
                    lemma_filter_none(prefix, keep);
                    assert(prefix.filter(keep).push(e).map_values(data_of) =~= seq![e.data]);
                }
            }
            assert forall|i: int| 0 <= i < events.len() implies exists|b: int|
                0 <= b < plan.len() && (#[trigger] plan[b]).at == (#[trigger] events[i]).at by {
                if i < events.len() - 1 {
                    assert(events[i] == prefix[i]);
                    let b0 = choose|b0: int| 0 <= b0 < sub.len() && sub[b0].at == prefix[i].at;
                    assert(plan[b0].at == events[i].at);
                } else {
                    assert(plan[plan.len() - 1].at == e.at);
                }
            }
        }
    }
}

/// A list where no element satisfies the predicate filters to nothing.
proof fn lemma_filter_none(s: Seq<PlaybackEventModel>, keep: spec_fn(PlaybackEventModel) -> bool)
    requires
        forall|i: int| 0 <= i < s.len() ==> !(#[trigger] keep(s[i])),
    ensures
        s.filter(keep) == Seq::<PlaybackEventModel>::empty(),
    decreases s.len(),
{
    reveal(Seq::filter);
    if s.len() > 0 {
        assert(s[s.len() - 1] == s.last());
        assert(!keep(s.last()));
        assert forall|i: int| 0 <= i < s.drop_last().len() implies !(#[trigger] keep(
            s.drop_last()[i],
        )) by {
            assert(s.drop_last()[i] == s[i]);
        }
        lemma_filter_none(s.drop_last(), keep);
    } else {
        assert(s.filter(keep) =~= Seq::<PlaybackEventModel>::empty());
    }
}

/// Copy a payload byte for byte.
fn copy_bytes(data: &Vec<u8>) -> (r: Vec<u8>)
    ensures
        r@ == data@,
{
    let mut r: Vec<u8> = Vec::new();
    let mut i: usize = 0;
    while i < data.len()
        invariant
            i <= data@.len(),
            r@ == data@.subrange(0, i as int),
        decreases data@.len() - i,
    {
        r.push(data[i]);
        i = i + 1;
    }
    proof {
        assert(data@.subrange(0, data@.len() as int) =~= data@);
    }
    r
}

/// Group a sequence's events into batched deliveries: one batch per distinct
/// offset (see [`spec_plan`] and [`lemma_plan_batches_by_offset`]).
pub fn delivery_plan(events: &Vec<PlaybackEvent>) -> (plan: Vec<DeliveryBatch>)
    ensures
        plan@.map_values(|b: DeliveryBatch| b@) == spec_plan(
            events@.map_values(|e: PlaybackEvent| e@),
        ),
{
    let ghost target = events@.map_values(|e: PlaybackEvent| e@);
    let mut plan: Vec<DeliveryBatch> = Vec::new();
    let mut i: usize = 0;
    proof {
        assert(target.take(0) =~= Seq::<PlaybackEventModel>::empty());
        assert(plan@.map_values(|b: DeliveryBatch| b@) =~= Seq::<BatchModel>::empty());
    }
    while i < events.len()
        invariant
            i <= events@.len(),
            target == events@.map_values(|e: PlaybackEvent| e@),
            plan@.map_values(|b: DeliveryBatch| b@) == spec_plan(target.take(i as int)),
        decreases events@.len() - i,
    {
        let ghost old_plan = plan@.map_values(|b: DeliveryBatch| b@);
        let ev = &events[i];
        let data = copy_bytes(&ev.data);
        proof {
            assert(target.take(i + 1).drop_last() =~= target.take(i as int));
            assert(target.take(i + 1).last() == target[i as int]);
            assert(target[i as int] == events@[i as int]@);
        }
        let n = plan.len();
        let mut extend_last = false;
        if n > 0 {
            if plan[n - 1].at == ev.at {
                extend_last = true;
            }
        }
        if extend_last {
            let mut last = plan.pop().unwrap();
            last.payloads.push(data);
            plan.push(last);
            proof {
                assert(old_plan.last().at == target[i as int].at);
                assert(plan@.map_values(|b: DeliveryBatch| b@) =~~= old_plan.drop_last().push(
                    BatchModel {
                        at: target[i as int].at,
                        payloads: old_plan.last().payloads.push(target[i as int].data),
                    },
                ));
            }
        } else {
            let mut payloads: Vec<Vec<u8>> = Vec::new();
            payloads.push(data);
            plan.push(DeliveryBatch { at: ev.at, payloads });
            proof {
                if old_plan.len() > 0 {
                    assert(old_plan.last().at != target[i as int].at) by {
                        assert(old_plan[old_plan.len() - 1].at == plan@[plan@.len() - 2]@.at);
                    }
                }
                assert(plan@.map_values(|b: DeliveryBatch| b@) =~~= old_plan.push(
                    BatchModel { at: target[i as int].at, payloads: seq![target[i as int].data] },
                ));
            }
        }
        i = i + 1;
    }
    proof {
        assert(target.take(target.len() as int) =~= target);
    }
    plan
}

/// Whether a `Progress` event is due: the offset has advanced at least the
/// throttle step since the last reported value, or has reached the total.
pub fn should_report_progress(event_at: u64, last_reported: u64, total: u64) -> (r: bool)
    ensures
        r == (event_at as int >= last_reported as int + PROGRESS_UPDATE_STEP_MICROS as int
            || event_at >= total),
{
    if event_at >= total {
        true
    } else if last_reported > u64::MAX - PROGRESS_UPDATE_STEP_MICROS {
        false
    } else {
        event_at >= last_reported + PROGRESS_UPDATE_STEP_MICROS
    }
}

/// What `stop` emits: one `Stopped` when a session was active, else nothing.
pub open spec fn spec_stop_emits(active: bool) -> Seq<PlayerEvent> {
    if active {
        seq![PlayerEvent::Stopped]
    } else {
        Seq::empty()
    }
}

/// What a successful start emits, after any `Stopped` for a superseded
/// session: `Started`, then an initial `Progress` at zero.
pub open spec fn spec_start_emits(total: u64) -> Seq<PlayerEvent> {
    seq![
        PlayerEvent::Started { total },
        PlayerEvent::Progress { elapsed: 0, total },
    ]
}

/// What the scheduling loop emits after delivering the whole plan: the final
/// `Progress` at the total, then `Finished`.
pub fn completion_events(total: u64) -> (out: Vec<PlayerEvent>)
    ensures
        out@ == seq![
            PlayerEvent::Progress { elapsed: total, total },
            PlayerEvent::Finished,
        ],
{
    let mut out: Vec<PlayerEvent> = Vec::new();
    out.push(PlayerEvent::Progress { elapsed: total, total });
    out.push(PlayerEvent::Finished);
    proof {
        assert(out@ =~= seq![
            PlayerEvent::Progress { elapsed: total, total },
            PlayerEvent::Finished,
        ]);
    }
    out
}

/// What the scheduling loop emits when a batched delivery fails: one
/// `Error` carrying the failure's message, and nothing further — the session
/// exits without retrying.
pub fn error_events(message: String) -> (out: Vec<PlayerEvent>)
    ensures
        out@ == seq![PlayerEvent::Error(message)],
{
    let mut out: Vec<PlayerEvent> = Vec::new();
    out.push(PlayerEvent::Error(message));
    proof {
        assert(out@ =~= seq![PlayerEvent::Error(message)]);
    }
    out
}

/// Everything a successful start hands its caller: the fresh session's
/// identifier, the events to emit now (in order), the delivery plan, and the
/// total duration in microseconds.
pub struct PlaybackStart {
    pub session: u64,
    pub emit: Vec<PlayerEvent>,
    pub plan: Vec<DeliveryBatch>,
    pub total: u64,
}

/// The player's control state: which session is current, and a ghost log of
/// every lifecycle event its decisions have emitted, in order.
pub struct MidiPlayer {
    active: bool,
    next_session: u64,
    current_session: u64,
    emitted: Ghost<Seq<PlayerEvent>>,
}

impl MidiPlayer {
    /// Whether a session is currently active.
    pub closed spec fn is_active(&self) -> bool {
        self.active
    }

    /// The identifier the next session will get; strictly above every
    /// identifier handed out so far.
    pub closed spec fn next_session_id(&self) -> u64 {
        self.next_session
    }

    /// The identifier of the current session (meaningful while active).
    pub closed spec fn current_session_id(&self) -> u64 {
        self.current_session
    }

    /// Every lifecycle event emitted by this player's decisions, in order.
    pub closed spec fn log(&self) -> Seq<PlayerEvent> {
        self.emitted@
    }

    /// A fresh player: no session, nothing emitted.
    pub fn new() -> (p: MidiPlayer)
        ensures
            !p.is_active(),
            p.next_session_id() == 0,
            p.log() == Seq::<PlayerEvent>::empty(),
    {
        MidiPlayer { active: false, next_session: 0, current_session: 0, emitted: Ghost(Seq::empty()) }
    }

    /// Start playing a sequence.
    ///
    /// A sequence with no events is rejected and nothing happens: no session
    /// is superseded, nothing is emitted — in particular no `Started`.
    /// Otherwise any current session is superseded (emitting its `Stopped`
    /// first), a fresh session becomes current, and the caller receives the
    /// events to emit (`Stopped`?, `Started`, `Progress 0`), the batched
    /// delivery plan, and the total duration.
    pub fn start_playback(&mut self, sequence: &MidiSequence) -> (r: Result<
        PlaybackStart,
        NoPlayableEventsError,
    >)
        ensures
            sequence.events@.len() == 0 ==> r is Err && *final(self) == *old(self),
            sequence.events@.len() > 0 ==> (r matches Ok(st) && st.emit@ == spec_stop_emits(
                old(self).is_active(),
            ) + spec_start_emits(sequence.duration) && st.plan@.map_values(|b: DeliveryBatch| b@)
                == spec_plan(sequence@.events) && st.total == sequence.duration && st.session
                == old(self).next_session_id() && final(self).is_active() && final(self).current_session_id()
                == old(self).next_session_id() && final(self).next_session_id() == (if old(self).next_session_id()
                < u64::MAX {
                (old(self).next_session_id() + 1) as u64
            } else {
                old(self).next_session_id()
            }) && final(self).log() == old(self).log() + st.emit@),
    {
        if sequence.events.len() == 0 {
            return Err(NoPlayableEventsError);
        }
        let total = sequence.duration;
        let mut emit: Vec<PlayerEvent> = Vec::new();
        if self.active {
            emit.push(PlayerEvent::Stopped);
        }
        emit.push(PlayerEvent::Started { total });
        emit.push(PlayerEvent::Progress { elapsed: 0, total });
        proof {
            assert(emit@ =~= spec_stop_emits(old(self).is_active()) + spec_start_emits(total));
        }
        let plan = delivery_plan(&sequence.events);
        let session = self.next_session;
        self.active = true;
        self.current_session = session;
        if session < u64::MAX {
            self.next_session = session + 1;
        }
        proof {
            self.emitted@ = old(self).emitted@ + emit@;
        }
        Ok(PlaybackStart { session, emit, plan, total })
    }

    /// Stop the current session, if any: it is cancelled and superseded, and
    /// exactly one `Stopped` is emitted for it — before anything a later
    /// session will emit.
    pub fn stop(&mut self) -> (out: Vec<PlayerEvent>)
        ensures
            out@ == spec_stop_emits(old(self).is_active()),
            !final(self).is_active(),
            final(self).next_session_id() == old(self).next_session_id(),
            final(self).log() == old(self).log() + out@,
    {
        let mut out: Vec<PlayerEvent> = Vec::new();
        if self.active {
            out.push(PlayerEvent::Stopped);
            self.active = false;
        }
        proof {
            assert(out@ =~= spec_stop_emits(old(self).is_active()));
            self.emitted@ = old(self).emitted@ + out@;
        }
        out
    }
}

/// How many `Stopped` events a trace holds.
pub open spec fn count_stopped(trace: Seq<PlayerEvent>) -> nat
    decreases trace.len(),
{
    if trace.len() == 0 {
        0
    } else {
        count_stopped(trace.drop_last()) + (if trace.last() is Stopped {
            1nat
        } else {
            0nat
        })
    }
}

/// Superseding a session emits exactly one `Stopped`, and it comes strictly
/// before any `Started` of the session that follows: the trace of a `stop`
/// (or of the superseding step inside a new start) followed by a successful
/// start holds one `Stopped`, at its head, and every `Started` after it.
pub proof fn lemma_stop_precedes_next_start(active: bool, total: u64)
    requires
        active,
    ensures
        ({
            let trace = spec_stop_emits(active) + spec_start_emits(total);
            &&& count_stopped(trace) == 1
            &&& trace[0] is Stopped
            &&& forall|i: int| 0 <= i < trace.len() && (#[trigger] trace[i]) is Started ==> i > 0
        }),
{
    let trace = spec_stop_emits(active) + spec_start_emits(total);
    assert(trace.len() == 3);
    assert(trace[0] is Stopped);
    assert(trace[1] is Started);
    assert(trace[2] is Progress);
    assert(trace.drop_last().drop_last() =~= seq![PlayerEvent::Stopped]);
    assert(seq![PlayerEvent::Stopped].drop_last() =~= Seq::<PlayerEvent>::empty());
    assert(count_stopped(Seq::<PlayerEvent>::empty()) == 0);
    assert(count_stopped(seq![PlayerEvent::Stopped]) == 1);
    assert(count_stopped(trace.drop_last()) == 1);
    assert(count_stopped(trace) == 1);
}

} // verus!
