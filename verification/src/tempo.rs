//! The tempo map: tempo-change points, and the piecewise-linear conversion of
//! tick positions into wall-clock microseconds.
//!
//! A tempo map always starts with an entry at tick 0 (500000 microseconds per
//! quarter note — 120 beats per minute — unless the file set an earlier
//! value); its ticks are strictly increasing; duplicate ticks collapse to the
//! latest value observed. Conversion sums, over every tempo segment fully
//! before the target tick, `micros_per_quarter * segment_ticks / ppq`, plus
//! the partial remainder inside the segment containing the target; it is
//! monotone in the target tick.

use vstd::prelude::*;

use crate::smf::{delta_prefix, lemma_delta_prefix_mono, total_delta, EventKindModel, EventModel, Smf, TrackEvent, TrackEventKind};
use crate::sorting::{
    lemma_insert_ord_at, lemma_insert_ord_sorted, lemma_sort_ord_contains, lemma_sort_ord_sorted,
    sort_ord, sorted_ord, total_ord, transitive_ord,
};

verus! {

/// The default tempo: 500000 microseconds per quarter note, 120 beats per
/// minute.
pub const DEFAULT_MICROS_PER_QUARTER: u32 = 500_000;

/// One tempo-change point: from `tick` on, a quarter note lasts
/// `micros_per_quarter` microseconds.
#[derive(Debug, Clone, Copy, PartialEq, Eq, Structural)]
pub struct TempoEntry {
    pub tick: u64,
    pub micros_per_quarter: u32,
}

/// The tempo map: the change points and the file's ticks-per-quarter-note
/// resolution.
#[derive(Debug, Clone)]
pub struct TempoMap {
    pub entries: Vec<TempoEntry>,
    pub ppq: u32,
}

/// The mathematical model of a tempo entry: `(tick, micros_per_quarter)`.
pub open spec fn entry_pairs(entries: Seq<TempoEntry>) -> Seq<(nat, nat)> {
    entries.map_values(|e: TempoEntry| (e.tick as nat, e.micros_per_quarter as nat))
}

/// The ordering of tempo entries: by tick.
pub open spec fn tick_le() -> spec_fn((nat, nat), (nat, nat)) -> bool {
    |a: (nat, nat), b: (nat, nat)| a.0 <= b.0
}

/// The tempo-change points of one track from event `k` on, given the ticks
/// accumulated so far.
pub open spec fn tempos_from(track: Seq<EventModel>, k: int, tick: nat) -> Seq<(nat, nat)>
    decreases track.len() - k,
{
    if k < 0 || k >= track.len() {
        Seq::empty()
    } else {
        let tick2 = tick + track[k].delta;
        (match track[k].kind {
            EventKindModel::Tempo(t) => seq![(tick2, t)],
            _ => Seq::empty(),
        }) + tempos_from(track, k + 1, tick2)
    }
}

/// The tempo-change points of one track, with absolute ticks.
pub open spec fn track_tempos(track: Seq<EventModel>) -> Seq<(nat, nat)> {
    tempos_from(track, 0, 0)
}

/// The tempo-change points of every track, in track order.
pub open spec fn all_tempos(tracks: Seq<Seq<EventModel>>) -> Seq<(nat, nat)>
    decreases tracks.len(),
{
    if tracks.len() == 0 {
        Seq::empty()
    } else {
        all_tempos(tracks.drop_last()) + track_tempos(tracks.last())
    }
}

/// Collapse runs of equal ticks in a tick-sorted list to the last entry of
/// each run (last write wins).
pub open spec fn dedup_last(s: Seq<(nat, nat)>) -> Seq<(nat, nat)>
    decreases s.len(),
{
    if s.len() <= 1 {
        s
    } else if s[0].0 == s[1].0 {
        dedup_last(s.drop_first())
    } else {
        seq![s[0]] + dedup_last(s.drop_first())
    }
}

/// The tempo map of a set of tracks: a default entry at tick 0, then every
/// tempo change, stably sorted by tick, equal ticks collapsed to the latest
/// value observed.
pub open spec fn spec_tempo_pairs(tracks: Seq<Seq<EventModel>>) -> Seq<(nat, nat)> {
    dedup_last(
        sort_ord(
            seq![(0nat, DEFAULT_MICROS_PER_QUARTER as nat)] + all_tempos(tracks),
            tick_le(),
        ),
    )
}

/// The wall-clock span of `delta_ticks` ticks at a fixed tempo: integer
/// microseconds, rounded down.
pub open spec fn spec_segment_duration(micros_per_quarter: nat, delta_ticks: nat, ppq: nat) -> nat {
    if ppq == 0 {
        0
    } else {
        micros_per_quarter * delta_ticks / ppq
    }
}

/// `a - b`, saturating at zero.
pub open spec fn sub_sat(a: nat, b: nat) -> nat {
    if a >= b {
        (a - b) as nat
    } else {
        0
    }
}

/// The microseconds from tick `from` (where the tempo is `mpq`) up to tick
/// `t`, walking the remaining change points `entries[k..]` (pairs of tick and
/// microseconds per quarter note): full segments while the next change point
/// is at or before `t`, then the partial remainder.
pub open spec fn dur_from(
    entries: Seq<(nat, nat)>,
    ppq: nat,
    t: nat,
    k: int,
    from: nat,
    mpq: nat,
) -> nat
    decreases entries.len() - k,
{
    if k < 0 || k >= entries.len() || entries[k].0 > t {
        spec_segment_duration(mpq, sub_sat(t, from), ppq)
    } else {
        spec_segment_duration(mpq, sub_sat(entries[k].0, from), ppq) + dur_from(
            entries,
            ppq,
            t,
            k + 1,
            entries[k].0,
            entries[k].1,
        )
    }
}

/// The microseconds from tick 0 up to tick `t` under a well-formed tempo map.
pub open spec fn spec_ticks_to_duration(entries: Seq<(nat, nat)>, ppq: nat, t: nat) -> nat {
    dur_from(entries, ppq, t, 1, 0, entries[0].1)
}

/// The same, clamped to what a 64-bit microsecond count can hold.
pub open spec fn spec_ticks_to_duration_clamped(entries: Seq<(nat, nat)>, ppq: nat, t: nat) -> nat {
    let d = spec_ticks_to_duration(entries, ppq, t);
    if d > u64::MAX {
        u64::MAX as nat
    } else {
        d
    }
}

impl TempoMap {
    /// A valid tempo map: a positive resolution, an entry at tick 0, and
    /// strictly increasing ticks.
    pub open spec fn wf(&self) -> bool {
        &&& self.ppq >= 1
        &&& self.entries@.len() >= 1
        &&& self.entries@[0].tick == 0
        &&& forall|i: int, j: int|
            0 <= i < j < self.entries@.len() ==> self.entries@[i].tick < self.entries@[j].tick
    }
}

/// The wall-clock span of `delta_ticks` ticks at a fixed tempo.
pub fn segment_duration(micros_per_quarter: u32, delta_ticks: u64, ppq: u32) -> (r: u128)
    requires
        ppq >= 1,
    ensures
        r as nat == spec_segment_duration(micros_per_quarter as nat, delta_ticks as nat, ppq as nat),
        r <= (micros_per_quarter as u128) * (delta_ticks as u128),
{
    if delta_ticks == 0 {
        return 0;
    }
    proof {
        vstd::arithmetic::mul::lemma_mul_upper_bound(
            micros_per_quarter as int,
            0xFFFFFFFF,
            delta_ticks as int,
            0xFFFFFFFFFFFFFFFF,
        );
    }
    let numerator = (micros_per_quarter as u128) * (delta_ticks as u128);
    let r = numerator / (ppq as u128);
    proof {
        vstd::arithmetic::div_mod::lemma_div_nonincreasing(numerator as int, ppq as int);
    }
    r
}

/// A segment's span grows with its tick count.
pub proof fn lemma_segment_duration_monotonic(mpq: nat, d1: nat, d2: nat, ppq: nat)
    requires
        d1 <= d2,
        ppq >= 1,
    ensures
        spec_segment_duration(mpq, d1, ppq) <= spec_segment_duration(mpq, d2, ppq),
{
    vstd::arithmetic::mul::lemma_mul_inequality(d1 as int, d2 as int, mpq as int);
    vstd::arithmetic::mul::lemma_mul_is_commutative(d1 as int, mpq as int);
    vstd::arithmetic::mul::lemma_mul_is_commutative(d2 as int, mpq as int);
    vstd::arithmetic::div_mod::lemma_div_is_ordered(
        (mpq * d1) as int,
        (mpq * d2) as int,
        ppq as int,
    );
}

proof fn lemma_dur_from_monotonic(
    entries: Seq<(nat, nat)>,
    ppq: nat,
    t1: nat,
    t2: nat,
    k: int,
    from: nat,
    mpq: nat,
)
    requires
        ppq >= 1,
        from <= t1 <= t2,
    ensures
        dur_from(entries, ppq, t1, k, from, mpq) <= dur_from(entries, ppq, t2, k, from, mpq),
    decreases entries.len() - k,
{
    if k < 0 || k >= entries.len() || entries[k].0 > t2 {
        // both take the partial remainder at the current tempo
        lemma_segment_duration_monotonic(mpq, sub_sat(t1, from), sub_sat(t2, from), ppq);
    } else if entries[k].0 > t1 {
        // t1 stops in this segment; t2 crosses the change point
        lemma_segment_duration_monotonic(mpq, sub_sat(t1, from), sub_sat(entries[k].0, from), ppq);
    } else {
        // both cross the change point
        lemma_dur_from_monotonic(entries, ppq, t1, t2, k + 1, entries[k].0, entries[k].1);
    }
}

/// Converting ticks to microseconds is monotone: a later tick position never
/// maps to an earlier time.
pub proof fn lemma_ticks_to_duration_monotonic(entries: Seq<(nat, nat)>, ppq: nat, t1: nat, t2: nat)
    requires
        ppq >= 1,
        entries.len() >= 1,
        t1 <= t2,
    ensures
        spec_ticks_to_duration(entries, ppq, t1) <= spec_ticks_to_duration(entries, ppq, t2),
        spec_ticks_to_duration_clamped(entries, ppq, t1) <= spec_ticks_to_duration_clamped(
            entries,
            ppq,
            t2,
        ),
{
    lemma_dur_from_monotonic(entries, ppq, t1, t2, 1, 0, entries[0].1);
}

impl TempoMap {
    /// Convert a tick position to microseconds since the sequence start:
    /// full segments before the position, plus the partial remainder, clamped
    /// to 64 bits.
    pub fn ticks_to_duration(&self, tick: u64) -> (r: u64)
        requires
            self.wf(),
        ensures
            r as nat == spec_ticks_to_duration_clamped(
                entry_pairs(self.entries@),
                self.ppq as nat,
                tick as nat,
            ),
    {
        let ghost pairs = entry_pairs(self.entries@);
        let entries = &self.entries;
        let mut total: u128 = 0;
        let mut last_tick: u64 = 0;
        let mut last_mpq: u32 = entries[0].micros_per_quarter;
        let mut k: usize = 1;
        proof {
            assert(0xFFFFFFFFu128 * 0 == 0) by (nonlinear_arith);
            assert(pairs[0] == (entries@[0].tick as nat, entries@[0].micros_per_quarter as nat));
        }
        while k < entries.len() && entries[k].tick <= tick
            invariant
                self.wf(),
                entries == &self.entries,
                pairs == entry_pairs(self.entries@),
                1 <= k <= entries@.len(),
                last_tick as nat == pairs[k - 1].0,
                last_mpq as nat == pairs[k - 1].1,
                last_tick <= tick,
                total as nat + dur_from(
                    pairs,
                    self.ppq as nat,
                    tick as nat,
                    k as int,
                    last_tick as nat,
                    last_mpq as nat,
                ) == spec_ticks_to_duration(pairs, self.ppq as nat, tick as nat),
                total as nat <= 0xFFFFFFFF * (last_tick as nat),
            decreases entries@.len() - k,
        {
            let entry = entries[k];
            proof {
                assert(pairs[k as int] == (entry.tick as nat, entry.micros_per_quarter as nat));
            }
            let seg = segment_duration(last_mpq, entry.tick - last_tick, self.ppq);
            proof {
                assert(sub_sat(entry.tick as nat, last_tick as nat) == (entry.tick
                    - last_tick) as nat);
                assert(seg as nat <= (last_mpq as nat) * ((entry.tick - last_tick) as nat));
                assert((last_mpq as nat) * ((entry.tick - last_tick) as nat) <= 0xFFFFFFFF * ((
                entry.tick - last_tick) as nat)) by {
                    vstd::arithmetic::mul::lemma_mul_inequality(
                        last_mpq as int,
                        0xFFFFFFFF,
                        entry.tick - last_tick,
                    );
                    vstd::arithmetic::mul::lemma_mul_is_commutative(
                        last_mpq as int,
                        entry.tick - last_tick,
                    );
                    vstd::arithmetic::mul::lemma_mul_is_commutative(
                        0xFFFFFFFF,
                        entry.tick - last_tick,
                    );
                }
                assert(0xFFFFFFFF * (last_tick as nat) + 0xFFFFFFFF * ((entry.tick
                    - last_tick) as nat) == 0xFFFFFFFF * (entry.tick as nat)) by {
                    vstd::arithmetic::mul::lemma_mul_is_distributive_add(
                        0xFFFFFFFF,
                        last_tick as int,
                        entry.tick - last_tick,
                    );
                }
                assert(0xFFFFFFFF * (entry.tick as nat) <= 0xFFFFFFFFu128 * 0xFFFFFFFFFFFFFFFFu128)
                    by {
                    vstd::arithmetic::mul::lemma_mul_inequality(
                        entry.tick as int,
                        0xFFFFFFFFFFFFFFFF,
                        0xFFFFFFFF,
                    );
                    vstd::arithmetic::mul::lemma_mul_is_commutative(
                        entry.tick as int,
                        0xFFFFFFFF,
                    );
                }
            }
            total = total + seg;
            last_tick = entry.tick;
            last_mpq = entry.micros_per_quarter;
            k = k + 1;
        }
        proof {
            if k < entries@.len() {
                assert(pairs[k as int] == (entries@[k as int].tick as nat,
                entries@[k as int].micros_per_quarter as nat));
            }
            assert(dur_from(
                pairs,
                self.ppq as nat,
                tick as nat,
                k as int,
                last_tick as nat,
                last_mpq as nat,
            ) == spec_segment_duration(
                last_mpq as nat,
                sub_sat(tick as nat, last_tick as nat),
                self.ppq as nat,
            ));
        }
        let seg = segment_duration(last_mpq, tick - last_tick, self.ppq);
        proof {
            assert(seg as nat <= (last_mpq as nat) * ((tick - last_tick) as nat));
            assert((last_mpq as nat) * ((tick - last_tick) as nat) <= 0xFFFFFFFF * ((tick
                - last_tick) as nat)) by {
                vstd::arithmetic::mul::lemma_mul_inequality(
                    last_mpq as int,
                    0xFFFFFFFF,
                    tick - last_tick,
                );
                vstd::arithmetic::mul::lemma_mul_is_commutative(last_mpq as int, tick - last_tick);
                vstd::arithmetic::mul::lemma_mul_is_commutative(0xFFFFFFFF, tick - last_tick);
            }
            assert(0xFFFFFFFF * (last_tick as nat) + 0xFFFFFFFF * ((tick - last_tick) as nat)
                == 0xFFFFFFFF * (tick as nat)) by {
                vstd::arithmetic::mul::lemma_mul_is_distributive_add(
                    0xFFFFFFFF,
                    last_tick as int,
                    tick - last_tick,
                );
            }
            assert(0xFFFFFFFF * (tick as nat) <= 0xFFFFFFFFu128 * 0xFFFFFFFFFFFFFFFFu128) by {
                vstd::arithmetic::mul::lemma_mul_inequality(
                    tick as int,
                    0xFFFFFFFFFFFFFFFF,
                    0xFFFFFFFF,
                );
                vstd::arithmetic::mul::lemma_mul_is_commutative(tick as int, 0xFFFFFFFF);
            }
        }
        let total = total + seg;
        if total > u64::MAX as u128 {
            u64::MAX
        } else {
            total as u64
        }
    }
}

proof fn lemma_tick_le_props()
    ensures
        total_ord::<(nat, nat)>(tick_le()),
        transitive_ord::<(nat, nat)>(tick_le()),
{
    assert forall|a: (nat, nat), b: (nat, nat)| #[trigger]
        tick_le()(a, b) || #[trigger] tick_le()(b, a) by {
        if a.0 <= b.0 {
            assert(tick_le()(a, b));
        } else {
            assert(tick_le()(b, a));
        }
    }
    assert forall|a: (nat, nat), b: (nat, nat), c: (nat, nat)| #[trigger]
        tick_le()(a, b) && #[trigger] tick_le()(b, c) implies tick_le()(a, c) by {
        assert(a.0 <= b.0 <= c.0);
    }
}

/// Collapsing a sorted list keeps its head tick, and leaves the ticks
/// strictly increasing.
proof fn lemma_dedup_last_strict(s: Seq<(nat, nat)>)
    requires
        sorted_ord(s, tick_le()),
    ensures
        s.len() >= 1 ==> dedup_last(s).len() >= 1 && dedup_last(s)[0].0 == s[0].0,
        forall|i: int, j: int|
            0 <= i < j < dedup_last(s).len() ==> (#[trigger] dedup_last(s)[i]).0 < (
            #[trigger] dedup_last(s)[j]).0,
    decreases s.len(),
{
    if s.len() <= 1 {
    } else {
        let rest = s.drop_first();
        assert forall|i: int, j: int| 0 <= i < j < rest.len() implies tick_le()(
            rest[i],
            rest[j],
        ) by {
            assert(s[i + 1] == rest[i]);
            assert(s[j + 1] == rest[j]);
            assert(tick_le()(s[i + 1], s[j + 1]));
        }
        lemma_dedup_last_strict(rest);
        let d = dedup_last(rest);
        if s[0].0 == s[1].0 {
            assert(dedup_last(s) == d);
            assert(rest[0] == s[1]);
        } else {
            assert(tick_le()(s[0], s[1]));
            assert(s[0].0 < s[1].0);
            assert(rest[0] == s[1]);
            let r = seq![s[0]] + d;
            assert(dedup_last(s) == r);
            assert forall|i: int, j: int|
                0 <= i < j < r.len() implies (#[trigger] r[i]).0 < (#[trigger] r[j]).0 by {
                if i == 0 {
                    assert(r[j] == d[j - 1]);
                    if j - 1 > 0 {
                        assert(d[0].0 < d[j - 1].0);
                    }
                    assert(d[0].0 == s[1].0);
                } else {
                    assert(r[i] == d[i - 1]);
                    assert(r[j] == d[j - 1]);
                }
            }
        }
    }
}

/// Stable insertion sort of tempo entries by tick.
fn sort_entries(v: Vec<TempoEntry>) -> (out: Vec<TempoEntry>)
    ensures
        entry_pairs(out@) == sort_ord(entry_pairs(v@), tick_le()),
        sorted_ord(entry_pairs(out@), tick_le()),
{
    let mut out: Vec<TempoEntry> = Vec::new();
    let mut idx: usize = 0;
    proof {
        assert(entry_pairs(v@).take(0) =~= Seq::<(nat, nat)>::empty());
        assert(entry_pairs(out@) =~= Seq::<(nat, nat)>::empty());
    }
    while idx < v.len()
        invariant
            idx <= v@.len(),
            entry_pairs(out@) == sort_ord(entry_pairs(v@).take(idx as int), tick_le()),
            sorted_ord(entry_pairs(out@), tick_le()),
            out@.len() == idx,
        decreases v@.len() - idx,
    {
        let ghost old_pairs = entry_pairs(out@);
        let x = v[idx];
        let ghost xp = (x.tick as nat, x.micros_per_quarter as nat);
        let mut j: usize = out.len();
        while j > 0 && out[j - 1].tick > x.tick
            invariant
                j <= out@.len(),
                entry_pairs(out@) == old_pairs,
                forall|m: int|
                    j <= m < out@.len() ==> (#[trigger] entry_pairs(out@)[m]).0 > x.tick as nat,
            decreases j,
        {
            proof {
                assert(entry_pairs(out@)[j - 1].0 == out@[j - 1].tick as nat);
            }
            j = j - 1;
        }
        out.insert(j, x);
        proof {
            lemma_tick_le_props();
            assert forall|m: int| j <= m < old_pairs.len() implies !tick_le()(
                #[trigger] old_pairs[m],
                xp,
            ) by {
                assert(old_pairs[m].0 > x.tick as nat);
            }
            if j > 0 {
                assert(old_pairs[j - 1].0 == out@[j - 1].tick as nat);
                assert(tick_le()(old_pairs[j - 1], xp));
            }
            lemma_insert_ord_at(old_pairs, xp, tick_le(), j as int);
            assert(entry_pairs(out@) =~= old_pairs.subrange(0, j as int) + seq![xp]
                + old_pairs.subrange(j as int, old_pairs.len() as int));
            lemma_insert_ord_sorted(old_pairs, xp, tick_le());
            assert(entry_pairs(v@).take(idx + 1).drop_last() =~= entry_pairs(v@).take(
                idx as int,
            ));
            assert(entry_pairs(v@).take(idx + 1).last() == xp);
        }
        idx = idx + 1;
    }
    proof {
        assert(entry_pairs(v@).take(v@.len() as int) =~= entry_pairs(v@));
    }
    out
}

/// Collapse runs of equal ticks to the last entry of each run.
fn dedup_entries(v: &Vec<TempoEntry>) -> (out: Vec<TempoEntry>)
    ensures
        entry_pairs(out@) == dedup_last(entry_pairs(v@)),
{
    let mut out: Vec<TempoEntry> = Vec::new();
    let mut k: usize = 0;
    proof {
        assert(entry_pairs(v@).skip(0) =~= entry_pairs(v@));
        assert(entry_pairs(out@) =~= Seq::<(nat, nat)>::empty());
        assert(entry_pairs(out@) + dedup_last(entry_pairs(v@).skip(0)) =~= dedup_last(
            entry_pairs(v@),
        ));
    }
    while k < v.len()
        invariant
            k <= v@.len(),
            dedup_last(entry_pairs(v@)) == entry_pairs(out@) + dedup_last(
                entry_pairs(v@).skip(k as int),
            ),
        decreases v@.len() - k,
    {
        let ghost p = entry_pairs(v@).skip(k as int);
        let ghost old_out = entry_pairs(out@);
        if k + 1 < v.len() && v[k].tick == v[k + 1].tick {
            proof {
                assert(p[0].0 == p[1].0);
                assert(p.drop_first() =~= entry_pairs(v@).skip(k + 1));
            }
        } else {
            out.push(v[k]);
            proof {
                assert(p[0] == (v@[k as int].tick as nat, v@[k as int].micros_per_quarter as nat));
                if p.len() == 1 {
                    assert(entry_pairs(v@).skip(k + 1) =~= Seq::<(nat, nat)>::empty());
                    assert(dedup_last(p) =~= seq![p[0]] + dedup_last(
                        entry_pairs(v@).skip(k + 1),
                    ));
                } else {
                    assert(p[1].0 != p[0].0);
                    assert(p.drop_first() =~= entry_pairs(v@).skip(k + 1));
                }
                assert(entry_pairs(out@) =~= old_out.push(p[0]));
                assert(old_out + (seq![p[0]] + dedup_last(entry_pairs(v@).skip(k + 1)))
                    =~= entry_pairs(out@) + dedup_last(entry_pairs(v@).skip(k + 1)));
            }
        }
        k = k + 1;
    }
    proof {
        assert(entry_pairs(v@).skip(v@.len() as int) =~= Seq::<(nat, nat)>::empty());
        assert(entry_pairs(out@) + Seq::<(nat, nat)>::empty() =~= entry_pairs(out@));
    }
    out
}

impl TempoMap {
    /// Build the tempo map of a parsed file: walk every track, accumulate
    /// absolute ticks, record every tempo change, merge across tracks, sort
    /// stably by tick, collapse equal ticks to the latest value observed, and
    /// keep a tick-0 default entry of 120 beats per minute.
    pub fn from_smf(smf: &Smf, ppq: u32) -> (tm: TempoMap)
        requires
            ppq >= 1,
            crate::smf::smf_wf(smf@),
        ensures
            tm.wf(),
            tm.ppq == ppq,
            entry_pairs(tm.entries@) == spec_tempo_pairs(smf@.tracks),
    {
        let ghost m = smf@;
        let mut entries: Vec<TempoEntry> = Vec::new();
        entries.push(TempoEntry { tick: 0, micros_per_quarter: DEFAULT_MICROS_PER_QUARTER });
        proof {
            assert(m.tracks.take(0) =~= Seq::<Seq<EventModel>>::empty());
            assert(entry_pairs(entries@) =~= seq![(0nat, DEFAULT_MICROS_PER_QUARTER as nat)]
                + all_tempos(m.tracks.take(0)));
        }
        let mut ti: usize = 0;
        while ti < smf.tracks.len()
            invariant
                ti <= smf.tracks@.len(),
                m == smf@,
                crate::smf::smf_wf(m),
                entry_pairs(entries@) == seq![(0nat, DEFAULT_MICROS_PER_QUARTER as nat)]
                    + all_tempos(m.tracks.take(ti as int)),
            decreases smf.tracks@.len() - ti,
        {
            let track = &smf.tracks[ti];
            let ghost tmodel = m.tracks[ti as int];
            let mut tick: u64 = 0;
            let mut k: usize = 0;
            proof {
                assert(tmodel == track@.map_values(|e: TrackEvent| e@));
            }
            while k < track.len()
                invariant
                    k <= track@.len(),
                    m == smf@,
                    crate::smf::smf_wf(m),
                    ti < m.tracks.len(),
                    track == &smf.tracks[ti as int],
                    tmodel == m.tracks[ti as int],
                    tmodel == track@.map_values(|e: TrackEvent| e@),
                    tick as nat == delta_prefix(tmodel, k as int),
                    entry_pairs(entries@) + tempos_from(tmodel, k as int, tick as nat) == seq![
                        (0nat, DEFAULT_MICROS_PER_QUARTER as nat),
                    ] + all_tempos(m.tracks.take(ti as int)) + track_tempos(tmodel),
                decreases track@.len() - k,
            {
                let ghost old_entries = entry_pairs(entries@);
                let ghost old_tick = tick as nat;
                proof {
                    assert(tmodel[k as int] == track@[k as int]@);
                    lemma_delta_prefix_mono(tmodel, k + 1, tmodel.len() as int);
                    assert(total_delta(tmodel) < 0x1000000000000000);
                    assert(delta_prefix(tmodel, k + 1) == delta_prefix(tmodel, k as int)
                        + tmodel[k as int].delta);
                }
                let ev = &track[k];
                tick = tick + ev.delta as u64;
                match &ev.kind {
                    TrackEventKind::Tempo(t) => {
                        entries.push(TempoEntry { tick, micros_per_quarter: *t });
                        proof {
                            let pair = (tick as nat, *t as nat);
                            assert(tempos_from(tmodel, k as int, old_tick) == seq![pair]
                                + tempos_from(tmodel, k + 1, tick as nat));
                            assert(entry_pairs(entries@) =~= old_entries.push(pair));
                            assert(old_entries + (seq![pair] + tempos_from(
                                tmodel,
                                k + 1,
                                tick as nat,
                            )) =~= entry_pairs(entries@) + tempos_from(tmodel, k + 1, tick as nat));
                        }
                    },
                    _ => {
                        proof {
                            assert(tempos_from(tmodel, k as int, old_tick) == tempos_from(
                                tmodel,
                                k + 1,
                                tick as nat,
                            ));
                        }
                    },
                }
                k = k + 1;
            }
            proof {
                assert(tempos_from(tmodel, track@.len() as int, tick as nat) =~= Seq::<
                    (nat, nat),
                >::empty());
                assert(entry_pairs(entries@) + Seq::<(nat, nat)>::empty() =~= entry_pairs(
                    entries@,
                ));
                assert(m.tracks.take(ti + 1).drop_last() =~= m.tracks.take(ti as int));
                assert(m.tracks.take(ti + 1).last() == tmodel);
                assert(all_tempos(m.tracks.take(ti + 1)) == all_tempos(m.tracks.take(ti as int))
                    + track_tempos(tmodel));
                assert(seq![(0nat, DEFAULT_MICROS_PER_QUARTER as nat)] + all_tempos(
                    m.tracks.take(ti as int),
                ) + track_tempos(tmodel) =~= seq![(0nat, DEFAULT_MICROS_PER_QUARTER as nat)]
                    + all_tempos(m.tracks.take(ti + 1)));
            }
            ti = ti + 1;
        }
        proof {
            assert(m.tracks.take(m.tracks.len() as int) =~= m.tracks);
        }
        let ghost raw = entry_pairs(entries@);
        let sorted = sort_entries(entries);
        let deduped = dedup_entries(&sorted);
        proof {
            lemma_tick_le_props();
            lemma_sort_ord_sorted(raw, tick_le());
            lemma_dedup_last_strict(entry_pairs(sorted@));
            // the default tick-0 entry survives: the sorted list starts at tick 0
            lemma_sort_ord_contains(raw, tick_le(), (0nat, DEFAULT_MICROS_PER_QUARTER as nat));
            assert(raw[0] == (0nat, DEFAULT_MICROS_PER_QUARTER as nat));
            assert(raw.contains((0nat, DEFAULT_MICROS_PER_QUARTER as nat)));
            let sp = entry_pairs(sorted@);
            assert(sp.contains((0nat, DEFAULT_MICROS_PER_QUARTER as nat)));
            let z = choose|z: int|
                0 <= z < sp.len() && sp[z] == (0nat, DEFAULT_MICROS_PER_QUARTER as nat);
            if z > 0 {
                assert(tick_le()(sp[0], sp[z]));
            }
            assert(sp[0].0 == 0);
            assert(sp.len() >= 1);
            let dp = entry_pairs(deduped@);
            assert(dp.len() >= 1 && dp[0].0 == 0);
            assert(deduped@[0].tick as nat == dp[0].0);
            assert forall|i: int, j: int|
                0 <= i < j < deduped@.len() implies deduped@[i].tick < deduped@[j].tick by {
                assert(dp[i].0 == deduped@[i].tick as nat);
                assert(dp[j].0 == deduped@[j].tick as nat);
                assert(dp[i].0 < dp[j].0);
            }
        }
        TempoMap { entries: deduped, ppq }
    }
}

} // verus!
