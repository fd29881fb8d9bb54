//! Playing a composition: schedules in samples, the voices that walk them, and
//! where a repeat wraps.
//!
//! The schedule is resolved to sample times up front, so the callback only walks
//! a sorted cursor per voice. While it loops, the composition is handed over
//! again whenever it changes, and taken up at the loop point, so a pass is never
//! rearranged under itself. The wrap is cut at the exact sample, inside the
//! device's block if need be, so a loop does not drift.

use vstd::prelude::*;

use super::share::{plans_view, PlanView, RowPlan};
use crate::audio::engine::{all_channels, count_channels, lemma_channels};
use crate::number::{equal_numbers, same_number, ZERO};
use crate::order::{
    how_many, in_order, law_ordering_keeps_everything, lemma_filter, lemma_how_many_bounds,
    lemma_how_many_holds, lemma_how_many_ordered, ordered, put_in_order, rank_le, Ranked,
};

verus! {

/// The velocity every composed note is played at.
pub const NOTE_VELOCITY: u8 = 100;

/// How many frames an export renders at a time.
pub const BLOCK: usize = 512;

/// A note on the sample clock.
#[derive(Clone, Copy, PartialEq, Eq, Debug, Structural)]
pub struct SampleNote {
    pub at: u64,
    pub len: u64,
    pub pitch: u8,
}

/// A note going on or off at a sample.
#[derive(Clone, Copy, PartialEq, Eq, Debug, Structural)]
pub struct Event {
    pub at: u64,
    pub pitch: u8,
    pub on: bool,
}

impl Ranked for Event {
    /// By time, and what goes off ahead of what goes on.
    open spec fn rank(self) -> (int, int) {
        (self.at as int, if self.on {
            1
        } else {
            0
        })
    }

    fn leads(&self, other: &Self) -> (r: bool) {
        self.at < other.at || (self.at == other.at && (!self.on || other.on))
    }
}

/// Where a note ends: at least one sample behind its start, so that it cannot
/// collapse into a note-off that precedes its own note-on.
pub open spec fn off_at(n: SampleNote) -> int {
    n.at + if n.len < 1 {
        1int
    } else {
        n.len as int
    }
}

/// Whether every note ends at a sample that can be counted.
pub open spec fn notes_count(notes: Seq<SampleNote>) -> bool {
    forall|i: int| 0 <= i < notes.len() ==> off_at(#[trigger] notes[i]) <= u64::MAX
}

/// The events of notes, in the order of the notes.
pub open spec fn note_events(notes: Seq<SampleNote>) -> Seq<Event>
    decreases notes.len(),
{
    if notes.len() == 0 {
        Seq::empty()
    } else {
        let n = notes.last();
        note_events(notes.drop_last()).push(Event { at: n.at, pitch: n.pitch, on: true }).push(
            Event { at: off_at(n) as u64, pitch: n.pitch, on: false },
        )
    }
}

/// The sample the last event of notes falls on.
pub open spec fn last_event(notes: Seq<SampleNote>) -> int
    decreases notes.len(),
{
    if notes.len() == 0 {
        0
    } else {
        let before = last_event(notes.drop_last());
        let off = off_at(notes.last());
        if off > before {
            off
        } else {
            before
        }
    }
}

/// The schedule of notes.
pub open spec fn schedule_of(notes: Seq<SampleNote>) -> Seq<Event> {
    ordered(note_events(notes))
}

proof fn lemma_events_by(notes: Seq<SampleNote>)
    requires
        notes_count(notes),
    ensures
        0 <= last_event(notes) <= u64::MAX,
        note_events(notes).len() == 2 * notes.len(),
        forall|k: int|
            0 <= k < note_events(notes).len() ==> (#[trigger] note_events(notes)[k]).at
                <= last_event(notes),
    decreases notes.len(),
{
    if notes.len() > 0 {
        let init = notes.drop_last();
        assert forall|i: int| 0 <= i < init.len() implies off_at(#[trigger] init[i]) <= u64::MAX by {
            assert(init[i] == notes[i]);
        }
        assert(off_at(notes[notes.len() - 1]) <= u64::MAX);
        lemma_events_by(init);
        let all = note_events(notes);
        let e = note_events(init);
        assert forall|k: int| 0 <= k < all.len() implies (#[trigger] all[k]).at <= last_event(
            notes,
        ) by {
            if k < e.len() {
                assert(all[k] == e[k]);
            }
        }
    }
}

/// A schedule holds every note it is made of, going on and then off, in time
/// order, what goes off ahead of what goes on at the same sample; and nothing
/// comes behind its last event.
pub proof fn law_a_schedule_holds_every_note(notes: Seq<SampleNote>)
    requires
        notes_count(notes),
    ensures
        schedule_of(notes).to_multiset() == note_events(notes).to_multiset(),
        schedule_of(notes).len() == 2 * notes.len(),
        in_order(schedule_of(notes)),
        forall|k: int|
            0 <= k < schedule_of(notes).len() ==> (#[trigger] schedule_of(notes)[k]).at
                <= last_event(notes),
{
    broadcast use vstd::seq_lib::group_to_multiset_ensures;

    lemma_events_by(notes);
    let e = note_events(notes);
    let s = schedule_of(notes);
    law_ordering_keeps_everything(e);
    assert forall|k: int| 0 <= k < s.len() implies (#[trigger] s[k]).at <= last_event(notes) by {
        assert(s.contains(s[k]));
        assert(e.to_multiset().count(s[k]) > 0);
        assert(e.contains(s[k]));
        let j = choose|j: int| 0 <= j < e.len() && e[j] == s[k];
        assert(e[j].at <= last_event(notes));
    }
}

/// Notes as the sorted schedule the callback walks, and the sample its last
/// event falls on.
pub fn schedule_from(notes: &Vec<SampleNote>) -> (r: (Vec<Event>, u64))
    requires
        notes_count(notes@),
    ensures
        r.0@ == schedule_of(notes@),
        r.1 == last_event(notes@),
{
    let mut events: Vec<Event> = Vec::new();
    let mut last: u64 = 0;
    let mut i: usize = 0;
    assert(events@ =~= note_events(notes@.take(0)));
    while i < notes.len()
        invariant
            i <= notes.len(),
            notes_count(notes@),
            events@ == note_events(notes@.take(i as int)),
            last == last_event(notes@.take(i as int)),
        decreases notes.len() - i,
    {
        let n = notes[i];
        assert(off_at(notes@[i as int]) <= u64::MAX);
        let len: u64 = if n.len < 1 {
            1
        } else {
            n.len
        };
        let off: u64 = n.at + len;
        events.push(Event { at: n.at, pitch: n.pitch, on: true });
        events.push(Event { at: off, pitch: n.pitch, on: false });
        if off > last {
            last = off;
        }
        proof {
            assert(notes@.take(i + 1).drop_last() =~= notes@.take(i as int));
            assert(notes@.take(i + 1).last() == n);
        }
        i += 1;
    }
    assert(notes@.take(i as int) =~= notes@);
    (put_in_order(&events), last)
}

/// Where a repeat wraps, in samples: the written length, but never before the
/// last event, and never at nothing.
pub open spec fn wrap_at(written: int, last: int) -> int {
    let w = if written < 1 {
        1
    } else {
        written
    };
    if w < last {
        last
    } else {
        w
    }
}

/// Where a repeat wraps, in samples: the written length, but never before the
/// last event. A length that rounds down a hair must not cut the note on it.
pub fn loop_sample_for(written: u64, last: u64) -> (r: u64)
    ensures
        r == wrap_at(written as int, last as int),
{
    let w: u64 = if written < 1 {
        1
    } else {
        written
    };
    if w < last {
        last
    } else {
        w
    }
}

/// What is played behind the last note-off, so that releases are not cut: one
/// second and a half, in samples.
pub open spec fn tail(rate: int) -> int {
    (3 * rate + 1) / 2
}

/// The tail in samples, at a rate.
pub fn tail_samples(rate: u32) -> (r: u64)
    ensures
        r == tail(rate as int),
{
    (3 * (rate as u64) + 1) / 2
}

// ── voices ──────────────────────────────────────────────────────────────────

/// One instance's schedule, as the callback sees it.
#[derive(Clone, Debug)]
pub struct Voice {
    /// The rows this one instance plays.
    pub row_ids: Vec<u64>,
    /// The level of the instance, as the bits of the number.
    pub gain: u32,
    /// What it plays.
    pub schedule: Vec<Event>,
    /// The next event to send.
    pub cursor: usize,
}

/// What a voice holds.
pub struct VoiceView {
    pub row_ids: Seq<u64>,
    pub gain: u32,
    pub schedule: Seq<Event>,
    pub cursor: int,
}

impl View for Voice {
    type V = VoiceView;

    open spec fn view(&self) -> VoiceView {
        VoiceView {
            row_ids: self.row_ids@,
            gain: self.gain,
            schedule: self.schedule@,
            cursor: self.cursor as int,
        }
    }
}

/// What voices hold.
pub open spec fn voices_view(s: Seq<Voice>) -> Seq<VoiceView> {
    s.map_values(|v: Voice| v@)
}

/// The notes of the rows of a group, one row after the other.
pub open spec fn pooled_notes(placed: Seq<Seq<SampleNote>>, group: Seq<usize>) -> Seq<SampleNote>
    decreases group.len(),
{
    if group.len() == 0 {
        Seq::empty()
    } else {
        pooled_notes(placed, group.drop_last()) + placed[group.last() as int]
    }
}

/// The voice of a group: every note of its rows on one instance, at the level of
/// the first of them.
pub open spec fn voice_of(
    plans: Seq<PlanView>,
    placed: Seq<Seq<SampleNote>>,
    group: Seq<usize>,
) -> VoiceView {
    VoiceView {
        row_ids: group.map_values(|i: usize| plans[i as int].row_id),
        gain: plans[group[0] as int].gain,
        schedule: schedule_of(pooled_notes(placed, group)),
        cursor: 0,
    }
}

/// The voices of the first `n` groups, those whose instance could not be loaded
/// left out.
pub open spec fn voices_from(
    plans: Seq<PlanView>,
    placed: Seq<Seq<SampleNote>>,
    groups: Seq<Seq<usize>>,
    loaded: Seq<bool>,
    n: int,
) -> Seq<VoiceView>
    decreases n,
{
    if n <= 0 {
        Seq::empty()
    } else {
        let before = voices_from(plans, placed, groups, loaded, n - 1);
        if loaded[n - 1] {
            before.push(voice_of(plans, placed, groups[n - 1]))
        } else {
            before
        }
    }
}

/// How many rows the first `n` groups that loaded play.
pub open spec fn playing(groups: Seq<Seq<usize>>, loaded: Seq<bool>, n: int) -> int
    decreases n,
{
    if n <= 0 {
        0
    } else {
        playing(groups, loaded, n - 1) + if loaded[n - 1] {
            groups[n - 1].len() as int
        } else {
            0
        }
    }
}

/// The last event of the first `n` groups that loaded.
pub open spec fn last_of(
    placed: Seq<Seq<SampleNote>>,
    groups: Seq<Seq<usize>>,
    loaded: Seq<bool>,
    n: int,
) -> int
    decreases n,
{
    if n <= 0 {
        0
    } else {
        let before = last_of(placed, groups, loaded, n - 1);
        let last = last_event(pooled_notes(placed, groups[n - 1]));
        if loaded[n - 1] && last > before {
            last
        } else {
            before
        }
    }
}

/// What rows of notes hold.
pub open spec fn placed_view(s: Seq<Vec<SampleNote>>) -> Seq<Seq<SampleNote>> {
    s.map_values(|v: Vec<SampleNote>| v@)
}

/// What groups hold.
pub open spec fn groups_view(s: Seq<Vec<usize>>) -> Seq<Seq<usize>> {
    s.map_values(|v: Vec<usize>| v@)
}

/// A composition with its schedules resolved.
#[derive(Clone, Debug)]
pub struct PreparedVoices {
    pub voices: Vec<Voice>,
    /// The last sample of the composition: the final note-off and the tail.
    pub end_sample: u64,
    /// How many rows got a voice.
    pub rows_playing: usize,
}

/// Why a composition does not play.
#[derive(Clone, Copy, PartialEq, Eq, Debug, Structural)]
pub enum PlayError {
    /// No row could be loaded.
    NoPlayableRows,
    /// An export needs at least one channel.
    NoChannels,
}

impl PlayError {
    /// The message to show.
    pub fn message(&self) -> (r: &'static str)
        ensures
            r@ == (match *self {
                PlayError::NoPlayableRows => "no playable rows"@,
                PlayError::NoChannels => "an export needs at least one channel"@,
            }),
    {
        match self {
            PlayError::NoPlayableRows => "no playable rows",
            PlayError::NoChannels => "an export needs at least one channel",
        }
    }
}

/// Whether groups name rows that are there, none of them empty.
pub open spec fn groups_fit(groups: Seq<Seq<usize>>, n: int) -> bool {
    &&& forall|g: int| 0 <= g < groups.len() ==> (#[trigger] groups[g]).len() > 0
    &&& forall|g: int, p: int|
        0 <= g < groups.len() && 0 <= p < groups[g].len() ==> (#[trigger] groups[g][p]) < n
}

proof fn lemma_pooled_counts(placed: Seq<Seq<SampleNote>>, group: Seq<usize>)
    requires
        forall|p: int| 0 <= p < group.len() ==> (#[trigger] group[p]) < placed.len(),
        forall|i: int| 0 <= i < placed.len() ==> notes_count(#[trigger] placed[i]),
    ensures
        notes_count(pooled_notes(placed, group)),
    decreases group.len(),
{
    if group.len() > 0 {
        let init = group.drop_last();
        assert forall|p: int| 0 <= p < init.len() implies (#[trigger] init[p]) < placed.len() by {
            assert(init[p] == group[p]);
        }
        lemma_pooled_counts(placed, init);
        let a = pooled_notes(placed, init);
        let b = placed[group.last() as int];
        assert(group[group.len() - 1] < placed.len());
        assert(notes_count(b));
        let all = pooled_notes(placed, group);
        assert forall|i: int| 0 <= i < all.len() implies off_at(#[trigger] all[i]) <= u64::MAX by {
            if i < a.len() {
                assert(all[i] == a[i]);
            } else {
                assert(all[i] == b[i - a.len()]);
            }
        }
    }
}

/// The notes of the rows of a group, one row after the other.
fn pool(placed: &Vec<Vec<SampleNote>>, group: &Vec<usize>) -> (r: Vec<SampleNote>)
    requires
        forall|p: int| 0 <= p < group@.len() ==> (#[trigger] group@[p]) < placed@.len(),
    ensures
        r@ == pooled_notes(placed_view(placed@), group@),
{
    let ghost pv = placed_view(placed@);
    let mut out: Vec<SampleNote> = Vec::new();
    let mut p: usize = 0;
    assert(out@ =~= pooled_notes(pv, group@.take(0)));
    while p < group.len()
        invariant
            p <= group.len(),
            pv == placed_view(placed@),
            forall|p: int| 0 <= p < group@.len() ==> (#[trigger] group@[p]) < placed@.len(),
            out@ == pooled_notes(pv, group@.take(p as int)),
        decreases group.len() - p,
    {
        assert(group@[p as int] < placed@.len());
        let row = &placed[group[p]];
        append_notes(&mut out, row);
        proof {
            assert(pv[group@[p as int] as int] == row@);
            assert(group@.take(p + 1).drop_last() =~= group@.take(p as int));
            assert(group@.take(p + 1).last() == group@[p as int]);
        }
        p += 1;
    }
    assert(group@.take(p as int) =~= group@);
    out
}

fn append_notes(out: &mut Vec<SampleNote>, row: &Vec<SampleNote>)
    ensures
        final(out)@ == old(out)@ + row@,
{
    let mut i: usize = 0;
    assert(out@ =~= old(out)@ + row@.take(0));
    while i < row.len()
        invariant
            i <= row.len(),
            out@ == old(out)@ + row@.take(i as int),
        decreases row.len() - i,
    {
        out.push(row[i]);
        i += 1;
        assert(out@ =~= old(out)@ + row@.take(i as int));
    }
    assert(row@.take(i as int) =~= row@);
}

fn ids_of(plans: &Vec<RowPlan>, group: &Vec<usize>) -> (r: Vec<u64>)
    requires
        forall|p: int| 0 <= p < group@.len() ==> (#[trigger] group@[p]) < plans@.len(),
    ensures
        r@ == group@.map_values(|i: usize| plans_view(plans@)[i as int].row_id),
{
    let ghost f = |i: usize| plans_view(plans@)[i as int].row_id;
    let mut out: Vec<u64> = Vec::new();
    let mut p: usize = 0;
    while p < group.len()
        invariant
            p <= group.len(),
            f == (|i: usize| plans_view(plans@)[i as int].row_id),
            forall|p: int| 0 <= p < group@.len() ==> (#[trigger] group@[p]) < plans@.len(),
            out@ == group@.take(p as int).map_values(f),
        decreases group.len() - p,
    {
        assert(group@[p as int] < plans@.len());
        out.push(plans[group[p]].row_id);
        assert(plans_view(plans@)[group@[p as int] as int] == plans@[group@[p as int] as int]@);
        p += 1;
        assert(out@ =~= group@.take(p as int).map_values(f));
    }
    assert(group@.take(p as int) =~= group@);
    out
}

/// Lay out the voices of a composition: one for every group of rows whose
/// instance loaded. A group that did not load is skipped; one broken track must
/// not take the rest of the composition with it.
pub fn prepare_voices(
    plans: &Vec<RowPlan>,
    placed: &Vec<Vec<SampleNote>>,
    groups: &Vec<Vec<usize>>,
    loaded: &Vec<bool>,
    rate: u32,
) -> (r: Result<PreparedVoices, PlayError>)
    requires
        placed@.len() == plans@.len(),
        loaded@.len() == groups@.len(),
        groups_fit(groups_view(groups@), plans@.len() as int),
        forall|i: int| 0 <= i < placed@.len() ==> notes_count((#[trigger] placed@[i])@),
        last_of(placed_view(placed@), groups_view(groups@), loaded@, groups@.len() as int) + tail(
            rate as int,
        ) <= u64::MAX,
        playing(groups_view(groups@), loaded@, groups@.len() as int) <= usize::MAX,
    ensures
        ({
            let pv = plans_view(plans@);
            let nv = placed_view(placed@);
            let gv = groups_view(groups@);
            let n = groups@.len() as int;
            match r {
                Ok(p) => {
                    &&& voices_view(p.voices@) == voices_from(pv, nv, gv, loaded@, n)
                    &&& p.voices@.len() > 0
                    &&& p.end_sample == last_of(nv, gv, loaded@, n) + tail(rate as int)
                    &&& p.rows_playing == playing(gv, loaded@, n)
                },
                Err(e) => e == PlayError::NoPlayableRows && voices_from(
                    pv,
                    nv,
                    gv,
                    loaded@,
                    n,
                ).len() == 0,
            }
        }),
{
    let ghost pv = plans_view(plans@);
    let ghost nv = placed_view(placed@);
    let ghost gv = groups_view(groups@);
    let mut voices: Vec<Voice> = Vec::new();
    let mut last: u64 = 0;
    let mut rows: usize = 0;
    let mut g: usize = 0;
    assert(voices_view(voices@) =~= voices_from(pv, nv, gv, loaded@, 0));
    while g < groups.len()
        invariant
            g <= groups.len(),
            pv == plans_view(plans@),
            nv == placed_view(placed@),
            gv == groups_view(groups@),
            placed@.len() == plans@.len(),
            loaded@.len() == groups@.len(),
            groups_fit(gv, plans@.len() as int),
            forall|i: int| 0 <= i < placed@.len() ==> notes_count((#[trigger] placed@[i])@),
            playing(gv, loaded@, groups@.len() as int) <= usize::MAX,
            voices_view(voices@) == voices_from(pv, nv, gv, loaded@, g as int),
            last == last_of(nv, gv, loaded@, g as int),
            rows == playing(gv, loaded@, g as int),
        decreases groups.len() - g,
    {
        if loaded[g] {
            let group = &groups[g];
            proof {
                assert(gv[g as int] == group@);
                assert(group@.len() > 0);
                assert forall|p: int| 0 <= p < group@.len() implies (#[trigger] group@[p])
                    < plans@.len() by {
                    assert(gv[g as int][p] < plans@.len());
                }
                assert forall|i: int| 0 <= i < nv.len() implies notes_count(#[trigger] nv[i]) by {
                    assert(nv[i] == placed@[i]@);
                }
                lemma_pooled_counts(nv, group@);
                lemma_playing(gv, loaded@, g + 1, groups@.len() as int);
            }
            let notes = pool(placed, group);
            let (schedule, group_last) = schedule_from(&notes);
            if group_last > last {
                last = group_last;
            }
            rows = rows + group.len();
            assert(group@[0] < plans@.len());
            let gain: u32 = plans[group[0]].gain;
            assert(pv[group@[0] as int] == plans@[group@[0] as int]@);
            let voice = Voice { row_ids: ids_of(plans, group), gain, schedule, cursor: 0 };
            let ghost before = voices_view(voices@);
            voices.push(voice);
            assert(voices_view(voices@) =~= before.push(voice@));
        }
        g += 1;
    }
    assert(voices_view(voices@).len() == voices@.len());
    if voices.len() == 0 {
        return Err(PlayError::NoPlayableRows);
    }
    let end_sample: u64 = last + tail_samples(rate);
    Ok(PreparedVoices { voices, end_sample, rows_playing: rows })
}

proof fn lemma_playing(groups: Seq<Seq<usize>>, loaded: Seq<bool>, a: int, b: int)
    requires
        0 <= a <= b,
    ensures
        0 <= playing(groups, loaded, a) <= playing(groups, loaded, b),
    decreases b,
{
    if a < b {
        lemma_playing(groups, loaded, a, b - 1);
    } else if a > 0 {
        lemma_playing(groups, loaded, a - 1, b - 1);
    }
}

// ── sending events ──────────────────────────────────────────────────────────

/// A message to an instrument, by its sample in a block.
#[derive(Clone, Copy, PartialEq, Eq, Debug, Structural)]
pub struct Due {
    pub offset: u64,
    pub status: u8,
    pub pitch: u8,
    pub velocity: u8,
}

/// How far the events of a schedule from `from` on are due: up to the first at
/// or past the end of the block, or all of them where they are flushed.
pub open spec fn due_until(s: Seq<Event>, from: int, end: int, flush: bool) -> int
    decreases s.len() - from,
{
    if from >= s.len() {
        s.len() as int
    } else if s[from].at >= end && !flush {
        from
    } else {
        due_until(s, from + 1, end, flush)
    }
}

/// An event as it is sent in a block of `frames` from `start` on. One that is
/// already due lands on the block's first sample, and one that is flushed on its
/// last.
pub open spec fn sent(e: Event, start: int, frames: int) -> Due {
    let late = if e.at < start {
        0
    } else {
        e.at - start
    };
    Due {
        offset: (if late < frames - 1 {
            late
        } else {
            frames - 1
        }) as u64,
        status: if e.on {
            0x90
        } else {
            0x80
        },
        pitch: e.pitch,
        velocity: if e.on {
            NOTE_VELOCITY
        } else {
            0
        },
    }
}

/// The events a voice sends in a block.
pub open spec fn sent_between(
    s: Seq<Event>,
    from: int,
    to: int,
    start: int,
    frames: int,
) -> Seq<Due> {
    Seq::new((to - from) as nat, |k: int| sent(s[from + k], start, frames))
}

proof fn lemma_due_until(s: Seq<Event>, from: int, end: int, flush: bool)
    requires
        0 <= from <= s.len(),
    ensures
        from <= due_until(s, from, end, flush) <= s.len(),
        flush ==> due_until(s, from, end, flush) == s.len(),
        forall|k: int|
            from <= k < due_until(s, from, end, flush) ==> flush || (#[trigger] s[k]).at < end,
        due_until(s, from, end, flush) < s.len() ==> s[due_until(s, from, end, flush)].at >= end,
    decreases s.len() - from,
{
    if from < s.len() && !(s[from].at >= end && !flush) {
        lemma_due_until(s, from + 1, end, flush);
    }
}

/// However a pass is cut into blocks, every event is sent once: a block that
/// starts where another ended goes on with the event behind the last one sent,
/// and a block that flushes leaves none behind.
pub proof fn law_no_event_is_lost_between_blocks(s: Seq<Event>, a: int, b: int)
    requires
        in_order(s),
        a <= b,
    ensures
        due_until(s, due_until(s, 0, a, false), b, false) == due_until(s, 0, b, false),
        due_until(s, due_until(s, 0, a, false), b, true) == s.len(),
{
    lemma_due_until(s, 0, a, false);
    lemma_due_until(s, 0, b, false);
    let x = due_until(s, 0, a, false);
    let y = due_until(s, 0, b, false);
    lemma_due_until(s, x, b, false);
    lemma_due_until(s, x, b, true);
    let z = due_until(s, x, b, false);
    if y < x {
        assert(s[y].at < a);
    }
    if z < y {
        assert(s[z].at < b);
    } else if y < z {
        assert(s[y].at < b);
    }
}

impl Voice {
    /// The events due in a block, each at its sample in it, taken off the
    /// schedule. `flush` takes every event still in hand: the caller is about to
    /// rewind, and what is left behind would never be sent.
    pub fn due_events(&mut self, start: u64, frames: usize, flush: bool) -> (r: Vec<Due>)
        requires
            frames > 0,
            start + frames <= u64::MAX,
            old(self).cursor <= old(self).schedule@.len(),
        ensures
            ({
                let to = due_until(
                    old(self).schedule@,
                    old(self).cursor as int,
                    start + frames,
                    flush,
                );
                &&& final(self)@ == (VoiceView { cursor: to, ..old(self)@ })
                &&& final(self).cursor <= final(self).schedule@.len()
                &&& r@ == sent_between(
                    old(self).schedule@,
                    old(self).cursor as int,
                    to,
                    start as int,
                    frames as int,
                )
            }),
    {
        let end: u64 = start + frames as u64;
        let last: u64 = frames as u64 - 1;
        let mut out: Vec<Due> = Vec::new();
        let ghost s = self.schedule@;
        let ghost from = self.cursor as int;
        assert(out@ =~= sent_between(s, from, from, start as int, frames as int));
        while self.cursor < self.schedule.len() && (self.schedule[self.cursor].at < end || flush)
            invariant
                self.schedule@ == s,
                self.row_ids == old(self).row_ids,
                self.gain == old(self).gain,
                s == old(self).schedule@,
                from == old(self).cursor,
                from <= self.cursor <= s.len(),
                frames > 0,
                end == start + frames,
                last == frames - 1,
                due_until(s, from, end as int, flush) == due_until(
                    s,
                    self.cursor as int,
                    end as int,
                    flush,
                ),
                out@ == sent_between(s, from, self.cursor as int, start as int, frames as int),
            decreases s.len() - self.cursor,
        {
            let e = self.schedule[self.cursor];
            let late: u64 = if e.at < start {
                0
            } else {
                e.at - start
            };
            let offset: u64 = if late < last {
                late
            } else {
                last
            };
            let due = if e.on {
                Due { offset, status: 0x90, pitch: e.pitch, velocity: NOTE_VELOCITY }
            } else {
                Due { offset, status: 0x80, pitch: e.pitch, velocity: 0 }
            };
            assert(due == sent(e, start as int, frames as int));
            out.push(due);
            self.cursor = self.cursor + 1;
            assert(out@ =~= sent_between(
                s,
                from,
                self.cursor as int,
                start as int,
                frames as int,
            ));
        }
        out
    }
}

// ── edits made while the transport runs ─────────────────────────────────────

/// One row of an edit made while the transport runs, on its sample clock.
#[derive(Clone, Debug)]
pub struct PlacedEdit {
    pub row_id: u64,
    /// The row's level, as the bits of the number.
    pub gain: u32,
    pub notes: Vec<SampleNote>,
}

/// What an edit of a row holds.
pub struct EditView {
    pub row_id: u64,
    pub gain: u32,
    pub notes: Seq<SampleNote>,
}

impl View for PlacedEdit {
    type V = EditView;

    open spec fn view(&self) -> EditView {
        EditView { row_id: self.row_id, gain: self.gain, notes: self.notes@ }
    }
}

/// What edits hold.
pub open spec fn edits_view(s: Seq<PlacedEdit>) -> Seq<EditView> {
    s.map_values(|e: PlacedEdit| e@)
}

/// What a voice is to play from the next loop point on.
#[derive(Clone, Debug)]
pub struct VoiceEdit {
    /// Which voice this is for, by position.
    pub voice: usize,
    pub gain: u32,
    pub schedule: Vec<Event>,
}

/// A composition edited mid-flight, waiting for the next loop point.
#[derive(Clone, Debug)]
pub struct LiveUpdate {
    pub rows: Vec<VoiceEdit>,
    pub loop_sample: u64,
    /// Set once it has been taken up.
    pub applied: bool,
}

/// Where the edit of a row stands, or the number of edits.
pub open spec fn edit_place(edits: Seq<EditView>, id: u64) -> int
    decreases edits.len(),
{
    if edits.len() == 0 || edits[0].row_id == id {
        0
    } else {
        1 + edit_place(edits.skip(1), id)
    }
}

/// The edits of the rows a voice plays, in the order it plays them. A row that
/// no longer appears has none.
pub open spec fn edits_for(edits: Seq<EditView>, ids: Seq<u64>) -> Seq<EditView>
    decreases ids.len(),
{
    if ids.len() == 0 {
        Seq::empty()
    } else {
        let before = edits_for(edits, ids.drop_last());
        let k = edit_place(edits, ids.last());
        if k < edits.len() {
            before.push(edits[k])
        } else {
            before
        }
    }
}

/// The notes of edits, one after the other.
pub open spec fn edited_notes(s: Seq<EditView>) -> Seq<SampleNote>
    decreases s.len(),
{
    if s.len() == 0 {
        Seq::empty()
    } else {
        edited_notes(s.drop_last()) + s.last().notes
    }
}

/// The level a voice gets: the first row's, or none where no row is left.
pub open spec fn edited_gain(s: Seq<EditView>) -> u32 {
    if s.len() == 0 {
        ZERO
    } else {
        s[0].gain
    }
}

/// Whether edits ask for two levels on one instance.
pub open spec fn diverges(s: Seq<EditView>) -> bool {
    exists|k: int| 1 <= k < s.len() && !equal_numbers(s[0].gain, (#[trigger] s[k]).gain)
}

/// What an update holds for a voice.
pub open spec fn is_edit_of(e: VoiceEdit, voice: int, edits: Seq<EditView>, ids: Seq<u64>) -> bool {
    let mine = edits_for(edits, ids);
    &&& e.voice == voice
    &&& e.gain == edited_gain(mine)
    &&& e.schedule@ == schedule_of(edited_notes(mine))
}

/// What rows of ids hold.
pub open spec fn ids_view(s: Seq<Vec<u64>>) -> Seq<Seq<u64>> {
    s.map_values(|v: Vec<u64>| v@)
}

/// The last event of the first `n` voices with an edit.
pub open spec fn edited_last(edits: Seq<EditView>, rows: Seq<Seq<u64>>, n: int) -> int
    decreases n,
{
    if n <= 0 {
        0
    } else {
        let before = edited_last(edits, rows, n - 1);
        let last = last_event(edited_notes(edits_for(edits, rows[n - 1])));
        if last > before {
            last
        } else {
            before
        }
    }
}

/// Whether any of the first `n` voices is asked for two levels.
pub open spec fn any_diverges(edits: Seq<EditView>, rows: Seq<Seq<u64>>, n: int) -> bool {
    exists|v: int| 0 <= v < n && diverges(edits_for(edits, #[trigger] rows[v]))
}

fn find_edit(rows: &Vec<PlacedEdit>, id: u64) -> (r: usize)
    ensures
        r == edit_place(edits_view(rows@), id),
        r <= rows@.len(),
{
    let ghost ev = edits_view(rows@);
    let mut i: usize = 0;
    assert(ev.skip(0) =~= ev);
    while i < rows.len()
        invariant
            i <= rows.len(),
            ev == edits_view(rows@),
            edit_place(ev, id) == i + edit_place(ev.skip(i as int), id),
        decreases rows.len() - i,
    {
        assert(ev.skip(i as int)[0] == rows@[i as int]@);
        if rows[i].row_id == id {
            return i;
        }
        assert(ev.skip(i as int).skip(1) =~= ev.skip(i + 1));
        i += 1;
    }
    i
}

/// What one voice is to play, and whether its rows ask for two levels.
fn voice_edit(voice: usize, ids: &Vec<u64>, rows: &Vec<PlacedEdit>) -> (r: (VoiceEdit, u64, bool))
    requires
        forall|i: int| 0 <= i < rows@.len() ==> notes_count((#[trigger] rows@[i]).notes@),
    ensures
        ({
            let mine = edits_for(edits_view(rows@), ids@);
            &&& is_edit_of(r.0, voice as int, edits_view(rows@), ids@)
            &&& r.1 == last_event(edited_notes(mine))
            &&& r.2 == diverges(mine)
        }),
{
    let ghost ev = edits_view(rows@);
    let mut notes: Vec<SampleNote> = Vec::new();
    let mut gain: Option<u32> = None;
    let mut diverged = false;
    let mut i: usize = 0;
    assert(notes@ =~= edited_notes(edits_for(ev, ids@.take(0))));
    while i < ids.len()
        invariant
            i <= ids.len(),
            ev == edits_view(rows@),
            forall|i: int| 0 <= i < rows@.len() ==> notes_count((#[trigger] rows@[i]).notes@),
            notes_count(notes@),
            notes@ == edited_notes(edits_for(ev, ids@.take(i as int))),
            gain == (if edits_for(ev, ids@.take(i as int)).len() == 0 {
                None::<u32>
            } else {
                Some(edits_for(ev, ids@.take(i as int))[0].gain)
            }),
            diverged == diverges(edits_for(ev, ids@.take(i as int))),
        decreases ids.len() - i,
    {
        let k: usize = find_edit(rows, ids[i]);
        let ghost before = edits_for(ev, ids@.take(i as int));
        proof {
            assert(ids@.take(i + 1).drop_last() =~= ids@.take(i as int));
            assert(ids@.take(i + 1).last() == ids@[i as int]);
        }
        if k < rows.len() {
            let edit = &rows[k];
            let ghost was = notes@;
            append_notes(&mut notes, &edit.notes);
            let ghost after = before.push(edit@);
            proof {
                assert(ev[k as int] == edit@);
                assert(edits_for(ev, ids@.take(i + 1)) == after);
                assert(after.drop_last() =~= before);
                assert(notes_count(edit.notes@));
                assert forall|j: int| 0 <= j < notes@.len() implies off_at(#[trigger] notes@[j])
                    <= u64::MAX by {
                    if j < was.len() {
                        assert(notes@[j] == was[j]);
                    } else {
                        assert(notes@[j] == edit.notes@[j - was.len()]);
                    }
                }
            }
            match gain {
                None => {
                    gain = Some(edit.gain);
                    assert(!diverges(after));
                },
                Some(first) => {
                    proof {
                        if diverges(before) {
                            let j = choose|j: int|
                                1 <= j < before.len() && !equal_numbers(
                                    before[0].gain,
                                    (#[trigger] before[j]).gain,
                                );
                            assert(after[j] == before[j]);
                            assert(diverges(after));
                        }
                        assert(after[before.len() as int] == edit@);
                    }
                    if !same_number(first, edit.gain) {
                        diverged = true;
                        assert(diverges(after));
                    } else {
                        proof {
                            if diverges(after) {
                                let j = choose|j: int|
                                    1 <= j < after.len() && !equal_numbers(
                                        after[0].gain,
                                        (#[trigger] after[j]).gain,
                                    );
                                assert(before[j] == after[j]);
                                assert(diverges(before));
                            }
                        }
                    }
                },
            }
        }
        i += 1;
    }
    assert(ids@.take(i as int) =~= ids@);
    let (schedule, last) = schedule_from(&notes);
    let gain: u32 = match gain {
        Some(g) => g,
        None => ZERO,
    };
    (VoiceEdit { voice, gain, schedule }, last, diverged)
}

/// An edit of the composition, merged along the voices the transport started
/// with, and whether it asks for two levels on one instance. A row the transport
/// is not playing is ignored, and one that no longer appears falls silent.
pub fn live_update(voice_rows: &Vec<Vec<u64>>, rows: &Vec<PlacedEdit>, written: u64) -> (r: (
    LiveUpdate,
    bool,
))
    requires
        forall|i: int| 0 <= i < rows@.len() ==> notes_count((#[trigger] rows@[i]).notes@),
    ensures
        ({
            let ev = edits_view(rows@);
            let rv = ids_view(voice_rows@);
            let n = voice_rows@.len() as int;
            &&& !r.0.applied
            &&& r.0.rows@.len() == n
            &&& forall|v: int|
                0 <= v < n ==> is_edit_of(#[trigger] r.0.rows@[v], v, ev, voice_rows@[v]@)
            &&& r.0.loop_sample == wrap_at(written as int, edited_last(ev, rv, n))
            &&& r.1 == any_diverges(ev, rv, n)
        }),
{
    let ghost ev = edits_view(rows@);
    let ghost rv = ids_view(voice_rows@);
    let mut out: Vec<VoiceEdit> = Vec::new();
    let mut last: u64 = 0;
    let mut diverged = false;
    let mut v: usize = 0;
    while v < voice_rows.len()
        invariant
            v <= voice_rows.len(),
            ev == edits_view(rows@),
            rv == ids_view(voice_rows@),
            forall|i: int| 0 <= i < rows@.len() ==> notes_count((#[trigger] rows@[i]).notes@),
            out@.len() == v,
            forall|k: int| 0 <= k < v ==> is_edit_of(#[trigger] out@[k], k, ev, voice_rows@[k]@),
            last == edited_last(ev, rv, v as int),
            diverged == any_diverges(ev, rv, v as int),
        decreases voice_rows.len() - v,
    {
        let (edit, edit_last, edit_diverged) = voice_edit(v, &voice_rows[v], rows);
        assert(rv[v as int] == voice_rows@[v as int]@);
        out.push(edit);
        if edit_last > last {
            last = edit_last;
        }
        proof {
            if any_diverges(ev, rv, v as int) {
                let k = choose|k: int| 0 <= k < v && diverges(edits_for(ev, #[trigger] rv[k]));
                assert(diverges(edits_for(ev, rv[k])));
                assert(any_diverges(ev, rv, v + 1));
            }
            if edit_diverged {
                assert(diverges(edits_for(ev, rv[v as int])));
                assert(any_diverges(ev, rv, v + 1));
            }
            if any_diverges(ev, rv, v + 1) {
                let k = choose|k: int| 0 <= k < v + 1 && diverges(edits_for(ev, #[trigger] rv[k]));
                if k < v {
                    assert(any_diverges(ev, rv, v as int));
                }
            }
        }
        if edit_diverged {
            diverged = true;
        }
        v += 1;
    }
    let loop_sample: u64 = loop_sample_for(written, last);
    (LiveUpdate { rows: out, loop_sample, applied: false }, diverged)
}

/// Where the edit for a voice stands in an update, or the number of edits.
pub open spec fn update_place(rows: Seq<VoiceEdit>, voice: int) -> int
    decreases rows.len(),
{
    if rows.len() == 0 || rows[0].voice == voice {
        0
    } else {
        1 + update_place(rows.skip(1), voice)
    }
}

/// What a voice is behind the loop point: what the update has for it, or nothing
/// to play where it has nothing.
pub open spec fn taken_up(v: VoiceView, rows: Seq<VoiceEdit>, i: int) -> VoiceView {
    let k = update_place(rows, i);
    if k < rows.len() {
        VoiceView { schedule: rows[k].schedule@, gain: rows[k].gain, cursor: 0, ..v }
    } else {
        VoiceView { schedule: Seq::empty(), cursor: 0, ..v }
    }
}

fn find_update(rows: &Vec<VoiceEdit>, voice: usize) -> (r: usize)
    ensures
        r == update_place(rows@, voice as int),
        r <= rows@.len(),
{
    let mut i: usize = 0;
    assert(rows@.skip(0) =~= rows@);
    while i < rows.len()
        invariant
            i <= rows.len(),
            update_place(rows@, voice as int) == i + update_place(
                rows@.skip(i as int),
                voice as int,
            ),
        decreases rows.len() - i,
    {
        assert(rows@.skip(i as int)[0] == rows@[i as int]);
        if rows[i].voice == voice {
            return i;
        }
        assert(rows@.skip(i as int).skip(1) =~= rows@.skip(i + 1));
        i += 1;
    }
    i
}

proof fn lemma_update_place(a: Seq<VoiceEdit>, b: Seq<VoiceEdit>, voice: int)
    requires
        a.len() == b.len(),
        forall|k: int| 0 <= k < a.len() ==> (#[trigger] a[k]).voice == b[k].voice,
    ensures
        update_place(a, voice) == update_place(b, voice),
        0 <= update_place(a, voice) <= a.len(),
        update_place(a, voice) < a.len() ==> a[update_place(a, voice)].voice == voice,
    decreases a.len(),
{
    if a.len() > 0 {
        assert(a[0].voice == b[0].voice);
        if a[0].voice != voice {
            assert forall|k: int| 0 <= k < a.skip(1).len() implies (#[trigger] a.skip(1)[k]).voice
                == b.skip(1)[k].voice by {
                assert(a[k + 1].voice == b[k + 1].voice);
            }
            lemma_update_place(a.skip(1), b.skip(1), voice);
        }
    }
}

/// Adopt an edit, if it has not been taken up yet: every voice gets the schedule
/// and the level the update has for it, and starts again from the top. Nothing
/// is allocated or freed: the schedules are swapped, and the old ones are left
/// in the update.
pub fn take_live_update(update: &mut LiveUpdate, voices: &mut Vec<Voice>, loop_sample: &mut u64)
    ensures
        old(update).applied ==> *final(update) == *old(update) && final(voices)@ == old(voices)@
            && *final(loop_sample) == *old(loop_sample),
        !old(update).applied ==> {
            &&& final(update).applied
            &&& *final(loop_sample) == old(update).loop_sample
            &&& final(voices)@.len() == old(voices)@.len()
            &&& forall|i: int|
                0 <= i < final(voices)@.len() ==> (#[trigger] final(voices)@[i])@ == taken_up(
                    old(voices)@[i]@,
                    old(update).rows@,
                    i,
                )
            &&& forall|i: int, k: int|
                0 <= i < final(voices)@.len() && 0 <= k < old(update).rows@.len()
                    && old(update).rows@[k].voice == i && (forall|j: int|
                    0 <= j < k ==> (#[trigger] old(update).rows@[j]).voice != i) ==> (
                #[trigger] final(voices)@[i]).gain == (#[trigger] old(update).rows@[k]).gain
                    && final(voices)@[i].schedule@ == old(update).rows@[k].schedule@
        },
{
    if update.applied {
        return;
    }
    let ghost was = voices@;
    let ghost rows = update.rows@;
    let mut i: usize = 0;
    while i < voices.len()
        invariant
            i <= voices.len(),
            voices@.len() == was.len(),
            rows == old(update).rows@,
            update.loop_sample == old(update).loop_sample,
            update.rows@.len() == rows.len(),
            forall|k: int|
                0 <= k < rows.len() ==> (#[trigger] update.rows@[k]).voice == rows[k].voice
                    && update.rows@[k].gain == rows[k].gain,
            forall|k: int|
                0 <= k < rows.len() && rows[k].voice >= i ==> (#[trigger] update.rows@[k]).schedule
                    == rows[k].schedule,
            forall|k: int| 0 <= k < i ==> (#[trigger] voices@[k])@ == taken_up(was[k]@, rows, k),
            forall|k: int| i <= k < voices@.len() ==> voices@[k] == was[k],
        decreases voices.len() - i,
    {
        let k: usize = find_update(&update.rows, i);
        proof {
            lemma_update_place(update.rows@, rows, i as int);
        }
        let ghost before = voices@;
        if k < update.rows.len() {
            std::mem::swap(&mut voices[i].schedule, &mut update.rows[k].schedule);
            voices[i].gain = update.rows[k].gain;
        } else {
            voices[i].schedule.clear();
        }
        voices[i].cursor = 0;
        assert(voices@[i as int]@ == taken_up(was[i as int]@, rows, i as int));
        assert(forall|j: int| 0 <= j < i ==> voices@[j] == before[j]);
        i += 1;
    }
    *loop_sample = update.loop_sample;
    update.applied = true;
    proof {
        assert forall|i: int, k: int|
            0 <= i < voices@.len() && 0 <= k < rows.len() && rows[k].voice == i && (forall|j: int|
                0 <= j < k ==> (#[trigger] rows[j]).voice != i) implies (
        #[trigger] voices@[i]).gain == (#[trigger] rows[k]).gain && voices@[i].schedule@
            == rows[k].schedule@ by {
            law_a_voice_takes_its_edit(was[i]@, rows, i);
            assert(voices@[i]@ == taken_up(was[i]@, rows, i));
        }
    }
}

/// A row that is gone from an edit sends nothing any more, and a pass under an
/// edit never wraps before an event of it.
pub proof fn law_an_edit_is_played_whole(
    edits: Seq<EditView>,
    rows: Seq<Seq<u64>>,
    n: int,
    written: int,
)
    requires
        0 <= n <= rows.len(),
        forall|i: int| 0 <= i < edits.len() ==> notes_count((#[trigger] edits[i]).notes),
    ensures
        forall|v: int, k: int|
            0 <= v < n && 0 <= k < schedule_of(
                edited_notes(edits_for(edits, rows[v])),
            ).len() ==> (#[trigger] schedule_of(edited_notes(edits_for(edits, rows[v])))[k]).at
                <= wrap_at(written, edited_last(edits, rows, n)),
        forall|v: int|
            0 <= v < n && edits_for(edits, #[trigger] rows[v]).len() == 0 ==> schedule_of(
                edited_notes(edits_for(edits, rows[v])),
            ).len() == 0,
{
    assert forall|v: int, k: int|
        0 <= v < n && 0 <= k < schedule_of(edited_notes(edits_for(edits, rows[v]))).len() implies (
    #[trigger] schedule_of(edited_notes(edits_for(edits, rows[v])))[k]).at <= wrap_at(
        written,
        edited_last(edits, rows, n),
    ) by {
        let notes = edited_notes(edits_for(edits, rows[v]));
        lemma_edits_for(edits, rows[v]);
        lemma_edited_notes(edits_for(edits, rows[v]));
        law_a_schedule_holds_every_note(notes);
        lemma_edited_last(edits, rows, v, n);
    }
    assert forall|v: int|
        0 <= v < n && edits_for(edits, #[trigger] rows[v]).len() == 0 implies schedule_of(
        edited_notes(edits_for(edits, rows[v])),
    ).len() == 0 by {
        let notes = edited_notes(edits_for(edits, rows[v]));
        law_ordering_keeps_everything(note_events(notes));
    }
}

proof fn lemma_edits_for(edits: Seq<EditView>, ids: Seq<u64>)
    requires
        forall|i: int| 0 <= i < edits.len() ==> notes_count((#[trigger] edits[i]).notes),
    ensures
        forall|i: int|
            0 <= i < edits_for(edits, ids).len() ==> notes_count(
                (#[trigger] edits_for(edits, ids)[i]).notes,
            ),
    decreases ids.len(),
{
    if ids.len() > 0 {
        lemma_edits_for(edits, ids.drop_last());
        lemma_edit_place(edits, ids.last());
        let before = edits_for(edits, ids.drop_last());
        let all = edits_for(edits, ids);
        assert forall|i: int| 0 <= i < all.len() implies notes_count((#[trigger] all[i]).notes) by {
            if i < before.len() {
                assert(all[i] == before[i]);
            }
        }
    }
}

proof fn lemma_edit_place(edits: Seq<EditView>, id: u64)
    ensures
        0 <= edit_place(edits, id) <= edits.len(),
    decreases edits.len(),
{
    if edits.len() > 0 && edits[0].row_id != id {
        lemma_edit_place(edits.skip(1), id);
    }
}

proof fn lemma_edited_notes(s: Seq<EditView>)
    requires
        forall|i: int| 0 <= i < s.len() ==> notes_count((#[trigger] s[i]).notes),
    ensures
        notes_count(edited_notes(s)),
    decreases s.len(),
{
    if s.len() > 0 {
        let init = s.drop_last();
        assert forall|i: int| 0 <= i < init.len() implies notes_count(
            (#[trigger] init[i]).notes,
        ) by {
            assert(init[i] == s[i]);
        }
        lemma_edited_notes(init);
        let a = edited_notes(init);
        let b = s.last().notes;
        assert(notes_count(s[s.len() - 1].notes));
        let all = edited_notes(s);
        assert forall|i: int| 0 <= i < all.len() implies off_at(#[trigger] all[i]) <= u64::MAX by {
            if i < a.len() {
                assert(all[i] == a[i]);
            } else {
                assert(all[i] == b[i - a.len()]);
            }
        }
    }
}

proof fn lemma_edited_last(edits: Seq<EditView>, rows: Seq<Seq<u64>>, v: int, n: int)
    requires
        0 <= v < n,
    ensures
        last_event(edited_notes(edits_for(edits, rows[v]))) <= edited_last(edits, rows, n),
    decreases n,
{
    if v < n - 1 {
        lemma_edited_last(edits, rows, v, n - 1);
    }
}

// ── the transport ───────────────────────────────────────────────────────────

/// A stretch of a device's block that is mixed in one go.
#[derive(Clone, Copy, PartialEq, Eq, Debug, Structural)]
pub struct Chunk {
    /// Where the composition is at its first frame.
    pub start: u64,
    pub frames: usize,
    /// Whether it ends a pass: every event still in hand goes with it, or a note
    /// ending exactly on the loop point would sound for good.
    pub wraps: bool,
}

/// A running composition, as the callback sees it.
#[derive(Clone, Debug)]
pub struct Transport {
    pub voices: Vec<Voice>,
    /// Samples played of this pass.
    pub position: u64,
    /// Where a repeat wraps.
    pub loop_sample: u64,
    /// Where playing ends when it does not repeat.
    pub end_sample: u64,
    /// Set once the last note and its tail have been played.
    pub finished: bool,
}

/// What voices are at the top of a pass.
pub open spec fn rewound(s: Seq<VoiceView>) -> Seq<VoiceView> {
    s.map_values(|v: VoiceView| VoiceView { cursor: 0, ..v })
}

/// Whether every cursor stands within its schedule.
pub open spec fn cursors_fit(s: Seq<VoiceView>) -> bool {
    forall|i: int| 0 <= i < s.len() ==> 0 <= (#[trigger] s[i]).cursor <= s[i].schedule.len()
}

/// Whether a voice sends these messages in a chunk, and is this behind it.
pub open spec fn sends(v: VoiceView, chunk: Chunk, due: Seq<Due>, after: VoiceView) -> bool {
    let to = due_until(v.schedule, v.cursor, chunk.start + chunk.frames, chunk.wraps);
    &&& due == sent_between(
        v.schedule,
        v.cursor,
        to,
        chunk.start as int,
        chunk.frames as int,
    )
    &&& after == (VoiceView { cursor: to, ..v })
}

/// How many frames the next chunk takes out of `remaining`: up to the loop point
/// where it repeats.
pub open spec fn chunk_frames(position: int, loop_sample: int, remaining: int, repeat: bool) -> int {
    if repeat && loop_sample - position < remaining {
        loop_sample - position
    } else {
        remaining
    }
}

impl Transport {
    /// The loop point is somewhere, and every cursor within its schedule.
    pub open spec fn wf(&self) -> bool {
        &&& self.loop_sample >= 1
        &&& cursors_fit(voices_view(self.voices@))
    }

    /// A transport at the top of a composition. `written` is the composition's
    /// written length, which is what a repeat loops on; it is not where playing
    /// ends when it does not.
    pub fn new(prepared: PreparedVoices, written: u64, rate: u32) -> (r: Transport)
        requires
            cursors_fit(voices_view(prepared.voices@)),
        ensures
            r.wf(),
            r.voices == prepared.voices,
            r.position == 0,
            r.end_sample == prepared.end_sample,
            !r.finished,
            r.loop_sample == wrap_at(
                written as int,
                if prepared.end_sample < tail(rate as int) {
                    0
                } else {
                    prepared.end_sample - tail(rate as int)
                },
            ),
    {
        let t: u64 = tail_samples(rate);
        let last: u64 = if prepared.end_sample < t {
            0
        } else {
            prepared.end_sample - t
        };
        Transport {
            voices: prepared.voices,
            position: 0,
            loop_sample: loop_sample_for(written, last),
            end_sample: prepared.end_sample,
            finished: false,
        }
    }

    /// The rows each voice plays, which a live edit has to merge along.
    pub fn voice_rows(&self) -> (r: Vec<Vec<u64>>)
        ensures
            r@.len() == self.voices@.len(),
            forall|i: int| 0 <= i < r@.len() ==> (#[trigger] r@[i])@ == self.voices@[i].row_ids@,
    {
        let mut out: Vec<Vec<u64>> = Vec::new();
        let mut i: usize = 0;
        while i < self.voices.len()
            invariant
                i <= self.voices.len(),
                out@.len() == i,
                forall|k: int|
                    0 <= k < out@.len() ==> (#[trigger] out@[k])@ == self.voices@[k].row_ids@,
            decreases self.voices.len() - i,
        {
            let mut ids: Vec<u64> = Vec::new();
            let mut k: usize = 0;
            while k < self.voices[i].row_ids.len()
                invariant
                    i < self.voices.len(),
                    k <= self.voices@[i as int].row_ids@.len(),
                    ids@ == self.voices@[i as int].row_ids@.take(k as int),
                decreases self.voices@[i as int].row_ids@.len() - k,
            {
                ids.push(self.voices[i].row_ids[k]);
                k += 1;
                assert(ids@ =~= self.voices@[i as int].row_ids@.take(k as int));
            }
            assert(ids@ =~= self.voices@[i as int].row_ids@);
            out.push(ids);
            i += 1;
        }
        out
    }

    /// Back to the top of the composition: every voice plays its schedule again
    /// from the first event. The plugins are left alone, so a note still
    /// releasing carries over into the next pass.
    pub fn rewind(&mut self)
        ensures
            voices_view(final(self).voices@) == rewound(voices_view(old(self).voices@)),
            final(self).voices@.len() == old(self).voices@.len(),
            final(self).position == 0,
            final(self).loop_sample == old(self).loop_sample,
            final(self).end_sample == old(self).end_sample,
            final(self).finished == old(self).finished,
            old(self).wf() ==> final(self).wf(),
    {
        let ghost was = voices_view(self.voices@);
        let mut i: usize = 0;
        while i < self.voices.len()
            invariant
                i <= self.voices.len(),
                self.voices@.len() == was.len(),
                self.loop_sample == old(self).loop_sample,
                self.end_sample == old(self).end_sample,
                self.finished == old(self).finished,
                forall|k: int|
                    0 <= k < i ==> (#[trigger] self.voices@[k])@ == (VoiceView {
                        cursor: 0,
                        ..was[k]
                    }),
                forall|k: int| i <= k < was.len() ==> (#[trigger] self.voices@[k])@ == was[k],
            decreases self.voices.len() - i,
        {
            let ghost before = self.voices@;
            self.voices[i].cursor = 0;
            assert(self.voices@[i as int]@ == (VoiceView { cursor: 0, ..was[i as int] }));
            assert(forall|j: int| 0 <= j < was.len() && j != i ==> self.voices@[j] == before[j]);
            i += 1;
        }
        self.position = 0;
        assert(voices_view(self.voices@) =~= rewound(was));
    }

    /// The next stretch of a device's block to mix. Without a repeat that is all
    /// of it; with one, the block is split at the loop point so the wrap lands on
    /// the right sample. Where the loop point is already behind, it goes back
    /// now rather than play on to the end.
    pub fn next_chunk(&mut self, remaining: usize, repeat: bool) -> (r: Chunk)
        requires
            old(self).wf(),
            remaining > 0,
            !repeat ==> old(self).position + remaining <= u64::MAX,
        ensures
            final(self).wf(),
            ({
                let back = repeat && old(self).position >= old(self).loop_sample;
                &&& final(self).position == (if back {
                    0
                } else {
                    old(self).position as int
                })
                &&& voices_view(final(self).voices@) == (if back {
                    rewound(voices_view(old(self).voices@))
                } else {
                    voices_view(old(self).voices@)
                })
                &&& final(self).loop_sample == old(self).loop_sample
                &&& final(self).end_sample == old(self).end_sample
                &&& final(self).finished == old(self).finished
            }),
            r.start == final(self).position,
            r.frames == chunk_frames(
                final(self).position as int,
                final(self).loop_sample as int,
                remaining as int,
                repeat,
            ),
            0 < r.frames <= remaining,
            r.start + r.frames <= u64::MAX,
            r.wraps == (repeat && r.start + r.frames >= final(self).loop_sample),
            repeat ==> r.start + r.frames <= final(self).loop_sample,
    {
        if repeat && self.position >= self.loop_sample {
            self.rewind();
        }
        let mut frames: usize = remaining;
        if repeat {
            let left: u64 = self.loop_sample - self.position;
            if left < remaining as u64 {
                frames = left as usize;
            }
        }
        let wraps = repeat && self.position + frames as u64 >= self.loop_sample;
        Chunk { start: self.position, frames, wraps }
    }

    /// The events every voice sends in a chunk.
    pub fn chunk_events(&mut self, chunk: Chunk) -> (r: Vec<Vec<Due>>)
        requires
            old(self).wf(),
            chunk.frames > 0,
            chunk.start + chunk.frames <= u64::MAX,
        ensures
            final(self).wf(),
            final(self).position == old(self).position,
            final(self).loop_sample == old(self).loop_sample,
            final(self).end_sample == old(self).end_sample,
            final(self).finished == old(self).finished,
            final(self).voices@.len() == old(self).voices@.len(),
            r@.len() == old(self).voices@.len(),
            forall|i: int|
                0 <= i < r@.len() ==> sends(
                    old(self).voices@[i]@,
                    chunk,
                    (#[trigger] r@[i])@,
                    final(self).voices@[i]@,
                ),
    {
        let ghost was = self.voices@;
        let mut out: Vec<Vec<Due>> = Vec::new();
        let mut i: usize = 0;
        assert forall|k: int| 0 <= k < was.len() implies (#[trigger] was[k]).cursor
            <= was[k].schedule@.len() by {
            assert(voices_view(was)[k] == was[k]@);
        }
        while i < self.voices.len()
            invariant
                i <= self.voices.len(),
                self.position == old(self).position,
                self.loop_sample == old(self).loop_sample,
                self.end_sample == old(self).end_sample,
                self.finished == old(self).finished,
                self.voices@.len() == was.len(),
                was == old(self).voices@,
                chunk.frames > 0,
                chunk.start + chunk.frames <= u64::MAX,
                out@.len() == i,
                forall|k: int|
                    0 <= k < was.len() ==> (#[trigger] was[k]).cursor <= was[k].schedule@.len(),
                forall|k: int| i <= k < was.len() ==> self.voices@[k] == was[k],
                forall|k: int|
                    0 <= k < i ==> (#[trigger] self.voices@[k]).cursor
                        <= self.voices@[k].schedule@.len(),
                forall|k: int|
                    0 <= k < i ==> sends(
                        was[k]@,
                        chunk,
                        (#[trigger] out@[k])@,
                        self.voices@[k]@,
                    ),
            decreases self.voices.len() - i,
        {
            let ghost before = self.voices@;
            assert(self.voices@[i as int] == was[i as int]);
            let due = self.voices[i].due_events(chunk.start, chunk.frames, chunk.wraps);
            out.push(due);
            assert(forall|j: int| 0 <= j < was.len() && j != i ==> self.voices@[j] == before[j]);
            i += 1;
        }
        assert(cursors_fit(voices_view(self.voices@))) by {
            assert forall|k: int| 0 <= k < self.voices@.len() implies 0 <= (#[trigger] voices_view(
                self.voices@,
            )[k]).cursor <= voices_view(self.voices@)[k].schedule.len() by {
                assert(self.voices@[k].cursor <= self.voices@[k].schedule@.len());
            }
        }
        out
    }

    /// A chunk has been mixed. At the end of a pass the next one starts, with
    /// whatever edit is waiting; otherwise, past the last note and its tail, the
    /// transport is finished.
    pub fn finish_chunk(&mut self, chunk: Chunk, repeat: bool, update: &mut Option<LiveUpdate>)
        requires
            old(self).wf(),
            old(self).position == chunk.start,
            chunk.start + chunk.frames <= u64::MAX,
            *old(update) matches Some(u) ==> u.loop_sample >= 1,
        ensures
            final(self).wf(),
            final(self).end_sample == old(self).end_sample,
            final(self).voices@.len() == old(self).voices@.len(),
            chunk.wraps ==> {
                &&& final(self).position == 0
                &&& final(self).finished == old(self).finished
                &&& match *old(update) {
                    Some(u) if !u.applied => {
                        &&& *final(update) matches Some(w) && w.applied
                        &&& final(self).loop_sample == u.loop_sample
                        &&& forall|i: int|
                            0 <= i < final(self).voices@.len() ==> (
                            #[trigger] final(self).voices@[i])@ == taken_up(
                                old(self).voices@[i]@,
                                u.rows@,
                                i,
                            )
                    },
                    _ => {
                        &&& *final(update) == *old(update)
                        &&& final(self).loop_sample == old(self).loop_sample
                        &&& voices_view(final(self).voices@) == rewound(
                            voices_view(old(self).voices@),
                        )
                    },
                }
            },
            !chunk.wraps ==> {
                &&& *final(update) == *old(update)
                &&& final(self).position == chunk.start + chunk.frames
                &&& final(self).loop_sample == old(self).loop_sample
                &&& final(self).voices@ == old(self).voices@
                &&& final(self).finished == (old(self).finished || (!repeat
                    && final(self).position >= old(self).end_sample))
            },
    {
        let ghost before = self.voices@;
        if chunk.wraps {
            self.rewind();
            if let Some(u) = update {
                let ghost mid = self.voices@;
                let ghost applied = u.applied;
                let ghost rows = u.rows@;
                take_live_update(u, &mut self.voices, &mut self.loop_sample);
                proof {
                    assert forall|i: int| 0 <= i < mid.len() implies (#[trigger] mid[i])@ == (
                    VoiceView { cursor: 0, ..before[i]@ }) by {
                        assert(voices_view(mid)[i] == mid[i]@);
                        assert(voices_view(before)[i] == before[i]@);
                    }
                    if !applied {
                        assert forall|i: int| 0 <= i < self.voices@.len() implies 0 <= (
                        #[trigger] voices_view(self.voices@)[i]).cursor <= voices_view(
                            self.voices@,
                        )[i].schedule.len() by {
                            assert(self.voices@[i]@ == taken_up(mid[i]@, rows, i));
                        }
                    }
                }
            }
        } else {
            self.position = chunk.start + chunk.frames as u64;
            if !repeat && self.position >= self.end_sample {
                self.finished = true;
            }
        }
    }
}

/// A block that repeats is cut so that it never runs past the loop point, and
/// the next pass starts on the very next sample.
pub proof fn law_the_wrap_lands_on_its_sample(position: int, loop_sample: int, remaining: int)
    requires
        0 <= position < loop_sample,
        0 < remaining,
    ensures
        position + chunk_frames(position, loop_sample, remaining, true) <= loop_sample,
        0 < chunk_frames(position, loop_sample, remaining, true) <= remaining,
        position + remaining >= loop_sample ==> position + chunk_frames(
            position,
            loop_sample,
            remaining,
            true,
        ) == loop_sample,
{
}

// ── layout, export, clock ───────────────────────────────────────────────────

/// The buses of a plugin, and where they stand among its buffers.
#[derive(Clone, Debug)]
pub struct VoiceLayout {
    /// Channels across the input buses, which is where the outputs start.
    pub in_channels: usize,
    /// Channels of each output bus.
    pub out_buses: Vec<usize>,
    pub out_channels: usize,
    /// Channels of the main output bus, the ones that are mixed down.
    pub main_out: usize,
    /// The most frames the instance may be handed.
    pub max_block: usize,
}

/// The output buses to lay out: a plugin that declares none still needs
/// somewhere to write, so it gets a stereo one.
pub open spec fn out_buses_of(outputs: Seq<usize>) -> Seq<usize> {
    if outputs.len() == 0 {
        seq![2usize]
    } else {
        outputs
    }
}

/// Lay out a plugin's buses over its buffers, inputs first.
pub fn lay_out(inputs: &Vec<usize>, outputs: &Vec<usize>, own_block: usize, block: usize) -> (r:
    VoiceLayout)
    requires
        all_channels(inputs@) + all_channels(out_buses_of(outputs@)) <= usize::MAX,
    ensures
        r.in_channels == all_channels(inputs@),
        r.out_buses@ == out_buses_of(outputs@),
        r.out_channels == all_channels(out_buses_of(outputs@)),
        r.main_out == out_buses_of(outputs@)[0],
        r.max_block == (if own_block > 0 {
            own_block
        } else {
            block
        }),
{
    proof {
        lemma_channels(inputs@, 0, inputs@.len() as int);
        lemma_channels(out_buses_of(outputs@), 0, out_buses_of(outputs@).len() as int);
    }
    let mut out_buses: Vec<usize> = Vec::new();
    if outputs.len() == 0 {
        out_buses.push(2);
        assert(out_buses@ =~= out_buses_of(outputs@));
    } else {
        let mut i: usize = 0;
        while i < outputs.len()
            invariant
                i <= outputs.len(),
                out_buses@ == outputs@.take(i as int),
            decreases outputs.len() - i,
        {
            out_buses.push(outputs[i]);
            i += 1;
            assert(out_buses@ =~= outputs@.take(i as int));
        }
        assert(out_buses@ =~= outputs@);
    }
    let in_channels: usize = count_channels(inputs);
    let out_channels: usize = count_channels(&out_buses);
    let main_out: usize = out_buses[0];
    VoiceLayout {
        in_channels,
        out_buses,
        out_channels,
        main_out,
        max_block: if own_block > 0 {
            own_block
        } else {
            block
        },
    }
}

/// Which of a plugin's buffers goes to a channel of the device: a mono plugin
/// repeats, a wider one has the extra dropped.
pub fn source_channel(in_channels: usize, main_out: usize, ch: usize) -> (r: usize)
    requires
        main_out > 0,
        in_channels + main_out <= usize::MAX,
    ensures
        r == in_channels + (if ch < main_out {
            ch as int
        } else {
            main_out - 1
        }),
{
    if ch < main_out {
        in_channels + ch
    } else {
        in_channels + (main_out - 1)
    }
}

/// How many frames the export renders next, or none behind its end.
pub fn export_block(position: u64, end: u64) -> (r: Option<usize>)
    ensures
        match r {
            Some(n) => position < end && n == (if end - position < BLOCK {
                end - position
            } else {
                BLOCK as int
            }),
            None => position >= end,
        },
{
    if position >= end {
        return None;
    }
    let left: u64 = end - position;
    if left < BLOCK as u64 {
        Some(left as usize)
    } else {
        Some(BLOCK)
    }
}

/// Whether an export can be made with so many channels.
pub fn check_export(channels: usize) -> (r: Result<(), PlayError>)
    ensures
        r == (if channels > 0 {
            Ok::<(), PlayError>(())
        } else {
            Err(PlayError::NoChannels)
        }),
{
    if channels > 0 {
        Ok(())
    } else {
        Err(PlayError::NoChannels)
    }
}

/// Where the composition was heard to be at an instant, in microseconds from its
/// start. The ear is a device's latency behind the transport. None until the
/// device has asked for its first block, and negative for an instant before it.
pub fn heard_at(started: Option<i64>, t: i64, latency: u64) -> (r: Option<i128>)
    ensures
        r == (match started {
            Some(s) => Some((t - s - latency) as i128),
            None => None,
        }),
{
    match started {
        Some(s) => Some(t as i128 - s as i128 - latency as i128),
        None => None,
    }
}

// ── what a voice plays, note by note ────────────────────────────────────────

proof fn lemma_events_counted(notes: Seq<SampleNote>, x: Event)
    requires
        notes_count(notes),
    ensures
        how_many(note_events(notes), |e: Event| e == x) == how_many(
            notes,
            |n: SampleNote|
                n.pitch == x.pitch && x.at == (if x.on {
                    n.at as int
                } else if n.len == 0 {
                    n.at + 1
                } else {
                    n.at + n.len
                }),
        ),
    decreases notes.len(),
{
    let p = |e: Event| e == x;
    if notes.len() > 0 {
        let init = notes.drop_last();
        let n = notes.last();
        assert(off_at(notes[notes.len() - 1]) <= u64::MAX);
        assert forall|i: int| 0 <= i < init.len() implies off_at(#[trigger] init[i]) <= u64::MAX by {
            assert(init[i] == notes[i]);
        }
        lemma_events_counted(init, x);
        let e = note_events(init);
        let on = Event { at: n.at, pitch: n.pitch, on: true };
        let off = Event { at: off_at(n) as u64, pitch: n.pitch, on: false };
        assert(e.push(on).push(off).drop_last() =~= e.push(on));
        assert(e.push(on).drop_last() =~= e);
        assert(how_many(e.push(on), p) == how_many(e, p) + if p(on) {
            1int
        } else {
            0
        });
        assert(how_many(e.push(on).push(off), p) == how_many(e.push(on), p) + if p(off) {
            1int
        } else {
            0
        });
    }
}

/// A note goes on at its start and off at its end, one sample later at the least,
/// on its own pitch: a schedule holds an event exactly as often as there are notes
/// that start there, or that end there, on that pitch.
pub proof fn law_every_note_goes_on_and_off(notes: Seq<SampleNote>, x: Event)
    requires
        notes_count(notes),
    ensures
        schedule_of(notes).filter(|e: Event| e == x).len() == notes.filter(
            |n: SampleNote|
                n.pitch == x.pitch && x.at == (if x.on {
                    n.at as int
                } else if n.len == 0 {
                    n.at + 1
                } else {
                    n.at + n.len
                }),
        ).len(),
{
    let p = |e: Event| e == x;
    let q = |n: SampleNote|
        n.pitch == x.pitch && x.at == (if x.on {
            n.at as int
        } else if n.len == 0 {
            n.at + 1
        } else {
            n.at + n.len
        });
    lemma_events_counted(notes, x);
    lemma_how_many_ordered(note_events(notes), p);
    lemma_filter(schedule_of(notes), p);
    lemma_filter(notes, q);
}

/// A schedule is in time order, and at one sample what goes off comes ahead of what
/// goes on.
pub proof fn law_a_schedule_is_in_time_order(notes: Seq<SampleNote>, j: int, k: int)
    requires
        0 <= j < k < schedule_of(notes).len(),
    ensures
        schedule_of(notes)[j].at <= schedule_of(notes)[k].at,
        schedule_of(notes)[j].at == schedule_of(notes)[k].at && schedule_of(notes)[j].on
            ==> schedule_of(notes)[k].on,
{
    law_ordering_keeps_everything(note_events(notes));
    assert(rank_le(schedule_of(notes)[j].rank(), schedule_of(notes)[k].rank()));
}

proof fn lemma_note_is_scheduled(notes: Seq<SampleNote>, i: int)
    requires
        notes_count(notes),
        0 <= i < notes.len(),
    ensures
        schedule_of(notes).contains(
            Event { at: notes[i].at, pitch: notes[i].pitch, on: true },
        ),
        schedule_of(notes).contains(
            Event {
                at: (if notes[i].len == 0 {
                    notes[i].at + 1
                } else {
                    notes[i].at + notes[i].len
                }) as u64,
                pitch: notes[i].pitch,
                on: false,
            },
        ),
{
    assert(off_at(notes[i]) <= u64::MAX);
    let on = Event { at: notes[i].at, pitch: notes[i].pitch, on: true };
    let off = Event {
        at: (if notes[i].len == 0 {
            notes[i].at + 1
        } else {
            notes[i].at + notes[i].len
        }) as u64,
        pitch: notes[i].pitch,
        on: false,
    };
    lemma_event_there(notes, on, i);
    lemma_event_there(notes, off, i);
}

proof fn lemma_event_there(notes: Seq<SampleNote>, x: Event, i: int)
    requires
        notes_count(notes),
        0 <= i < notes.len(),
        notes[i].pitch == x.pitch,
        x.at == (if x.on {
            notes[i].at as int
        } else if notes[i].len == 0 {
            notes[i].at + 1
        } else {
            notes[i].at + notes[i].len
        }),
    ensures
        schedule_of(notes).contains(x),
{
    let p = |e: Event| e == x;
    let q = |n: SampleNote|
        n.pitch == x.pitch && x.at == (if x.on {
            n.at as int
        } else if n.len == 0 {
            n.at + 1
        } else {
            n.at + n.len
        });
    lemma_events_counted(notes, x);
    lemma_how_many_ordered(note_events(notes), p);
    assert(q(notes[i]));
    lemma_how_many_holds(notes, q, i);
    lemma_how_many_bounds(schedule_of(notes), p);
}

proof fn lemma_event_comes_from_a_note(notes: Seq<SampleNote>, x: Event) -> (i: int)
    requires
        notes_count(notes),
        schedule_of(notes).contains(x),
    ensures
        0 <= i < notes.len(),
        notes[i].pitch == x.pitch,
        x.at == (if x.on {
            notes[i].at as int
        } else if notes[i].len == 0 {
            notes[i].at + 1
        } else {
            notes[i].at + notes[i].len
        }),
{
    let p = |e: Event| e == x;
    let q = |n: SampleNote|
        n.pitch == x.pitch && x.at == (if x.on {
            n.at as int
        } else if n.len == 0 {
            n.at + 1
        } else {
            n.at + n.len
        });
    let s = schedule_of(notes);
    let k = choose|k: int| 0 <= k < s.len() && s[k] == x;
    assert(p(s[k]));
    lemma_how_many_holds(s, p, k);
    lemma_how_many_ordered(note_events(notes), p);
    lemma_events_counted(notes, x);
    lemma_how_many_bounds(notes, q);
    choose|i: int| 0 <= i < notes.len() && q(#[trigger] notes[i])
}

/// A schedule's last event is where the note that ends last ends.
pub proof fn law_the_last_event_is_the_latest_end(notes: Seq<SampleNote>)
    ensures
        notes.len() == 0 ==> last_event(notes) == 0,
        forall|i: int|
            0 <= i < notes.len() ==> (#[trigger] notes[i]).at + (if notes[i].len == 0 {
                1
            } else {
                notes[i].len as int
            }) <= last_event(notes),
        notes.len() > 0 ==> exists|i: int|
            0 <= i < notes.len() && (#[trigger] notes[i]).at + (if notes[i].len == 0 {
                1
            } else {
                notes[i].len as int
            }) == last_event(notes),
    decreases notes.len(),
{
    if notes.len() > 0 {
        let init = notes.drop_last();
        law_the_last_event_is_the_latest_end(init);
        assert forall|i: int| 0 <= i < notes.len() implies (#[trigger] notes[i]).at + (
        if notes[i].len == 0 {
            1
        } else {
            notes[i].len as int
        }) <= last_event(notes) by {
            if i < init.len() {
                assert(init[i] == notes[i]);
            }
        }
        if off_at(notes.last()) > last_event(init) {
            assert(notes[notes.len() - 1] == notes.last());
        } else {
            assert(init.len() > 0);
            let i = choose|i: int|
                0 <= i < init.len() && (#[trigger] init[i]).at + (if init[i].len == 0 {
                    1
                } else {
                    init[i].len as int
                }) == last_event(init);
            assert(notes[i] == init[i]);
        }
    }
}

proof fn lemma_pooled_note(placed: Seq<Seq<SampleNote>>, group: Seq<usize>, p: int, j: int) -> (i:
    int)
    requires
        0 <= p < group.len(),
        0 <= j < placed[group[p] as int].len(),
    ensures
        0 <= i < pooled_notes(placed, group).len(),
        pooled_notes(placed, group)[i] == placed[group[p] as int][j],
    decreases group.len(),
{
    let init = group.drop_last();
    if p < init.len() {
        assert(init[p] == group[p]);
        lemma_pooled_note(placed, init, p, j)
    } else {
        pooled_notes(placed, init).len() + j
    }
}

proof fn lemma_pooled_from(placed: Seq<Seq<SampleNote>>, group: Seq<usize>, i: int) -> (r: (
    int,
    int,
))
    requires
        0 <= i < pooled_notes(placed, group).len(),
    ensures
        0 <= r.0 < group.len(),
        0 <= r.1 < placed[group[r.0] as int].len(),
        placed[group[r.0] as int][r.1] == pooled_notes(placed, group)[i],
    decreases group.len(),
{
    let init = group.drop_last();
    let before = pooled_notes(placed, init);
    if i < before.len() {
        let r = lemma_pooled_from(placed, init, i);
        assert(init[r.0] == group[r.0]);
        r
    } else {
        (group.len() - 1, i - before.len())
    }
}

/// The notes of a group are those of each row that it names, one row after the
/// other.
pub proof fn law_a_group_pools_the_notes_of_its_rows(
    placed: Seq<Seq<SampleNote>>,
    group: Seq<usize>,
)
    ensures
        pooled_notes(placed, group) == group.map_values(|i: usize| placed[i as int]).flatten(),
    decreases group.len(),
{
    let f = |i: usize| placed[i as int];
    let rows = group.map_values(f);
    rows.lemma_flatten_and_flatten_alt_are_equivalent();
    if group.len() > 0 {
        let init = group.drop_last();
        law_a_group_pools_the_notes_of_its_rows(placed, init);
        init.map_values(f).lemma_flatten_and_flatten_alt_are_equivalent();
        assert(rows.drop_last() =~= init.map_values(f));
        assert(rows.last() == placed[group.last() as int]);
    }
}

/// A group's voice plays every note of every row that the group names: the note's
/// going on and its going off are both in the voice's schedule.
pub proof fn law_a_voice_plays_every_note_of_its_rows(
    plans: Seq<PlanView>,
    placed: Seq<Seq<SampleNote>>,
    group: Seq<usize>,
    p: int,
    j: int,
)
    requires
        forall|p: int| 0 <= p < group.len() ==> (#[trigger] group[p]) < placed.len(),
        forall|i: int| 0 <= i < placed.len() ==> notes_count(#[trigger] placed[i]),
        0 <= p < group.len(),
        0 <= j < placed[group[p] as int].len(),
    ensures
        ({
            let n = placed[group[p] as int][j];
            &&& voice_of(plans, placed, group).schedule.contains(
                Event { at: n.at, pitch: n.pitch, on: true },
            )
            &&& voice_of(plans, placed, group).schedule.contains(
                Event {
                    at: (if n.len == 0 {
                        n.at + 1
                    } else {
                        n.at + n.len
                    }) as u64,
                    pitch: n.pitch,
                    on: false,
                },
            )
        }),
{
    lemma_pooled_counts(placed, group);
    let i = lemma_pooled_note(placed, group, p, j);
    lemma_note_is_scheduled(pooled_notes(placed, group), i);
}

/// A group's voice plays nothing but the notes of the rows that the group names:
/// every event of its schedule is the start or the end of one of them. `r` is the
/// row, by its place in the group, and the note.
pub proof fn law_a_voice_plays_nothing_else(
    plans: Seq<PlanView>,
    placed: Seq<Seq<SampleNote>>,
    group: Seq<usize>,
    e: Event,
) -> (r: (int, int))
    requires
        forall|p: int| 0 <= p < group.len() ==> (#[trigger] group[p]) < placed.len(),
        forall|i: int| 0 <= i < placed.len() ==> notes_count(#[trigger] placed[i]),
        voice_of(plans, placed, group).schedule.contains(e),
    ensures
        0 <= r.0 < group.len(),
        0 <= r.1 < placed[group[r.0] as int].len(),
        ({
            let n = placed[group[r.0] as int][r.1];
            n.pitch == e.pitch && e.at == (if e.on {
                n.at as int
            } else if n.len == 0 {
                n.at + 1
            } else {
                n.at + n.len
            })
        }),
{
    lemma_pooled_counts(placed, group);
    let i = lemma_event_comes_from_a_note(pooled_notes(placed, group), e);
    lemma_pooled_from(placed, group, i)
}

/// A group's voice has the rows of the group, in order, and the level of the first,
/// and stands at its start. It plays two events for every note of those rows.
pub proof fn law_a_voice_has_the_rows_of_its_group(
    plans: Seq<PlanView>,
    placed: Seq<Seq<SampleNote>>,
    group: Seq<usize>,
)
    requires
        forall|p: int| 0 <= p < group.len() ==> (#[trigger] group[p]) < placed.len(),
        forall|i: int| 0 <= i < placed.len() ==> notes_count(#[trigger] placed[i]),
    ensures
        voice_of(plans, placed, group).schedule.len() == 2 * group.map_values(
            |i: usize| placed[i as int],
        ).flatten().len(),
        voice_of(plans, placed, group).row_ids.len() == group.len(),
        forall|p: int|
            0 <= p < group.len() ==> #[trigger] voice_of(plans, placed, group).row_ids[p]
                == plans[group[p] as int].row_id,
        voice_of(plans, placed, group).gain == plans[group[0] as int].gain,
        voice_of(plans, placed, group).cursor == 0,
{
    lemma_pooled_counts(placed, group);
    law_a_schedule_holds_every_note(pooled_notes(placed, group));
    law_a_group_pools_the_notes_of_its_rows(placed, group);
}

/// A group's voice plays each note as often as the rows of the group hold it: an
/// event is in its schedule once for every note, of any row that the group names,
/// that starts there, or that ends there, on that pitch.
pub proof fn law_a_voice_plays_notes_as_often_as_its_rows(
    plans: Seq<PlanView>,
    placed: Seq<Seq<SampleNote>>,
    group: Seq<usize>,
    x: Event,
)
    requires
        forall|p: int| 0 <= p < group.len() ==> (#[trigger] group[p]) < placed.len(),
        forall|i: int| 0 <= i < placed.len() ==> notes_count(#[trigger] placed[i]),
    ensures
        voice_of(plans, placed, group).schedule.filter(|e: Event| e == x).len()
            == group.map_values(|i: usize| placed[i as int]).flatten().filter(
            |n: SampleNote|
                n.pitch == x.pitch && x.at == (if x.on {
                    n.at as int
                } else if n.len == 0 {
                    n.at + 1
                } else {
                    n.at + n.len
                }),
        ).len(),
{
    lemma_pooled_counts(placed, group);
    law_a_group_pools_the_notes_of_its_rows(placed, group);
    law_every_note_goes_on_and_off(pooled_notes(placed, group), x);
}

/// Every group whose instance loaded has its voice, and no other group has one, in
/// the order of the groups: `at` is the group of each voice. The rows that play are
/// those of the voices.
pub proof fn law_every_loaded_group_has_a_voice(
    plans: Seq<PlanView>,
    placed: Seq<Seq<SampleNote>>,
    groups: Seq<Seq<usize>>,
    loaded: Seq<bool>,
    n: int,
) -> (at: Seq<int>)
    requires
        0 <= n <= groups.len(),
    ensures
        at.len() == voices_from(plans, placed, groups, loaded, n).len(),
        forall|k: int|
            0 <= k < at.len() ==> 0 <= #[trigger] at[k] < n && loaded[at[k]] && voices_from(
                plans,
                placed,
                groups,
                loaded,
                n,
            )[k] == voice_of(plans, placed, groups[at[k]]),
        forall|j: int, k: int| 0 <= j < k < at.len() ==> #[trigger] at[j] < #[trigger] at[k],
        forall|g: int| 0 <= g < n && #[trigger] loaded[g] ==> at.contains(g),
        playing(groups, loaded, n) == at.map_values(|g: int| groups[g]).flatten().len(),
    decreases n,
{
    if n <= 0 {
        let at = Seq::<int>::empty();
        assert(at.map_values(|g: int| groups[g]) =~= Seq::empty());
        at
    } else {
        let before = law_every_loaded_group_has_a_voice(plans, placed, groups, loaded, n - 1);
        if loaded[n - 1] {
            let at = before.push(n - 1);
            let f = |g: int| groups[g];
            assert forall|g: int| 0 <= g < n && #[trigger] loaded[g] implies at.contains(g) by {
                if g < n - 1 {
                    assert(before.contains(g));
                    let k = choose|k: int| 0 <= k < before.len() && before[k] == g;
                    assert(at[k] == g);
                } else {
                    assert(at[before.len() as int] == g);
                }
            }
            assert(at.map_values(f) =~= before.map_values(f).push(groups[n - 1]));
            before.map_values(f).lemma_flatten_push(groups[n - 1]);
            at
        } else {
            before
        }
    }
}

/// A composition ends with the note that ends last of any group that loaded.
pub proof fn law_a_composition_ends_with_its_last_note(
    placed: Seq<Seq<SampleNote>>,
    groups: Seq<Seq<usize>>,
    loaded: Seq<bool>,
    n: int,
)
    requires
        0 <= n <= groups.len(),
        loaded.len() == groups.len(),
    ensures
        last_of(placed, groups, loaded, n) >= 0,
        forall|g: int, p: int, j: int|
            0 <= g < n && loaded[g] && 0 <= p < groups[g].len() && 0 <= j
                < placed[groups[g][p] as int].len() ==> (
            #[trigger] placed[groups[g][p] as int][j]).at + (if placed[groups[g][p] as int][j].len
                == 0 {
                1
            } else {
                placed[groups[g][p] as int][j].len as int
            }) <= last_of(placed, groups, loaded, n),
        last_of(placed, groups, loaded, n) > 0 ==> exists|g: int, p: int, j: int|
            0 <= g < n && loaded[g] && 0 <= p < groups[g].len() && 0 <= j
                < placed[groups[g][p] as int].len() && (
            #[trigger] placed[groups[g][p] as int][j]).at + (if placed[groups[g][p] as int][j].len
                == 0 {
                1
            } else {
                placed[groups[g][p] as int][j].len as int
            }) == last_of(placed, groups, loaded, n),
    decreases n,
{
    if n > 0 {
        law_a_composition_ends_with_its_last_note(placed, groups, loaded, n - 1);
        let notes = pooled_notes(placed, groups[n - 1]);
        law_the_last_event_is_the_latest_end(notes);
        let last = last_of(placed, groups, loaded, n);
        assert forall|g: int, p: int, j: int|
            0 <= g < n && loaded[g] && 0 <= p < groups[g].len() && 0 <= j
                < placed[groups[g][p] as int].len() implies (
        #[trigger] placed[groups[g][p] as int][j]).at + (if placed[groups[g][p] as int][j].len
            == 0 {
            1
        } else {
            placed[groups[g][p] as int][j].len as int
        }) <= last by {
            if g == n - 1 {
                let i = lemma_pooled_note(placed, groups[g], p, j);
                assert(notes[i] == placed[groups[g][p] as int][j]);
            }
        }
        if loaded[n - 1] && last_event(notes) > last_of(placed, groups, loaded, n - 1) {
            let i = choose|i: int|
                0 <= i < notes.len() && (#[trigger] notes[i]).at + (if notes[i].len == 0 {
                    1
                } else {
                    notes[i].len as int
                }) == last_event(notes);
            let r = lemma_pooled_from(placed, groups[n - 1], i);
            assert(placed[groups[n - 1][r.0] as int][r.1] == notes[i]);
        }
    }
}

/// A repeat wraps at the written length or at the last event, whichever is later,
/// and at one sample at the earliest.
pub proof fn law_where_a_repeat_wraps(written: int, last: int)
    ensures
        wrap_at(written, last) >= written,
        wrap_at(written, last) >= last,
        wrap_at(written, last) >= 1,
        wrap_at(written, last) == written || wrap_at(written, last) == last || wrap_at(
            written,
            last,
        ) == 1,
{
}

/// The tail is one second and a half, rounded to a whole sample.
pub proof fn law_the_tail_is_a_second_and_a_half(rate: int)
    ensures
        3 * rate <= 2 * tail(rate) <= 3 * rate + 1,
{
}

/// An event within a block is sent at its own sample of it; one that is late on the
/// first, and one that is flushed on the last. A note goes on at the velocity that
/// every note has and goes off at none.
pub proof fn law_how_an_event_is_sent(e: Event, start: int, frames: int)
    requires
        0 <= start,
        0 < frames <= u64::MAX,
    ensures
        start <= e.at < start + frames ==> sent(e, start, frames).offset == e.at - start,
        e.at < start ==> sent(e, start, frames).offset == 0,
        e.at >= start + frames ==> sent(e, start, frames).offset == frames - 1,
        sent(e, start, frames).pitch == e.pitch,
        e.on ==> sent(e, start, frames).status == 0x90 && sent(e, start, frames).velocity == 100,
        !e.on ==> sent(e, start, frames).status == 0x80 && sent(e, start, frames).velocity == 0,
{
}

/// What is due in a block are the events from the cursor on that come before its
/// end, and all of them where they are flushed; each is sent, in order.
pub proof fn law_a_block_sends_what_is_due(
    s: Seq<Event>,
    from: int,
    start: int,
    frames: int,
    flush: bool,
)
    requires
        in_order(s),
        0 <= from <= s.len(),
    ensures
        ({
            let to = due_until(s, from, start + frames, flush);
            let due = sent_between(s, from, to, start, frames);
            &&& from <= to <= s.len()
            &&& due.len() == to - from
            &&& forall|k: int|
                from <= k < s.len() ==> (k < to <==> flush || (#[trigger] s[k]).at < start + frames)
            &&& forall|k: int| 0 <= k < due.len() ==> #[trigger] due[k] == sent(
                s[from + k],
                start,
                frames,
            )
        }),
{
    let end = start + frames;
    let to = due_until(s, from, end, flush);
    lemma_due_until(s, from, end, flush);
    assert forall|k: int| from <= k < s.len() implies (k < to <==> flush || (#[trigger] s[k]).at
        < end) by {
        if k >= to && !flush {
            assert(s[to].at >= end);
            if k > to {
                assert(rank_le(s[to].rank(), s[k].rank()));
            }
        }
    }
}

// ── what an edit changes, row by row ────────────────────────────────────────

/// The edit of a row is the first that names it, and there is none only where none
/// names it.
pub proof fn law_the_edit_of_a_row(edits: Seq<EditView>, id: u64)
    ensures
        0 <= edit_place(edits, id) <= edits.len(),
        edit_place(edits, id) < edits.len() ==> edits[edit_place(edits, id)].row_id == id,
        forall|k: int|
            0 <= k < edits.len() && (#[trigger] edits[k]).row_id == id ==> edit_place(edits, id)
                <= k,
    decreases edits.len(),
{
    if edits.len() > 0 && edits[0].row_id != id {
        let rest = edits.skip(1);
        law_the_edit_of_a_row(rest, id);
        assert forall|k: int| 0 <= k < edits.len() && (
        #[trigger] edits[k]).row_id == id implies edit_place(edits, id) <= k by {
            if k > 0 {
                assert(rest[k - 1] == edits[k]);
            }
        }
    }
}

/// The edits of a voice are those of its rows, each row that has one giving its own,
/// in the order of the rows: `at` is the row of each.
pub proof fn law_the_edits_of_a_voice(edits: Seq<EditView>, ids: Seq<u64>) -> (at: Seq<int>)
    ensures
        at.len() == edits_for(edits, ids).len(),
        forall|k: int|
            0 <= k < at.len() ==> 0 <= #[trigger] at[k] < ids.len() && edits_for(
                edits,
                ids,
            )[k].row_id == ids[at[k]] && edit_place(edits, ids[at[k]]) < edits.len() && edits_for(
                edits,
                ids,
            )[k] == edits[edit_place(edits, ids[at[k]])],
        forall|j: int, k: int| 0 <= j < k < at.len() ==> #[trigger] at[j] < #[trigger] at[k],
        forall|p: int, e: int|
            0 <= p < ids.len() && 0 <= e < edits.len() && (#[trigger] edits[e]).row_id
                == #[trigger] ids[p] ==> at.contains(p),
    decreases ids.len(),
{
    if ids.len() == 0 {
        Seq::empty()
    } else {
        let init = ids.drop_last();
        let before = law_the_edits_of_a_voice(edits, init);
        law_the_edit_of_a_row(edits, ids.last());
        let last = ids.len() - 1;
        let at = if edit_place(edits, ids.last()) < edits.len() {
            before.push(last)
        } else {
            before
        };
        assert forall|p: int, e: int|
            0 <= p < ids.len() && 0 <= e < edits.len() && (#[trigger] edits[e]).row_id
                == #[trigger] ids[p] implies at.contains(p) by {
            if p < last {
                assert(init[p] == ids[p]);
                assert(before.contains(p));
                let k = choose|k: int| 0 <= k < before.len() && before[k] == p;
                assert(at[k] == p);
            } else {
                assert(at[before.len() as int] == p);
            }
        }
        assert forall|k: int| 0 <= k < at.len() implies 0 <= #[trigger] at[k] < ids.len()
            && edits_for(edits, ids)[k].row_id == ids[at[k]] && edit_place(edits, ids[at[k]])
            < edits.len() && edits_for(edits, ids)[k] == edits[edit_place(edits, ids[at[k]])] by {
            if k < before.len() {
                assert(before[k] == at[k]);
                assert(init[at[k]] == ids[at[k]]);
            }
        }
        at
    }
}

/// The notes of edits are those of each, one after the other.
pub proof fn law_edits_pool_their_notes(s: Seq<EditView>)
    ensures
        edited_notes(s) == s.map_values(|e: EditView| e.notes).flatten(),
    decreases s.len(),
{
    let f = |e: EditView| e.notes;
    s.map_values(f).lemma_flatten_and_flatten_alt_are_equivalent();
    if s.len() > 0 {
        law_edits_pool_their_notes(s.drop_last());
        s.drop_last().map_values(f).lemma_flatten_and_flatten_alt_are_equivalent();
        assert(s.map_values(f).drop_last() =~= s.drop_last().map_values(f));
    }
}

proof fn lemma_edited_note(s: Seq<EditView>, k: int, j: int) -> (i: int)
    requires
        0 <= k < s.len(),
        0 <= j < s[k].notes.len(),
    ensures
        0 <= i < edited_notes(s).len(),
        edited_notes(s)[i] == s[k].notes[j],
    decreases s.len(),
{
    if k < s.len() - 1 {
        assert(s.drop_last()[k] == s[k]);
        lemma_edited_note(s.drop_last(), k, j)
    } else {
        edited_notes(s.drop_last()).len() + j
    }
}

proof fn lemma_edited_from(s: Seq<EditView>, i: int) -> (r: (int, int))
    requires
        0 <= i < edited_notes(s).len(),
    ensures
        0 <= r.0 < s.len(),
        0 <= r.1 < s[r.0].notes.len(),
        s[r.0].notes[r.1] == edited_notes(s)[i],
    decreases s.len(),
{
    let before = edited_notes(s.drop_last());
    if i < before.len() {
        let r = lemma_edited_from(s.drop_last(), i);
        assert(s.drop_last()[r.0] == s[r.0]);
        r
    } else {
        (s.len() - 1, i - before.len())
    }
}

/// What an update has for a voice is every note of every edit that its rows have,
/// going on and going off, and nothing else. Its level is that of the first of its
/// rows that has an edit, and none where no row has one.
pub proof fn law_an_update_has_every_edited_note(
    e: VoiceEdit,
    voice: int,
    edits: Seq<EditView>,
    ids: Seq<u64>,
)
    requires
        is_edit_of(e, voice, edits, ids),
        forall|i: int| 0 <= i < edits.len() ==> notes_count((#[trigger] edits[i]).notes),
    ensures
        e.voice == voice,
        forall|p: int, j: int|
            0 <= p < ids.len() && edit_place(edits, ids[p]) < edits.len() && 0 <= j
                < edits[edit_place(edits, ids[p])].notes.len() ==> {
                let n = #[trigger] edits[edit_place(edits, ids[p])].notes[j];
                &&& e.schedule@.contains(Event { at: n.at, pitch: n.pitch, on: true })
                &&& e.schedule@.contains(
                    Event {
                        at: (if n.len == 0 {
                            n.at + 1
                        } else {
                            n.at + n.len
                        }) as u64,
                        pitch: n.pitch,
                        on: false,
                    },
                )
            },
        forall|x: Event| #[trigger]
            e.schedule@.contains(x) ==> exists|p: int, j: int|
                0 <= p < ids.len() && edit_place(edits, ids[p]) < edits.len() && 0 <= j
                    < edits[edit_place(edits, ids[p])].notes.len() && {
                    let n = #[trigger] edits[edit_place(edits, ids[p])].notes[j];
                    n.pitch == x.pitch && x.at == (if x.on {
                        n.at as int
                    } else if n.len == 0 {
                        n.at + 1
                    } else {
                        n.at + n.len
                    })
                },
        forall|p: int|
            #![trigger ids[p]]
            0 <= p < ids.len() && edit_place(edits, ids[p]) < edits.len() && (forall|q: int|
                0 <= q < p ==> edit_place(edits, #[trigger] ids[q]) >= edits.len()) ==> e.gain
                == edits[edit_place(edits, ids[p])].gain,
        (forall|p: int|
            0 <= p < ids.len() ==> edit_place(edits, #[trigger] ids[p]) >= edits.len())
            ==> e.gain == 0 && e.schedule@.len() == 0,
{
    let mine = edits_for(edits, ids);
    let at = law_the_edits_of_a_voice(edits, ids);
    let notes = edited_notes(mine);
    lemma_edits_for(edits, ids);
    lemma_edited_notes(mine);
    law_a_schedule_holds_every_note(notes);
    let s = e.schedule@;
    assert forall|p: int|
        0 <= p < ids.len() && edit_place(edits, #[trigger] ids[p]) < edits.len() implies at.contains(
        p,
    ) by {
        law_the_edit_of_a_row(edits, ids[p]);
        assert(edits[edit_place(edits, ids[p])].row_id == ids[p]);
    }
    assert forall|p: int, j: int|
        0 <= p < ids.len() && edit_place(edits, ids[p]) < edits.len() && 0 <= j
            < edits[edit_place(edits, ids[p])].notes.len() implies {
        let n = #[trigger] edits[edit_place(edits, ids[p])].notes[j];
        &&& s.contains(Event { at: n.at, pitch: n.pitch, on: true })
        &&& s.contains(
            Event {
                at: (if n.len == 0 {
                    n.at + 1
                } else {
                    n.at + n.len
                }) as u64,
                pitch: n.pitch,
                on: false,
            },
        )
    } by {
        assert(at.contains(p));
        let k = choose|k: int| 0 <= k < at.len() && at[k] == p;
        assert(mine[k] == edits[edit_place(edits, ids[at[k]])]);
        let i = lemma_edited_note(mine, k, j);
        lemma_note_is_scheduled(notes, i);
    }
    assert forall|x: Event| #[trigger] s.contains(x) implies exists|p: int, j: int|
        0 <= p < ids.len() && edit_place(edits, ids[p]) < edits.len() && 0 <= j
            < edits[edit_place(edits, ids[p])].notes.len() && {
            let n = #[trigger] edits[edit_place(edits, ids[p])].notes[j];
            n.pitch == x.pitch && x.at == (if x.on {
                n.at as int
            } else if n.len == 0 {
                n.at + 1
            } else {
                n.at + n.len
            })
        } by {
        let i = lemma_event_comes_from_a_note(notes, x);
        let r = lemma_edited_from(mine, i);
        let p = at[r.0];
        assert(mine[r.0] == edits[edit_place(edits, ids[p])]);
        assert(edits[edit_place(edits, ids[p])].notes[r.1] == notes[i]);
    }
    assert forall|p: int|
        #![trigger ids[p]]
        0 <= p < ids.len() && edit_place(edits, ids[p]) < edits.len() && (forall|q: int|
            0 <= q < p ==> edit_place(edits, #[trigger] ids[q]) >= edits.len()) implies e.gain
        == edits[edit_place(edits, ids[p])].gain by {
        assert(at.contains(p));
        let k = choose|k: int| 0 <= k < at.len() && at[k] == p;
        if k > 0 {
            assert(at[0] < at[k]);
            assert(edit_place(edits, ids[at[0]]) < edits.len());
        }
        assert(mine[0] == edits[edit_place(edits, ids[at[0]])]);
    }
    if forall|p: int|
        0 <= p < ids.len() ==> edit_place(edits, #[trigger] ids[p]) >= edits.len() {
        if at.len() > 0 {
            assert(edit_place(edits, ids[at[0]]) < edits.len());
        }
        assert(notes.len() == 0);
    }
}

/// Edits diverge exactly when two of them ask for different levels.
pub proof fn law_what_diverges(s: Seq<EditView>)
    ensures
        diverges(s) <==> exists|j: int, k: int|
            0 <= j < k < s.len() && !equal_numbers(
                (#[trigger] s[j]).gain,
                (#[trigger] s[k]).gain,
            ),
{
    if diverges(s) {
        let k = choose|k: int|
            1 <= k < s.len() && !equal_numbers(s[0].gain, (#[trigger] s[k]).gain);
        assert(0 <= 0 < k < s.len() && !equal_numbers(s[0].gain, s[k].gain));
    }
    if exists|j: int, k: int|
        0 <= j < k < s.len() && !equal_numbers((#[trigger] s[j]).gain, (#[trigger] s[k]).gain) {
        let (j, k) = choose|j: int, k: int|
            0 <= j < k < s.len() && !equal_numbers((#[trigger] s[j]).gain, (#[trigger] s[k]).gain);
        if j > 0 && equal_numbers(s[0].gain, s[k].gain) {
            assert(!equal_numbers(s[0].gain, s[j].gain));
        }
    }
}

/// A pass under an edit wraps with the edited note that ends last, of any voice.
pub proof fn law_an_update_ends_with_its_last_note(
    edits: Seq<EditView>,
    rows: Seq<Seq<u64>>,
    n: int,
)
    requires
        0 <= n <= rows.len(),
    ensures
        edited_last(edits, rows, n) >= 0,
        forall|v: int, i: int|
            0 <= v < n && 0 <= i < edited_notes(edits_for(edits, rows[v])).len() ==> (
            #[trigger] edited_notes(edits_for(edits, rows[v]))[i]).at <= edited_last(
                edits,
                rows,
                n,
            ),
        edited_last(edits, rows, n) > 0 ==> exists|v: int|
            0 <= v < n && last_event(edited_notes(edits_for(edits, #[trigger] rows[v])))
                == edited_last(edits, rows, n),
    decreases n,
{
    if n > 0 {
        law_an_update_ends_with_its_last_note(edits, rows, n - 1);
        let notes = edited_notes(edits_for(edits, rows[n - 1]));
        law_the_last_event_is_the_latest_end(notes);
        if last_event(notes) > edited_last(edits, rows, n - 1) {
            assert(last_event(edited_notes(edits_for(edits, rows[n - 1]))) == edited_last(
                edits,
                rows,
                n,
            ));
        }
    }
}

/// After an update is taken up a voice is at the level of the first edit that the
/// update has for it and plays what that edit plays, from the start; a voice that
/// the update has nothing for keeps its level and plays nothing. Its rows stay.
pub proof fn law_a_voice_takes_its_edit(v: VoiceView, rows: Seq<VoiceEdit>, i: int)
    ensures
        forall|k: int|
            #![trigger rows[k]]
            0 <= k < rows.len() && rows[k].voice == i && (forall|j: int|
                0 <= j < k ==> (#[trigger] rows[j]).voice != i) ==> taken_up(v, rows, i).gain
                == rows[k].gain && taken_up(v, rows, i).schedule == rows[k].schedule@,
        (forall|k: int| 0 <= k < rows.len() ==> (#[trigger] rows[k]).voice != i) ==> taken_up(
            v,
            rows,
            i,
        ).gain == v.gain && taken_up(v, rows, i).schedule.len() == 0,
        taken_up(v, rows, i).cursor == 0,
        taken_up(v, rows, i).row_ids == v.row_ids,
{
    lemma_first_update(rows, i);
    let f = update_place(rows, i);
    assert forall|k: int|
        #![trigger rows[k]]
        0 <= k < rows.len() && rows[k].voice == i && (forall|j: int|
            0 <= j < k ==> (#[trigger] rows[j]).voice != i) implies taken_up(v, rows, i).gain
        == rows[k].gain && taken_up(v, rows, i).schedule == rows[k].schedule@ by {
        if f < k {
            assert(rows[f].voice != i);
        }
        assert(f == k);
    }
}

proof fn lemma_first_update(rows: Seq<VoiceEdit>, voice: int)
    ensures
        0 <= update_place(rows, voice) <= rows.len(),
        update_place(rows, voice) < rows.len() ==> rows[update_place(rows, voice)].voice == voice,
        forall|k: int|
            0 <= k < rows.len() && (#[trigger] rows[k]).voice == voice ==> update_place(rows, voice)
                <= k,
    decreases rows.len(),
{
    if rows.len() > 0 && rows[0].voice != voice {
        let rest = rows.skip(1);
        lemma_first_update(rest, voice);
        assert forall|k: int| 0 <= k < rows.len() && (
        #[trigger] rows[k]).voice == voice implies update_place(rows, voice) <= k by {
            if k > 0 {
                assert(rest[k - 1] == rows[k]);
            }
        }
    }
}

/// Rewinding takes every voice to its start and changes nothing else of it.
pub proof fn law_rewinding_keeps_what_is_played(s: Seq<VoiceView>)
    ensures
        rewound(s).len() == s.len(),
        forall|i: int|
            0 <= i < s.len() ==> (#[trigger] rewound(s)[i]).cursor == 0 && rewound(s)[i].schedule
                == s[i].schedule && rewound(s)[i].gain == s[i].gain && rewound(s)[i].row_ids
                == s[i].row_ids,
{
}

/// A chunk that does not repeat takes all that is asked for, and so does one that
/// ends before the loop point.
pub proof fn law_a_chunk_takes_what_is_asked_for(
    position: int,
    loop_sample: int,
    remaining: int,
    repeat: bool,
)
    ensures
        !repeat || position + remaining <= loop_sample ==> chunk_frames(
            position,
            loop_sample,
            remaining,
            repeat,
        ) == remaining,
{
}

/// What a voice sends in a chunk are its events that are due, in order, and its
/// cursor stands behind them; what it plays, its level and its rows stay.
pub proof fn law_a_voice_sends_what_is_due(
    v: VoiceView,
    chunk: Chunk,
    due: Seq<Due>,
    after: VoiceView,
)
    requires
        sends(v, chunk, due, after),
        in_order(v.schedule),
        0 <= v.cursor <= v.schedule.len(),
    ensures
        after.schedule == v.schedule && after.gain == v.gain && after.row_ids == v.row_ids,
        due.len() == after.cursor - v.cursor,
        v.cursor <= after.cursor <= v.schedule.len(),
        forall|k: int|
            v.cursor <= k < v.schedule.len() ==> (k < after.cursor <==> chunk.wraps || (
            #[trigger] v.schedule[k]).at < chunk.start + chunk.frames),
        forall|k: int|
            0 <= k < due.len() ==> (#[trigger] due[k]).pitch == v.schedule[v.cursor + k].pitch && (
            due[k].status == 0x90 <==> v.schedule[v.cursor + k].on),
{
    law_a_block_sends_what_is_due(
        v.schedule,
        v.cursor,
        chunk.start as int,
        chunk.frames as int,
        chunk.wraps,
    );
}

/// A plugin without an output bus gets a stereo one, and any other keeps its own.
pub proof fn law_every_plugin_has_somewhere_to_write(outputs: Seq<usize>)
    ensures
        out_buses_of(outputs).len() > 0,
        outputs.len() > 0 ==> out_buses_of(outputs) == outputs,
        outputs.len() == 0 ==> out_buses_of(outputs).len() == 1 && out_buses_of(outputs)[0] == 2,
        BLOCK == 512,
{
}

/// What is seen of voices, of placed notes, of groups, of edits and of ids is what they
/// are, one by one.
pub proof fn law_what_is_seen_of_voices(
    voices: Seq<Voice>,
    placed: Seq<Vec<SampleNote>>,
    groups: Seq<Vec<usize>>,
    edits: Seq<PlacedEdit>,
    ids: Seq<Vec<u64>>,
    i: int,
)
    ensures
        voices_view(voices).len() == voices.len(),
        placed_view(placed).len() == placed.len(),
        groups_view(groups).len() == groups.len(),
        edits_view(edits).len() == edits.len(),
        ids_view(ids).len() == ids.len(),
        0 <= i < voices.len() ==> {
            let v = voices_view(voices)[i];
            v.row_ids == voices[i].row_ids@ && v.gain == voices[i].gain && v.schedule
                == voices[i].schedule@ && v.cursor == voices[i].cursor
        },
        0 <= i < placed.len() ==> placed_view(placed)[i] == placed[i]@,
        0 <= i < groups.len() ==> groups_view(groups)[i] == groups[i]@,
        0 <= i < edits.len() ==> {
            let e = edits_view(edits)[i];
            e.row_id == edits[i].row_id && e.gain == edits[i].gain && e.notes == edits[i].notes@
        },
        0 <= i < ids.len() ==> ids_view(ids)[i] == ids[i]@,
{
}

/// An update diverges where the edits of the rows of some voice do.
pub proof fn law_any_voice_may_diverge(edits: Seq<EditView>, rows: Seq<Seq<u64>>, n: int, v: int)
    requires
        0 <= n <= rows.len(),
    ensures
        0 <= v < n && diverges(edits_for(edits, rows[v])) ==> any_diverges(edits, rows, n),
        (forall|k: int| 0 <= k < n ==> !diverges(edits_for(edits, #[trigger] rows[k])))
            ==> !any_diverges(edits, rows, n),
{
    if 0 <= v < n && diverges(edits_for(edits, rows[v])) {
        assert(0 <= v < n && diverges(edits_for(edits, rows[v])));
    }
}

/// A note's end is its start and its length, a length of nothing counting as one
/// sample; notes count where every end can be.
pub proof fn law_where_a_note_ends(notes: Seq<SampleNote>, n: SampleNote)
    ensures
        n.len >= 1 ==> off_at(n) == n.at + n.len,
        n.len == 0 ==> off_at(n) == n.at + 1,
        notes_count(notes) <==> forall|i: int|
            0 <= i < notes.len() ==> (#[trigger] notes[i]).at + (if notes[i].len == 0 {
                1
            } else {
                notes[i].len as int
            }) <= u64::MAX,
{
    if notes_count(notes) {
        assert forall|i: int| 0 <= i < notes.len() implies (#[trigger] notes[i]).at + (
        if notes[i].len == 0 {
            1
        } else {
            notes[i].len as int
        }) <= u64::MAX by {
            assert(off_at(notes[i]) <= u64::MAX);
        }
    }
}

} // verus!
