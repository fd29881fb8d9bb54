//! Playing and recording the composition: what each button decides, and what is
//! said about it.

use vstd::prelude::*;

use super::length::MAX_COUNTED;
use super::panel::{first_track, longest, measurable, own_row_ids, ComposerPanel};
use super::record::{
    law_every_key_struck_is_a_note, notes_from, quantize, quantized, rooms_count, round_label,
    rounding_label, rounding_units, rows_view, snapped, split_voices, step_behind, step_of, struck,
    take_of, voice_frames, voice_items, voice_lead, voices_of, GridNote, RecordedNote,
    MAX_SPLIT_TERMS, ROUNDINGS,
};
use super::row::{ids_below, planned, PlannedNote, Row};
use super::share::{plans_view, PlanView, RowPlan};
use crate::number::{equal_numbers, not_a_number, one_or_more, raised_to_one, same_number};
use crate::registry::{PlaybackSource, PlaybackView, TrackRegistry};
use crate::text::{decimal, push_decimal};

verus! {

/// What the app is asked to do with the project.
#[derive(Clone, Debug, PartialEq)]
pub enum ProjectRequest {
    /// Write the project to a folder, creating it if needed.
    Save { dir: String, name: String },
    /// Read the manifest at this path and replace the composition with it.
    Load { file: String },
}

/// One row of an edit made while the transport is running: everything about a
/// row that can change without loading a different plugin.
#[derive(Clone, Debug)]
pub struct RowEdit {
    pub row_id: u64,
    /// The row's level, as the bits of the number.
    pub gain: u32,
    pub notes: Vec<PlannedNote>,
}

/// What the running transport has been told.
#[derive(Clone, Debug)]
pub struct LiveSnapshot {
    /// The row and the track of each playing row: the part a live edit cannot
    /// change, because a different track means a different plugin to load.
    pub shape: Vec<(u64, Option<u64>)>,
    /// The part it can: notes and gain.
    pub rows: Vec<RowEdit>,
    /// The length the loop runs for, in units.
    pub loop_units: i64,
    /// The tempo the units are played at, as the bits of the number.
    pub tempo_bpm: u32,
    /// Whether the user has been told that the shape changed.
    pub shape_warned: bool,
}

// ── what plays ──────────────────────────────────────────────────────────────

/// The notes of a row.
pub open spec fn notes_of(row: Row) -> Seq<PlannedNote> {
    planned(row.lead_span(), row.items@)
}

/// Whether a row is in the composition: it has a track and something to play.
pub open spec fn in_play(row: Row) -> bool {
    row.track_id is Some && notes_of(row).len() > 0
}

/// Which of the first `n` rows are in the composition.
pub open spec fn rows_in_play(rows: Seq<Row>, n: int) -> Seq<int>
    decreases n,
{
    if n <= 0 {
        Seq::empty()
    } else if in_play(rows[n - 1]) {
        rows_in_play(rows, n - 1).push(n - 1)
    } else {
        rows_in_play(rows, n - 1)
    }
}

/// Whether an edit is what a row plays.
pub open spec fn is_edit_of_row(e: RowEdit, row: Row) -> bool {
    e.row_id == row.id && e.gain == row.gain && e.notes@ == notes_of(row)
}

/// Whether a snapshot is the composition as it stands.
pub open spec fn is_snapshot(s: LiveSnapshot, rows: Seq<Row>, tempo: u32) -> bool {
    let places = rows_in_play(rows, rows.len() as int);
    &&& s.shape@.len() == places.len()
    &&& s.rows@.len() == places.len()
    &&& forall|k: int|
        0 <= k < places.len() ==> #[trigger] s.shape@[k] == (
            rows[places[k]].id,
            rows[places[k]].track_id,
        )
    &&& forall|k: int|
        0 <= k < places.len() ==> is_edit_of_row(#[trigger] s.rows@[k], rows[places[k]])
    &&& s.loop_units == longest(rows, rows.len() as int)
    &&& s.tempo_bpm == tempo
    &&& !s.shape_warned
}

/// The plans of the first `n` rows: those with a source and something to play.
pub open spec fn plans_from(
    rows: Seq<Row>,
    sources: Seq<Option<PlaybackView>>,
    n: int,
) -> Seq<PlanView>
    decreases n,
{
    if n <= 0 {
        Seq::empty()
    } else {
        let before = plans_from(rows, sources, n - 1);
        let row = rows[n - 1];
        match sources[n - 1] {
            Some(source) if notes_of(row).len() > 0 => before.push(
                PlanView { row_id: row.id, source, gain: row.gain, notes: notes_of(row) },
            ),
            _ => before,
        }
    }
}

/// What optional sources hold.
pub open spec fn sources_view(s: Seq<Option<PlaybackSource>>) -> Seq<Option<PlaybackView>> {
    s.map_values(
        |o: Option<PlaybackSource>|
            match o {
                Some(p) => Some(p@),
                None => None,
            },
    )
}

/// Whether two notes are equal, number by number.
pub open spec fn equal_note(a: PlannedNote, b: PlannedNote) -> bool {
    a.at == b.at && a.dur == b.dur && a.pitch == b.pitch && equal_numbers(a.start, b.start)
}

/// Whether two edits of a row are equal, number by number.
pub open spec fn equal_edit(a: RowEdit, b: RowEdit) -> bool {
    &&& a.row_id == b.row_id
    &&& equal_numbers(a.gain, b.gain)
    &&& a.notes@.len() == b.notes@.len()
    &&& forall|k: int|
        0 <= k < a.notes@.len() ==> equal_note(#[trigger] a.notes@[k], b.notes@[k])
}

/// Whether two rows of edits are equal, number by number.
pub open spec fn equal_edits(a: Seq<RowEdit>, b: Seq<RowEdit>) -> bool {
    &&& a.len() == b.len()
    &&& forall|k: int| 0 <= k < a.len() ==> equal_edit(#[trigger] a[k], b[k])
}

/// Whether two snapshots play the same: the same notes at the same levels, for
/// as long and as fast. A tempo below one beat a minute plays as one.
pub open spec fn same_music(a: LiveSnapshot, b: LiveSnapshot) -> bool {
    &&& equal_edits(a.rows@, b.rows@)
    &&& a.loop_units == b.loop_units
    &&& one_or_more(a.tempo_bpm) == one_or_more(b.tempo_bpm)
}

fn same_edit(a: &RowEdit, b: &RowEdit) -> (r: bool)
    ensures
        r == equal_edit(*a, *b),
{
    if a.row_id != b.row_id || !same_number(a.gain, b.gain) || a.notes.len() != b.notes.len() {
        return false;
    }
    let mut k: usize = 0;
    while k < a.notes.len()
        invariant
            k <= a.notes.len(),
            a.notes.len() == b.notes.len(),
            forall|j: int| 0 <= j < k ==> equal_note(#[trigger] a.notes@[j], b.notes@[j]),
        decreases a.notes.len() - k,
    {
        let x = a.notes[k];
        let y = b.notes[k];
        if x.at != y.at || x.dur != y.dur || x.pitch != y.pitch || !same_number(x.start, y.start) {
            assert(!equal_note(a.notes@[k as int], b.notes@[k as int]));
            return false;
        }
        k += 1;
    }
    true
}

fn same_edits(a: &Vec<RowEdit>, b: &Vec<RowEdit>) -> (r: bool)
    ensures
        r == equal_edits(a@, b@),
{
    if a.len() != b.len() {
        return false;
    }
    let mut k: usize = 0;
    while k < a.len()
        invariant
            k <= a.len(),
            a.len() == b.len(),
            forall|j: int| 0 <= j < k ==> equal_edit(#[trigger] a@[j], b@[j]),
        decreases a.len() - k,
    {
        if !same_edit(&a[k], &b[k]) {
            assert(!equal_edit(a@[k as int], b@[k as int]));
            return false;
        }
        k += 1;
    }
    true
}

fn same_shape(a: &Vec<(u64, Option<u64>)>, b: &Vec<(u64, Option<u64>)>) -> (r: bool)
    ensures
        r == (a@ == b@),
{
    if a.len() != b.len() {
        return false;
    }
    let mut k: usize = 0;
    while k < a.len()
        invariant
            k <= a.len(),
            a.len() == b.len(),
            forall|j: int| 0 <= j < k ==> a@[j] == b@[j],
        decreases a.len() - k,
    {
        let (i, t) = a[k];
        let (j, u) = b[k];
        let same = match (t, u) {
            (None, None) => true,
            (Some(x), Some(y)) => x == y,
            _ => false,
        };
        if i != j || !same {
            assert(a@[k as int] != b@[k as int]);
            return false;
        }
        k += 1;
    }
    assert(a@ =~= b@);
    true
}

/// What is said when rows or tracks change under a running loop.
pub open spec fn shape_text() -> Seq<char> {
    "Rows or their tracks changed — press Play again to hear them; note edits still follow the loop."@
}

/// What is said when rows that share an instance get different levels.
pub open spec fn diverged_text() -> Seq<char> {
    "Rows sharing an instance were given different gains — press Play again to give them one each."@
}

impl ComposerPanel {
    /// Everything that has to do with the transport is the same in two panels,
    /// and everything else.
    pub open spec fn same_but_status(&self, other: &ComposerPanel) -> bool {
        &&& self.same_but_rows(other)
        &&& self.rows == other.rows
        &&& self.next_row_id == other.next_row_id
        &&& self.clip == other.clip
    }

    /// Every row that has something to play, with the source its track gives.
    /// A row with no notes, or with no track behind it, is not in the
    /// composition.
    pub fn build_plans(&self, sources: &Vec<Option<PlaybackSource>>) -> (r: Vec<RowPlan>)
        requires
            measurable(self.rows@),
            sources@.len() == self.rows@.len(),
        ensures
            plans_view(r@) == plans_from(
                self.rows@,
                sources_view(sources@),
                self.rows@.len() as int,
            ),
    {
        let ghost sv = sources_view(sources@);
        let mut plans: Vec<RowPlan> = Vec::new();
        let mut i: usize = 0;
        assert(plans_view(plans@) =~= plans_from(self.rows@, sv, 0));
        while i < self.rows.len()
            invariant
                i <= self.rows.len(),
                measurable(self.rows@),
                sources@.len() == self.rows@.len(),
                sv == sources_view(sources@),
                plans_view(plans@) == plans_from(self.rows@, sv, i as int),
            decreases self.rows.len() - i,
        {
            let row = &self.rows[i];
            assert(row.end_span() <= MAX_COUNTED);
            if let Some(source) = &sources[i] {
                assert(sv[i as int] == Some(source@));
                let notes = row.planned_notes();
                if notes.len() > 0 {
                    let plan = RowPlan {
                        row_id: row.id,
                        source: source.duplicate(),
                        gain: row.gain,
                        notes,
                    };
                    let ghost before = plans_view(plans@);
                    plans.push(plan);
                    assert(plans_view(plans@) =~= before.push(plan@));
                }
            } else {
                assert(sv[i as int] is None);
            }
            i += 1;
        }
        plans
    }

    /// Whether anything would play.
    pub fn has_playable_rows(&self) -> (r: bool)
        requires
            measurable(self.rows@),
        ensures
            r == (rows_in_play(self.rows@, self.rows@.len() as int).len() > 0),
    {
        let mut i: usize = 0;
        while i < self.rows.len()
            invariant
                i <= self.rows.len(),
                measurable(self.rows@),
                rows_in_play(self.rows@, i as int).len() == 0,
            decreases self.rows.len() - i,
        {
            assert(self.rows@[i as int].end_span() <= MAX_COUNTED);
            if self.rows[i].track_id.is_some() && self.rows[i].planned_notes().len() > 0 {
                proof {
                    lemma_in_play_grows(self.rows@, i + 1, self.rows@.len() as int);
                }
                return true;
            }
            i += 1;
        }
        false
    }

    /// The composition as the transport would need it now.
    pub fn live_snapshot(&self) -> (r: LiveSnapshot)
        requires
            measurable(self.rows@),
        ensures
            is_snapshot(r, self.rows@, self.tempo_bpm),
    {
        let mut shape: Vec<(u64, Option<u64>)> = Vec::new();
        let mut rows: Vec<RowEdit> = Vec::new();
        let mut i: usize = 0;
        while i < self.rows.len()
            invariant
                i <= self.rows.len(),
                measurable(self.rows@),
                shape@.len() == rows_in_play(self.rows@, i as int).len(),
                rows@.len() == shape@.len(),
                forall|k: int|
                    0 <= k < shape@.len() ==> #[trigger] shape@[k] == (
                        self.rows@[rows_in_play(self.rows@, i as int)[k]].id,
                        self.rows@[rows_in_play(self.rows@, i as int)[k]].track_id,
                    ),
                forall|k: int|
                    0 <= k < rows@.len() ==> is_edit_of_row(
                        #[trigger] rows@[k],
                        self.rows@[rows_in_play(self.rows@, i as int)[k]],
                    ),
            decreases self.rows.len() - i,
        {
            let row = &self.rows[i];
            assert(row.end_span() <= MAX_COUNTED);
            if row.track_id.is_some() {
                let notes = row.planned_notes();
                if notes.len() > 0 {
                    shape.push((row.id, row.track_id));
                    rows.push(RowEdit { row_id: row.id, gain: row.gain, notes });
                }
            }
            i += 1;
        }
        LiveSnapshot {
            shape,
            rows,
            loop_units: self.end_units(),
            tempo_bpm: self.tempo_bpm,
            shape_warned: false,
        }
    }

    /// While a repeat is running, whether the transport is to be handed what the
    /// user has changed since it last heard. Only notes, gains and the loop
    /// travel this way: a row added, or pointed at another track, means a plugin
    /// to load, so that is reported instead, once.
    pub fn push_live_edits(&mut self) -> (r: bool)
        requires
            measurable(old(self).rows@),
        ensures
            final(self).same_but_status(
                &ComposerPanel { live_sent: final(self).live_sent, ..*old(self) },
            ),
            (!old(self).playing || !old(self).repeat || old(self).live_sent is None) ==> !r
                && *final(self) == *old(self),
            (old(self).playing && old(self).repeat) ==> (old(self).live_sent matches Some(sent)
                ==> exists|now: LiveSnapshot| #[trigger]
                is_snapshot(now, old(self).rows@, old(self).tempo_bpm) && {
                    if now.shape@ != sent.shape@ {
                        &&& !r
                        &&& final(self).live_sent == Some(
                            LiveSnapshot { shape_warned: true, ..sent },
                        )
                        &&& final(self).status@ == (if sent.shape_warned {
                            old(self).status@
                        } else {
                            shape_text()
                        })
                    } else if same_music(now, sent) {
                        !r && *final(self) == *old(self)
                    } else {
                        &&& r
                        &&& final(self).live_sent == Some(now)
                        &&& final(self).status == old(self).status
                    }
                }),
    {
        if !self.playing || !self.repeat {
            return false;
        }
        let (same_rows, same, warned) = match &self.live_sent {
            None => {
                return false;
            },
            Some(sent) => {
                let now = self.live_snapshot();
                let shape = same_shape(&now.shape, &sent.shape);
                let music = same_edits(&now.rows, &sent.rows) && now.loop_units == sent.loop_units
                    && raised_to_one(now.tempo_bpm) == raised_to_one(sent.tempo_bpm);
                if !shape || music {
                    (shape, music, sent.shape_warned)
                } else {
                    self.live_sent = Some(now);
                    return true;
                }
            },
        };
        if !same_rows && !warned {
            self.status =
            "Rows or their tracks changed — press Play again to hear them; note edits still follow the loop.".to_owned();
            if let Some(sent) = &mut self.live_sent {
                sent.shape_warned = true;
            }
        }
        false
    }

    /// The edit asked for two levels on one instance. It keeps the first row's;
    /// saying so beats a slider that visibly moves and audibly does nothing.
    pub fn report_divergence(&mut self, diverged: bool)
        ensures
            final(self).same_but_status(old(self)),
            final(self).status@ == (if diverged {
                diverged_text()
            } else {
                old(self).status@
            }),
    {
        if diverged {
            self.status =
            "Rows sharing an instance were given different gains — press Play again to give them one each.".to_owned();
        }
    }
}

proof fn lemma_in_play_grows(rows: Seq<Row>, a: int, b: int)
    requires
        0 <= a <= b,
    ensures
        rows_in_play(rows, a).len() <= rows_in_play(rows, b).len(),
    decreases b,
{
    if a < b {
        lemma_in_play_grows(rows, a, b - 1);
    }
}

// ── the transport's buttons ─────────────────────────────────────────────────

/// What is said while rows load.
pub open spec fn loading_text(rows: int) -> Seq<char> {
    "Loading "@ + decimal(rows as nat) + " row(s)…"@
}

/// What is said once a transport runs.
pub open spec fn playing_text(loaded: int, total: int, instances: int) -> Seq<char> {
    let shared = if 0 < instances < loaded {
        " on "@ + decimal(instances as nat) + " shared instance(s)"@
    } else {
        Seq::empty()
    };
    if loaded == total {
        "Playing "@ + decimal(loaded as nat) + " row(s)"@ + shared + "."@
    } else {
        "Playing "@ + decimal(loaded as nat) + " of "@ + decimal(total as nat) + " row(s)"@ + shared
            + " — the rest failed to load."@
    }
}

/// What is said once a take runs over a transport.
pub open spec fn recording_text(loaded: int) -> Seq<char> {
    "⏺ Recording over "@ + decimal(loaded as nat) + " row(s) — play your keyboard."@
}

/// What is said once a take runs over nothing.
pub open spec fn alone_text() -> Seq<char> {
    "⏺ Recording — nothing to play along to, so it runs from now until you press Stop."@
}

/// What a press of Play or Record has the app do.
#[derive(Clone, Copy, PartialEq, Eq, Debug, Structural)]
pub enum Start {
    /// Nothing.
    Refused,
    /// Load the rows, and start the transport when they land.
    Load,
    /// Keep what the keyboard sends, and nothing else.
    Listen,
}

/// Which buttons of the transport can be pressed.
#[derive(Clone, Copy, PartialEq, Eq, Debug, Structural)]
pub struct Controls {
    pub play: bool,
    pub record: bool,
    pub stop: bool,
    pub repeat: bool,
    pub export: bool,
}

impl ComposerPanel {
    /// Which buttons of the transport can be pressed. Stop also abandons a Play
    /// that is still loading and ends a take, and a take is one pass, so it does
    /// not repeat.
    pub fn controls(&self) -> (r: Controls)
        ensures
            r.play == (!self.playing && !self.preparing),
            r.record == (!self.playing && !self.preparing && !self.recording),
            r.stop == (self.playing || self.preparing || self.recording),
            r.repeat == !self.recording,
            r.export == !self.exporting,
    {
        Controls {
            play: !self.playing && !self.preparing,
            record: !self.playing && !self.preparing && !self.recording,
            stop: self.playing || self.preparing || self.recording,
            repeat: !self.recording,
            export: !self.exporting,
        }
    }

    /// How soon the window has to be painted again, in milliseconds: often while
    /// a frame may light up, seldom while an export may finish, and else not.
    pub fn repaint_after(&self) -> (r: Option<u64>)
        ensures
            r == (if self.playing || self.preparing || self.recording {
                Some(16u64)
            } else if self.exporting {
                Some(200u64)
            } else {
                None
            }),
    {
        if self.playing || self.preparing || self.recording {
            Some(16)
        } else if self.exporting {
            Some(200)
        } else {
            None
        }
    }

    /// Press Play, with so many rows to load. The composition is snapshotted
    /// now, so what plays is what was on screen when the button went down.
    pub fn start_playback(&mut self, plans: usize) -> (r: Start)
        requires
            measurable(old(self).rows@),
        ensures
            final(self).same_but_status(
                &ComposerPanel {
                    preparing: final(self).preparing,
                    live_sent: final(self).live_sent,
                    ..*old(self)
                },
            ),
            old(self).preparing ==> r == Start::Refused && *final(self) == *old(self),
            !old(self).preparing && plans == 0 ==> {
                &&& r == Start::Refused
                &&& !final(self).preparing
                &&& final(self).live_sent == old(self).live_sent
                &&& final(self).status@ == "Nothing to play — add a note to a row first."@
            },
            !old(self).preparing && plans > 0 ==> {
                &&& r == Start::Load
                &&& final(self).preparing
                &&& final(self).live_sent matches Some(s) && is_snapshot(
                    s,
                    old(self).rows@,
                    old(self).tempo_bpm,
                )
                &&& final(self).status@ == loading_text(plans as int)
            },
    {
        if self.preparing {
            return Start::Refused;
        }
        if plans == 0 {
            self.status = "Nothing to play — add a note to a row first.".to_owned();
            return Start::Refused;
        }
        self.preparing = true;
        self.live_sent = Some(self.live_snapshot());
        let mut out = "Loading ".to_owned();
        push_decimal(&mut out, plans as u64);
        out.append(" row(s)…");
        self.status = out;
        Start::Load
    }

    /// The rows could not be loaded, or the stream could not be opened. A take
    /// with no clock to place it on is not a take.
    pub fn playback_failed(&mut self, error: &str)
        ensures
            final(self).same_but_status(
                &ComposerPanel {
                    preparing: false,
                    live_sent: None,
                    recording: false,
                    ..*old(self)
                },
            ),
            final(self).status@ == "Playback failed: "@ + error@,
    {
        self.preparing = false;
        self.live_sent = None;
        self.recording = false;
        let mut out = "Playback failed: ".to_owned();
        out.append(error);
        self.status = out;
    }

    /// The rows have loaded and the transport runs. It says when rows share: one
    /// of them cannot be given its own level while it plays.
    pub fn playback_started(&mut self, loaded: usize, total: usize, instances: usize)
        ensures
            final(self).same_but_status(
                &ComposerPanel { preparing: false, playing: true, ..*old(self) },
            ),
            final(self).status@ == (if old(self).recording {
                recording_text(loaded as int)
            } else {
                playing_text(loaded as int, total as int, instances as int)
            }),
    {
        self.preparing = false;
        self.playing = true;
        if self.recording {
            let mut out = "⏺ Recording over ".to_owned();
            push_decimal(&mut out, loaded as u64);
            out.append(" row(s) — play your keyboard.");
            self.status = out;
            return ;
        }
        let mut shared = String::new();
        if instances > 0 && instances < loaded {
            shared.append(" on ");
            push_decimal(&mut shared, instances as u64);
            shared.append(" shared instance(s)");
        }
        assert(shared@ =~= (if 0 < instances < loaded {
            " on "@ + decimal(instances as nat) + " shared instance(s)"@
        } else {
            Seq::empty()
        }));
        let mut out = "Playing ".to_owned();
        push_decimal(&mut out, loaded as u64);
        if loaded == total {
            out.append(" row(s)");
            out.append(shared.as_str());
            out.append(".");
        } else {
            out.append(" of ");
            push_decimal(&mut out, total as u64);
            out.append(" row(s)");
            out.append(shared.as_str());
            out.append(" — the rest failed to load.");
        }
        self.status = out;
    }

    /// Press Record, with so many rows to load: play the composition through
    /// exactly once, and keep what the keyboard sends while it does. A
    /// composition with nothing in it still records.
    pub fn start_recording(&mut self, plans: usize) -> (r: Start)
        requires
            measurable(old(self).rows@),
        ensures
            ({
                let refused = old(self).recording || old(self).playing || old(self).preparing;
                let plays = rows_in_play(old(self).rows@, old(self).rows@.len() as int).len() > 0;
                &&& refused ==> r == Start::Refused && *final(self) == *old(self)
                &&& !refused ==> {
                    &&& final(self).same_but_status(
                        &ComposerPanel {
                            repeat: false,
                            recording: true,
                            preparing: plays && plans > 0,
                            live_sent: final(self).live_sent,
                            ..*old(self)
                        },
                    )
                    &&& !plays ==> {
                        &&& r == Start::Listen
                        &&& final(self).live_sent == old(self).live_sent
                        &&& final(self).status@ == alone_text()
                    }
                    &&& plays && plans > 0 ==> {
                        &&& r == Start::Load
                        &&& final(self).live_sent matches Some(s) && is_snapshot(
                            s,
                            old(self).rows@,
                            old(self).tempo_bpm,
                        )
                        &&& final(self).status@ == "⏺ "@ + loading_text(plans as int)
                    }
                    &&& plays && plans == 0 ==> {
                        &&& r == Start::Listen
                        &&& final(self).live_sent == old(self).live_sent
                        &&& final(self).status@ == "⏺ "@
                            + "Nothing to play — add a note to a row first."@
                    }
                }
            }),
    {
        if self.recording || self.playing || self.preparing {
            return Start::Refused;
        }
        self.repeat = false;
        self.recording = true;
        if self.has_playable_rows() {
            let start = self.start_playback(plans);
            let mut out = "⏺ ".to_owned();
            out.append(self.status.as_str());
            self.status = out;
            match start {
                Start::Load => Start::Load,
                _ => Start::Listen,
            }
        } else {
            self.status =
            "⏺ Recording — nothing to play along to, so it runs from now until you press Stop.".to_owned();
            Start::Listen
        }
    }

    /// Press Stop. What was recorded is the news, not that the transport
    /// stopped.
    pub fn stop_playback(&mut self, recorded: Option<String>)
        ensures
            final(self).same_but_status(
                &ComposerPanel { live_sent: None, playing: false, preparing: false, ..*old(self) },
            ),
            final(self).status@ == (match recorded {
                Some(m) => m@,
                None => if old(self).playing || old(self).preparing {
                    "Stopped."@
                } else {
                    old(self).status@
                },
            }),
    {
        self.live_sent = None;
        if self.playing || self.preparing {
            self.status = "Stopped.".to_owned();
        }
        self.playing = false;
        self.preparing = false;
        if let Some(m) = recorded {
            self.status = m;
        }
    }

    /// The last note and its tail have been played: a finished composition stops
    /// itself.
    pub fn playback_finished(&mut self, recorded: Option<String>)
        ensures
            final(self).same_but_status(
                &ComposerPanel { live_sent: None, playing: false, ..*old(self) },
            ),
            final(self).status@ == (match recorded {
                Some(m) => m@,
                None => "Finished."@,
            }),
    {
        self.live_sent = None;
        self.playing = false;
        self.status = match recorded {
            Some(m) => m,
            None => "Finished.".to_owned(),
        };
    }
}

// ── a take ──────────────────────────────────────────────────────────────────

/// How many of some messages start a note.
pub open spec fn starts_in(messages: Seq<[u8; 3]>) -> int
    decreases messages.len(),
{
    if messages.len() == 0 {
        0
    } else {
        starts_in(messages.drop_last()) + if crate::midi::message::presses(messages.last()@) {
            1int
        } else {
            0
        }
    }
}

/// How much of a take there is so far: the notes started in it.
pub fn notes_so_far(messages: &Vec<[u8; 3]>) -> (r: usize)
    ensures
        r == starts_in(messages@),
{
    let mut n: usize = 0;
    let mut i: usize = 0;
    while i < messages.len()
        invariant
            i <= messages.len(),
            n == starts_in(messages@.take(i as int)),
            n <= i,
        decreases messages.len() - i,
    {
        proof {
            assert(messages@.take(i + 1).drop_last() =~= messages@.take(i as int));
            assert(messages@.take(i + 1).last() == messages@[i as int]);
        }
        if crate::midi::message::is_note_on(messages[i]) {
            n = n + 1;
        }
        i += 1;
    }
    assert(messages@.take(i as int) =~= messages@);
    n
}

/// The notes of a take, rounded.
pub open spec fn rounded(messages: Seq<(Option<i64>, [u8; 3])>, end: i64, grid: i64) -> Seq<
    GridNote,
> {
    crate::order::ordered(
        take_of(messages, end).map_values(|n: RecordedNote| quantized(n, step_of(grid))),
    )
}

/// Whether a row is a voice of a take.
pub open spec fn is_voice_row(row: Row, v: Seq<GridNote>, id: int, track: Option<u64>) -> bool {
    &&& row.id == id
    &&& row.track_id == track
    &&& row.gain == crate::number::ONE
    &&& row.lead == voice_lead(v)
    &&& row.autosave
    &&& row.autoscroll
    &&& row.missing is None
    &&& row.items@ == voice_frames(v, v.len() as int, 0)
    &&& row.next_item_id == row.items@.len()
    &&& row.sel is None
}

/// How a rounding reads in a message.
pub open spec fn reads_as(units: i64, label: Seq<char>) -> bool {
    &&& forall|k: int|
        0 <= k < ROUNDINGS && rounding_units(k) == units ==> label == rounding_label(k)
    &&& (forall|k: int| 0 <= k < ROUNDINGS ==> rounding_units(k) != units) ==> label == "1/16"@
}

/// What is said of a take.
pub open spec fn take_text(played: int, rows: int, grid: Seq<char>, track: Option<u64>) -> Seq<
    char,
> {
    match track {
        None => "Recorded "@ + decimal(played as nat) + " note(s) into "@ + decimal(rows as nat)
            + " new row(s), rounded to "@ + grid
            + " — no tracks exist yet, so pick one on each row."@,
        Some(_) => if rows == 1 {
            "Recorded "@ + decimal(played as nat) + " note(s) into a new row, rounded to "@ + grid
                + "."@
        } else {
            "Recorded "@ + decimal(played as nat) + " note(s), rounded to "@ + grid
                + " — spread over "@ + decimal(rows as nat)
                + " new rows, because notes sounded together."@
        },
    }
}

/// What is said of a take without notes.
pub open spec fn nothing_text() -> Seq<char> {
    "Recorded nothing — no notes arrived. Connect a keyboard under MIDI and press Connect."@
}

/// What is said where the tap was lost.
pub open spec fn lost_text() -> Seq<char> {
    "Recording failed: the keyboard tap was lost."@
}

proof fn lemma_struck(messages: Seq<(Option<i64>, [u8; 3])>)
    ensures
        0 <= struck(messages) <= messages.len(),
    decreases messages.len(),
{
    if messages.len() > 0 {
        lemma_struck(messages.drop_last());
    }
}

/// A rounded take can be counted, and laid out.
proof fn lemma_rounded(take: Seq<RecordedNote>, grid: i64, x: GridNote)
    requires
        grid <= 0x4000_0000_0000_0000,
        take.map_values(|n: RecordedNote| quantized(n, step_of(grid))).contains(x),
    ensures
        x.counts(),
        x.at >= 0,
        x.dur >= 1,
{
    let m = take.map_values(|n: RecordedNote| quantized(n, step_of(grid)));
    let j = choose|j: int| 0 <= j < m.len() && m[j] == x;
    let g = step_of(grid);
    let n = take[j];
    super::record::law_rounding_is_off_by_half_a_step_at_most(n.at as int, g);
    super::record::law_rounding_is_off_by_half_a_step_at_most(n.dur as int, g);
    let a = snapped(n.at as int, g);
    let d = snapped(n.dur as int, g);
    assert(a <= 0x2000_8000_0000_0000 && d <= 0x2000_8000_0000_0000 && a >= -0x2000_8000_0000_0000
        && d >= -0x2000_8000_0000_0000) by {
        assert(2 * super::record::apart(a * 65_536, n.at as int) <= g * 65_536);
        assert(2 * super::record::apart(d * 65_536, n.dur as int) <= g * 65_536);
    }
}

proof fn lemma_voices(q: Seq<GridNote>, k: int)
    requires
        0 <= k < voices_of(q).len(),
        forall|x: GridNote| #[trigger] q.contains(x) ==> x.at >= 0,
    ensures
        rooms_count(voices_of(q)[k]),
        voices_of(q)[k].len() <= q.len(),
{
    let v = voices_of(q)[k];
    assert forall|i: int| 0 <= i < v.len() - 1 implies i64::MIN <= #[trigger] step_behind(v, i)
        <= i64::MAX by {
        super::record::lemma_row_notes(q, k, i);
        super::record::lemma_row_notes(q, k, i + 1);
        assert(q.contains(v[i]) && q.contains(v[i + 1]));
    }
    super::record::lemma_row_len(q, k);
}

impl ComposerPanel {
    /// End a take and append what was played to the composition, rounded onto
    /// the chosen note value: one new row for every voice of it. `messages` are
    /// the keyboard's, each with where the clock of the take placed it, or none
    /// where the tap was lost. Gives the line to show, or nothing where there was
    /// no take.
    pub fn finish_recording(
        &mut self,
        registry: &TrackRegistry,
        messages: Option<Vec<(Option<i64>, [u8; 3])>>,
        end: i64,
    ) -> (r: Option<String>)
        requires
            old(self).wf(),
            old(self).round_units <= 0x4000_0000_0000_0000,
            messages matches Some(m) ==> {
                &&& MAX_SPLIT_TERMS * (m@.len() + 1) <= u64::MAX
                &&& old(self).next_row_id + m@.len() <= u64::MAX
            },
        ensures
            final(self).wf(),
            !old(self).recording ==> r is None && *final(self) == *old(self),
            old(self).recording ==> {
                &&& r matches Some(text)
                &&& !final(self).recording
                &&& final(self).same_but_rows(&ComposerPanel { recording: false, ..*old(self) })
                &&& final(self).clip == old(self).clip
                &&& final(self).status == old(self).status
                &&& match messages {
                    None => {
                        &&& text@ == lost_text()
                        &&& final(self).rows@ == old(self).rows@
                        &&& final(self).next_row_id == old(self).next_row_id
                    },
                    Some(m) => if take_of(m@, end).len() == 0 {
                        &&& text@ == nothing_text()
                        &&& final(self).rows@ == old(self).rows@
                        &&& final(self).next_row_id == old(self).next_row_id
                    } else {
                        let voices = voices_of(rounded(m@, end, old(self).round_units));
                        let track = if old(self).record_track is Some {
                            old(self).record_track
                        } else {
                            first_track(*registry)
                        };
                        let n = old(self).rows@.len() as int;
                        &&& final(self).next_row_id == old(self).next_row_id + voices.len()
                        &&& final(self).rows@.len() == n + voices.len()
                        &&& forall|i: int|
                            0 <= i < n ==> final(self).rows@[i] == old(self).rows@[i]
                        &&& forall|k: int|
                            0 <= k < voices.len() ==> is_voice_row(
                                final(self).rows@[n + k],
                                #[trigger] voices[k],
                                old(self).next_row_id + k,
                                track,
                            )
                        &&& exists|label: Seq<char>| #[trigger]
                            reads_as(old(self).round_units, label) && text@ == take_text(
                                take_of(m@, end).len() as int,
                                voices.len() as int,
                                label,
                                track,
                            )
                    },
                }
            },
    {
        if !self.recording {
            return None;
        }
        self.recording = false;
        let messages = match messages {
            Some(m) => m,
            None => {
                return Some("Recording failed: the keyboard tap was lost.".to_owned());
            },
        };
        let notes = notes_from(&messages, end);
        proof {
            law_every_key_struck_is_a_note(messages@, end);
            lemma_struck(messages@);
        }
        if notes.len() == 0 {
            return Some(
                "Recorded nothing — no notes arrived. Connect a keyboard under MIDI and press Connect.".to_owned(),
            );
        }
        let grid: i64 = self.round_units;
        let rounded_notes = quantize(&notes, grid);
        let ghost q = rounded_notes@;
        let ghost m = notes@.map_values(|n: RecordedNote| quantized(n, step_of(grid)));
        proof {
            broadcast use vstd::seq_lib::group_to_multiset_ensures;

            crate::order::law_ordering_keeps_everything(m);
            assert forall|x: GridNote| #[trigger] q.contains(x) implies x.counts() && x.at >= 0 by {
                assert(q.to_multiset().count(x) > 0);
                assert(m.contains(x));
                lemma_rounded(notes@, grid, x);
            }
            assert forall|i: int| 0 <= i < q.len() implies (#[trigger] q[i]).counts() by {
                assert(q.contains(q[i]));
            }
        }
        let voices = split_voices(&rounded_notes);
        let ghost vs = voices_of(q);
        let track = match self.record_track {
            Some(t) => Some(t),
            None => registry.first_id(),
        };
        let ghost was = self.rows@;
        let ghost first_id = self.next_row_id as int;
        proof {
            super::record::lemma_voice_count(q);
        }
        let mut k: usize = 0;
        while k < voices.len()
            invariant
                k <= voices.len(),
                rows_view(voices@) == vs,
                vs == voices_of(q),
                vs.len() <= q.len() <= messages@.len(),
                MAX_SPLIT_TERMS * (messages@.len() + 1) <= u64::MAX,
                first_id + messages@.len() <= u64::MAX,
                forall|x: GridNote| #[trigger] q.contains(x) ==> x.counts() && x.at >= 0,
                self.next_row_id == first_id + k,
                self.same_but_rows(&ComposerPanel { recording: false, ..*old(self) }),
                self.clip == old(self).clip,
                self.status == old(self).status,
                self.rows@.len() == was.len() + k,
                own_row_ids(self.rows@, self.next_row_id as int),
                forall|i: int| 0 <= i < was.len() ==> self.rows@[i] == was[i],
                forall|j: int|
                    0 <= j < k ==> is_voice_row(
                        self.rows@[was.len() + j],
                        #[trigger] vs[j],
                        first_id + j,
                        track,
                    ),
            decreases voices.len() - k,
        {
            let voice = &voices[k];
            let id: u64 = self.next_row_id;
            proof {
                assert(vs[k as int] == voice@);
                lemma_voices(q, k as int);
                assert(MAX_SPLIT_TERMS * (voice@.len() + 1) <= MAX_SPLIT_TERMS * (messages@.len()
                    + 1)) by (nonlinear_arith)
                    requires
                        voice@.len() <= messages@.len(),
                        MAX_SPLIT_TERMS >= 0,
                ;
            }
            self.next_row_id = id + 1;
            let mut row = Row::new(id, track);
            let mut next: u64 = 0;
            let (lead, items) = voice_items(voice, &mut next);
            row.lead = lead;
            row.items = items;
            row.next_item_id = next;
            proof {
                super::record::lemma_frame_ids(voice@, voice@.len() as int, 0);
                assert(ids_below(row.items@, next as int));
            }
            let ghost before = self.rows@;
            self.rows.push(row);
            proof {
                assert forall|i: int, j: int| 0 <= i < j < self.rows@.len() implies (
                #[trigger] self.rows@[i]).id != (#[trigger] self.rows@[j]).id by {
                    assert(self.rows@[i] == before[i]);
                    if j < before.len() {
                        assert(self.rows@[j] == before[j]);
                    }
                }
                assert forall|i: int| 0 <= i < self.rows@.len() implies (#[trigger] self.rows@[i]).id
                    < self.next_row_id && self.rows@[i].ids_unique() by {
                    if i < before.len() {
                        assert(self.rows@[i] == before[i]);
                    }
                }
                assert forall|j: int| 0 <= j < k + 1 implies is_voice_row(
                    self.rows@[was.len() + j],
                    #[trigger] vs[j],
                    first_id + j,
                    track,
                ) by {
                    if j < k {
                        assert(self.rows@[was.len() + j] == before[was.len() + j]);
                    }
                }
            }
            k += 1;
        }
        let played: usize = notes.len();
        let rows: usize = voices.len();
        let label = round_label(grid);
        let mut out = "Recorded ".to_owned();
        push_decimal(&mut out, played as u64);
        if track.is_none() {
            out.append(" note(s) into ");
            push_decimal(&mut out, rows as u64);
            out.append(" new row(s), rounded to ");
            out.append(label);
            out.append(" — no tracks exist yet, so pick one on each row.");
        } else if rows == 1 {
            out.append(" note(s) into a new row, rounded to ");
            out.append(label);
            out.append(".");
        } else {
            out.append(" note(s), rounded to ");
            out.append(label);
            out.append(" — spread over ");
            push_decimal(&mut out, rows as u64);
            out.append(" new rows, because notes sounded together.");
        }
        assert(reads_as(grid, label@));
        Some(out)
    }
}

/// Every row with a source and at least one note has a plan, with the row's id,
/// level and notes and its own source, and no other row has one. The plans stand in
/// the order of the rows: `at` is the row of each.
pub proof fn law_every_playable_row_has_a_plan(
    rows: Seq<Row>,
    sources: Seq<Option<PlaybackView>>,
    n: int,
) -> (at: Seq<int>)
    requires
        0 <= n <= rows.len(),
        sources.len() == rows.len(),
    ensures
        at.len() == plans_from(rows, sources, n).len(),
        forall|k: int|
            0 <= k < at.len() ==> 0 <= #[trigger] at[k] < n && sources[at[k]] is Some && planned(
                rows[at[k]].lead_span(),
                rows[at[k]].items@,
            ).len() > 0,
        forall|j: int, k: int| 0 <= j < k < at.len() ==> #[trigger] at[j] < #[trigger] at[k],
        forall|i: int|
            0 <= i < n && (#[trigger] sources[i]) is Some && planned(
                rows[i].lead_span(),
                rows[i].items@,
            ).len() > 0 ==> at.contains(i),
        forall|k: int|
            0 <= k < at.len() ==> {
                &&& (#[trigger] plans_from(rows, sources, n)[k]).row_id == rows[at[k]].id
                &&& Some(plans_from(rows, sources, n)[k].source) == sources[at[k]]
                &&& plans_from(rows, sources, n)[k].gain == rows[at[k]].gain
                &&& plans_from(rows, sources, n)[k].notes == planned(
                    rows[at[k]].lead_span(),
                    rows[at[k]].items@,
                )
            },
    decreases n,
{
    if n <= 0 {
        Seq::empty()
    } else {
        let before = law_every_playable_row_has_a_plan(rows, sources, n - 1);
        let row = rows[n - 1];
        if sources[n - 1] is Some && notes_of(row).len() > 0 {
            let at = before.push(n - 1);
            assert forall|i: int|
                0 <= i < n && (#[trigger] sources[i]) is Some && planned(
                    rows[i].lead_span(),
                    rows[i].items@,
                ).len() > 0 implies at.contains(i) by {
                if i < n - 1 {
                    let k = choose|k: int| 0 <= k < before.len() && before[k] == i;
                    assert(at[k] == i);
                } else {
                    assert(at[before.len() as int] == i);
                }
            }
            at
        } else {
            before
        }
    }
}

/// The rows in play are those with a track and at least one note, each once, in
/// order.
pub proof fn law_rows_in_play_are_those_that_sound(rows: Seq<Row>, n: int)
    requires
        0 <= n <= rows.len(),
    ensures
        forall|i: int|
            rows_in_play(rows, n).contains(i) <==> 0 <= i < n && (
            #[trigger] rows[i]).track_id is Some && planned(
                rows[i].lead_span(),
                rows[i].items@,
            ).len() > 0,
        forall|j: int, k: int|
            0 <= j < k < rows_in_play(rows, n).len() ==> #[trigger] rows_in_play(rows, n)[j]
                < #[trigger] rows_in_play(rows, n)[k],
        forall|k: int|
            0 <= k < rows_in_play(rows, n).len() ==> 0 <= #[trigger] rows_in_play(rows, n)[k] < n,
    decreases n,
{
    if n > 0 {
        law_rows_in_play_are_those_that_sound(rows, n - 1);
        let before = rows_in_play(rows, n - 1);
        let all = rows_in_play(rows, n);
        assert forall|i: int|
            all.contains(i) <==> 0 <= i < n && (#[trigger] rows[i]).track_id is Some && planned(
                rows[i].lead_span(),
                rows[i].items@,
            ).len() > 0 by {
            if before.contains(i) {
                let k = choose|k: int| 0 <= k < before.len() && before[k] == i;
                assert(all[k] == i);
            }
            if all.contains(i) {
                let k = choose|k: int| 0 <= k < all.len() && all[k] == i;
                if k < before.len() {
                    assert(before[k] == i);
                }
            }
            if i == n - 1 && in_play(rows[i]) {
                assert(all[before.len() as int] == i);
            }
        }
    }
}

/// A snapshot tells of every row that sounds: its track, its level and its notes;
/// and of no other row. `at` is the row that each part of it tells of. It tells how
/// fast the composition is, too.
pub proof fn law_a_snapshot_tells_of_every_row_in_play(
    s: LiveSnapshot,
    rows: Seq<Row>,
    tempo: u32,
) -> (at: Seq<int>)
    requires
        is_snapshot(s, rows, tempo),
    ensures
        at.len() == s.shape@.len(),
        at.len() == s.rows@.len(),
        s.tempo_bpm == tempo,
        !s.shape_warned,
        forall|i: int|
            0 <= i < rows.len() && (#[trigger] rows[i]).track_id is Some && planned(
                rows[i].lead_span(),
                rows[i].items@,
            ).len() > 0 ==> at.contains(i),
        forall|j: int, k: int| 0 <= j < k < at.len() ==> #[trigger] at[j] < #[trigger] at[k],
        forall|k: int|
            0 <= k < at.len() ==> {
                let row = rows[#[trigger] at[k]];
                &&& 0 <= at[k] < rows.len()
                &&& row.track_id is Some
                &&& s.shape@[k] == (row.id, row.track_id)
                &&& s.rows@[k].row_id == row.id
                &&& s.rows@[k].gain == row.gain
                &&& s.rows@[k].notes@ == planned(row.lead_span(), row.items@)
                &&& s.rows@[k].notes@.len() > 0
            },
{
    let n = rows.len() as int;
    let at = rows_in_play(rows, n);
    law_rows_in_play_are_those_that_sound(rows, n);
    assert forall|k: int| 0 <= k < at.len() implies {
        let row = rows[#[trigger] at[k]];
        &&& 0 <= at[k] < rows.len()
        &&& row.track_id is Some
        &&& s.shape@[k] == (row.id, row.track_id)
        &&& s.rows@[k].row_id == row.id
        &&& s.rows@[k].gain == row.gain
        &&& s.rows@[k].notes@ == planned(row.lead_span(), row.items@)
        &&& s.rows@[k].notes@.len() > 0
    } by {
        assert(at.contains(at[k]));
        assert(is_edit_of_row(s.rows@[k], rows[at[k]]));
        assert(s.shape@[k] == (rows[at[k]].id, rows[at[k]].track_id));
    }
    at
}

/// Two snapshots play the same only where every row has equal notes at an equal
/// level, and the loop is as long and, from one beat a minute on, as fast.
pub proof fn law_what_the_same_music_is(a: LiveSnapshot, b: LiveSnapshot)
    requires
        same_music(a, b),
    ensures
        a.rows@.len() == b.rows@.len(),
        forall|k: int|
            0 <= k < a.rows@.len() ==> (#[trigger] a.rows@[k]).row_id == b.rows@[k].row_id
                && equal_numbers(a.rows@[k].gain, b.rows@[k].gain) && a.rows@[k].notes@.len()
                == b.rows@[k].notes@.len(),
        forall|k: int, j: int|
            0 <= k < a.rows@.len() && 0 <= j < a.rows@[k].notes@.len() ==> {
                let x = #[trigger] a.rows@[k].notes@[j];
                let y = b.rows@[k].notes@[j];
                x.at == y.at && x.dur == y.dur && x.pitch == y.pitch && equal_numbers(
                    x.start,
                    y.start,
                )
            },
        a.loop_units == b.loop_units,
        0x3f80_0000 <= a.tempo_bpm <= 0x7f80_0000 && 0x3f80_0000 <= b.tempo_bpm <= 0x7f80_0000
            ==> a.tempo_bpm == b.tempo_bpm,
{
    assert forall|k: int| 0 <= k < a.rows@.len() implies (#[trigger] a.rows@[k]).row_id
        == b.rows@[k].row_id && equal_numbers(a.rows@[k].gain, b.rows@[k].gain)
        && a.rows@[k].notes@.len() == b.rows@[k].notes@.len() by {
        assert(equal_edit(a.rows@[k], b.rows@[k]));
    }
    assert forall|k: int, j: int|
        0 <= k < a.rows@.len() && 0 <= j < a.rows@[k].notes@.len() implies {
        let x = #[trigger] a.rows@[k].notes@[j];
        let y = b.rows@[k].notes@[j];
        x.at == y.at && x.dur == y.dur && x.pitch == y.pitch && equal_numbers(x.start, y.start)
    } by {
        assert(equal_edit(a.rows@[k], b.rows@[k]));
        assert(equal_note(a.rows@[k].notes@[j], b.rows@[k].notes@[j]));
    }
}

/// Where every row has equal notes at an equal level for as long and as fast, two
/// snapshots play the same.
pub proof fn law_equal_snapshots_play_the_same(a: LiveSnapshot, b: LiveSnapshot)
    requires
        a.rows@.len() == b.rows@.len(),
        forall|k: int|
            0 <= k < a.rows@.len() ==> (#[trigger] a.rows@[k]).row_id == b.rows@[k].row_id
                && equal_numbers(a.rows@[k].gain, b.rows@[k].gain) && a.rows@[k].notes@
                == b.rows@[k].notes@,
        forall|k: int, j: int|
            0 <= k < a.rows@.len() && 0 <= j < a.rows@[k].notes@.len() ==> !not_a_number(
                (#[trigger] a.rows@[k].notes@[j]).start,
            ),
        a.loop_units == b.loop_units,
        a.tempo_bpm == b.tempo_bpm,
    ensures
        same_music(a, b),
{
    assert forall|k: int| 0 <= k < a.rows@.len() implies equal_edit(
        #[trigger] a.rows@[k],
        b.rows@[k],
    ) by {
        let x = a.rows@[k].notes@;
        assert forall|j: int| 0 <= j < x.len() implies equal_note(
            #[trigger] x[j],
            b.rows@[k].notes@[j],
        ) by {
            assert(x[j] == a.rows@[k].notes@[j]);
        }
    }
}

/// The notes of a take so far are the messages that start one.
pub proof fn law_every_note_started_counts(messages: Seq<[u8; 3]>)
    ensures
        starts_in(messages) == messages.filter(
            |m: [u8; 3]| 0x90 <= m@[0] <= 0x9F && m@[2] > 0,
        ).len(),
    decreases messages.len(),
{
    reveal(Seq::filter);
    if messages.len() > 0 {
        law_every_note_started_counts(messages.drop_last());
    }
}

/// A row that a take made plays a voice of it: on the track of the take, at full
/// level, saved and scrolled along, with nothing selected, its frames numbered from
/// nothing up.
pub proof fn law_what_a_recorded_row_is(row: Row, v: Seq<GridNote>, id: int, track: Option<u64>)
    requires
        is_voice_row(row, v, id, track),
    ensures
        row.id == id && row.track_id == track && row.gain == 0x3f80_0000,
        row.autosave && row.autoscroll && row.missing is None && row.sel is None,
        row.lead == voice_lead(v) && row.items@ == voice_frames(v, v.len() as int, 0)
            && row.next_item_id == row.items@.len(),
{
}

/// Panels that are the same but for what they say have the same rows, the same clip
/// and the same transport.
pub proof fn law_what_is_the_same_but_for_the_status(a: ComposerPanel, b: ComposerPanel)
    requires
        a.same_but_status(&b),
    ensures
        a.rows == b.rows && a.next_row_id == b.next_row_id && a.clip == b.clip,
        a.same_but_rows(&b),
{
}

/// What is seen of sources is what they are, one by one.
pub proof fn law_what_is_seen_of_sources(s: Seq<Option<PlaybackSource>>, i: int)
    requires
        0 <= i < s.len(),
    ensures
        sources_view(s).len() == s.len(),
        s[i] is Some ==> sources_view(s)[i] == Some(s[i]->0@),
        s[i] is None ==> sources_view(s)[i] is None,
{
}

/// A rounded take holds every note of the take, each rounded by itself, in the order
/// of their starts.
pub proof fn law_a_rounded_take_holds_every_note(
    messages: Seq<(Option<i64>, [u8; 3])>,
    end: i64,
    grid: i64,
)
    ensures
        rounded(messages, end, grid).to_multiset() == take_of(messages, end).map_values(
            |n: RecordedNote| quantized(n, step_of(grid)),
        ).to_multiset(),
        rounded(messages, end, grid).len() == take_of(messages, end).len(),
        forall|i: int, j: int|
            0 <= i < j < rounded(messages, end, grid).len() ==> (
            #[trigger] rounded(messages, end, grid)[i]).at <= (
            #[trigger] rounded(messages, end, grid)[j]).at,
{
    let m = take_of(messages, end).map_values(|n: RecordedNote| quantized(n, step_of(grid)));
    crate::order::law_ordering_keeps_everything(m);
    let o = rounded(messages, end, grid);
    assert forall|i: int, j: int| 0 <= i < j < o.len() implies (#[trigger] o[i]).at <= (
    #[trigger] o[j]).at by {
        assert(crate::order::rank_le(
            crate::order::Ranked::rank(o[i]),
            crate::order::Ranked::rank(o[j]),
        ));
    }
}

/// A row is in play with a track and at least one note.
pub proof fn law_what_is_in_play(row: Row)
    ensures
        in_play(row) <==> row.track_id is Some && planned(row.lead_span(), row.items@).len() > 0,
        notes_of(row) == planned(row.lead_span(), row.items@),
{
}

/// What is said while rows load counts them, and so does what is said once they play:
/// those that play, of how many where some failed, and on how many instances where
/// they share.
pub proof fn law_what_is_said_of_playing(loaded: int, total: int, instances: int)
    ensures
        loading_text(total) == "Loading "@ + decimal(total as nat) + " row(s)…"@,
        recording_text(loaded) == "⏺ Recording over "@ + decimal(loaded as nat)
            + " row(s) — play your keyboard."@,
        loaded == total && !(0 < instances < loaded) ==> playing_text(loaded, total, instances)
            == "Playing "@ + decimal(loaded as nat) + " row(s)"@ + Seq::<char>::empty() + "."@,
        loaded == total && 0 < instances < loaded ==> playing_text(loaded, total, instances)
            == "Playing "@ + decimal(loaded as nat) + " row(s)"@ + (" on "@ + decimal(
            instances as nat,
        ) + " shared instance(s)"@) + "."@,
        loaded != total && !(0 < instances < loaded) ==> playing_text(loaded, total, instances)
            == "Playing "@ + decimal(loaded as nat) + " of "@ + decimal(total as nat)
            + " row(s)"@ + Seq::<char>::empty() + " — the rest failed to load."@,
        loaded != total && 0 < instances < loaded ==> playing_text(loaded, total, instances)
            == "Playing "@ + decimal(loaded as nat) + " of "@ + decimal(total as nat)
            + " row(s)"@ + (" on "@ + decimal(instances as nat) + " shared instance(s)"@)
            + " — the rest failed to load."@,
{
}

/// What is said of a take counts its notes and its rows and names what it was rounded
/// to.
pub proof fn law_what_is_said_of_a_take(
    played: int,
    rows: int,
    grid: Seq<char>,
    track: Option<u64>,
)
    ensures
        track is None ==> take_text(played, rows, grid, track) == "Recorded "@ + decimal(
            played as nat,
        ) + " note(s) into "@ + decimal(rows as nat) + " new row(s), rounded to "@ + grid
            + " — no tracks exist yet, so pick one on each row."@,
        track is Some && rows == 1 ==> take_text(played, rows, grid, track) == "Recorded "@
            + decimal(played as nat) + " note(s) into a new row, rounded to "@ + grid + "."@,
        track is Some && rows != 1 ==> take_text(played, rows, grid, track) == "Recorded "@
            + decimal(played as nat) + " note(s), rounded to "@ + grid + " — spread over "@
            + decimal(rows as nat) + " new rows, because notes sounded together."@,
{
}

/// A rounding is called by its own name; one that is on no list is called by that of
/// the sixteenth.
pub proof fn law_what_a_rounding_is_called(units: i64, label: Seq<char>, k: int)
    requires
        reads_as(units, label),
        0 <= k <= 8,
    ensures
        units == rounding_units(k) ==> label == rounding_label(k),
        (forall|j: int| 0 <= j <= 8 ==> #[trigger] rounding_units(j) != units) ==> label
            == "1/16"@,
{
}

} // verus!
