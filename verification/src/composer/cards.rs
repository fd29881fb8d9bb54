//! What the frames, the rows and the bars say and offer.

use vstd::prelude::*;

use super::length::{
    counted, length_label, note_label, note_text, span_label, span_text, Duration, Fraction,
    MAX_COUNTED,
};
use super::names::{safe_name, sanitize_name, EXTENSION};
use super::panel::{
    block_rows, clip_count, frame_count, lemma_same_row_ids, measurable, total_frames, window, Clip,
    ComposerPanel,
};
use super::project::source_name;
use super::row::{
    added_item, clicked, same_but_frames, selected, Item, Row, DEFAULT_DRUM_PITCH, DEFAULT_PITCH,
};
use super::saving::missing_view;
use crate::number::{greater, is_greater, ZERO};
use crate::registry::{track_place, EntryView, TrackRegistry};
use crate::text::{decimal, push_decimal};

verus! {

/// The widget id of a row's lead space. Item ids count up from zero, so none is
/// this.
pub const LEAD_SPACE_ID: u64 = 0xFFFF_FFFF_FFFF_FFFF;

/// What is shown where there is no track.
pub const NO_TRACK: &'static str = "— no track —";

/// Which of a row's frames is drawn.
#[derive(Clone, Copy, PartialEq, Eq, Debug, Structural)]
pub enum Frame {
    /// A note with its pitch.
    Note { pitch: u8 },
    /// A note on a row that plays a recording: it has no pitch to pick.
    Wav,
    /// A silence.
    Space,
}

/// What a frame is filled with.
#[derive(Clone, Copy, PartialEq, Eq, Debug, Structural)]
pub enum Fill {
    Space,
    Note,
    NoteSounding,
    SpaceSelected,
    NoteSelected,
}

/// What a frame is bordered with.
#[derive(Clone, Copy, PartialEq, Eq, Debug, Structural)]
pub enum Border {
    Space,
    Note,
    Playhead,
    Selected,
}

/// What a frame is besides its length.
#[derive(Clone, Copy, PartialEq, Eq, Debug, Structural)]
pub struct FrameState {
    /// The transport is inside this note.
    pub sounding: bool,
    /// Its row plays a drum kit, so its pitches are named after drums.
    pub percussion: bool,
    /// It is in the selected block.
    pub selected: bool,
}

/// How a frame is drawn, and what it offers.
#[derive(Clone, Copy, PartialEq, Eq, Debug, Structural)]
pub struct FrameLook {
    pub fill: Fill,
    pub border: Border,
    /// The border is drawn twice as thick.
    pub thick: bool,
    /// The card is wide: it carries the slider for where in the file it starts.
    pub wide: bool,
    /// It has a select box and a delete button of its own.
    pub handles: bool,
    /// Its select box is ticked.
    pub ticked: bool,
    /// Its length can be fitted to the file.
    pub fits: bool,
    /// There is a fraction for the nominator to count.
    pub counts: bool,
}

/// The title of a frame: what it is, and how long.
pub open spec fn title_text(kind: Frame, id: u64, percussion: bool, d: Duration) -> Seq<char> {
    let front = match kind {
        Frame::Note { pitch } => note_text(pitch, percussion),
        Frame::Wav => "wav"@,
        Frame::Space => if id == LEAD_SPACE_ID {
            "lead"@
        } else {
            "space"@
        },
    };
    front + " · "@ + length_label(d)
}

/// The title of a frame. The lead space says so: it is the one space that is not
/// the silence after some note.
pub fn frame_title(kind: Frame, id: u64, percussion: bool, d: Duration) -> (r: String)
    ensures
        r@ == title_text(kind, id, percussion, d),
{
    let mut out = match kind {
        Frame::Note { pitch } => note_label(pitch, percussion),
        Frame::Wav => "wav".to_owned(),
        Frame::Space => if id == LEAD_SPACE_ID {
            "lead".to_owned()
        } else {
            "space".to_owned()
        },
    };
    out.append(" · ");
    out.append(d.label().as_str());
    out
}

/// How a frame is drawn. A frame that is sounding keeps the playhead's colours:
/// where the transport is beats what is selected, and the border says the rest.
/// A space has neither select box nor delete button: it leaves only with its
/// note.
pub fn frame_look(kind: Frame, d: Duration, state: FrameState) -> (r: FrameLook)
    ensures
        ({
            let space = kind is Space;
            &&& r.fill == (if space {
                if state.selected && !state.sounding {
                    Fill::SpaceSelected
                } else {
                    Fill::Space
                }
            } else if state.sounding {
                Fill::NoteSounding
            } else if state.selected {
                Fill::NoteSelected
            } else {
                Fill::Note
            })
            &&& r.border == (if state.selected {
                Border::Selected
            } else if space {
                Border::Space
            } else if state.sounding {
                Border::Playhead
            } else {
                Border::Note
            })
            &&& r.thick == state.selected
            &&& r.wide == (kind is Wav)
            &&& r.handles == !space
            &&& r.ticked == (!space && state.selected)
            &&& r.fits == (kind is Wav)
            &&& r.counts == (d.frac != Fraction::Zero)
        }),
{
    let space = match kind {
        Frame::Space => true,
        _ => false,
    };
    let wav = match kind {
        Frame::Wav => true,
        _ => false,
    };
    let (fill, border) = if space {
        (Fill::Space, Border::Space)
    } else if state.sounding {
        (Fill::NoteSounding, Border::Playhead)
    } else {
        (Fill::Note, Border::Note)
    };
    let (fill, border) = if !state.selected {
        (fill, border)
    } else if state.sounding {
        (fill, Border::Selected)
    } else if space {
        (Fill::SpaceSelected, Border::Selected)
    } else {
        (Fill::NoteSelected, Border::Selected)
    };
    FrameLook {
        fill,
        border,
        thick: state.selected,
        wide: wav,
        handles: !space,
        ticked: !space && state.selected,
        fits: wav,
        counts: d.frac != Fraction::Zero,
    }
}

/// What the length boxes of a frame make of its length: the parts picked, with
/// the nominator canonical again.
pub fn edit_length(d: &mut Duration, wholes: u8, num: u8, frac: Fraction)
    ensures
        *final(d) == counted(wholes as int, num as int, frac),
        final(d).canonical(),
{
    *d = Duration::with_num(wholes, num, frac);
}

/// The frame that the transport is inside of, if the playhead is in it. Both are
/// in ticks.
pub open spec fn sounds_at(start: int, dur: int, playhead: Option<i64>) -> bool {
    playhead matches Some(p) && start * 65_536 <= p < (start + dur) * 65_536
}

/// Whether a note that starts at `start` sounds at the playhead, which is in
/// ticks.
pub fn is_sounding(start: i64, dur: i64, playhead: Option<i64>) -> (r: bool)
    ensures
        r == sounds_at(start as int, dur as int, playhead),
{
    match playhead {
        Some(p) => (start as i128) * 65_536 <= p as i128 && (p as i128) < (start as i128
            + dur as i128) * 65_536,
        None => false,
    }
}

/// No frame of a row has the widget id of its lead space.
pub proof fn law_the_lead_is_no_frame(row: Row, k: int)
    requires
        row.ids_unique(),
        0 <= k < row.items@.len(),
    ensures
        row.items@[k].id != LEAD_SPACE_ID,
{
    assert(row.items@[k].id < row.next_item_id);
}

impl Row {
    /// Whether the frame at a place is in the block. A space is in it whenever
    /// its note is: they are one.
    pub fn is_selected(&self, k: usize) -> (r: bool)
        ensures
            r == (self.selection() matches Some((a, b)) && a <= k <= b),
    {
        match self.sel_range() {
            Some((a, b)) => a <= k && k <= b,
            None => false,
        }
    }

    /// Whether the lane scrolls along: only while there is a transport, and only
    /// if it was asked to.
    pub fn follows(&self, playing: bool) -> (r: bool)
        ensures
            r == (self.autoscroll && playing),
    {
        self.autoscroll && playing
    }

    /// What was clicked while the row was drawn, once it has been: first the
    /// select box, then the delete button.
    pub fn apply_clicks(&mut self, select: Option<(u64, bool)>, delete: Option<usize>)
        ensures
            ({
                let sel = match select {
                    Some((id, extend)) => clicked(old(self).items@, old(self).sel, id, extend),
                    None => old(self).sel,
                };
                match delete {
                    None => *final(self) == (Row { sel, ..*old(self) }),
                    Some(k) => {
                        &&& final(self).items@ == (if k < old(self).items@.len() {
                            old(self).items@.remove(k as int)
                        } else {
                            old(self).items@
                        })
                        &&& final(self).sel == (if selected(final(self).items@, sel) is None {
                            None
                        } else {
                            sel
                        })
                        &&& final(self).next_item_id == old(self).next_item_id
                        &&& same_but_frames(*old(self), *final(self))
                    },
                }
            }),
            old(self).ids_unique() ==> final(self).ids_unique(),
    {
        if let Some((id, extend)) = select {
            self.select_item(id, extend);
        }
        if let Some(k) = delete {
            self.delete_item(k);
        }
    }
}

/// What a row's select box shows: what it plays, or what it is missing.
pub open spec fn track_text(row: Row, tracks: Seq<EntryView>) -> Seq<char> {
    match missing_view(row.missing) {
        Some(want) => "⚠ missing: "@ + source_name(want),
        None => match row.track_id {
            Some(id) if track_place(tracks, id) < tracks.len() => tracks[track_place(
                tracks,
                id,
            )].name,
            _ => NO_TRACK@,
        },
    }
}

/// What the block bar says of the block.
pub open spec fn block_text(rows: Seq<Row>) -> Seq<char> {
    match window(rows) {
        Some((from, to)) => {
            let parts = block_rows(rows, rows.len() as int);
            decimal(frame_count(parts, parts.len() as int) as nat) + " frame(s) on "@ + decimal(
                parts.len(),
            ) + " row(s) · "@ + span_text(to - from)
        },
        None => "nothing selected — press ☐ on a note frame"@,
    }
}

/// What the block bar says of the clipboard.
pub open spec fn clip_text(c: Clip) -> Seq<char> {
    "clipboard: "@ + decimal(clip_count(c.rows@, c.rows@.len() as int) as nat) + " frame(s), "@
        + span_text(c.window as int)
}

/// What the block bar says and offers.
#[derive(Clone, Debug)]
pub struct BlockBar {
    /// There is a block to span, clear, copy or clone.
    pub has: bool,
    pub label: String,
    /// There is something to paste.
    pub clip: Option<String>,
}

/// Which length the transport reads out.
#[derive(Clone, Copy, PartialEq, Eq, Debug, Structural)]
pub enum Readout {
    /// The position against the loop's length.
    Looping,
    /// The position against the whole, tail included.
    Playing,
    /// The written length.
    Stopped,
}

impl ComposerPanel {
    /// What a row's select box shows. A row whose source is missing says so, and
    /// says what it was.
    pub fn track_label(&self, i: usize, registry: &TrackRegistry) -> (r: String)
        requires
            i < self.rows@.len(),
        ensures
            r@ == track_text(self.rows@[i as int], registry@),
    {
        let row = &self.rows[i];
        match &row.missing {
            Some(want) => {
                let mut out = "⚠ missing: ".to_owned();
                out.append(want.describe().as_str());
                out
            },
            None => match row.track_id {
                Some(id) => match registry.name_of(id) {
                    Some(n) => n,
                    None => NO_TRACK.to_owned(),
                },
                None => NO_TRACK.to_owned(),
            },
        }
    }

    /// Whether an entry of a row's select box is the one ticked.
    pub fn is_picked(&self, i: usize, id: u64) -> (r: bool)
        requires
            i < self.rows@.len(),
        ensures
            r == (self.rows@[i as int].missing is None && self.rows@[i as int].track_id == Some(
                id,
            )),
    {
        let row = &self.rows[i];
        row.missing.is_none() && match row.track_id {
            Some(t) => t == id,
            None => false,
        }
    }

    /// A track is picked for a row. That repairs one whose source was missing.
    pub fn pick_track(&mut self, i: usize, id: u64)
        requires
            old(self).wf(),
            i < old(self).rows@.len(),
        ensures
            final(self).wf(),
            final(self).same_but_rows(old(self)),
            final(self).clip == old(self).clip,
            final(self).next_row_id == old(self).next_row_id,
            final(self).status == old(self).status,
            final(self).rows@ == old(self).rows@.update(
                i as int,
                Row { track_id: Some(id), missing: None, ..old(self).rows@[i as int] },
            ),
    {
        let ghost was = self.rows@;
        self.rows[i].track_id = Some(id);
        self.rows[i].missing = None;
        assert(self.rows@ =~= was.update(
            i as int,
            Row { track_id: Some(id), missing: None, ..was[i as int] },
        ));
        proof {
            lemma_same_row_ids(was, self.rows@, self.next_row_id as int);
        }
    }

    /// Append a note to a row: on a drum kit the first one is the kick.
    pub fn add_note(&mut self, i: usize, registry: &TrackRegistry)
        requires
            old(self).wf(),
            i < old(self).rows@.len(),
            old(self).rows@[i as int].next_item_id < u64::MAX,
        ensures
            final(self).wf(),
            final(self).same_but_rows(old(self)),
            final(self).clip == old(self).clip,
            final(self).next_row_id == old(self).next_row_id,
            final(self).status == old(self).status,
            final(self).rows@.len() == old(self).rows@.len(),
            forall|k: int|
                0 <= k < final(self).rows@.len() && k != i ==> final(self).rows@[k]
                    == old(self).rows@[k],
            ({
                let a = old(self).rows@[i as int];
                let b = final(self).rows@[i as int];
                &&& b.items@ == a.items@.push(
                    added_item(
                        a.items@,
                        a.next_item_id,
                        if plays_drums(a, registry@) {
                            DEFAULT_DRUM_PITCH
                        } else {
                            DEFAULT_PITCH
                        },
                    ),
                )
                &&& b.next_item_id == a.next_item_id + 1
                &&& b.sel == a.sel
                &&& same_but_frames(a, b)
            }),
    {
        let ghost was = self.rows@;
        let drums = match self.rows[i].track_id {
            Some(id) => registry.is_percussion(id),
            None => false,
        };
        self.rows[i].add_note(
            if drums {
                DEFAULT_DRUM_PITCH
            } else {
                DEFAULT_PITCH
            },
        );
        proof {
            assert forall|k: int| 0 <= k < was.len() implies (#[trigger] self.rows@[k]).id
                == was[k].id && (was[k].ids_unique() ==> self.rows@[k].ids_unique()) by {
                if k != i {
                    assert(self.rows@[k] == was[k]);
                }
            }
            lemma_same_row_ids(was, self.rows@, self.next_row_id as int);
        }
    }

    /// Take a row out of the composition.
    pub fn remove_row(&mut self, i: usize)
        requires
            old(self).wf(),
        ensures
            final(self).wf(),
            final(self).same_but_rows(old(self)),
            final(self).clip == old(self).clip,
            final(self).next_row_id == old(self).next_row_id,
            i < old(self).rows@.len() ==> {
                &&& final(self).rows@ == old(self).rows@.remove(i as int)
                &&& final(self).status@ == "Removed a row."@
            },
            i >= old(self).rows@.len() ==> *final(self) == *old(self),
    {
        let ghost was = self.rows@;
        if i < self.rows.len() {
            let _row = self.rows.remove(i);
            self.status = "Removed a row.".to_owned();
            proof {
                let now = self.rows@;
                assert forall|k: int| 0 <= k < now.len() implies #[trigger] now[k] == was[if k < i {
                    k
                } else {
                    k + 1
                }] by {}
                assert forall|a: int, b: int| 0 <= a < b < now.len() implies (#[trigger] now[a]).id
                    != (#[trigger] now[b]).id by {}
            }
        }
    }

    /// What the block bar says and offers.
    pub fn block_bar(&self) -> (r: BlockBar)
        requires
            self.wf(),
            measurable(self.rows@),
            total_frames(self.rows@, self.rows@.len() as int) <= usize::MAX,
            self.clip matches Some(c) ==> clip_count(c.rows@, c.rows@.len() as int) <= usize::MAX
                && -MAX_COUNTED <= c.window <= MAX_COUNTED,
        ensures
            r.has == (window(self.rows@) is Some),
            r.label@ == block_text(self.rows@),
            match self.clip {
                Some(c) => r.clip matches Some(t) && t@ == clip_text(c),
                None => r.clip is None,
            },
    {
        let clip = match &self.clip {
            Some(c) => {
                let mut out = "clipboard: ".to_owned();
                push_decimal(&mut out, c.frames() as u64);
                out.append(" frame(s), ");
                out.append(span_label(c.window).as_str());
                Some(out)
            },
            None => None,
        };
        match self.block() {
            Some(b) => {
                let n: usize = self.rows.len();
                proof {
                    super::panel::lemma_block_rows(self.rows@, n as int);
                    super::panel::lemma_parts_fit(self.rows@, n as int);
                }
                let mut out = String::new();
                push_decimal(&mut out, b.frames() as u64);
                out.append(" frame(s) on ");
                push_decimal(&mut out, b.rows.len() as u64);
                out.append(" row(s) · ");
                out.append(span_label(b.window()).as_str());
                assert(out@ =~= block_text(self.rows@));
                BlockBar { has: true, label: out, clip }
            },
            None => BlockBar {
                has: false,
                label: "nothing selected — press ☐ on a note frame".to_owned(),
                clip,
            },
        }
    }

    /// What the transport reads out: while looping, the length that means
    /// anything is the loop's.
    pub fn readout(&self) -> (r: Readout)
        ensures
            r == (if !self.playing {
                Readout::Stopped
            } else if self.repeat {
                Readout::Looping
            } else {
                Readout::Playing
            }),
    {
        if !self.playing {
            Readout::Stopped
        } else if self.repeat {
            Readout::Looping
        } else {
            Readout::Playing
        }
    }

    /// The track recorded rows will play, by name.
    pub fn record_label(&self, registry: &TrackRegistry) -> (r: String)
        ensures
            r@ == (match self.record_track {
                Some(id) if track_place(registry@, id) < registry@.len() => registry@[track_place(
                    registry@,
                    id,
                )].name,
                _ => NO_TRACK@,
            }),
    {
        match self.record_track {
            Some(id) => match registry.name_of(id) {
                Some(n) => n,
                None => NO_TRACK.to_owned(),
            },
            None => NO_TRACK.to_owned(),
        }
    }

    /// What the Save button says it will write.
    pub fn save_hint(&self) -> (r: String)
        ensures
            ({
                let stem = safe_name(self.project_name@);
                r@ == "Write "@ + stem + "/"@ + stem + "."@ + EXTENSION@
                    + ", with a .lsft beside it for every LeSynth Fourier track a row plays."@
            }),
    {
        let stem = sanitize_name(self.project_name.as_str());
        let mut out = "Write ".to_owned();
        out.append(stem.as_str());
        out.append("/");
        out.append(stem.as_str());
        out.append(".");
        out.append(EXTENSION);
        out.append(", with a .lsft beside it for every LeSynth Fourier track a row plays.");
        out
    }

    /// The name an export is offered under.
    pub fn export_name(&self) -> (r: String)
        ensures
            r@ == safe_name(self.project_name@) + ".wav"@,
    {
        let mut out = sanitize_name(self.project_name.as_str());
        out.append(".wav");
        out
    }

    /// Whether there is anything to export; it says so where there is not.
    pub fn can_export(&mut self, plans: usize) -> (r: bool)
        ensures
            r == (plans > 0),
            final(self).same_but_status(old(self)),
            final(self).status@ == (if plans > 0 {
                old(self).status@
            } else {
                "Nothing to export — add a note to a row first."@
            }),
    {
        if plans == 0 {
            self.status = "Nothing to export — add a note to a row first.".to_owned();
            return false;
        }
        true
    }

    /// An export is being rendered to a file.
    pub fn export_started(&mut self, shown: &str)
        ensures
            final(self).same_but_status(&ComposerPanel { exporting: true, ..*old(self) }),
            final(self).status@ == "Exporting to "@ + shown@ + "… (rendering offline)"@,
    {
        self.exporting = true;
        let mut out = "Exporting to ".to_owned();
        out.append(shown);
        out.append("… (rendering offline)");
        self.status = out;
    }

    /// An export is over: with a line to show, or without a word, which is still
    /// an answer.
    pub fn export_finished(&mut self, message: Option<String>)
        ensures
            final(self).same_but_status(&ComposerPanel { exporting: false, ..*old(self) }),
            final(self).status@ == (match message {
                Some(m) => m@,
                None => "Export failed: the render stopped unexpectedly."@,
            }),
    {
        self.exporting = false;
        self.status = match message {
            Some(m) => m,
            None => "Export failed: the render stopped unexpectedly.".to_owned(),
        };
    }
}

/// Whether a row plays a drum kit.
pub open spec fn plays_drums(row: Row, tracks: Seq<EntryView>) -> bool {
    row.track_id matches Some(id) && track_place(tracks, id) < tracks.len() && tracks[track_place(
        tracks,
        id,
    )].percussion
}

/// What is said of a finished export. `secs` and `rate` are its length and its
/// rate as they read.
pub fn exported_message(secs: &str, shown: &str, loaded: usize, total: usize, rate: &str) -> (r:
    String)
    ensures
        r@ == (if loaded == total {
            "Exported "@ + secs@ + " s to "@ + shown@ + " ("@ + decimal(loaded as nat)
                + " row(s), "@ + rate@ + " Hz)."@
        } else {
            "Exported "@ + secs@ + " s to "@ + shown@ + " — only "@ + decimal(loaded as nat)
                + " of "@ + decimal(total as nat)
                + " row(s) loaded, the rest are missing from the file."@
        }),
{
    let mut out = "Exported ".to_owned();
    out.append(secs);
    out.append(" s to ");
    out.append(shown);
    if loaded == total {
        out.append(" (");
        push_decimal(&mut out, loaded as u64);
        out.append(" row(s), ");
        out.append(rate);
        out.append(" Hz).");
    } else {
        out.append(" — only ");
        push_decimal(&mut out, loaded as u64);
        out.append(" of ");
        push_decimal(&mut out, total as u64);
        out.append(" row(s) loaded, the rest are missing from the file.");
    }
    out
}

/// The shortest a file is taken to run, a thousandth of a second, as the bits of
/// the number.
pub const SHORTEST_FILE: u32 = 0x3a83_126f;

/// Where in a file a note may start: no sooner than it does, and no later than
/// its end.
pub open spec fn start_in(start: u32, len: u32) -> u32 {
    let last = if greater(len, SHORTEST_FILE) {
        len
    } else {
        SHORTEST_FILE
    };
    if greater(ZERO, start) {
        ZERO
    } else if greater(start, last) {
        last
    } else {
        start
    }
}

/// Where a note starts in a file of some length: a track that was swapped for a
/// shorter recording must not leave it starting past the end.
pub fn start_within(start: u32, len: u32) -> (r: u32)
    ensures
        r == start_in(start, len),
{
    let last: u32 = if is_greater(len, SHORTEST_FILE) {
        len
    } else {
        SHORTEST_FILE
    };
    if is_greater(ZERO, start) {
        ZERO
    } else if is_greater(start, last) {
        last
    } else {
        start
    }
}

/// How long the recording that a row plays runs, if it plays one.
pub open spec fn wav_len(row: Row, tracks: Seq<EntryView>) -> Option<u32> {
    match row.track_id {
        Some(id) if track_place(tracks, id) < tracks.len() => match tracks[track_place(
            tracks,
            id,
        )].wav {
            Some((_, secs)) => Some(secs),
            None => None,
        },
        _ => None,
    }
}

impl ComposerPanel {
    /// Pull every note of a row that plays a recording back into it.
    pub fn settle_starts(&mut self, i: usize, registry: &TrackRegistry)
        requires
            old(self).wf(),
            i < old(self).rows@.len(),
        ensures
            final(self).wf(),
            final(self).same_but_rows(old(self)),
            final(self).clip == old(self).clip,
            final(self).next_row_id == old(self).next_row_id,
            final(self).status == old(self).status,
            final(self).rows@.len() == old(self).rows@.len(),
            forall|k: int|
                0 <= k < final(self).rows@.len() && k != i ==> final(self).rows@[k]
                    == old(self).rows@[k],
            ({
                let a = old(self).rows@[i as int];
                let b = final(self).rows@[i as int];
                &&& b == (Row { items: b.items, ..a })
                &&& b.items@ == (match wav_len(a, registry@) {
                    Some(len) => a.items@.map_values(
                        |t: Item| Item { start: start_in(t.start, len), ..t },
                    ),
                    None => a.items@,
                })
            }),
    {
        let ghost was = self.rows@;
        let ghost a = self.rows@[i as int];
        let secs = match self.rows[i].track_id {
            Some(id) => registry.wav_secs(id),
            None => None,
        };
        if let Some(len) = secs {
            let n: usize = self.rows[i].items.len();
            let mut k: usize = 0;
            while k < n
                invariant
                    k <= n,
                    i < was.len(),
                    a == was[i as int],
                    n == a.items@.len(),
                    self.same_but_rows(old(self)),
                    self.clip == old(self).clip,
                    self.next_row_id == old(self).next_row_id,
                    self.status == old(self).status,
                    self.rows@.len() == was.len(),
                    forall|j: int| 0 <= j < was.len() && j != i ==> self.rows@[j] == was[j],
                    self.rows@[i as int] == (Row { items: self.rows@[i as int].items, ..a }),
                    self.rows@[i as int].items@.len() == n,
                    forall|j: int|
                        0 <= j < k ==> #[trigger] self.rows@[i as int].items@[j] == (Item {
                            start: start_in(a.items@[j].start, len),
                            ..a.items@[j]
                        }),
                    forall|j: int|
                        k <= j < n ==> #[trigger] self.rows@[i as int].items@[j] == a.items@[j],
                decreases n - k,
            {
                let ghost before = self.rows@;
                let start: u32 = start_within(self.rows[i].items[k].start, len);
                self.rows[i].items[k].start = start;
                assert(forall|j: int|
                    0 <= j < n && j != k ==> self.rows@[i as int].items@[j]
                        == before[i as int].items@[j]);
                k += 1;
            }
            assert(self.rows@[i as int].items@ =~= a.items@.map_values(
                |t: Item| Item { start: start_in(t.start, len), ..t },
            ));
        }
        proof {
            let b = self.rows@[i as int];
            assert(a.ids_unique() ==> b.ids_unique()) by {
                if a.ids_unique() {
                    assert forall|x: int, y: int| 0 <= x < y < b.items@.len() implies (
                    #[trigger] b.items@[x]).id != (#[trigger] b.items@[y]).id by {
                        assert(a.items@[x].id != a.items@[y].id);
                    }
                }
            }
            assert forall|k: int| 0 <= k < was.len() implies (#[trigger] self.rows@[k]).id
                == was[k].id && (was[k].ids_unique() ==> self.rows@[k].ids_unique()) by {
                if k != i {
                    assert(self.rows@[k] == was[k]);
                }
            }
            lemma_same_row_ids(was, self.rows@, self.next_row_id as int);
        }
    }
}

/// A number of microseconds in whole milliseconds, an exact half to the even one.
pub open spec fn whole_millis(us: int) -> int {
    let q = us / 1000;
    let r = us % 1000;
    if r > 500 || (r == 500 && q % 2 == 1) {
        q + 1
    } else {
        q
    }
}

/// How close a length comes, by how many microseconds it is too long.
pub open spec fn closeness(error_us: int) -> Seq<char> {
    if -500 < error_us < 500 {
        "exactly"@
    } else if error_us > 0 {
        decimal(whole_millis(error_us) as nat) + " ms long"@
    } else {
        decimal(whole_millis(-error_us) as nat) + " ms short"@
    }
}

/// What the fit button says: how much of the recording is left, which length
/// comes closest to it, and how close. `left` is the seconds as they read, and
/// `error_us` by how many microseconds the length is too long.
pub fn fit_hint(left: &str, fitted: Duration, error_us: i64) -> (r: String)
    requires
        error_us > i64::MIN,
    ensures
        r@ == "Fit this note to the file.\n\nFrom where this note starts there is "@ + left@
            + " s of the recording left. At this tempo the closest length these boxes can name is "@
            + length_label(fitted) + ", which is "@ + closeness(error_us as int)
            + ".\n\nThe fit is made at the tempo it is pressed at: change the BPM and press it again."@,
{
    let mut out =
        "Fit this note to the file.\n\nFrom where this note starts there is ".to_owned();
    out.append(left);
    out.append(
        " s of the recording left. At this tempo the closest length these boxes can name is ",
    );
    out.append(fitted.label().as_str());
    out.append(", which is ");
    out.append(how_close(error_us).as_str());
    out.append(
        ".\n\nThe fit is made at the tempo it is pressed at: change the BPM and press it again.",
    );
    out
}

fn how_close(error_us: i64) -> (r: String)
    requires
        error_us > i64::MIN,
    ensures
        r@ == closeness(error_us as int),
{
    if -500 < error_us && error_us < 500 {
        return "exactly".to_owned();
    }
    let long = error_us > 0;
    let us: u64 = if long {
        error_us as u64
    } else {
        (-error_us) as u64
    };
    let q: u64 = us / 1000;
    let rest: u64 = us % 1000;
    let ms: u64 = if rest > 500 || (rest == 500 && q % 2 == 1) {
        q + 1
    } else {
        q
    };
    let mut out = String::new();
    push_decimal(&mut out, ms);
    assert(out@ =~= decimal(ms as nat));
    if long {
        out.append(" ms long");
    } else {
        out.append(" ms short");
    }
    out
}

/// A note sounds from where it starts up to, but not at, where it ends, and only while
/// the transport runs.
pub proof fn law_when_a_note_sounds(start: int, dur: int, p: i64)
    ensures
        sounds_at(start, dur, Some(p)) <==> 65_536 * start <= p && p < 65_536 * start + 65_536
            * dur,
        !sounds_at(start, dur, None),
{
}

/// A start in a file is no less than nothing and no more than the file is long, a
/// thousandth of a second at least; within that it stays as it is.
pub proof fn law_where_in_a_file_a_note_may_start(start: u32, len: u32)
    requires
        start <= 0x7f80_0000,
        len <= 0x7f80_0000,
    ensures
        ({
            let last = if len > 0x3a83_126f {
                len
            } else {
                0x3a83_126f
            };
            &&& start <= last ==> start_in(start, len) == start
            &&& start > last ==> start_in(start, len) == last
        }),
        forall|s: u32| 0x8000_0000 < s <= 0xff80_0000 ==> #[trigger] start_in(s, len) == 0,
{
}

/// Milliseconds are rounded to the nearest, and to the even one where two are as near.
pub proof fn law_milliseconds_are_the_nearest(us: int)
    requires
        us >= 0,
    ensures
        1000 * whole_millis(us) - us <= 500,
        us - 1000 * whole_millis(us) <= 500,
        1000 * whole_millis(us) - us == 500 || us - 1000 * whole_millis(us) == 500 ==> whole_millis(
            us,
        ) % 2 == 0,
{
}

/// A fit within half a millisecond is exact; any other is long or short by the
/// milliseconds that it is off.
pub proof fn law_how_close_a_fit_reads(error_us: int)
    ensures
        -500 < error_us < 500 ==> closeness(error_us) == "exactly"@,
        error_us >= 500 ==> closeness(error_us) == decimal(whole_millis(error_us) as nat)
            + " ms long"@,
        error_us <= -500 ==> closeness(error_us) == decimal(whole_millis(-error_us) as nat)
            + " ms short"@,
{
}

/// What a row knows of its track is what the registry has of it: whether it plays
/// drums, and how long its recording is.
pub proof fn law_what_a_row_knows_of_its_track(row: Row, tracks: Seq<EntryView>, k: int)
    requires
        0 <= k < tracks.len(),
        row.track_id == Some(tracks[k].id),
        forall|j: int| 0 <= j < k ==> (#[trigger] tracks[j]).id != tracks[k].id,
    ensures
        plays_drums(row, tracks) == tracks[k].percussion,
        tracks[k].wav is Some ==> wav_len(row, tracks) == Some((tracks[k].wav->0).1),
        tracks[k].wav is None ==> wav_len(row, tracks) is None,
        row.missing is None ==> track_text(row, tracks) == tracks[k].name,
{
    crate::registry::law_a_track_is_found_by_its_id(tracks, tracks[k].id);
    let p = track_place(tracks, tracks[k].id);
    if p < k {
        assert(tracks[p].id != tracks[k].id);
    }
}

/// A row without a track plays no drums and no recording and says that it has none;
/// one that waits for a source says which.
pub proof fn law_what_a_row_without_a_track_says(row: Row, tracks: Seq<EntryView>)
    ensures
        row.track_id is None ==> !plays_drums(row, tracks) && wav_len(row, tracks) is None,
        row.track_id is None && row.missing is None ==> track_text(row, tracks) == "— no track —"@,
        row.missing is Some ==> track_text(row, tracks) == "⚠ missing: "@ + source_name(
            row.missing->0@,
        ),
{
}

/// A frame is called by its note, or as a recording, or as a space, the first of a row
/// as its lead; and by its length.
pub proof fn law_how_a_frame_is_called(pitch: u8, id: u64, percussion: bool, d: Duration)
    ensures
        title_text(Frame::Note { pitch }, id, percussion, d) == note_text(pitch, percussion)
            + " · "@ + length_label(d),
        title_text(Frame::Wav, id, percussion, d) == "wav"@ + " · "@ + length_label(d),
        id != 0xFFFF_FFFF_FFFF_FFFF ==> title_text(Frame::Space, id, percussion, d) == "space"@
            + " · "@ + length_label(d),
        title_text(Frame::Space, 0xFFFF_FFFF_FFFF_FFFF, percussion, d) == "lead"@ + " · "@
            + length_label(d),
{
}

/// What the bar says of a block counts its frames and its rows and says how long it
/// is; what it says of the clipboard does too.
pub proof fn law_what_the_bar_says(rows: Seq<Row>, c: Clip)
    ensures
        window(rows) matches Some((from, to)) ==> block_text(rows) == decimal(
            frame_count(
                block_rows(rows, rows.len() as int),
                block_rows(rows, rows.len() as int).len() as int,
            ) as nat,
        ) + " frame(s) on "@ + decimal(block_rows(rows, rows.len() as int).len())
            + " row(s) · "@ + span_text(to - from),
        window(rows) is None ==> block_text(rows) == "nothing selected — press ☐ on a note frame"@,
        clip_text(c) == "clipboard: "@ + decimal(
            clip_count(c.rows@, c.rows@.len() as int) as nat,
        ) + " frame(s), "@ + span_text(c.window as int),
{
}

} // verus!
