//! The composition: its rows, and what is edited across them.
//!
//! A block is a stretch of frames selected across any number of rows at once.
//! What makes it one thing is its window: the time from its first note to the
//! end of its last space. Every row's part is copied against that window rather
//! than against its own extent, which is what keeps a chord a chord and a row
//! that comes in late coming in late.

use vstd::prelude::*;

use super::block::{
    ends_at, ids_for_copies, law_a_paste_lands_behind_the_row,
    law_a_repeat_moves_on_by_whole_stretches, padding_frames, pasted_items, pasted_lead,
    repeated_items, same_note, stretch,
};
use super::length::{lemma_span_bounds, span_label, span_text, MAX_COUNTED};
use super::record::DEFAULT_ROUND_UNITS;
use super::row::{
    ids_below, items_span, lemma_items_span_add, lemma_items_span_step, lemma_items_span_take,
    lemma_place_of, lemma_place_of_is, place_of, range_selection, same_but_frames, selected, Item,
    Row,
};
use super::session::{LiveSnapshot, ProjectRequest};
use crate::number::ONE_HUNDRED_TWENTY;
use crate::registry::{track_place, TrackRegistry};
use crate::text::{decimal, push_decimal};

verus! {

/// What the block controls say when they are pressed with nothing selected.
pub const NO_BLOCK: &'static str =
    "Nothing selected — press ☐ on a note frame to start a block.";

/// A part of a block: the frames selected on one row.
#[derive(Clone, Copy, PartialEq, Eq, Debug, Structural)]
pub struct BlockRow {
    /// Where the row stands.
    pub idx: usize,
    /// First and last frame selected on it.
    pub first: usize,
    pub last: usize,
}

/// The frames selected across the rows, resolved against the composition.
#[derive(Clone, Debug)]
pub struct Block {
    /// One entry for every row that has something selected, in row order.
    pub rows: Vec<BlockRow>,
    /// Start of the window: the earliest selected note in any row.
    pub from: i64,
    /// End of it: where the last selected space in any row runs out.
    pub to: i64,
}

/// A row's part of what was copied.
#[derive(Clone, Debug)]
pub struct ClipRow {
    /// The row this came off, which is the row it goes back on.
    pub row_id: u64,
    /// Units between the window's start and this row's first copied note.
    pub lead: i64,
    pub items: Vec<Item>,
}

/// A block lifted out of the composition and held for putting back.
#[derive(Clone, Debug)]
pub struct Clip {
    /// The window the block covered.
    pub window: i64,
    pub rows: Vec<ClipRow>,
}

/// The composition and how it is being worked on.
pub struct ComposerPanel {
    pub rows: Vec<Row>,
    pub next_row_id: u64,
    /// The tempo in beats a minute, as the bits of the number.
    pub tempo_bpm: u32,
    /// The name as typed.
    pub project_name: String,
    /// Where the project was last saved to or loaded from.
    pub project_dir: Option<String>,
    /// What the app is asked to do with the project.
    pub request: Option<ProjectRequest>,
    pub status: String,
    /// A transport is running.
    pub playing: bool,
    /// Rows are loading their plugins for a transport.
    pub preparing: bool,
    /// Loop the composition instead of stopping at the end.
    pub repeat: bool,
    /// The composition as the looping transport last received it.
    pub live_sent: Option<LiveSnapshot>,
    /// An export is being rendered.
    pub exporting: bool,
    /// A take is being played in.
    pub recording: bool,
    /// The note value a take is rounded onto, in units.
    pub round_units: i64,
    /// The track a recorded row plays.
    pub record_track: Option<u64>,
    /// The last block copied.
    pub clip: Option<Clip>,
    /// How many copies "Clone" makes at once.
    pub clone_times: u8,
}

// ── what a block is ─────────────────────────────────────────────────────────

/// Frames counted over the first `n` parts of a block.
pub open spec fn frame_count(rows: Seq<BlockRow>, n: int) -> int
    decreases n,
{
    if n <= 0 {
        0
    } else {
        frame_count(rows, n - 1) + (rows[n - 1].last - rows[n - 1].first + 1)
    }
}

/// The parts that the first `n` rows have in the block.
pub open spec fn block_rows(rows: Seq<Row>, n: int) -> Seq<BlockRow>
    decreases n,
{
    if n <= 0 {
        Seq::empty()
    } else {
        let before = block_rows(rows, n - 1);
        match rows[n - 1].selection() {
            None => before,
            Some((a, b)) => before.push(
                BlockRow { idx: (n - 1) as usize, first: a as usize, last: b as usize },
            ),
        }
    }
}

/// The window of the block over the first `n` rows: from the earliest selected
/// note to the end of the last selected space.
pub open spec fn window_of(rows: Seq<Row>, n: int) -> Option<(int, int)>
    decreases n,
{
    if n <= 0 {
        None
    } else {
        let before = window_of(rows, n - 1);
        match rows[n - 1].selection() {
            None => before,
            Some((a, b)) => {
                let s = rows[n - 1].start_of(a);
                let e = rows[n - 1].start_of(b + 1);
                match before {
                    None => Some((s, e)),
                    Some((f, t)) => Some(
                        (
                            if s < f {
                                s
                            } else {
                                f
                            },
                            if e > t {
                                e
                            } else {
                                t
                            },
                        ),
                    ),
                }
            },
        }
    }
}

/// The window of the block.
pub open spec fn window(rows: Seq<Row>) -> Option<(int, int)> {
    window_of(rows, rows.len() as int)
}

/// Whether every row's length can be counted and read out.
pub open spec fn measurable(rows: Seq<Row>) -> bool {
    forall|i: int| 0 <= i < rows.len() ==> (#[trigger] rows[i]).end_span() <= MAX_COUNTED
}

/// How long the longest of the first `n` rows is.
pub open spec fn longest(rows: Seq<Row>, n: int) -> int
    decreases n,
{
    if n <= 0 {
        0
    } else {
        let before = longest(rows, n - 1);
        let end = rows[n - 1].end_span();
        if end > before {
            end
        } else {
            before
        }
    }
}

proof fn lemma_longest(rows: Seq<Row>, n: int)
    requires
        measurable(rows),
        0 <= n <= rows.len(),
    ensures
        0 <= longest(rows, n) <= MAX_COUNTED,
        forall|i: int| 0 <= i < n ==> (#[trigger] rows[i]).end_span() <= longest(rows, n),
    decreases n,
{
    if n > 0 {
        lemma_longest(rows, n - 1);
        assert(rows[n - 1].end_span() <= MAX_COUNTED);
    }
}

/// A selected stretch lies within its row.
pub proof fn lemma_selection(row: Row)
    ensures
        row.selection() matches Some((a, b)) ==> {
            &&& 0 <= a <= b < row.items@.len()
            &&& 0 <= row.start_of(a)
            &&& row.start_of(a) + items_span(stretch(row.items@, a, b)) == row.start_of(b + 1)
            &&& row.start_of(b + 1) <= row.end_span()
        },
{
    if let Some((a, b)) = row.selection() {
        let s = row.items@;
        let (x, y) = row.sel->0;
        lemma_place_of(s, x);
        lemma_place_of(s, y);
        lemma_items_span_take(s, a);
        lemma_items_span_take(s, b + 1);
        lemma_items_span_add(s.take(a), stretch(s, a, b));
        assert(s.take(a) + stretch(s, a, b) =~= s.take(b + 1));
        lemma_span_bounds(row.lead);
        let st = stretch(s, a, b);
        lemma_items_span_take(st, 0);
    }
}

proof fn lemma_window(rows: Seq<Row>, n: int)
    requires
        measurable(rows),
        0 <= n <= rows.len(),
    ensures
        window_of(rows, n) matches Some((f, t)) ==> 0 <= f <= t <= MAX_COUNTED,
        (window_of(rows, n) is None) == (block_rows(rows, n).len() == 0),
        block_rows(rows, n).len() <= n,
        forall|i: int|
            0 <= i < n ==> ((#[trigger] rows[i]).selection() matches Some((a, b)) ==> {
                &&& window_of(rows, n) matches Some((f, t)) && f <= rows[i].start_of(a)
                    && rows[i].start_of(b + 1) <= t
            }),
    decreases n,
{
    if n > 0 {
        lemma_window(rows, n - 1);
        lemma_selection(rows[n - 1]);
        assert(rows[n - 1].end_span() <= MAX_COUNTED);
        if let Some((a, b)) = rows[n - 1].selection() {
            let st = stretch(rows[n - 1].items@, a, b);
            lemma_items_span_take(st, 0);
        }
    }
}

pub proof fn lemma_block_rows(rows: Seq<Row>, n: int)
    requires
        0 <= n <= rows.len(),
        rows.len() <= usize::MAX,
    ensures
        forall|k: int|
            0 <= k < block_rows(rows, n).len() ==> {
                let br = #[trigger] block_rows(rows, n)[k];
                &&& br.idx < n
                &&& rows[br.idx as int].selection() == Some((br.first as int, br.last as int))
                &&& br.first <= br.last < rows[br.idx as int].items@.len()
            },
        forall|i: int|
            0 <= i < n && (#[trigger] rows[i]).selection() is Some ==> exists|k: int|
                0 <= k < block_rows(rows, n).len() && #[trigger] block_rows(rows, n)[k].idx == i,
        forall|k: int, j: int|
            0 <= k < j < block_rows(rows, n).len() ==> (#[trigger] block_rows(rows, n)[k]).idx < (
            #[trigger] block_rows(rows, n)[j]).idx,
    decreases n,
{
    if n > 0 {
        lemma_block_rows(rows, n - 1);
        lemma_selection(rows[n - 1]);
        let before = block_rows(rows, n - 1);
        let all = block_rows(rows, n);
        if let Some((a, b)) = rows[n - 1].selection() {
            assert(rows[n - 1].items@.len() == rows[n - 1].items.len());
        }
        assert forall|k: int| 0 <= k < all.len() implies {
            let br = #[trigger] all[k];
            &&& br.idx < n
            &&& rows[br.idx as int].selection() == Some((br.first as int, br.last as int))
            &&& br.first <= br.last < rows[br.idx as int].items@.len()
        } by {
            if k < before.len() {
                assert(all[k] == before[k]);
            }
        }
        assert forall|i: int|
            0 <= i < n && (#[trigger] rows[i]).selection() is Some implies exists|k: int|
            0 <= k < all.len() && #[trigger] all[k].idx == i by {
            if i < n - 1 {
                let k = choose|k: int| 0 <= k < before.len() && #[trigger] before[k].idx == i;
                assert(all[k] == before[k]);
            } else {
                assert(all[before.len() as int].idx == i);
            }
        }
        assert forall|k: int, j: int| 0 <= k < j < all.len() implies (#[trigger] all[k]).idx < (
        #[trigger] all[j]).idx by {
            assert(all[k] == before[k]);
            if j < before.len() {
                assert(all[j] == before[j]);
            }
        }
    }
}

impl Block {
    /// How long the window is. Every copy of the block occupies exactly this.
    pub fn window(&self) -> (r: i64)
        requires
            i64::MIN <= self.to - self.from <= i64::MAX,
        ensures
            r == self.to - self.from,
    {
        self.to - self.from
    }

    /// How many frames are in the block.
    pub fn frames(&self) -> (r: usize)
        requires
            forall|k: int|
                0 <= k < self.rows@.len() ==> (#[trigger] self.rows@[k]).first <= self.rows@[k].last,
            frame_count(self.rows@, self.rows@.len() as int) <= usize::MAX,
        ensures
            r == frame_count(self.rows@, self.rows@.len() as int),
    {
        let mut n: usize = 0;
        let mut i: usize = 0;
        while i < self.rows.len()
            invariant
                i <= self.rows.len(),
                n == frame_count(self.rows@, i as int),
                forall|k: int|
                    0 <= k < self.rows@.len() ==> (#[trigger] self.rows@[k]).first
                        <= self.rows@[k].last,
                frame_count(self.rows@, self.rows@.len() as int) <= usize::MAX,
            decreases self.rows.len() - i,
        {
            proof {
                lemma_frame_count(self.rows@, i + 1, self.rows@.len() as int);
                assert(self.rows@[i as int].first <= self.rows@[i as int].last);
            }
            let part: usize = self.rows[i].last - self.rows[i].first;
            n = n + part + 1;
            i += 1;
        }
        n
    }
}

proof fn lemma_frame_count(rows: Seq<BlockRow>, a: int, b: int)
    requires
        0 <= a <= b <= rows.len(),
        forall|k: int| 0 <= k < rows.len() ==> (#[trigger] rows[k]).first <= rows[k].last,
    ensures
        0 <= frame_count(rows, a) <= frame_count(rows, b),
    decreases b,
{
    if a < b {
        lemma_frame_count(rows, a, b - 1);
        assert(rows[b - 1].first <= rows[b - 1].last);
    } else if a > 0 {
        lemma_frame_count(rows, a - 1, b - 1);
        assert(rows[a - 1].first <= rows[a - 1].last);
    }
}

/// Frames counted over the first `n` rows of a clip.
pub open spec fn clip_count(rows: Seq<ClipRow>, n: int) -> int
    decreases n,
{
    if n <= 0 {
        0
    } else {
        clip_count(rows, n - 1) + rows[n - 1].items@.len()
    }
}

proof fn lemma_clip_count(rows: Seq<ClipRow>, a: int, b: int)
    requires
        0 <= a <= b,
    ensures
        0 <= clip_count(rows, a) <= clip_count(rows, b),
    decreases b,
{
    if a < b {
        lemma_clip_count(rows, a, b - 1);
    } else if a > 0 {
        lemma_clip_count(rows, a - 1, b - 1);
    }
}

impl Clip {
    /// How many frames were copied.
    pub fn frames(&self) -> (r: usize)
        requires
            clip_count(self.rows@, self.rows@.len() as int) <= usize::MAX,
        ensures
            r == clip_count(self.rows@, self.rows@.len() as int),
    {
        let mut n: usize = 0;
        let mut i: usize = 0;
        while i < self.rows.len()
            invariant
                i <= self.rows.len(),
                n == clip_count(self.rows@, i as int),
                clip_count(self.rows@, self.rows@.len() as int) <= usize::MAX,
            decreases self.rows.len() - i,
        {
            proof {
                lemma_clip_count(self.rows@, i + 1, self.rows@.len() as int);
            }
            n = n + self.rows[i].items.len();
            i += 1;
        }
        n
    }
}

// ── the panel ───────────────────────────────────────────────────────────────

/// Whether every row has an id of its own, all of them below `next`, and every
/// row's frames too.
pub open spec fn own_row_ids(rows: Seq<Row>, next: int) -> bool {
    &&& forall|i: int| 0 <= i < rows.len() ==> (#[trigger] rows[i]).id < next
    &&& forall|i: int, j: int|
        0 <= i < j < rows.len() ==> (#[trigger] rows[i]).id != (#[trigger] rows[j]).id
    &&& forall|i: int| 0 <= i < rows.len() ==> (#[trigger] rows[i]).ids_unique()
}

/// What is said of a new row.
pub open spec fn added_text(name: Option<Seq<char>>) -> Seq<char> {
    match name {
        Some(n) => "Added a row playing "@ + n + "."@,
        None => "Added a row — no tracks exist yet to assign it to."@,
    }
}

/// The track a row falls back to.
pub open spec fn first_track(registry: TrackRegistry) -> Option<u64> {
    if registry@.len() == 0 {
        None
    } else {
        Some(registry@[0].id)
    }
}

/// Whether a track is one that is still registered.
pub open spec fn is_valid(registry: TrackRegistry, track: Option<u64>) -> bool {
    track matches Some(id) && track_place(registry@, id) < registry@.len()
}

/// The track a row plays once the list of tracks has changed: its own while it
/// is there, else the first. A row whose source is missing is left alone.
pub open spec fn reconciled(registry: TrackRegistry, row: Row) -> Option<u64> {
    if row.missing is Some || is_valid(registry, row.track_id) {
        row.track_id
    } else {
        first_track(registry)
    }
}

/// Whether a panel is what another becomes when its rows are kept pointed at
/// tracks that exist.
pub open spec fn is_reconciled(
    was: ComposerPanel,
    now: ComposerPanel,
    registry: TrackRegistry,
) -> bool {
    &&& now.rows@.len() == was.rows@.len()
    &&& forall|i: int|
        0 <= i < now.rows@.len() ==> #[trigger] now.rows@[i] == (Row {
            track_id: reconciled(registry, was.rows@[i]),
            ..was.rows@[i]
        })
    &&& now.record_track == (if is_valid(registry, was.record_track) {
        was.record_track
    } else {
        first_track(registry)
    })
    &&& now.same_but_rows(&ComposerPanel { record_track: now.record_track, ..was })
    &&& now.clip == was.clip
    &&& now.next_row_id == was.next_row_id
    &&& now.status == was.status
}

impl ComposerPanel {
    /// Rows and frames have ids of their own.
    pub open spec fn wf(&self) -> bool {
        own_row_ids(self.rows@, self.next_row_id as int)
    }

    /// Everything about two panels is the same, their rows, the next row id and
    /// the status aside.
    pub open spec fn same_but_rows(&self, other: &ComposerPanel) -> bool {
        &&& self.tempo_bpm == other.tempo_bpm
        &&& self.project_name == other.project_name
        &&& self.project_dir == other.project_dir
        &&& self.request == other.request
        &&& self.playing == other.playing
        &&& self.preparing == other.preparing
        &&& self.repeat == other.repeat
        &&& self.live_sent == other.live_sent
        &&& self.exporting == other.exporting
        &&& self.recording == other.recording
        &&& self.round_units == other.round_units
        &&& self.record_track == other.record_track
        &&& self.clone_times == other.clone_times
    }

    /// An empty composition.
    pub fn new() -> (r: ComposerPanel)
        ensures
            r.wf(),
            r.rows@.len() == 0,
            r.next_row_id == 0,
            r.tempo_bpm == ONE_HUNDRED_TWENTY,
            r.project_name@ == "Untitled"@,
            r.project_dir is None,
            r.request is None,
            r.status@ == "Add a track row to start composing."@,
            !r.playing,
            !r.preparing,
            !r.repeat,
            r.live_sent is None,
            !r.exporting,
            !r.recording,
            r.round_units == DEFAULT_ROUND_UNITS,
            r.record_track is None,
            r.clip is None,
            r.clone_times == 1,
    {
        ComposerPanel {
            rows: Vec::new(),
            next_row_id: 0,
            tempo_bpm: ONE_HUNDRED_TWENTY,
            project_name: "Untitled".to_owned(),
            project_dir: None,
            request: None,
            status: "Add a track row to start composing.".to_owned(),
            playing: false,
            preparing: false,
            repeat: false,
            live_sent: None,
            exporting: false,
            recording: false,
            round_units: DEFAULT_ROUND_UNITS,
            record_track: None,
            clip: None,
            clone_times: 1,
        }
    }

    /// A new lane, playing the first track there is.
    pub fn add_row(&mut self, registry: &TrackRegistry)
        requires
            old(self).wf(),
            old(self).next_row_id < u64::MAX,
        ensures
            final(self).wf(),
            final(self).same_but_rows(old(self)),
            final(self).clip == old(self).clip,
            final(self).next_row_id == old(self).next_row_id + 1,
            final(self).rows@.len() == old(self).rows@.len() + 1,
            forall|i: int|
                0 <= i < old(self).rows@.len() ==> final(self).rows@[i] == old(self).rows@[i],
            ({
                let row = final(self).rows@.last();
                &&& row.id == old(self).next_row_id
                &&& row.track_id == first_track(*registry)
                &&& is_new_row(row)
            }),
            final(self).status@ == added_text(
                if registry@.len() == 0 {
                    None
                } else {
                    Some(registry@[0].name)
                },
            ),
    {
        let id: u64 = self.next_row_id;
        self.next_row_id = id + 1;
        let track = registry.first_id();
        self.rows.push(Row::new(id, track));
        let name = match track {
            Some(t) => registry.name_of(t),
            None => None,
        };
        proof {
            if registry@.len() > 0 {
                assert(track_place(registry@, registry@[0].id) == 0);
            }
        }
        self.status = match name {
            Some(n) => {
                let mut out = "Added a row playing ".to_owned();
                out.append(n.as_str());
                out.append(".");
                out
            },
            None => "Added a row — no tracks exist yet to assign it to.".to_owned(),
        };
    }

    /// Keep every row pointed at a track that still exists: a row whose track
    /// was removed falls back to the first one, and so does what a take is
    /// recorded into. A row whose loaded source went missing is left alone.
    pub fn reconcile_tracks(&mut self, registry: &TrackRegistry)
        requires
            old(self).wf(),
        ensures
            final(self).wf(),
            is_reconciled(*old(self), *final(self), *registry),
    {
        let first = registry.first_id();
        let ghost was = self.rows@;
        let mut i: usize = 0;
        while i < self.rows.len()
            invariant
                i <= self.rows.len(),
                self.rows@.len() == was.len(),
                was == old(self).rows@,
                first == first_track(*registry),
                self.same_but_rows(old(self)),
                self.clip == old(self).clip,
                self.next_row_id == old(self).next_row_id,
                self.status == old(self).status,
                forall|k: int|
                    0 <= k < i ==> #[trigger] self.rows@[k] == (Row {
                        track_id: reconciled(*registry, was[k]),
                        ..was[k]
                    }),
                forall|k: int| i <= k < was.len() ==> self.rows@[k] == was[k],
            decreases self.rows.len() - i,
        {
            let ghost before = self.rows@;
            if self.rows[i].missing.is_none() {
                let valid = match self.rows[i].track_id {
                    Some(id) => registry.contains(id),
                    None => false,
                };
                if !valid {
                    self.rows[i].track_id = first;
                }
            }
            assert(self.rows@[i as int] == (Row {
                track_id: reconciled(*registry, was[i as int]),
                ..was[i as int]
            }));
            assert(forall|j: int| 0 <= j < was.len() && j != i ==> self.rows@[j] == before[j]);
            i += 1;
        }
        let valid = match self.record_track {
            Some(id) => registry.contains(id),
            None => false,
        };
        if !valid {
            self.record_track = first;
        }
        proof {
            lemma_same_row_ids(was, self.rows@, self.next_row_id as int);
        }
    }

    /// End of the composition: the longest row.
    pub fn end_units(&self) -> (r: i64)
        requires
            measurable(self.rows@),
        ensures
            r == longest(self.rows@, self.rows@.len() as int),
            0 <= r <= MAX_COUNTED,
    {
        let mut end: i64 = 0;
        let mut i: usize = 0;
        while i < self.rows.len()
            invariant
                i <= self.rows.len(),
                measurable(self.rows@),
                end == longest(self.rows@, i as int),
                0 <= end <= MAX_COUNTED,
            decreases self.rows.len() - i,
        {
            assert(self.rows@[i as int].end_span() <= MAX_COUNTED);
            let e: i64 = self.rows[i].end_units();
            if e > end {
                end = e;
            }
            i += 1;
        }
        end
    }

    /// The selected block, resolved, or nothing where nothing is selected.
    pub fn block(&self) -> (r: Option<Block>)
        requires
            measurable(self.rows@),
        ensures
            match r {
                Some(b) => {
                    &&& window(self.rows@) == Some((b.from as int, b.to as int))
                    &&& 0 <= b.from <= b.to <= MAX_COUNTED
                    &&& b.rows@ == block_rows(self.rows@, self.rows@.len() as int)
                    &&& b.rows@.len() > 0
                },
                None => window(self.rows@) is None,
            },
    {
        let mut rows: Vec<BlockRow> = Vec::new();
        let mut from: i64 = 0;
        let mut to: i64 = 0;
        let mut idx: usize = 0;
        while idx < self.rows.len()
            invariant
                idx <= self.rows.len(),
                measurable(self.rows@),
                rows@ == block_rows(self.rows@, idx as int),
                match window_of(self.rows@, idx as int) {
                    Some((f, t)) => f == from && t == to && rows@.len() > 0,
                    None => rows@.len() == 0,
                },
                0 <= from <= to <= MAX_COUNTED,
            decreases self.rows.len() - idx,
        {
            let row = &self.rows[idx];
            proof {
                assert(self.rows@[idx as int].end_span() <= MAX_COUNTED);
                lemma_selection(*row);
                lemma_window(self.rows@, idx + 1);
            }
            if let Some((first, last)) = row.sel_range() {
                let starts = row.starts();
                proof {
                    lemma_items_span_step(row.items@, last as int);
                }
                let s: i64 = starts[first];
                assert(s == row.start_of(first as int));
                assert(starts@[last as int] == row.start_of(last as int));
                let e: i64 = starts[last] + row.items[last].total_units();
                assert(e == row.start_of(last + 1));
                if rows.len() == 0 {
                    from = s;
                    to = e;
                } else {
                    if s < from {
                        from = s;
                    }
                    if e > to {
                        to = e;
                    }
                }
                rows.push(BlockRow { idx, first, last });
            }
            idx += 1;
        }
        if rows.len() == 0 {
            None
        } else {
            Some(Block { rows, from, to })
        }
    }
}

/// Whether a row is as it comes: nothing in it, at its plain level.
pub open spec fn is_new_row(row: Row) -> bool {
    &&& row.gain == crate::number::ONE
    &&& row.lead == super::length::zero_length()
    &&& row.autosave
    &&& row.autoscroll
    &&& row.missing is None
    &&& row.items@.len() == 0
    &&& row.next_item_id == 0
    &&& row.sel is None
}

/// Rows whose ids and frames have not changed have ids as unique as they were.
pub proof fn lemma_same_row_ids(a: Seq<Row>, b: Seq<Row>, next: int)
    requires
        own_row_ids(a, next),
        a.len() == b.len(),
        forall|i: int|
            0 <= i < a.len() ==> (#[trigger] b[i]).id == a[i].id && (a[i].ids_unique()
                ==> b[i].ids_unique()),
    ensures
        own_row_ids(b, next),
{
    assert forall|i: int| 0 <= i < b.len() implies (#[trigger] b[i]).id < next
        && b[i].ids_unique() by {
        assert(a[i].id < next && a[i].ids_unique());
    }
    assert forall|i: int, j: int| 0 <= i < j < b.len() implies (#[trigger] b[i]).id != (
    #[trigger] b[j]).id by {
        assert(a[i].id != a[j].id);
    }
}

// ── selecting ───────────────────────────────────────────────────────────────

/// How many of the first `n` rows hold frames.
pub open spec fn filled(rows: Seq<Row>, n: int) -> int
    decreases n,
{
    if n <= 0 {
        0
    } else {
        filled(rows, n - 1) + if rows[n - 1].items@.len() == 0 {
            0int
        } else {
            1
        }
    }
}

/// What is said once everything is selected.
pub open spec fn selected_text(rows: int) -> Seq<char> {
    if rows == 0 {
        "Nothing to select — the rows are empty."@
    } else {
        "Selected everything on "@ + decimal(rows as nat) + " row(s)."@
    }
}

/// Whether a frame of a row begins within a stretch of time.
pub open spec fn begins_in(row: Row, k: int, from: int, to: int) -> bool {
    from <= row.start_of(k) < to
}

/// The first frame of a row, from `k` on, that begins within a stretch of time,
/// or the number of frames.
pub open spec fn first_in(row: Row, from: int, to: int, k: int) -> int
    decreases row.items@.len() - k,
{
    if k >= row.items@.len() {
        row.items@.len() as int
    } else if begins_in(row, k, from, to) {
        k
    } else {
        first_in(row, from, to, k + 1)
    }
}

/// The last of the first `n` frames of a row that begins within a stretch of
/// time, or minus one.
pub open spec fn last_in(row: Row, from: int, to: int, n: int) -> int
    decreases n,
{
    if n <= 0 {
        -1
    } else if begins_in(row, n - 1, from, to) {
        n - 1
    } else {
        last_in(row, from, to, n - 1)
    }
}

/// The frames of a row that begin within a stretch of time.
pub open spec fn spanned(row: Row, from: int, to: int) -> Option<(int, int)> {
    let a = first_in(row, from, to, 0);
    if a < row.items@.len() {
        Some((a, last_in(row, from, to, row.items@.len() as int)))
    } else {
        None
    }
}

/// The selection of the frames that begin within a stretch of time.
pub open spec fn spanned_selection(row: Row, from: int, to: int) -> Option<(u64, u64)> {
    match spanned(row, from, to) {
        Some((a, b)) => range_selection(row.items@, a, b),
        None => None,
    }
}

/// How many of the first `n` rows have frames in a stretch of time.
pub open spec fn spanned_rows(rows: Seq<Row>, from: int, to: int, n: int) -> int
    decreases n,
{
    if n <= 0 {
        0
    } else {
        spanned_rows(rows, from, to, n - 1) + if spanned(rows[n - 1], from, to) is Some {
            1int
        } else {
            0
        }
    }
}

/// How many frames the first `n` rows have in a stretch of time.
pub open spec fn spanned_frames(rows: Seq<Row>, from: int, to: int, n: int) -> int
    decreases n,
{
    if n <= 0 {
        0
    } else {
        spanned_frames(rows, from, to, n - 1) + match spanned(rows[n - 1], from, to) {
            Some((a, b)) => b - a + 1,
            None => 0,
        }
    }
}

/// What is said of a block that spans rows.
pub open spec fn spans_text(rows: int, frames: int, units: int) -> Seq<char> {
    "Block spans "@ + decimal(rows as nat) + " row(s), "@ + decimal(frames as nat)
        + " frame(s) — "@ + span_text(units) + " of music."@
}

/// How many frames the first `n` rows hold.
pub open spec fn total_frames(rows: Seq<Row>, n: int) -> int
    decreases n,
{
    if n <= 0 {
        0
    } else {
        total_frames(rows, n - 1) + rows[n - 1].items@.len()
    }
}

proof fn lemma_total_frames(rows: Seq<Row>, a: int, b: int)
    requires
        0 <= a <= b,
    ensures
        0 <= total_frames(rows, a) <= total_frames(rows, b),
    decreases b,
{
    if a < b {
        lemma_total_frames(rows, a, b - 1);
    } else if a > 0 {
        lemma_total_frames(rows, a - 1, b - 1);
    }
}

proof fn lemma_spanned(row: Row, from: int, to: int)
    ensures
        spanned(row, from, to) matches Some((a, b)) ==> 0 <= a <= b < row.items@.len(),
{
    lemma_first_in(row, from, to, 0);
    lemma_last_in(row, from, to, row.items@.len() as int);
    let a = first_in(row, from, to, 0);
    let b = last_in(row, from, to, row.items@.len() as int);
    if a < row.items@.len() && b < a {
        assert(begins_in(row, a, from, to));
    }
}

proof fn lemma_first_in(row: Row, from: int, to: int, k: int)
    requires
        0 <= k <= row.items@.len(),
    ensures
        k <= first_in(row, from, to, k) <= row.items@.len(),
        first_in(row, from, to, k) < row.items@.len() ==> begins_in(
            row,
            first_in(row, from, to, k),
            from,
            to,
        ),
    decreases row.items@.len() - k,
{
    if k < row.items@.len() && !begins_in(row, k, from, to) {
        lemma_first_in(row, from, to, k + 1);
    }
}

proof fn lemma_last_in(row: Row, from: int, to: int, n: int)
    requires
        0 <= n <= row.items@.len(),
    ensures
        -1 <= last_in(row, from, to, n) < n,
        forall|k: int|
            last_in(row, from, to, n) < k < n ==> !#[trigger] begins_in(row, k, from, to),
    decreases n,
{
    if n > 0 && !begins_in(row, n - 1, from, to) {
        lemma_last_in(row, from, to, n - 1);
    }
}

/// The frames of a row that begin within a stretch of time.
fn frames_in(row: &Row, from: i64, to: i64) -> (r: Option<(usize, usize)>)
    requires
        row.fits(),
    ensures
        match r {
            Some((a, b)) => spanned(*row, from as int, to as int) == Some((a as int, b as int))
                && a <= b < row.items@.len(),
            None => spanned(*row, from as int, to as int) is None,
        },
{
    let starts = row.starts();
    let n: usize = row.items.len();
    let mut a: usize = 0;
    while a < n && !(from <= starts[a] && starts[a] < to)
        invariant
            a <= n,
            n == row.items@.len(),
            starts@.len() == n,
            forall|k: int| 0 <= k < starts@.len() ==> #[trigger] starts@[k] == row.start_of(k),
            first_in(*row, from as int, to as int, 0) == first_in(
                *row,
                from as int,
                to as int,
                a as int,
            ),
        decreases n - a,
    {
        assert(starts@[a as int] == row.start_of(a as int));
        a += 1;
    }
    if a >= n {
        return None;
    }
    assert(starts@[a as int] == row.start_of(a as int));
    let mut b: usize = n;
    proof {
        lemma_spanned(*row, from as int, to as int);
    }
    while b > 0 && !(from <= starts[b - 1] && starts[b - 1] < to)
        invariant
            b <= n,
            n == row.items@.len(),
            starts@.len() == n,
            forall|k: int| 0 <= k < starts@.len() ==> #[trigger] starts@[k] == row.start_of(k),
            last_in(*row, from as int, to as int, n as int) == last_in(
                *row,
                from as int,
                to as int,
                b as int,
            ),
        decreases b,
    {
        assert(starts@[b - 1] == row.start_of(b - 1));
        b -= 1;
    }
    if b > 0 {
        assert(starts@[b - 1] == row.start_of(b - 1));
    }
    Some((a, b - 1))
}

impl ComposerPanel {
    /// Select every frame in every row: the whole composition as one block.
    pub fn select_all(&mut self)
        requires
            old(self).wf(),
        ensures
            final(self).wf(),
            final(self).same_but_rows(old(self)),
            final(self).clip == old(self).clip,
            final(self).next_row_id == old(self).next_row_id,
            final(self).rows@.len() == old(self).rows@.len(),
            forall|i: int|
                0 <= i < final(self).rows@.len() ==> #[trigger] final(self).rows@[i] == (Row {
                    sel: range_selection(
                        old(self).rows@[i].items@,
                        0,
                        old(self).rows@[i].items@.len() - 1,
                    ),
                    ..old(self).rows@[i]
                }),
            final(self).status@ == selected_text(
                filled(old(self).rows@, old(self).rows@.len() as int),
            ),
    {
        let ghost was = self.rows@;
        let mut rows: usize = 0;
        let mut i: usize = 0;
        while i < self.rows.len()
            invariant
                i <= self.rows.len(),
                self.rows@.len() == was.len(),
                was == old(self).rows@,
                self.same_but_rows(old(self)),
                self.clip == old(self).clip,
                self.next_row_id == old(self).next_row_id,
                rows == filled(was, i as int),
                rows <= i,
                forall|k: int|
                    0 <= k < i ==> #[trigger] self.rows@[k] == (Row {
                        sel: range_selection(was[k].items@, 0, was[k].items@.len() - 1),
                        ..was[k]
                    }),
                forall|k: int| i <= k < was.len() ==> self.rows@[k] == was[k],
            decreases self.rows.len() - i,
        {
            let ghost before = self.rows@;
            let n: usize = self.rows[i].items.len();
            if n == 0 {
                self.rows[i].sel = None;
            } else {
                self.rows[i].select_range(0, n - 1);
                rows = rows + 1;
            }
            assert(forall|j: int| 0 <= j < was.len() && j != i ==> self.rows@[j] == before[j]);
            i += 1;
        }
        proof {
            lemma_same_row_ids(was, self.rows@, self.next_row_id as int);
        }
        self.status = if rows == 0 {
            "Nothing to select — the rows are empty.".to_owned()
        } else {
            let mut out = "Selected everything on ".to_owned();
            push_decimal(&mut out, rows as u64);
            out.append(" row(s).");
            out
        };
    }

    /// Select nothing.
    pub fn clear_block(&mut self)
        requires
            old(self).wf(),
        ensures
            final(self).wf(),
            final(self).same_but_rows(old(self)),
            final(self).clip == old(self).clip,
            final(self).next_row_id == old(self).next_row_id,
            final(self).rows@.len() == old(self).rows@.len(),
            forall|i: int|
                0 <= i < final(self).rows@.len() ==> #[trigger] final(self).rows@[i] == (Row {
                    sel: None,
                    ..old(self).rows@[i]
                }),
            final(self).status@ == "Selection cleared."@,
    {
        let ghost was = self.rows@;
        let mut i: usize = 0;
        while i < self.rows.len()
            invariant
                i <= self.rows.len(),
                self.rows@.len() == was.len(),
                was == old(self).rows@,
                self.same_but_rows(old(self)),
                self.clip == old(self).clip,
                self.next_row_id == old(self).next_row_id,
                forall|k: int|
                    0 <= k < i ==> #[trigger] self.rows@[k] == (Row { sel: None, ..was[k] }),
                forall|k: int| i <= k < was.len() ==> self.rows@[k] == was[k],
            decreases self.rows.len() - i,
        {
            let ghost before = self.rows@;
            self.rows[i].sel = None;
            assert(forall|j: int| 0 <= j < was.len() && j != i ==> self.rows@[j] == before[j]);
            i += 1;
        }
        proof {
            lemma_same_row_ids(was, self.rows@, self.next_row_id as int);
        }
        self.status = "Selection cleared.".to_owned();
    }

    /// Take the block's stretch of time out of every row: each row's notes that
    /// begin inside the window join the block.
    pub fn span_rows(&mut self)
        requires
            old(self).wf(),
            measurable(old(self).rows@),
            total_frames(old(self).rows@, old(self).rows@.len() as int) <= usize::MAX,
        ensures
            final(self).wf(),
            final(self).same_but_rows(old(self)),
            final(self).clip == old(self).clip,
            final(self).next_row_id == old(self).next_row_id,
            final(self).rows@.len() == old(self).rows@.len(),
            match window(old(self).rows@) {
                None => final(self).rows@ == old(self).rows@ && final(self).status@ == NO_BLOCK@,
                Some((from, to)) => {
                    let n = old(self).rows@.len() as int;
                    &&& forall|i: int|
                        0 <= i < n ==> #[trigger] final(self).rows@[i] == (Row {
                            sel: spanned_selection(old(self).rows@[i], from, to),
                            ..old(self).rows@[i]
                        })
                    &&& final(self).status@ == spans_text(
                        spanned_rows(old(self).rows@, from, to, n),
                        spanned_frames(old(self).rows@, from, to, n),
                        to - from,
                    )
                },
            },
    {
        let block = match self.block() {
            Some(b) => b,
            None => {
                self.status = NO_BLOCK.to_owned();
                return ;
            },
        };
        let from: i64 = block.from;
        let to: i64 = block.to;
        let ghost was = self.rows@;
        let mut rows: usize = 0;
        let mut frames: usize = 0;
        let mut i: usize = 0;
        while i < self.rows.len()
            invariant
                i <= self.rows.len(),
                self.rows@.len() == was.len(),
                was == old(self).rows@,
                self.same_but_rows(old(self)),
                self.clip == old(self).clip,
                self.next_row_id == old(self).next_row_id,
                measurable(was),
                total_frames(was, was.len() as int) <= usize::MAX,
                rows == spanned_rows(was, from as int, to as int, i as int),
                rows <= i,
                frames == spanned_frames(was, from as int, to as int, i as int),
                frames <= total_frames(was, i as int),
                forall|k: int|
                    0 <= k < i ==> #[trigger] self.rows@[k] == (Row {
                        sel: spanned_selection(was[k], from as int, to as int),
                        ..was[k]
                    }),
                forall|k: int| i <= k < was.len() ==> self.rows@[k] == was[k],
            decreases self.rows.len() - i,
        {
            let ghost before = self.rows@;
            proof {
                assert(was[i as int].end_span() <= MAX_COUNTED);
                assert(self.rows@[i as int] == was[i as int]);
                lemma_total_frames(was, i + 1, was.len() as int);
            }
            match frames_in(&self.rows[i], from, to) {
                Some((a, b)) => {
                    self.rows[i].select_range(a, b);
                    rows = rows + 1;
                    frames = frames + (b - a + 1);
                },
                None => {
                    self.rows[i].sel = None;
                },
            }
            assert(forall|j: int| 0 <= j < was.len() && j != i ==> self.rows@[j] == before[j]);
            i += 1;
        }
        proof {
            lemma_same_row_ids(was, self.rows@, self.next_row_id as int);
        }
        let mut out = "Block spans ".to_owned();
        push_decimal(&mut out, rows as u64);
        out.append(" row(s), ");
        push_decimal(&mut out, frames as u64);
        out.append(" frame(s) — ");
        out.append(span_label(to - from).as_str());
        out.append(" of music.");
        self.status = out;
    }
}

/// Spanning takes out of every row exactly the frames that begin inside the
/// block's window.
pub proof fn law_a_span_takes_what_begins_inside(row: Row, from: int, to: int, k: int)
    requires
        from <= to,
        0 <= k < row.items@.len(),
    ensures
        begins_in(row, k, from, to) <==> (spanned(row, from, to) matches Some((a, b)) && a <= k
            <= b),
{
    lemma_spanned(row, from, to);
    lemma_first_in(row, from, to, 0);
    lemma_last_in(row, from, to, row.items@.len() as int);
    lemma_none_before(row, from, to, 0);
    if let Some((a, b)) = spanned(row, from, to) {
        if a <= k <= b {
            lemma_starts_in_order(row, a, k);
            lemma_starts_in_order(row, k, b);
            lemma_last_begins(row, from, to, row.items@.len() as int);
        }
    }
}

proof fn lemma_none_before(row: Row, from: int, to: int, k: int)
    requires
        0 <= k <= row.items@.len(),
    ensures
        forall|j: int| k <= j < first_in(row, from, to, k) ==> !#[trigger] begins_in(row, j, from, to),
    decreases row.items@.len() - k,
{
    if k < row.items@.len() && !begins_in(row, k, from, to) {
        lemma_none_before(row, from, to, k + 1);
    }
}

proof fn lemma_last_begins(row: Row, from: int, to: int, n: int)
    requires
        0 <= n <= row.items@.len(),
    ensures
        last_in(row, from, to, n) >= 0 ==> begins_in(row, last_in(row, from, to, n), from, to),
    decreases n,
{
    if n > 0 && !begins_in(row, n - 1, from, to) {
        lemma_last_begins(row, from, to, n - 1);
    }
}

proof fn lemma_starts_in_order(row: Row, a: int, b: int)
    requires
        0 <= a <= b <= row.items@.len(),
    ensures
        row.start_of(a) <= row.start_of(b),
{
    let s = row.items@.take(b);
    lemma_items_span_take(s, a);
    assert(s.take(a) =~= row.items@.take(a));
}

// ── copying and pasting ─────────────────────────────────────────────────────

/// Whether a clip's row is a row's part of the block, with the silence in front
/// of it within the window.
pub open spec fn is_part_of(c: ClipRow, row: Row, from: int) -> bool {
    &&& row.selection() matches Some((a, b)) && c.items@ == stretch(row.items@, a, b) && c.lead
        == row.start_of(a) - from
    &&& c.row_id == row.id
}

/// What is said of a copied block.
pub open spec fn copied_text(frames: int, rows: int, units: int) -> Seq<char> {
    "Copied "@ + decimal(frames as nat) + " frame(s) from "@ + decimal(rows as nat)
        + " row(s) — "@ + span_text(units) + " of music."@
}

/// The frames of a row at places `first` to `last`.
fn stretch_of(items: &Vec<Item>, first: usize, last: usize) -> (r: Vec<Item>)
    requires
        first <= last < items@.len(),
    ensures
        r@ == stretch(items@, first as int, last as int),
{
    let mut out: Vec<Item> = Vec::new();
    let mut i: usize = first;
    while i <= last
        invariant
            first <= i <= last + 1,
            last < items@.len(),
            out@ == items@.subrange(first as int, i as int),
        decreases last + 1 - i,
    {
        out.push(items[i]);
        assert(out@ =~= items@.subrange(first as int, i + 1));
        if i == last {
            assert(out@ =~= stretch(items@, first as int, last as int));
            return out;
        }
        i += 1;
    }
    out
}

pub proof fn lemma_parts_fit(rows: Seq<Row>, n: int)
    requires
        0 <= n <= rows.len(),
        rows.len() <= usize::MAX,
    ensures
        frame_count(block_rows(rows, n), block_rows(rows, n).len() as int) <= total_frames(rows, n),
    decreases n,
{
    if n > 0 {
        lemma_parts_fit(rows, n - 1);
        lemma_block_rows(rows, n);
        let before = block_rows(rows, n - 1);
        let all = block_rows(rows, n);
        if all.len() > before.len() {
            lemma_frame_prefix(before, all, before.len() as int);
            let br = all[before.len() as int];
            assert(br.first <= br.last < rows[br.idx as int].items@.len());
        }
    }
}

proof fn lemma_frame_prefix(a: Seq<BlockRow>, b: Seq<BlockRow>, n: int)
    requires
        0 <= n <= a.len(),
        n <= b.len(),
        forall|k: int| 0 <= k < n ==> a[k] == b[k],
    ensures
        frame_count(a, n) == frame_count(b, n),
    decreases n,
{
    if n > 0 {
        lemma_frame_prefix(a, b, n - 1);
    }
}

impl ComposerPanel {
    /// Hold the block for pasting, with the silence in front of each row's part
    /// of it, so that what goes back keeps the shape that was taken.
    pub fn copy_block(&mut self)
        requires
            old(self).wf(),
            measurable(old(self).rows@),
            total_frames(old(self).rows@, old(self).rows@.len() as int) <= usize::MAX,
        ensures
            final(self).wf(),
            final(self).same_but_rows(old(self)),
            final(self).rows == old(self).rows,
            final(self).next_row_id == old(self).next_row_id,
            match window(old(self).rows@) {
                None => final(self).clip == old(self).clip && final(self).status@ == NO_BLOCK@,
                Some((from, to)) => {
                    let parts = block_rows(old(self).rows@, old(self).rows@.len() as int);
                    &&& final(self).clip matches Some(c) && clip_wf(c) && clip_count(
                        c.rows@,
                        c.rows@.len() as int,
                    ) <= usize::MAX && c.window == to - from && c.rows@.len() == parts.len() && (
                    forall|k: int|
                        0 <= k < parts.len() ==> is_part_of(
                            #[trigger] c.rows@[k],
                            old(self).rows@[parts[k].idx as int],
                            from,
                        ))
                    &&& final(self).status@ == copied_text(
                        frame_count(parts, parts.len() as int),
                        parts.len() as int,
                        to - from,
                    )
                },
            },
    {
        let block = match self.block() {
            Some(b) => b,
            None => {
                self.status = NO_BLOCK.to_owned();
                return ;
            },
        };
        let n: usize = self.rows.len();
        let ghost parts = block.rows@;
        proof {
            lemma_block_rows(self.rows@, self.rows@.len() as int);
            lemma_parts_fit(self.rows@, self.rows@.len() as int);
            lemma_window(self.rows@, self.rows@.len() as int);
        }
        let mut rows: Vec<ClipRow> = Vec::new();
        let mut k: usize = 0;
        while k < block.rows.len()
            invariant
                k <= block.rows.len(),
                parts == block.rows@,
                parts == block_rows(self.rows@, self.rows@.len() as int),
                measurable(self.rows@),
                0 <= block.from <= MAX_COUNTED,
                window(self.rows@) == Some((block.from as int, block.to as int)),
                forall|j: int|
                    0 <= j < parts.len() ==> {
                        let br = #[trigger] parts[j];
                        &&& br.idx < self.rows@.len()
                        &&& self.rows@[br.idx as int].selection() == Some(
                            (br.first as int, br.last as int),
                        )
                        &&& br.first <= br.last < self.rows@[br.idx as int].items@.len()
                    },
                forall|i: int|
                    0 <= i < self.rows@.len() ==> ((
                    #[trigger] self.rows@[i]).selection() matches Some((a, b))
                        ==> block.from <= self.rows@[i].start_of(a)),
                rows@.len() == k,
                forall|j: int|
                    0 <= j < k ==> is_part_of(
                        #[trigger] rows@[j],
                        self.rows@[parts[j].idx as int],
                        block.from as int,
                    ),
                clip_count(rows@, k as int) == frame_count(parts, k as int),
            decreases block.rows.len() - k,
        {
            let br = block.rows[k];
            assert(br == parts[k as int]);
            let row = &self.rows[br.idx];
            proof {
                assert(row.end_span() <= MAX_COUNTED);
                lemma_selection(*row);
            }
            let starts = row.starts();
            assert(starts@[br.first as int] == row.start_of(br.first as int));
            let lead: i64 = starts[br.first] - block.from;
            let items = stretch_of(&row.items, br.first, br.last);
            let ghost before = rows@;
            let part = ClipRow { row_id: row.id, lead, items };
            rows.push(part);
            proof {
                lemma_clip_prefix(before, rows@, k as int);
            }
            k += 1;
        }
        let count: usize = rows.len();
        let clip = Clip { window: block.window(), rows };
        proof {
            let own = self.rows@;
            assert forall|i: int, j: int| 0 <= i < j < clip.rows@.len() implies (
            #[trigger] clip.rows@[i]).row_id != (#[trigger] clip.rows@[j]).row_id by {
                assert(is_part_of(clip.rows@[i], own[parts[i].idx as int], block.from as int));
                assert(is_part_of(clip.rows@[j], own[parts[j].idx as int], block.from as int));
                assert(parts[i].idx < parts[j].idx);
                assert(own[parts[i].idx as int].id != own[parts[j].idx as int].id);
            }
            assert forall|i: int| 0 <= i < clip.rows@.len() implies 0 <= (
            #[trigger] clip.rows@[i]).lead <= MAX_COUNTED by {
                let row = own[parts[i].idx as int];
                assert(is_part_of(clip.rows@[i], row, block.from as int));
                lemma_selection(row);
                assert(row.end_span() <= MAX_COUNTED);
                let (a, b) = row.selection()->0;
                lemma_items_span_take(stretch(row.items@, a, b), 0);
            }
        }
        let mut out = "Copied ".to_owned();
        push_decimal(&mut out, clip.frames() as u64);
        out.append(" frame(s) from ");
        push_decimal(&mut out, count as u64);
        out.append(" row(s) — ");
        out.append(span_label(clip.window).as_str());
        out.append(" of music.");
        self.status = out;
        self.clip = Some(clip);
    }
}

proof fn lemma_clip_prefix(a: Seq<ClipRow>, b: Seq<ClipRow>, n: int)
    requires
        0 <= n <= a.len(),
        n <= b.len(),
        forall|k: int| 0 <= k < n ==> a[k] == b[k],
    ensures
        clip_count(a, n) == clip_count(b, n),
    decreases n,
{
    if n > 0 {
        lemma_clip_prefix(a, b, n - 1);
    }
}

/// Where the row with an id stands, or the number of rows.
pub open spec fn row_place(rows: Seq<Row>, id: u64) -> int
    decreases rows.len(),
{
    if rows.len() == 0 || rows[0].id == id {
        0
    } else {
        1 + row_place(rows.skip(1), id)
    }
}

proof fn lemma_row_place(rows: Seq<Row>, id: u64)
    ensures
        0 <= row_place(rows, id) <= rows.len(),
        row_place(rows, id) < rows.len() ==> rows[row_place(rows, id)].id == id,
        forall|i: int| 0 <= i < row_place(rows, id) ==> (#[trigger] rows[i]).id != id,
    decreases rows.len(),
{
    if rows.len() > 0 && rows[0].id != id {
        lemma_row_place(rows.skip(1), id);
        assert forall|i: int| 0 <= i < row_place(rows, id) implies (#[trigger] rows[i]).id != id by {
            if i > 0 {
                assert(rows.skip(1)[i - 1] == rows[i]);
            }
        }
    }
}

proof fn lemma_row_place_same(a: Seq<Row>, b: Seq<Row>, id: u64)
    requires
        a.len() == b.len(),
        forall|i: int| 0 <= i < a.len() ==> (#[trigger] b[i]).id == a[i].id,
    ensures
        row_place(a, id) == row_place(b, id),
    decreases a.len(),
{
    if a.len() > 0 {
        assert(b[0].id == a[0].id);
        if a[0].id != id {
            assert forall|i: int| 0 <= i < a.skip(1).len() implies (#[trigger] b.skip(1)[i]).id
                == a.skip(1)[i].id by {
                assert(b[i + 1].id == a[i + 1].id);
            }
            lemma_row_place_same(a.skip(1), b.skip(1), id);
        }
    }
}

/// Which of the first `n` rows of a clip has frames for the row with an id, or
/// minus one.
pub open spec fn clip_for(rows: Seq<ClipRow>, id: u64, n: int) -> int
    decreases n,
{
    if n <= 0 {
        -1
    } else if rows[n - 1].row_id == id && rows[n - 1].items@.len() > 0 {
        n - 1
    } else {
        clip_for(rows, id, n - 1)
    }
}

/// Whether every row of a clip comes off another row, and its frames off a place
/// within the window.
pub open spec fn clip_wf(c: Clip) -> bool {
    &&& forall|i: int, j: int|
        0 <= i < j < c.rows@.len() ==> (#[trigger] c.rows@[i]).row_id != (
        #[trigger] c.rows@[j]).row_id
    &&& forall|i: int|
        0 <= i < c.rows@.len() ==> 0 <= (#[trigger] c.rows@[i]).lead <= MAX_COUNTED
}

/// How far behind the end of a row its part of the clip goes: the paste point is
/// the end of the longest row.
pub open spec fn pad_for(row: Row, at: int, lead: int) -> int {
    if at + lead - row.end_span() < 0 {
        0
    } else {
        at + lead - row.end_span()
    }
}

/// Whether a row is another one with its part of a clip pasted behind it.
pub open spec fn is_pasted(a: Row, b: Row, items: Seq<Item>, pad: int) -> bool {
    &&& b.items@ == pasted_items(a.items@, a.next_item_id as int, items, pad)
    &&& b.lead == pasted_lead(a.items@, a.lead, pad)
    &&& b.next_item_id == a.next_item_id + padding_frames(a.items@, pad) + items.len()
    &&& b.sel == range_selection(b.items@, b.items@.len() - items.len(), b.items@.len() - 1)
    &&& same_but_frames(a, Row { lead: a.lead, ..b })
}

/// Whether there are ids enough for a row's part of a clip.
pub open spec fn can_paste(row: Row, c: ClipRow, at: int) -> bool {
    row.next_item_id + padding_frames(row.items@, pad_for(row, at, c.lead as int))
        + c.items@.len() <= u64::MAX
}

/// Rows of a clip, of the first `n`, that have frames and find their row.
pub open spec fn landed(clip: Seq<ClipRow>, rows: Seq<Row>, n: int) -> int
    decreases n,
{
    if n <= 0 {
        0
    } else {
        let c = clip[n - 1];
        landed(clip, rows, n - 1) + if c.items@.len() > 0 && row_place(rows, c.row_id)
            < rows.len() {
            1int
        } else {
            0
        }
    }
}

/// Rows of a clip, of the first `n`, that have frames and do not.
pub open spec fn lost(clip: Seq<ClipRow>, rows: Seq<Row>, n: int) -> int
    decreases n,
{
    if n <= 0 {
        0
    } else {
        let c = clip[n - 1];
        lost(clip, rows, n - 1) + if c.items@.len() > 0 && row_place(rows, c.row_id)
            == rows.len() {
            1int
        } else {
            0
        }
    }
}

/// Frames of the rows of a clip that find their row.
pub open spec fn landed_frames(clip: Seq<ClipRow>, rows: Seq<Row>, n: int) -> int
    decreases n,
{
    if n <= 0 {
        0
    } else {
        let c = clip[n - 1];
        landed_frames(clip, rows, n - 1) + if row_place(rows, c.row_id) < rows.len() {
            c.items@.len() as int
        } else {
            0
        }
    }
}

/// What is said of a paste.
pub open spec fn pasted_text(frames: int, rows: int, gone: int) -> Seq<char> {
    let front = "Pasted "@ + decimal(frames as nat) + " frame(s) onto "@ + decimal(rows as nat);
    if gone == 0 {
        front + " row(s) at the end of the composition."@
    } else {
        front + " row(s) — "@ + decimal(gone as nat)
            + " row(s) the block was copied from are gone."@
    }
}

/// The same frames once more.
pub(crate) fn copy_items(v: &Vec<Item>) -> (r: Vec<Item>)
    ensures
        r@ == v@,
{
    let mut out: Vec<Item> = Vec::new();
    let mut i: usize = 0;
    while i < v.len()
        invariant
            i <= v.len(),
            out@ == v@.take(i as int),
        decreases v.len() - i,
    {
        out.push(v[i]);
        i += 1;
        assert(out@ =~= v@.take(i as int));
    }
    assert(out@ =~= v@);
    out
}

fn find_row(rows: &Vec<Row>, id: u64) -> (r: usize)
    ensures
        r == row_place(rows@, id),
        r <= rows@.len(),
        r < rows@.len() ==> rows@[r as int].id == id,
{
    let mut i: usize = 0;
    assert(rows@.skip(0) =~= rows@);
    while i < rows.len()
        invariant
            i <= rows.len(),
            row_place(rows@, id) == i + row_place(rows@.skip(i as int), id),
        decreases rows.len() - i,
    {
        assert(rows@.skip(i as int)[0] == rows@[i as int]);
        if rows[i].id == id {
            return i;
        }
        assert(rows@.skip(i as int).skip(1) =~= rows@.skip(i + 1));
        i += 1;
    }
    i
}

impl ComposerPanel {
    /// Put the clipboard back at the end of the composition, on the rows it came
    /// from and all of them at once. The paste point is the end of the longest
    /// row, not of each row. A row that has since been removed is reported.
    pub fn paste_block(&mut self)
        requires
            old(self).wf(),
            measurable(old(self).rows@),
            old(self).clip matches Some(c) ==> {
                &&& clip_wf(c)
                &&& clip_count(c.rows@, c.rows@.len() as int) <= usize::MAX
                &&& forall|k: int, i: int|
                    0 <= k < c.rows@.len() && 0 <= i < old(self).rows@.len() && (
                    #[trigger] c.rows@[k]).row_id == (#[trigger] old(self).rows@[i]).id
                        ==> can_paste(
                        old(self).rows@[i],
                        c.rows@[k],
                        longest(old(self).rows@, old(self).rows@.len() as int),
                    )
            },
        ensures
            final(self).wf(),
            final(self).same_but_rows(old(self)),
            final(self).clip == old(self).clip,
            final(self).next_row_id == old(self).next_row_id,
            final(self).rows@.len() == old(self).rows@.len(),
            match old(self).clip {
                None => {
                    &&& final(self).rows@ == old(self).rows@
                    &&& final(self).status@
                        == "Nothing copied yet — select a block and press Copy."@
                },
                Some(c) => {
                    let rows = old(self).rows@;
                    let n = c.rows@.len() as int;
                    let at = longest(rows, rows.len() as int);
                    &&& forall|i: int|
                        0 <= i < rows.len() ==> {
                            let k = clip_for(c.rows@, rows[i].id, n);
                            if k < 0 {
                                #[trigger] final(self).rows@[i] == rows[i]
                            } else {
                                is_pasted(
                                    rows[i],
                                    final(self).rows@[i],
                                    c.rows@[k].items@,
                                    pad_for(rows[i], at, c.rows@[k].lead as int),
                                )
                            }
                        }
                    &&& final(self).status@ == pasted_text(
                        landed_frames(c.rows@, rows, n),
                        landed(c.rows@, rows, n),
                        lost(c.rows@, rows, n),
                    )
                },
            },
    {
        if self.clip.is_none() {
            self.status = "Nothing copied yet — select a block and press Copy.".to_owned();
            return ;
        }
        let at: i64 = self.end_units();
        let ghost was = self.rows@;
        let ghost c = self.clip->0;
        let ghost n = c.rows@.len() as int;
        let mut rows: usize = 0;
        let mut frames: usize = 0;
        let mut gone: usize = 0;
        let count: usize = match &self.clip {
            Some(clip) => clip.rows.len(),
            None => 0,
        };
        let mut k: usize = 0;
        while k < count
            invariant
                k <= count,
                count == n,
                n == c.rows@.len(),
                self.clip == Some(c),
                old(self).clip == Some(c),
                was == old(self).rows@,
                self.rows@.len() == was.len(),
                self.same_but_rows(old(self)),
                self.next_row_id == old(self).next_row_id,
                measurable(was),
                at == longest(was, was.len() as int),
                0 <= at <= MAX_COUNTED,
                own_row_ids(was, self.next_row_id as int),
                own_row_ids(self.rows@, self.next_row_id as int),
                clip_wf(c),
                clip_count(c.rows@, n) <= usize::MAX,
                forall|k: int, i: int|
                    0 <= k < c.rows@.len() && 0 <= i < was.len() && (#[trigger] c.rows@[k]).row_id
                        == (#[trigger] was[i]).id ==> can_paste(was[i], c.rows@[k], at as int),
                rows == landed(c.rows@, was, k as int),
                gone == lost(c.rows@, was, k as int),
                rows + gone <= k,
                frames == landed_frames(c.rows@, was, k as int),
                frames <= clip_count(c.rows@, k as int),
                forall|i: int| 0 <= i < was.len() ==> (#[trigger] self.rows@[i]).id == was[i].id,
                forall|i: int|
                    0 <= i < was.len() ==> {
                        let j = clip_for(c.rows@, was[i].id, k as int);
                        if j < 0 {
                            #[trigger] self.rows@[i] == was[i]
                        } else {
                            is_pasted(
                                was[i],
                                self.rows@[i],
                                c.rows@[j].items@,
                                pad_for(was[i], at as int, c.rows@[j].lead as int),
                            )
                        }
                    },
            decreases count - k,
        {
            let (row_id, lead, items) = match &self.clip {
                Some(clip) => {
                    let crow = &clip.rows[k];
                    (crow.row_id, crow.lead, copy_items(&crow.items))
                },
                None => (0, 0, Vec::new()),
            };
            let ghost before = self.rows@;
            let ghost ck = c.rows@[k as int];
            proof {
                assert(row_id == ck.row_id && lead == ck.lead && items@ == ck.items@);
                lemma_clip_count(c.rows@, k + 1, n);
                assert(0 <= ck.lead <= MAX_COUNTED);
                lemma_row_place_same(was, before, row_id);
                lemma_row_place(was, row_id);
                lemma_other_clips(c.rows@, row_id, k as int);
            }
            let i: usize = find_row(&self.rows, row_id);
            if items.len() > 0 {
                if i < self.rows.len() {
                    proof {
                        assert(was[i as int].id == row_id);
                        assert(clip_for(c.rows@, was[i as int].id, k as int) < 0);
                        assert(self.rows@[i as int] == was[i as int]);
                        assert(was[i as int].end_span() <= MAX_COUNTED);
                        lemma_longest(was, was.len() as int);
                        assert(can_paste(was[i as int], ck, at as int));
                    }
                    let end: i64 = self.rows[i].end_units();
                    let pad: i64 = if at + lead - end < 0 {
                        0
                    } else {
                        at + lead - end
                    };
                    assert(pad == pad_for(was[i as int], at as int, lead as int));
                    self.rows[i].paste_frames(&items, pad);
                    rows = rows + 1;
                    frames = frames + items.len();
                    proof {
                        assert(is_pasted(
                            was[i as int],
                            self.rows@[i as int],
                            ck.items@,
                            pad as int,
                        ));
                        assert forall|j: int| 0 <= j < was.len() implies (
                        #[trigger] self.rows@[j]).id == was[j].id by {
                            if j != i {
                                assert(self.rows@[j] == before[j]);
                            }
                        }
                        assert forall|j: int| 0 <= j < was.len() implies (
                        #[trigger] self.rows@[j]).id == before[j].id && (before[j].ids_unique()
                            ==> self.rows@[j].ids_unique()) by {
                            if j != i {
                                assert(self.rows@[j] == before[j]);
                            }
                        }
                        lemma_same_row_ids(before, self.rows@, self.next_row_id as int);
                    }
                } else {
                    gone = gone + 1;
                }
            }
            proof {
                assert forall|j: int| 0 <= j < was.len() implies {
                    let q = clip_for(c.rows@, was[j].id, k + 1);
                    if q < 0 {
                        #[trigger] self.rows@[j] == was[j]
                    } else {
                        is_pasted(
                            was[j],
                            self.rows@[j],
                            c.rows@[q].items@,
                            pad_for(was[j], at as int, c.rows@[q].lead as int),
                        )
                    }
                } by {
                    if j != i {
                        assert(self.rows@[j] == before[j]);
                        if was[j].id == row_id && items@.len() > 0 {
                            if i < was.len() {
                                assert(was[i as int].id != was[j].id);
                            }
                        }
                    }
                }
            }
            k += 1;
        }
        let mut out = "Pasted ".to_owned();
        push_decimal(&mut out, frames as u64);
        out.append(" frame(s) onto ");
        push_decimal(&mut out, rows as u64);
        if gone == 0 {
            out.append(" row(s) at the end of the composition.");
        } else {
            out.append(" row(s) — ");
            push_decimal(&mut out, gone as u64);
            out.append(" row(s) the block was copied from are gone.");
        }
        self.status = out;
    }
}

/// No row of a clip ahead of one with an id has the same id.
proof fn lemma_other_clips(rows: Seq<ClipRow>, id: u64, k: int)
    requires
        0 <= k < rows.len(),
        rows[k].row_id == id,
        forall|i: int, j: int|
            0 <= i < j < rows.len() ==> (#[trigger] rows[i]).row_id != (#[trigger] rows[j]).row_id,
    ensures
        clip_for(rows, id, k) < 0,
{
    lemma_clip_none(rows, id, k, k);
}

proof fn lemma_clip_none(rows: Seq<ClipRow>, id: u64, k: int, n: int)
    requires
        0 <= n <= k < rows.len(),
        rows[k].row_id == id,
        forall|i: int, j: int|
            0 <= i < j < rows.len() ==> (#[trigger] rows[i]).row_id != (#[trigger] rows[j]).row_id,
    ensures
        clip_for(rows, id, n) < 0,
    decreases n,
{
    if n > 0 {
        assert(rows[n - 1].row_id != rows[k].row_id);
        lemma_clip_none(rows, id, k, n - 1);
    }
}

/// A pasted block lands at the end of the composition on every row at once: each
/// of its frames is as far behind the paste point as it was behind the start of
/// the window it was copied from.
pub proof fn law_a_paste_lands_on_every_row_at_once(a: Row, b: Row, c: ClipRow, at: int, i: int)
    requires
        is_pasted(a, b, c.items@, pad_for(a, at, c.lead as int)),
        a.end_span() <= at,
        c.lead >= 0,
        0 <= i < c.items@.len(),
    ensures
        ({
            let p = b.items@.len() - c.items@.len() + i;
            &&& 0 <= p < b.items@.len()
            &&& same_note(b.items@[p], c.items@[i])
            &&& b.start_of(p) == at + c.lead + items_span(c.items@.take(i))
        }),
{
    let pad = pad_for(a, at, c.lead as int);
    law_a_paste_lands_behind_the_row(
        a.items@,
        a.lead,
        a.next_item_id as int,
        c.items@,
        pad,
        i,
    );
    assert(ends_at(a.items@, a.lead) == a.end_span());
}

// ── cloning ─────────────────────────────────────────────────────────────────

/// What separates one copy from the next on a row: what it leaves at the start
/// of the window and what it leaves at the end.
pub open spec fn gap_on(row: Row, from: int, to: int) -> int {
    match row.selection() {
        Some((a, b)) => (row.start_of(a) - from) + (to - row.start_of(b + 1)),
        None => 0,
    }
}

/// Whether a row is another one with its part of the block repeated.
pub open spec fn is_cloned(a: Row, b: Row, from: int, to: int, times: int) -> bool {
    match a.selection() {
        None => b == a,
        Some((x, y)) => {
            let gap = gap_on(a, from, to);
            let more = ids_for_copies(stretch(a.items@, x, y), gap, times);
            &&& b.items@ == repeated_items(
                a.items@,
                a.next_item_id as int,
                x,
                y,
                gap,
                times as nat,
            )
            &&& b.next_item_id == a.next_item_id + more
            &&& b.sel == range_selection(b.items@, x + more, y + more)
            &&& same_but_frames(a, b)
            &&& a.ids_unique() ==> b.ids_unique()
        },
    }
}

/// Whether there are ids enough for the copies on every row of the block.
pub open spec fn can_clone(rows: Seq<Row>, from: int, to: int, times: int) -> bool {
    forall|i: int|
        0 <= i < rows.len() ==> ((#[trigger] rows[i]).selection() matches Some((x, y))
            ==> rows[i].next_item_id + ids_for_copies(
            stretch(rows[i].items@, x, y),
            gap_on(rows[i], from, to),
            times,
        ) <= u64::MAX)
}

/// What is said of a clone.
pub open spec fn cloned_text(frames: int, rows: int, times: int, units: int) -> Seq<char> {
    "Cloned "@ + decimal(frames as nat) + " frame(s) on "@ + decimal(rows as nat) + " row(s), ×"@
        + decimal(times as nat) + " — "@ + span_text(units) + " of music each time."@
}

impl ComposerPanel {
    /// Repeat the block `times` over, in place: each copy lands directly behind
    /// the one before it, on every row at once, and whatever followed moves
    /// along by exactly as much on every row. The selection moves onto the last
    /// copy made.
    pub fn clone_block(&mut self, times: u8)
        requires
            old(self).wf(),
            measurable(old(self).rows@),
            total_frames(old(self).rows@, old(self).rows@.len() as int) <= usize::MAX,
            window(old(self).rows@) matches Some((from, to)) ==> can_clone(
                old(self).rows@,
                from,
                to,
                times as int,
            ),
        ensures
            final(self).wf(),
            final(self).same_but_rows(old(self)),
            final(self).clip == old(self).clip,
            final(self).next_row_id == old(self).next_row_id,
            final(self).rows@.len() == old(self).rows@.len(),
            match window(old(self).rows@) {
                None => final(self).rows@ == old(self).rows@ && final(self).status@ == NO_BLOCK@,
                Some((from, to)) => if times == 0 {
                    *final(self) == *old(self)
                } else {
                    let n = old(self).rows@.len() as int;
                    let parts = block_rows(old(self).rows@, n);
                    &&& forall|i: int|
                        0 <= i < n ==> is_cloned(
                            old(self).rows@[i],
                            #[trigger] final(self).rows@[i],
                            from,
                            to,
                            times as int,
                        )
                    &&& final(self).status@ == cloned_text(
                        frame_count(parts, parts.len() as int),
                        parts.len() as int,
                        times as int,
                        to - from,
                    )
                },
            },
    {
        let block = match self.block() {
            Some(b) => b,
            None => {
                self.status = NO_BLOCK.to_owned();
                return ;
            },
        };
        // The select box never offers it, and a repeat of nothing is nothing.
        if times == 0 {
            return ;
        }
        let count: usize = self.rows.len();
        let ghost was = self.rows@;
        let ghost parts = block.rows@;
        let ghost from = block.from as int;
        let ghost to = block.to as int;
        proof {
            lemma_block_rows(was, was.len() as int);
            lemma_parts_fit(was, was.len() as int);
            lemma_window(was, was.len() as int);
        }
        let span: i64 = block.window();
        let frames: usize = block.frames();
        let rows: usize = block.rows.len();
        let mut k: usize = 0;
        while k < block.rows.len()
            invariant
                k <= block.rows.len(),
                parts == block.rows@,
                was == old(self).rows@,
                parts == block_rows(was, was.len() as int),
                self.rows@.len() == was.len(),
                self.same_but_rows(old(self)),
                self.clip == old(self).clip,
                self.next_row_id == old(self).next_row_id,
                measurable(was),
                times > 0,
                from == block.from,
                to == block.to,
                0 <= from <= to <= MAX_COUNTED,
                can_clone(was, from, to, times as int),
                forall|j: int|
                    0 <= j < parts.len() ==> {
                        let br = #[trigger] parts[j];
                        &&& br.idx < was.len()
                        &&& was[br.idx as int].selection() == Some(
                            (br.first as int, br.last as int),
                        )
                        &&& br.first <= br.last < was[br.idx as int].items@.len()
                    },
                forall|i: int, j: int|
                    0 <= i < j < parts.len() ==> (#[trigger] parts[i]).idx < (
                    #[trigger] parts[j]).idx,
                forall|i: int|
                    0 <= i < was.len() ==> ((#[trigger] was[i]).selection() matches Some((a, b))
                        ==> from <= was[i].start_of(a) && was[i].start_of(b + 1) <= to),
                forall|i: int|
                    0 <= i < was.len() && (k >= parts.len() || i < parts[k as int].idx) && was[i].selection() is Some
                        ==> is_cloned(was[i], #[trigger] self.rows@[i], from, to, times as int),
                forall|i: int|
                    0 <= i < was.len() && ((k < parts.len() && i >= parts[k as int].idx)
                        || was[i].selection() is None) ==> #[trigger] self.rows@[i] == was[i],
                forall|i: int|
                    0 <= i < was.len() && (#[trigger] was[i]).selection() is Some ==> exists|j: int|
                        0 <= j < parts.len() && #[trigger] parts[j].idx == i,
            decreases block.rows.len() - k,
        {
            let br = block.rows[k];
            let ghost i0 = br.idx as int;
            let ghost before = self.rows@;
            assert(br == parts[k as int]);
            assert(self.rows@[i0] == was[i0]);
            let ghost row = was[i0];
            proof {
                assert(row.end_span() <= MAX_COUNTED);
                lemma_selection(row);
                lemma_items_span_step(row.items@, br.last as int);
            }
            let starts = self.rows[br.idx].starts();
            assert(starts@[br.first as int] == row.start_of(br.first as int));
            assert(starts@[br.last as int] == row.start_of(br.last as int));
            let lead: i64 = starts[br.first] - block.from;
            let end: i64 = starts[br.last] + self.rows[br.idx].items[br.last].total_units();
            proof {
                assert(end == row.start_of(br.last + 1));
                assert(was[i0].selection() == Some((br.first as int, br.last as int)));
                assert(from <= row.start_of(br.first as int) <= end <= to) by {
                    lemma_items_span_take(stretch(row.items@, br.first as int, br.last as int), 0);
                }
            }
            let tail: i64 = block.to - end;
            let gap: i64 = lead + tail;
            assert(gap == gap_on(row, from, to));
            self.rows[br.idx].repeat_frames(br.first, br.last, gap, times);
            proof {
                let now = self.rows@[i0];
                let more = ids_for_copies(
                    stretch(row.items@, br.first as int, br.last as int),
                    gap as int,
                    times as int,
                );
                assert(br.last + 1 + more - (br.last - br.first + 1) == br.first + more);
                assert(is_cloned(row, now, from, to, times as int));
                assert forall|i: int|
                    0 <= i < was.len() && (k + 1 >= parts.len() || i < parts[k + 1].idx)
                        && was[i].selection() is Some implies is_cloned(
                    was[i],
                    #[trigger] self.rows@[i],
                    from,
                    to,
                    times as int,
                ) by {
                    let j = choose|j: int| 0 <= j < parts.len() && #[trigger] parts[j].idx == i;
                    if j > k {
                        if k + 1 < parts.len() && j > k + 1 {
                            assert(parts[k + 1].idx < parts[j].idx);
                        }
                    } else if j < k {
                        assert(parts[j].idx < parts[k as int].idx);
                        assert(self.rows@[i] == before[i]);
                    }
                }
                assert forall|i: int|
                    0 <= i < was.len() && ((k + 1 < parts.len() && i >= parts[k + 1].idx)
                        || was[i].selection() is None) implies #[trigger] self.rows@[i]
                    == was[i] by {
                    if k + 1 < parts.len() {
                        assert(parts[k as int].idx < parts[k + 1].idx);
                    }
                    assert(i != i0);
                    assert(self.rows@[i] == before[i]);
                }
            }
            k += 1;
        }
        proof {
            assert forall|i: int| 0 <= i < was.len() implies is_cloned(
                was[i],
                #[trigger] self.rows@[i],
                from,
                to,
                times as int,
            ) by {
                if was[i].selection() is None {
                    assert(self.rows@[i] == was[i]);
                }
            }
            lemma_same_row_ids(was, self.rows@, self.next_row_id as int);
        }
        let mut out = "Cloned ".to_owned();
        push_decimal(&mut out, frames as u64);
        out.append(" frame(s) on ");
        push_decimal(&mut out, rows as u64);
        out.append(" row(s), ×");
        push_decimal(&mut out, times as u64);
        out.append(" — ");
        out.append(span_label(span).as_str());
        out.append(" of music each time.");
        self.status = out;
    }
}

/// Where a row's part of the block stands once it has been cloned, and when.
proof fn lemma_cloned_selection(a: Row, b: Row, from: int, to: int, times: int)
    requires
        a.ids_unique(),
        is_cloned(a, b, from, to, times),
        times >= 1,
        a.selection() is Some,
        from <= to,
        gap_on(a, from, to) >= 0,
    ensures
        ({
            let (x, y) = a.selection()->0;
            let w = to - from;
            &&& b.selection() matches Some((p, q)) && b.start_of(p) == a.start_of(x) + times * w
                && b.start_of(q + 1) == a.start_of(y + 1) + times * w
        }),
{
    let (x, y) = a.selection()->0;
    lemma_selection(a);
    let gap = gap_on(a, from, to);
    let src = stretch(a.items@, x, y);
    let w = to - from;
    assert(gap + items_span(src) == w);
    let more = ids_for_copies(src, gap, times);
    law_a_repeat_moves_on_by_whole_stretches(
        a.items@,
        a.next_item_id as int,
        x,
        y,
        gap,
        times as nat,
    );
    let r = b.items@;
    let s = a.items@;
    let p = x + more;
    let q = y + more;
    let head = s.take(y + 1);
    let place = super::block::copy_place(head, src, gap, times, 0);
    let e = super::block::gap_into(src.last().space, gap).1.len();
    assert(more == times * (e + src.len()));
    assert((times - 1) * (e + src.len()) + (e + src.len()) == times * (e + src.len()))
        by (nonlinear_arith);
    assert(place == p);
    assert(items_span(r.take(p)) == items_span(s.take(x + 0)) + times * w);
    assert(items_span(r.take(y + 1 + more)) == items_span(s.take(y + 1)) + times * w);
    assert(more >= 0) by (nonlinear_arith)
        requires
            more == times * (e + src.len()),
            times >= 1,
    ;
    assert(r.len() == s.len() + more);
    assert(b.sel == Some((r[p].id, r[q].id)));
    lemma_place_unique(r, b.next_item_id as int, p);
    lemma_place_unique(r, b.next_item_id as int, q);
}

proof fn lemma_place_unique(s: Seq<Item>, next: int, p: int)
    requires
        ids_below(s, next),
        0 <= p < s.len(),
    ensures
        place_of(s, s[p].id) == p,
{
    assert forall|k: int| 0 <= k < p implies (#[trigger] s[k]).id != s[p].id by {}
    lemma_place_of_is(s, s[p].id, p);
}

proof fn lemma_cloned_window(a: Seq<Row>, b: Seq<Row>, from: int, to: int, times: int, n: int)
    requires
        0 <= n <= a.len(),
        a.len() == b.len(),
        times >= 1,
        from <= to,
        forall|i: int| 0 <= i < a.len() ==> (#[trigger] a[i]).ids_unique(),
        forall|i: int|
            0 <= i < a.len() ==> is_cloned(a[i], #[trigger] b[i], from, to, times),
        forall|i: int|
            0 <= i < a.len() && (#[trigger] a[i]).selection() is Some ==> gap_on(a[i], from, to)
                >= 0,
    ensures
        window_of(b, n) == (match window_of(a, n) {
            Some((f, t)) => Some((f + times * (to - from), t + times * (to - from))),
            None => None,
        }),
    decreases n,
{
    if n > 0 {
        lemma_cloned_window(a, b, from, to, times, n - 1);
        assert(is_cloned(a[n - 1], b[n - 1], from, to, times));
        if a[n - 1].selection() is Some {
            assert(gap_on(a[n - 1], from, to) >= 0);
            lemma_cloned_selection(a[n - 1], b[n - 1], from, to, times);
        }
    }
}

/// Cloning moves every row of the block on by the same stretch of time: the
/// block's window, as many times as it was cloned. What is selected afterwards
/// measures exactly what it measured before, so cloning the clone repeats the
/// repeat.
pub proof fn law_a_clone_moves_the_block_on_by_its_window(a: Seq<Row>, b: Seq<Row>, times: int)
    requires
        measurable(a),
        a.len() == b.len(),
        times >= 1,
        forall|i: int| 0 <= i < a.len() ==> (#[trigger] a[i]).ids_unique(),
        window(a) is Some,
        forall|i: int|
            0 <= i < a.len() ==> is_cloned(
                a[i],
                #[trigger] b[i],
                (window(a)->0).0,
                (window(a)->0).1,
                times,
            ),
    ensures
        ({
            let (f, t) = window(a)->0;
            window(b) == Some((f + times * (t - f), t + times * (t - f)))
        }),
{
    let (f, t) = window(a)->0;
    lemma_window(a, a.len() as int);
    assert forall|i: int| 0 <= i < a.len() && (#[trigger] a[i]).selection() is Some implies gap_on(
        a[i],
        f,
        t,
    ) >= 0 by {
        lemma_selection(a[i]);
    }
    lemma_cloned_window(a, b, f, t, times, a.len() as int);
}

/// Every copy of a frame of the block starts whole windows behind the frame it
/// repeats, on whatever row it stands, and what followed the block on a row
/// starts as many windows later.
pub proof fn law_a_clone_keeps_the_rows_in_step(
    rows: Seq<Row>,
    b: Row,
    times: int,
    i: int,
    c: int,
    j: int,
)
    requires
        measurable(rows),
        0 <= i < rows.len(),
        window(rows) is Some,
        rows[i].selection() is Some,
        is_cloned(rows[i], b, (window(rows)->0).0, (window(rows)->0).1, times),
        1 <= c <= times,
        0 <= j <= (rows[i].selection()->0).1 - (rows[i].selection()->0).0,
    ensures
        ({
            let (f, t) = window(rows)->0;
            let (x, y) = rows[i].selection()->0;
            &&& exists|p: int|
                0 <= p < b.items@.len() && same_note(#[trigger] b.items@[p], rows[i].items@[x + j])
                    && b.start_of(p) == rows[i].start_of(x + j) + c * (t - f)
            &&& b.end_span() == rows[i].end_span() + times * (t - f)
        }),
{
    let (f, t) = window(rows)->0;
    let row = rows[i];
    let (x, y) = row.selection()->0;
    lemma_window(rows, rows.len() as int);
    lemma_selection(row);
    let gap = gap_on(row, f, t);
    let src = stretch(row.items@, x, y);
    law_a_repeat_moves_on_by_whole_stretches(
        row.items@,
        row.next_item_id as int,
        x,
        y,
        gap,
        times as nat,
    );
    assert(gap + items_span(src) == t - f);
    let p = super::block::copy_place(row.items@.take(y + 1), src, gap, c, j);
    assert(same_note(b.items@[p], row.items@[x + j]));
    assert(b.start_of(p) == row.start_of(x + j) + c * (t - f));
    lemma_items_span_take(row.items@, 0);
}

/// A block takes in every row that has something selected and no other, in order:
/// `at` is the row of each part, which says what of it is selected.
pub proof fn law_a_block_takes_every_row_with_a_selection(rows: Seq<Row>, n: int) -> (at: Seq<int>)
    requires
        0 <= n <= rows.len() <= usize::MAX,
        forall|i: int| 0 <= i < rows.len() ==> (#[trigger] rows[i]).items@.len() <= usize::MAX,
    ensures
        at.len() == block_rows(rows, n).len(),
        forall|j: int, k: int| 0 <= j < k < at.len() ==> #[trigger] at[j] < #[trigger] at[k],
        forall|i: int|
            0 <= i < n && (#[trigger] rows[i]).selection() is Some ==> at.contains(i),
        forall|k: int|
            0 <= k < at.len() ==> {
                let b = block_rows(rows, n)[k];
                &&& 0 <= #[trigger] at[k] < n
                &&& b.idx == at[k]
                &&& rows[at[k]].selection() == Some((b.first as int, b.last as int))
            },
    decreases n,
{
    if n <= 0 {
        Seq::empty()
    } else {
        let before = law_a_block_takes_every_row_with_a_selection(rows, n - 1);
        let row = rows[n - 1];
        let at = if row.selection() is Some {
            before.push(n - 1)
        } else {
            before
        };
        if let Some((a, b)) = row.sel {
            super::row::lemma_place_of(row.items@, a);
            super::row::lemma_place_of(row.items@, b);
        }
        assert forall|i: int| 0 <= i < n && (
        #[trigger] rows[i]).selection() is Some implies at.contains(i) by {
            if i < n - 1 {
                assert(before.contains(i));
                let k = choose|k: int| 0 <= k < before.len() && before[k] == i;
                assert(at[k] == i);
            } else {
                assert(at[before.len() as int] == i);
            }
        }
        assert forall|k: int| 0 <= k < at.len() implies {
            let b = block_rows(rows, n)[k];
            &&& 0 <= #[trigger] at[k] < n
            &&& b.idx == at[k]
            &&& rows[at[k]].selection() == Some((b.first as int, b.last as int))
        } by {
            if k < before.len() {
                assert(before[k] == at[k]);
                assert(block_rows(rows, n)[k] == block_rows(rows, n - 1)[k]);
            }
        }
        at
    }
}

/// A block's window opens where the earliest frame selected on any row starts and
/// closes where the last of them ends. There is none only where nothing is selected.
pub proof fn law_a_window_takes_in_all_that_is_selected(rows: Seq<Row>, n: int)
    requires
        0 <= n <= rows.len(),
    ensures
        window_of(rows, n) is None <==> forall|i: int|
            0 <= i < n ==> (#[trigger] rows[i]).selection() is None,
        window_of(rows, n) matches Some((f, t)) ==> {
            &&& forall|i: int|
                0 <= i < n && (#[trigger] rows[i]).selection() is Some ==> f <= rows[i].start_of(
                    (rows[i].selection()->0).0,
                ) && rows[i].start_of((rows[i].selection()->0).1 + 1) <= t
            &&& exists|i: int|
                0 <= i < n && (#[trigger] rows[i]).selection() is Some && f == rows[i].start_of(
                    (rows[i].selection()->0).0,
                )
            &&& exists|i: int|
                0 <= i < n && (#[trigger] rows[i]).selection() is Some && t == rows[i].start_of(
                    (rows[i].selection()->0).1 + 1,
                )
        },
    decreases n,
{
    if n > 0 {
        law_a_window_takes_in_all_that_is_selected(rows, n - 1);
        let row = rows[n - 1];
        if window_of(rows, n) is Some {
            let (f, t) = window_of(rows, n)->0;
            if row.selection() is Some && f == row.start_of((row.selection()->0).0) {
                assert(rows[n - 1].selection() is Some);
            } else {
                let i = choose|i: int|
                    0 <= i < n - 1 && (#[trigger] rows[i]).selection() is Some
                        && f == rows[i].start_of((rows[i].selection()->0).0);
                assert(rows[i].selection() is Some);
            }
            if row.selection() is Some && t == row.start_of((row.selection()->0).1 + 1) {
                assert(rows[n - 1].selection() is Some);
            } else {
                let i = choose|i: int|
                    0 <= i < n - 1 && (#[trigger] rows[i]).selection() is Some
                        && t == rows[i].start_of((rows[i].selection()->0).1 + 1);
                assert(rows[i].selection() is Some);
            }
        } else {
            assert(rows[n - 1].selection() is None);
        }
    }
}

/// A composition is as long as its longest row.
pub proof fn law_a_composition_is_as_long_as_its_longest_row(rows: Seq<Row>, n: int)
    requires
        0 <= n <= rows.len(),
    ensures
        longest(rows, n) >= 0,
        forall|i: int| 0 <= i < n ==> (#[trigger] rows[i]).end_span() <= longest(rows, n),
        longest(rows, n) > 0 ==> exists|i: int|
            0 <= i < n && (#[trigger] rows[i]).end_span() == longest(rows, n),
    decreases n,
{
    if n > 0 {
        law_a_composition_is_as_long_as_its_longest_row(rows, n - 1);
        if rows[n - 1].end_span() > longest(rows, n - 1) {
            assert(rows[n - 1].end_span() == longest(rows, n));
        }
    }
}

/// A row whose track is gone plays the first track there is, or none; a row whose
/// track is there keeps it, and so does one that waits for a source that is missing.
pub proof fn law_a_row_without_its_track_plays_the_first(registry: TrackRegistry, row: Row)
    ensures
        row.missing is Some ==> reconciled(registry, row) == row.track_id,
        forall|k: int|
            0 <= k < registry@.len() && row.track_id == Some((#[trigger] registry@[k]).id)
                ==> reconciled(registry, row) == row.track_id,
        row.missing is None && (forall|k: int|
            0 <= k < registry@.len() ==> row.track_id != Some((#[trigger] registry@[k]).id))
            ==> reconciled(registry, row) == (if registry@.len() > 0 {
            Some(registry@[0].id)
        } else {
            None
        }),
        registry@.len() > 0 ==> first_track(registry) == Some(registry@[0].id),
        registry@.len() == 0 ==> first_track(registry) is None,
{
    if let Some(id) = row.track_id {
        crate::registry::law_a_track_is_found_by_its_id(registry@, id);
    }
}

/// Reconciling gives rows and takes new tracks where theirs are gone, and changes
/// nothing else.
pub proof fn law_what_reconciling_changes(
    was: ComposerPanel,
    now: ComposerPanel,
    registry: TrackRegistry,
)
    requires
        is_reconciled(was, now, registry),
    ensures
        now.rows@.len() == was.rows@.len(),
        forall|i: int|
            0 <= i < now.rows@.len() ==> #[trigger] now.rows@[i] == (Row {
                track_id: now.rows@[i].track_id,
                ..was.rows@[i]
            }) && now.rows@[i].track_id == reconciled(registry, was.rows@[i]),
        is_valid(registry, was.record_track) ==> now.record_track == was.record_track,
        !is_valid(registry, was.record_track) ==> now.record_track == first_track(registry),
        now.clip == was.clip && now.next_row_id == was.next_row_id && now.status == was.status
            && now.tempo_bpm == was.tempo_bpm && now.playing == was.playing && now.recording
            == was.recording && now.live_sent == was.live_sent,
{
}

/// What panels have alike that are the same but for their rows.
pub proof fn law_what_is_the_same_but_for_the_rows(a: ComposerPanel, b: ComposerPanel)
    requires
        a.same_but_rows(&b),
    ensures
        a.tempo_bpm == b.tempo_bpm && a.project_name == b.project_name && a.project_dir
            == b.project_dir && a.request == b.request,
        a.playing == b.playing && a.preparing == b.preparing && a.repeat == b.repeat && a.live_sent
            == b.live_sent && a.exporting == b.exporting,
        a.recording == b.recording && a.round_units == b.round_units && a.record_track
            == b.record_track && a.clone_times == b.clone_times,
{
}

/// A new row is empty, at full level, without a lead, saved and scrolled along.
pub proof fn law_what_a_new_row_is(row: Row)
    requires
        is_new_row(row),
    ensures
        row.gain == 0x3f80_0000 && row.lead.span() == 0 && row.autosave && row.autoscroll,
        row.missing is None && row.items@.len() == 0 && row.next_item_id == 0 && row.sel is None,
{
}

/// A frame is in a span exactly when it starts within it: at its start or later, and
/// before its end. The selection that is made takes in those frames.
pub proof fn law_a_span_selects_what_starts_within(row: Row, from: int, to: int, k: int)
    requires
        from <= to,
        0 <= k < row.items@.len(),
        row.ids_unique(),
    ensures
        from <= row.start_of(k) < to <==> (selected(
            row.items@,
            spanned_selection(row, from, to),
        ) matches Some((a, b)) && a <= k <= b),
{
    law_a_span_takes_what_begins_inside(row, from, to, k);
    if let Some((a, b)) = spanned(row, from, to) {
        lemma_spanned(row, from, to);
        super::row::law_a_stretch_is_selected_whole(row.items@, row.next_item_id as int, a, b);
    }
}

/// What is copied off a row is every frame selected on it, in order, as it is, with
/// how far behind the window's start the first of them starts.
pub proof fn law_a_copy_has_what_is_selected(c: ClipRow, row: Row, from: int)
    requires
        is_part_of(c, row, from),
    ensures
        c.row_id == row.id,
        row.selection() is Some,
        ({
            let (a, b) = row.selection()->0;
            &&& c.lead == row.start_of(a) - from
            &&& 0 <= a <= b < row.items@.len()
            &&& c.items@.len() == b - a + 1
            &&& forall|j: int| 0 <= j <= b - a ==> #[trigger] c.items@[j] == row.items@[a + j]
        }),
{
    if let Some((a, b)) = row.sel {
        super::row::lemma_place_of(row.items@, a);
        super::row::lemma_place_of(row.items@, b);
    }
}

/// A row is found by its id, and is not there only where no row has it.
pub proof fn law_a_row_is_found_by_its_id(rows: Seq<Row>, id: u64)
    ensures
        0 <= row_place(rows, id) <= rows.len(),
        row_place(rows, id) < rows.len() ==> rows[row_place(rows, id)].id == id,
        forall|k: int|
            0 <= k < rows.len() && (#[trigger] rows[k]).id == id ==> row_place(rows, id) <= k,
    decreases rows.len(),
{
    if rows.len() > 0 && rows[0].id != id {
        let rest = rows.skip(1);
        law_a_row_is_found_by_its_id(rest, id);
        assert forall|k: int| 0 <= k < rows.len() && (
        #[trigger] rows[k]).id == id implies row_place(rows, id) <= k by {
            if k > 0 {
                assert(rest[k - 1] == rows[k]);
            }
        }
    }
}

/// What is pasted onto a row is what was copied off it; nothing is pasted only where
/// nothing was.
pub proof fn law_a_clip_goes_back_on_its_row(clip: Seq<ClipRow>, id: u64, n: int)
    requires
        0 <= n <= clip.len(),
    ensures
        -1 <= clip_for(clip, id, n) < n,
        clip_for(clip, id, n) >= 0 ==> clip[clip_for(clip, id, n)].row_id == id && clip[clip_for(
            clip,
            id,
            n,
        )].items@.len() > 0,
        forall|k: int|
            0 <= k < n && (#[trigger] clip[k]).row_id == id && clip[k].items@.len() > 0 ==> k
                <= clip_for(clip, id, n),
    decreases n,
{
    if n > 0 {
        law_a_clip_goes_back_on_its_row(clip, id, n - 1);
    }
}

/// A row is padded up to where the paste lands, and never shortened.
pub proof fn law_a_row_is_padded_up_to_the_paste(row: Row, at: int, lead: int)
    ensures
        pad_for(row, at, lead) >= 0,
        at + lead >= row.end_span() ==> row.end_span() + pad_for(row, at, lead) == at + lead,
        at + lead < row.end_span() ==> pad_for(row, at, lead) == 0,
{
}

/// A paste selects what it pasted, and leaves the row its id, track and level.
pub proof fn law_a_paste_selects_what_it_pasted(a: Row, b: Row, items: Seq<Item>, pad: int)
    requires
        is_pasted(a, b, items, pad),
        items.len() > 0,
        pad >= 0,
        ids_below(b.items@, b.next_item_id as int),
    ensures
        b.selection() == Some((b.items@.len() - items.len(), b.items@.len() - 1)),
        b.id == a.id && b.track_id == a.track_id && b.gain == a.gain && b.autosave == a.autosave
            && b.autoscroll == a.autoscroll && b.missing == a.missing,
        a.items@.len() > 0 ==> b.lead == a.lead,
{
    super::block::law_a_paste_lands_behind_the_row(
        a.items@,
        a.lead,
        a.next_item_id as int,
        items,
        pad,
        0,
    );
    super::row::law_a_stretch_is_selected_whole(
        b.items@,
        b.next_item_id as int,
        b.items@.len() - items.len(),
        b.items@.len() - 1,
    );
}

/// A row with nothing selected is left alone by a clone. One with a selection keeps
/// its id, track, level and lead, and its last copy is what is selected on it after.
pub proof fn law_a_clone_selects_its_last_copy(a: Row, b: Row, from: int, to: int, times: int)
    requires
        is_cloned(a, b, from, to, times),
        a.ids_unique(),
        gap_on(a, from, to) >= 0,
        times >= 0,
    ensures
        a.selection() is None ==> b == a,
        a.selection() matches Some((x, y)) ==> {
            let more = b.items@.len() - a.items@.len();
            &&& b.id == a.id && b.track_id == a.track_id && b.gain == a.gain && b.lead == a.lead
            &&& b.autosave == a.autosave && b.autoscroll == a.autoscroll && b.missing == a.missing
            &&& b.selection() == Some((x + more, y + more))
            &&& b.ids_unique()
        },
{
    if let Some((x, y)) = a.selection() {
        let (p, q) = a.sel->0;
        super::row::lemma_place_of(a.items@, p);
        super::row::lemma_place_of(a.items@, q);
        let gap = gap_on(a, from, to);
        super::block::law_a_repeat_moves_on_by_whole_stretches(
            a.items@,
            a.next_item_id as int,
            x,
            y,
            gap,
            times as nat,
        );
        let more = b.items@.len() - a.items@.len();
        assert(more == ids_for_copies(stretch(a.items@, x, y), gap, times));
        super::block::law_a_repeat_keeps_the_rest(
            a.items@,
            a.next_item_id as int,
            x,
            y,
            gap,
            times as nat,
        );
        super::row::law_a_stretch_is_selected_whole(
            b.items@,
            b.next_item_id as int,
            x + more,
            y + more,
        );
    }
}

/// A row's own part of a block and the gaps around it fill the window: what lies
/// before it, what is selected and what lies behind it add up to the window.
pub proof fn law_a_gap_fills_the_window(row: Row, from: int, to: int)
    requires
        row.selection() is Some,
    ensures
        ({
            let (a, b) = row.selection()->0;
            gap_on(row, from, to) + (row.start_of(b + 1) - row.start_of(a)) == to - from
        }),
{
}

/// The frames of a block are those of its parts, each from its first to its last.
pub proof fn law_how_many_frames_a_block_has(rows: Seq<BlockRow>, n: int)
    requires
        0 <= n <= rows.len(),
    ensures
        frame_count(rows, n) == rows.take(n).fold_left(
            0int,
            |sum: int, r: BlockRow| sum + (r.last - r.first + 1),
        ),
    decreases n,
{
    if n > 0 {
        law_how_many_frames_a_block_has(rows, n - 1);
        assert(rows.take(n).drop_last() =~= rows.take(n - 1));
    }
}

/// The frames of a clip are those of its rows.
pub proof fn law_how_many_frames_a_clip_has(rows: Seq<ClipRow>, n: int)
    requires
        0 <= n <= rows.len(),
    ensures
        clip_count(rows, n) == rows.take(n).map_values(|r: ClipRow| r.items@).flatten().len(),
    decreases n,
{
    let f = |r: ClipRow| r.items@;
    if n > 0 {
        law_how_many_frames_a_clip_has(rows, n - 1);
        assert(rows.take(n).map_values(f) =~= rows.take(n - 1).map_values(f).push(
            rows[n - 1].items@,
        ));
        rows.take(n - 1).map_values(f).lemma_flatten_push(rows[n - 1].items@);
    } else {
        assert(rows.take(0).map_values(f) =~= Seq::empty());
    }
}

/// The frames of a composition are those of its rows, and a row is filled where it has
/// any.
pub proof fn law_how_many_frames_rows_have(rows: Seq<Row>, n: int)
    requires
        0 <= n <= rows.len(),
    ensures
        total_frames(rows, n) == rows.take(n).map_values(|r: Row| r.items@).flatten().len(),
        filled(rows, n) == rows.take(n).filter(|r: Row| r.items@.len() > 0).len(),
    decreases n,
{
    let f = |r: Row| r.items@;
    reveal(Seq::filter);
    if n > 0 {
        law_how_many_frames_rows_have(rows, n - 1);
        assert(rows.take(n).map_values(f) =~= rows.take(n - 1).map_values(f).push(
            rows[n - 1].items@,
        ));
        rows.take(n - 1).map_values(f).lemma_flatten_push(rows[n - 1].items@);
        assert(rows.take(n).drop_last() =~= rows.take(n - 1));
    } else {
        assert(rows.take(0).map_values(f) =~= Seq::empty());
    }
}

/// A span's rows are those in which a frame starts within it, and its frames are those
/// from the first such frame of each row to the last.
pub proof fn law_how_many_rows_and_frames_a_span_has(rows: Seq<Row>, from: int, to: int, n: int)
    requires
        0 <= n <= rows.len(),
    ensures
        spanned_rows(rows, from, to, n) == rows.take(n).filter(
            |r: Row| spanned(r, from, to) is Some,
        ).len(),
        spanned_frames(rows, from, to, n) == rows.take(n).fold_left(
            0int,
            |sum: int, r: Row|
                if spanned(r, from, to) is Some {
                    sum + ((spanned(r, from, to)->0).1 - (spanned(r, from, to)->0).0 + 1)
                } else {
                    sum
                },
        ),
    decreases n,
{
    reveal(Seq::filter);
    if n > 0 {
        law_how_many_rows_and_frames_a_span_has(rows, from, to, n - 1);
        assert(rows.take(n).drop_last() =~= rows.take(n - 1));
    }
}

/// Of the rows of a clip that hold something, those land whose row is still there and
/// the others are lost; what lands is what the former hold.
pub proof fn law_what_of_a_clip_lands(clip: Seq<ClipRow>, rows: Seq<Row>, n: int)
    requires
        0 <= n <= clip.len(),
    ensures
        landed(clip, rows, n) == clip.take(n).filter(
            |c: ClipRow|
                c.items@.len() > 0 && exists|i: int|
                    0 <= i < rows.len() && (#[trigger] rows[i]).id == c.row_id,
        ).len(),
        lost(clip, rows, n) == clip.take(n).filter(
            |c: ClipRow|
                c.items@.len() > 0 && forall|i: int|
                    0 <= i < rows.len() ==> (#[trigger] rows[i]).id != c.row_id,
        ).len(),
        landed_frames(clip, rows, n) == clip.take(n).fold_left(
            0int,
            |sum: int, c: ClipRow|
                if exists|i: int| 0 <= i < rows.len() && (#[trigger] rows[i]).id == c.row_id {
                    sum + c.items@.len()
                } else {
                    sum
                },
        ),
    decreases n,
{
    reveal(Seq::filter);
    if n > 0 {
        law_what_of_a_clip_lands(clip, rows, n - 1);
        assert(clip.take(n).drop_last() =~= clip.take(n - 1));
        law_a_row_is_found_by_its_id(rows, clip[n - 1].row_id);
    }
}

/// What is said of a block counts its frames and its rows and says how long it is.
pub proof fn law_what_is_said_of_a_block(frames: int, rows: int, times: int, units: int, gone: int)
    ensures
        copied_text(frames, rows, units) == "Copied "@ + decimal(frames as nat)
            + " frame(s) from "@ + decimal(rows as nat) + " row(s) — "@ + span_text(units)
            + " of music."@,
        spans_text(rows, frames, units) == "Block spans "@ + decimal(rows as nat) + " row(s), "@
            + decimal(frames as nat) + " frame(s) — "@ + span_text(units) + " of music."@,
        cloned_text(frames, rows, times, units) == "Cloned "@ + decimal(frames as nat)
            + " frame(s) on "@ + decimal(rows as nat) + " row(s), ×"@ + decimal(times as nat)
            + " — "@ + span_text(units) + " of music each time."@,
        gone == 0 ==> pasted_text(frames, rows, gone) == "Pasted "@ + decimal(frames as nat)
            + " frame(s) onto "@ + decimal(rows as nat)
            + " row(s) at the end of the composition."@,
        gone != 0 ==> pasted_text(frames, rows, gone) == "Pasted "@ + decimal(frames as nat)
            + " frame(s) onto "@ + decimal(rows as nat) + " row(s) — "@ + decimal(gone as nat)
            + " row(s) the block was copied from are gone."@,
        rows == 0 ==> selected_text(rows) == "Nothing to select — the rows are empty."@,
        rows != 0 ==> selected_text(rows) == "Selected everything on "@ + decimal(rows as nat)
            + " row(s)."@,
{
}

/// What is said of a new row: what it plays, or that there is nothing to play yet.
pub proof fn law_what_is_said_of_a_new_row(n: Seq<char>)
    ensures
        added_text(Some(n)) == "Added a row playing "@ + n + "."@,
        added_text(None) == "Added a row — no tracks exist yet to assign it to."@,
{
}

} // verus!
