//! Rows of frames.
//!
//! A row is a sequence, not a canvas: a chain of frames laid left to right, each
//! played after the one before. A note and the space tied behind it are one
//! [`Item`], so no space can be orphaned, and the row itself opens with a space
//! ([`Row::lead`]) that stays when its first note goes.

use vstd::prelude::*;

use super::length::{lemma_span_bounds, plain, zero_length, Duration, Fraction, MAX_SPAN};
use super::project::TrackSource;
use crate::number::{ONE, ZERO};

verus! {

/// Lowest and highest note offered, C0 to B8.
pub const PITCH_MIN: u8 = 12;

pub const PITCH_MAX: u8 = 119;

/// A new note starts at middle C.
pub const DEFAULT_PITCH: u8 = 60;

/// The first note of a drum row is the kick.
pub const DEFAULT_DRUM_PITCH: u8 = 36;

/// A note and the space tied behind it.
#[derive(Clone, Copy, PartialEq, Eq, Debug, Structural)]
pub struct Item {
    /// Stable within its row.
    pub id: u64,
    pub pitch: u8,
    /// Where in the file the note starts, in seconds, as the bits of the number.
    /// Meant for rows that play a recording; zero everywhere else.
    pub start: u32,
    /// How long the note sounds.
    pub dur: Duration,
    /// The silence after it; zero is legal.
    pub space: Duration,
}

impl Item {
    /// The note and its space together, in units.
    pub open spec fn span(self) -> int {
        self.dur.span() + self.space.span()
    }

    /// The note and its space together: what the next note waits for.
    pub fn total_units(&self) -> (r: i64)
        ensures
            r == self.span(),
            0 <= r <= 2 * MAX_SPAN,
    {
        self.dur.units() + self.space.units()
    }
}

/// How long a chain of frames is, in units.
pub open spec fn items_span(s: Seq<Item>) -> int
    decreases s.len(),
{
    if s.len() == 0 {
        0
    } else {
        items_span(s.drop_last()) + s.last().span()
    }
}

/// A note on the timeline, in units from the start of the composition.
#[derive(Clone, Copy, PartialEq, Eq, Debug, Structural)]
pub struct PlannedNote {
    pub at: i64,
    pub dur: i64,
    pub pitch: u8,
    /// Where in the file the note starts; see [`Item::start`].
    pub start: u32,
}

/// The notes of a chain of frames that opens at `lead`: every frame whose note
/// has a length, where the frames before it put it.
pub open spec fn planned(lead: int, s: Seq<Item>) -> Seq<PlannedNote>
    decreases s.len(),
{
    if s.len() == 0 {
        Seq::empty()
    } else {
        let before = s.drop_last();
        let item = s.last();
        if item.dur.span() > 0 {
            planned(lead, before).push(
                PlannedNote {
                    at: (lead + items_span(before)) as i64,
                    dur: item.dur.span() as i64,
                    pitch: item.pitch,
                    start: item.start,
                },
            )
        } else {
            planned(lead, before)
        }
    }
}

/// Where the frame with an id stands, or the number of frames.
pub open spec fn place_of(s: Seq<Item>, id: u64) -> int
    decreases s.len(),
{
    if s.len() == 0 || s[0].id == id {
        0
    } else {
        1 + place_of(s.skip(1), id)
    }
}

/// The frames a selection takes in, as first and last place, if both its ends
/// are still there.
pub open spec fn selected(s: Seq<Item>, sel: Option<(u64, u64)>) -> Option<(int, int)> {
    match sel {
        None => None,
        Some((a, b)) => {
            let x = place_of(s, a);
            let y = place_of(s, b);
            if x >= s.len() || y >= s.len() {
                None
            } else if x <= y {
                Some((x, y))
            } else {
                Some((y, x))
            }
        },
    }
}

/// What a click on a frame's select box makes of the selection.
pub open spec fn clicked(
    s: Seq<Item>,
    sel: Option<(u64, u64)>,
    id: u64,
    extend: bool,
) -> Option<(u64, u64)> {
    match (sel, selected(s, sel)) {
        (None, _) => Some((id, id)),
        // Shift drags the free end, and keeps the one it was anchored on.
        (Some((anchor, _)), _) if extend => Some((anchor, id)),
        (Some(_), Some((a, b))) if place_of(s, id) < s.len() => {
            let at = place_of(s, id);
            if a <= at <= b {
                None
            } else if at < a {
                Some((s[b].id, id))
            } else {
                Some((s[a].id, id))
            }
        },
        _ => Some((id, id)),
    }
}

/// The selection of the frames at places `a` to `b`.
pub open spec fn range_selection(s: Seq<Item>, a: int, b: int) -> Option<(u64, u64)> {
    if 0 <= a < s.len() && 0 <= b < s.len() {
        Some((s[a].id, s[b].id))
    } else {
        None
    }
}

/// One lane: a track and the chain of frames played on it.
pub struct Row {
    /// Stable id.
    pub id: u64,
    /// The track this row plays, by registry id.
    pub track_id: Option<u64>,
    /// The row's level, as the bits of the number.
    pub gain: u32,
    /// The silence before the row's first note. It belongs to the row, so
    /// deleting the first note leaves it to lead the next one.
    pub lead: Duration,
    /// Write this row's sound into the project folder on every save.
    pub autosave: bool,
    /// Scroll the lane along while the transport runs.
    pub autoscroll: bool,
    /// The source a loaded project asked for and that could not be found. Kept
    /// whole, so that saving again preserves the reference.
    pub missing: Option<TrackSource>,
    /// In play order.
    pub items: Vec<Item>,
    pub next_item_id: u64,
    /// The block selected on this row, as the ids of the frames at its two
    /// ends, anchor first.
    pub sel: Option<(u64, u64)>,
}

impl Row {
    /// Where the first note starts: the lead space, while there is a note for
    /// it to lead.
    pub open spec fn lead_span(self) -> int {
        if self.items@.len() == 0 {
            0
        } else {
            self.lead.span()
        }
    }

    /// Where the frame at a place starts; at the number of frames, where the
    /// row ends.
    pub open spec fn start_of(self, k: int) -> int {
        self.lead_span() + items_span(self.items@.take(k))
    }

    /// The row's length.
    pub open spec fn end_span(self) -> int {
        self.lead_span() + items_span(self.items@)
    }

    /// The row's length can be counted.
    pub open spec fn fits(self) -> bool {
        self.end_span() <= i64::MAX
    }

    /// Every frame has an id of its own, and the next one to be given is new.
    pub open spec fn ids_unique(self) -> bool {
        ids_below(self.items@, self.next_item_id as int)
    }

    /// The frames selected on the row.
    pub open spec fn selection(self) -> Option<(int, int)> {
        selected(self.items@, self.sel)
    }
}

/// Whether every frame has an id of its own, all of them below `next`.
pub open spec fn ids_below(s: Seq<Item>, next: int) -> bool {
    &&& forall|i: int| 0 <= i < s.len() ==> (#[trigger] s[i]).id < next
    &&& forall|i: int, j: int|
        0 <= i < j < s.len() ==> (#[trigger] s[i]).id != (#[trigger] s[j]).id
}

pub proof fn lemma_items_span_add(a: Seq<Item>, b: Seq<Item>)
    ensures
        items_span(a + b) == items_span(a) + items_span(b),
    decreases b.len(),
{
    if b.len() == 0 {
        assert(a + b =~= a);
    } else {
        assert((a + b).drop_last() =~= a + b.drop_last());
        lemma_items_span_add(a, b.drop_last());
    }
}

pub proof fn lemma_items_span_push(a: Seq<Item>, x: Item)
    ensures
        items_span(a.push(x)) == items_span(a) + x.span(),
{
    assert(a.push(x).drop_last() =~= a);
}

/// A chain is never negative, and no part of it is longer than the whole.
pub proof fn lemma_items_span_take(s: Seq<Item>, k: int)
    requires
        0 <= k <= s.len(),
    ensures
        0 <= items_span(s.take(k)) <= items_span(s),
    decreases s.len(),
{
    if k == s.len() {
        assert(s.take(k) =~= s);
        if s.len() > 0 {
            lemma_items_span_take(s.drop_last(), k - 1);
            assert(s.drop_last().take(k - 1) =~= s.drop_last());
            lemma_span_bounds(s.last().dur);
            lemma_span_bounds(s.last().space);
        }
    } else {
        lemma_items_span_take(s.drop_last(), k);
        assert(s.drop_last().take(k) =~= s.take(k));
        lemma_span_bounds(s.last().dur);
        lemma_span_bounds(s.last().space);
    }
}

/// The next frame starts where the one before it ends.
pub proof fn lemma_items_span_step(s: Seq<Item>, k: int)
    requires
        0 <= k < s.len(),
    ensures
        items_span(s.take(k + 1)) == items_span(s.take(k)) + s[k].span(),
{
    assert(s.take(k + 1).drop_last() =~= s.take(k));
}

pub proof fn lemma_place_of(s: Seq<Item>, id: u64)
    ensures
        0 <= place_of(s, id) <= s.len(),
        place_of(s, id) < s.len() ==> s[place_of(s, id)].id == id,
        forall|i: int| 0 <= i < place_of(s, id) ==> (#[trigger] s[i]).id != id,
    decreases s.len(),
{
    if s.len() == 0 || s[0].id == id {
    } else {
        lemma_place_of(s.skip(1), id);
        assert forall|i: int| 0 <= i < place_of(s, id) implies (#[trigger] s[i]).id != id by {
            if i > 0 {
                assert(s.skip(1)[i - 1] == s[i]);
            }
        }
    }
}

pub proof fn lemma_place_of_is(s: Seq<Item>, id: u64, k: int)
    requires
        0 <= k <= s.len(),
        k < s.len() ==> s[k].id == id,
        forall|i: int| 0 <= i < k ==> (#[trigger] s[i]).id != id,
    ensures
        place_of(s, id) == k,
{
    lemma_place_of(s, id);
}

/// Where the frame with an id stands, or the number of frames.
pub fn find_item(items: &Vec<Item>, id: u64) -> (r: usize)
    ensures
        r == place_of(items@, id),
        r <= items.len(),
{
    let mut i: usize = 0;
    while i < items.len() && items[i].id != id
        invariant
            i <= items.len(),
            forall|k: int| 0 <= k < i ==> (#[trigger] items@[k]).id != id,
        decreases items.len() - i,
    {
        i += 1;
    }
    proof {
        lemma_place_of_is(items@, id, i as int);
    }
    i
}

impl Row {
    /// An empty row for a track.
    pub fn new(id: u64, track_id: Option<u64>) -> (r: Row)
        ensures
            r.id == id,
            r.track_id == track_id,
            r.gain == ONE,
            r.lead == zero_length(),
            r.autosave,
            r.autoscroll,
            r.missing is None,
            r.items@ == Seq::<Item>::empty(),
            r.next_item_id == 0,
            r.sel is None,
            r.ids_unique(),
            r.fits(),
    {
        Row {
            id,
            track_id,
            gain: ONE,
            lead: Duration::new(0, Fraction::Zero),
            autosave: true,
            autoscroll: true,
            missing: None,
            items: Vec::new(),
            next_item_id: 0,
            sel: None,
        }
    }

    /// The selected block as places, first and last. `None` where nothing is
    /// selected on this row, or where an end of it has been deleted since.
    pub fn sel_range(&self) -> (r: Option<(usize, usize)>)
        ensures
            match r {
                Some((a, b)) => self.selection() == Some((a as int, b as int)) && a <= b
                    < self.items@.len(),
                None => self.selection() is None,
            },
    {
        let (a, b) = match self.sel {
            None => {
                return None;
            },
            Some(ends) => ends,
        };
        let x: usize = find_item(&self.items, a);
        let y: usize = find_item(&self.items, b);
        if x >= self.items.len() || y >= self.items.len() {
            None
        } else if x <= y {
            Some((x, y))
        } else {
            Some((y, x))
        }
    }

    /// A click on a frame's select box: a plain click outside the block grows
    /// the block to reach the frame, a plain click inside lets the block go,
    /// and `extend` drags the free end onto the frame.
    pub fn select_item(&mut self, id: u64, extend: bool)
        ensures
            *final(self) == (Row {
                sel: clicked(old(self).items@, old(self).sel, id, extend),
                ..*old(self)
            }),
    {
        let anchor: u64 = match self.sel {
            None => {
                self.sel = Some((id, id));
                return ;
            },
            Some((anchor, _)) => anchor,
        };
        if extend {
            self.sel = Some((anchor, id));
            return ;
        }
        let at: usize = find_item(&self.items, id);
        let range = self.sel_range();
        self.sel = match range {
            Some((a, b)) if at < self.items.len() => {
                if a <= at && at <= b {
                    None
                } else if at < a {
                    Some((self.items[b].id, id))
                } else {
                    Some((self.items[a].id, id))
                }
            },
            _ => Some((id, id)),
        };
    }

    /// Select the frames at places `a` to `b`.
    pub fn select_range(&mut self, a: usize, b: usize)
        ensures
            *final(self) == (Row {
                sel: range_selection(old(self).items@, a as int, b as int),
                ..*old(self)
            }),
    {
        self.sel = if a < self.items.len() && b < self.items.len() {
            Some((self.items[a].id, self.items[b].id))
        } else {
            None
        };
    }

    /// Hand out the next frame id.
    pub fn take_item_id(&mut self) -> (r: u64)
        requires
            old(self).next_item_id < u64::MAX,
        ensures
            r == old(self).next_item_id,
            *final(self) == (Row {
                next_item_id: (old(self).next_item_id + 1) as u64,
                ..*old(self)
            }),
    {
        let id: u64 = self.next_item_id;
        self.next_item_id = id + 1;
        id
    }

    /// Where the row's first note starts. An empty row has no first note and so
    /// no lead.
    pub fn lead_units(&self) -> (r: i64)
        ensures
            r == self.lead_span(),
            0 <= r <= MAX_SPAN,
    {
        if self.items.len() == 0 {
            0
        } else {
            self.lead.units()
        }
    }

    /// Total length of the row: the lead space plus the frames, which simply add
    /// up.
    pub fn end_units(&self) -> (r: i64)
        requires
            self.fits(),
        ensures
            r == self.end_span(),
            r >= 0,
    {
        let mut at: i64 = self.lead_units();
        let mut i: usize = 0;
        assert(self.items@.take(0) =~= Seq::<Item>::empty());
        while i < self.items.len()
            invariant
                i <= self.items.len(),
                self.fits(),
                at == self.start_of(i as int),
                at >= 0,
            decreases self.items.len() - i,
        {
            proof {
                lemma_items_span_step(self.items@, i as int);
                lemma_items_span_take(self.items@, i + 1);
            }
            at += self.items[i].total_units();
            i += 1;
        }
        assert(self.items@.take(i as int) =~= self.items@);
        at
    }

    /// Append a note and, tied behind it, the space that separates it from what
    /// comes next. The new frame repeats the last one whole; the first frame of
    /// a row starts on `default_pitch`, a quarter note and an eighth of silence.
    pub fn add_note(&mut self, default_pitch: u8)
        requires
            old(self).next_item_id < u64::MAX,
        ensures
            final(self).items@ == old(self).items@.push(
                added_item(old(self).items@, old(self).next_item_id, default_pitch),
            ),
            final(self).next_item_id == old(self).next_item_id + 1,
            final(self).sel == old(self).sel,
            same_but_frames(*old(self), *final(self)),
            old(self).ids_unique() ==> final(self).ids_unique(),
    {
        let id: u64 = self.next_item_id;
        self.next_item_id = id + 1;
        let n: usize = self.items.len();
        let item = if n > 0 {
            Item { id, ..self.items[n - 1] }
        } else {
            Item {
                id,
                pitch: default_pitch,
                start: ZERO,
                dur: Duration::new(0, Fraction::Quarter),
                space: Duration::new(0, Fraction::Eighth),
            }
        };
        self.items.push(item);
    }

    /// Delete a note and the space tied to it. A block that loses one of its
    /// ends is no block.
    pub fn delete_item(&mut self, idx: usize)
        ensures
            final(self).items@ == (if idx < old(self).items@.len() {
                old(self).items@.remove(idx as int)
            } else {
                old(self).items@
            }),
            final(self).sel == (if selected(final(self).items@, old(self).sel) is None {
                None
            } else {
                old(self).sel
            }),
            final(self).next_item_id == old(self).next_item_id,
            same_but_frames(*old(self), *final(self)),
            old(self).ids_unique() ==> final(self).ids_unique(),
    {
        if idx < self.items.len() {
            self.items.remove(idx);
            proof {
                let was = old(self).items@;
                let now = self.items@;
                assert forall|i: int| 0 <= i < now.len() implies #[trigger] now[i] == was[if i < idx {
                    i
                } else {
                    i + 1
                }] by {}
            }
        }
        if self.sel_range().is_none() {
            self.sel = None;
        }
    }

    /// Where each note starts: the running sum of everything before it.
    pub fn starts(&self) -> (r: Vec<i64>)
        requires
            self.fits(),
        ensures
            r@.len() == self.items@.len(),
            forall|k: int| 0 <= k < r@.len() ==> #[trigger] r@[k] == self.start_of(k),
    {
        let mut at: i64 = self.lead_units();
        let mut out: Vec<i64> = Vec::new();
        let mut i: usize = 0;
        assert(self.items@.take(0) =~= Seq::<Item>::empty());
        while i < self.items.len()
            invariant
                i <= self.items.len(),
                self.fits(),
                at == self.start_of(i as int),
                at >= 0,
                out@.len() == i,
                forall|k: int| 0 <= k < i ==> #[trigger] out@[k] == self.start_of(k),
            decreases self.items.len() - i,
        {
            proof {
                lemma_items_span_step(self.items@, i as int);
                lemma_items_span_take(self.items@, i + 1);
            }
            out.push(at);
            at += self.items[i].total_units();
            i += 1;
        }
        out
    }

    /// The row's notes, in units. Spaces only advance the clock, and a note
    /// given no length at all is not played.
    pub fn planned_notes(&self) -> (r: Vec<PlannedNote>)
        requires
            self.fits(),
        ensures
            r@ == planned(self.lead_span(), self.items@),
    {
        let mut at: i64 = self.lead_units();
        let mut out: Vec<PlannedNote> = Vec::new();
        let mut i: usize = 0;
        assert(self.items@.take(0) =~= Seq::<Item>::empty());
        while i < self.items.len()
            invariant
                i <= self.items.len(),
                self.fits(),
                at == self.start_of(i as int),
                at >= 0,
                out@ == planned(self.lead_span(), self.items@.take(i as int)),
            decreases self.items.len() - i,
        {
            let item = self.items[i];
            let units: i64 = item.dur.units();
            proof {
                lemma_items_span_step(self.items@, i as int);
                lemma_items_span_take(self.items@, i + 1);
                assert(self.items@.take(i + 1).drop_last() =~= self.items@.take(i as int));
                assert(self.items@.take(i + 1).last() == item);
            }
            if units > 0 {
                out.push(PlannedNote { at, dur: units, pitch: item.pitch, start: item.start });
            }
            at += item.total_units();
            i += 1;
        }
        assert(self.items@.take(i as int) =~= self.items@);
        out
    }
}

/// The frame that a press of "Add Note" appends.
pub open spec fn added_item(s: Seq<Item>, id: u64, default_pitch: u8) -> Item {
    if s.len() > 0 {
        Item { id, ..s.last() }
    } else {
        Item {
            id,
            pitch: default_pitch,
            start: ZERO,
            dur: plain(0, Fraction::Quarter),
            space: plain(0, Fraction::Eighth),
        }
    }
}

/// Everything about two rows is the same, their frames, their selection and the
/// next frame id aside.
pub open spec fn same_but_frames(a: Row, b: Row) -> bool {
    &&& a.id == b.id
    &&& a.track_id == b.track_id
    &&& a.gain == b.gain
    &&& a.lead == b.lead
    &&& a.autosave == b.autosave
    &&& a.autoscroll == b.autoscroll
    &&& a.missing == b.missing
}

/// Deleting a frame pulls every one behind it forward by what it took, note and
/// space, and moves nothing in front of it.
pub proof fn law_a_deletion_pulls_the_rest_forward(s: Seq<Item>, idx: int, k: int)
    requires
        0 <= idx < s.len(),
        0 <= k <= s.len(),
    ensures
        k <= idx ==> items_span(s.remove(idx).take(k)) == items_span(s.take(k)),
        k > idx ==> items_span(s.remove(idx).take(k - 1)) == items_span(s.take(k)) - s[idx].span(),
{
    let r = s.remove(idx);
    if k <= idx {
        assert(r.take(k) =~= s.take(k));
    } else {
        let behind = s.subrange(idx + 1, k);
        assert(s.take(k) =~= s.take(idx) + seq![s[idx]] + behind);
        assert(r.take(k - 1) =~= s.take(idx) + behind);
        lemma_items_span_add(s.take(idx) + seq![s[idx]], behind);
        lemma_items_span_add(s.take(idx), behind);
        assert(s.take(idx) + seq![s[idx]] =~= s.take(idx).push(s[idx]));
        lemma_items_span_push(s.take(idx), s[idx]);
    }
}

/// A deletion in front of a block or behind it leaves the block on the same
/// frames, one inside it leaves it on the rest, and one of its ends takes the
/// block with it.
pub proof fn law_a_block_stays_on_its_frames(
    s: Seq<Item>,
    next: int,
    sel: Option<(u64, u64)>,
    idx: int,
)
    requires
        ids_below(s, next),
        0 <= idx < s.len(),
        selected(s, sel) is Some,
    ensures
        ({
            let (a, b) = selected(s, sel)->0;
            let after = selected(s.remove(idx), sel);
            &&& idx < a ==> after == Some((a - 1, b - 1))
            &&& a < idx < b ==> after == Some((a, b - 1))
            &&& idx > b ==> after == Some((a, b))
            &&& idx == a || idx == b ==> after is None
        }),
{
    let (x, y) = sel->0;
    lemma_place_behind(s, next, x, idx);
    lemma_place_behind(s, next, y, idx);
}

proof fn lemma_place_behind(s: Seq<Item>, next: int, id: u64, idx: int)
    requires
        ids_below(s, next),
        0 <= idx < s.len(),
        place_of(s, id) < s.len(),
    ensures
        ({
            let p = place_of(s, id);
            place_of(s.remove(idx), id) == (if p < idx {
                p
            } else if p > idx {
                p - 1
            } else {
                s.len() - 1
            })
        }),
{
    lemma_place_of(s, id);
    let p = place_of(s, id);
    let r = s.remove(idx);
    let q = if p < idx {
        p
    } else if p > idx {
        p - 1
    } else {
        s.len() - 1
    };
    assert forall|k: int| 0 <= k < q implies (#[trigger] r[k]).id != id by {
        if k < idx {
            assert(r[k] == s[k]);
            assert(s[k].id != s[p].id);
        } else {
            assert(r[k] == s[k + 1]);
            assert(s[k + 1].id != s[p].id);
        }
    }
    if p < idx {
        assert(r[q] == s[p]);
    } else if p > idx {
        assert(r[q] == s[p]);
    }
    lemma_place_of_is(r, id, q);
}

/// Every note that has a length sounds where its frame starts, for as long as
/// the frame says, and no other does.
pub proof fn law_a_note_sounds_where_its_frame_starts(lead: int, s: Seq<Item>, n: PlannedNote)
    requires
        0 <= lead,
        lead + items_span(s) <= i64::MAX,
    ensures
        planned(lead, s).contains(n) <==> exists|k: int|
            0 <= k < s.len() && #[trigger] sounds_as(lead, s, k, n),
    decreases s.len(),
{
    if s.len() > 0 {
        let init = s.drop_last();
        let last = s.len() - 1;
        lemma_items_span_take(s, last);
        assert(s.take(last) =~= init);
        law_a_note_sounds_where_its_frame_starts(lead, init, n);
        let p = planned(lead, s);
        let q = planned(lead, init);
        assert forall|k: int| 0 <= k < last implies #[trigger] sounds_as(lead, s, k, n)
            == sounds_as(lead, init, k, n) by {
            assert(s.take(k) =~= init.take(k));
        }
        if p.contains(n) {
            let j = choose|j: int| 0 <= j < p.len() && p[j] == n;
            if j < q.len() {
                assert(q[j] == n);
                assert(q.contains(n));
                let k = choose|k: int| 0 <= k < init.len() && #[trigger] sounds_as(lead, init, k, n);
                assert(sounds_as(lead, s, k, n));
            } else {
                assert(sounds_as(lead, s, last, n));
            }
        }
        if exists|k: int| 0 <= k < s.len() && #[trigger] sounds_as(lead, s, k, n) {
            let k = choose|k: int| 0 <= k < s.len() && #[trigger] sounds_as(lead, s, k, n);
            if k < last {
                assert(sounds_as(lead, init, k, n));
                assert(q.contains(n));
                let j = choose|j: int| 0 <= j < q.len() && q[j] == n;
                assert(p[j] == n);
            } else {
                assert(p[p.len() - 1] == n);
            }
        }
    }
}

/// Whether a planned note is the note of the frame at a place.
pub open spec fn sounds_as(lead: int, s: Seq<Item>, k: int, n: PlannedNote) -> bool {
    &&& s[k].dur.span() > 0
    &&& n == (PlannedNote {
        at: (lead + items_span(s.take(k))) as i64,
        dur: s[k].dur.span() as i64,
        pitch: s[k].pitch,
        start: s[k].start,
    })
}

/// A frame starts where the one before it has sounded and its space has passed; the
/// first starts at once.
pub proof fn law_a_frame_starts_behind_the_one_before(s: Seq<Item>, k: int)
    requires
        0 <= k < s.len(),
    ensures
        items_span(s.take(0)) == 0,
        items_span(s.take(k + 1)) == items_span(s.take(k)) + s[k].dur.span() + s[k].space.span(),
{
    assert(s.take(k + 1).drop_last() =~= s.take(k));
    assert(s.take(k + 1).last() == s[k]);
}

/// A row plays a note for each frame whose note has a length, and no other, in the
/// order of the frames: `at` is the frame of each note. A note starts where its frame
/// starts, behind the row's lead, and has the frame's length, pitch and offset.
pub proof fn law_every_sounding_frame_is_a_note(lead: int, s: Seq<Item>) -> (at: Seq<int>)
    requires
        0 <= lead,
        lead + items_span(s) <= i64::MAX,
    ensures
        at.len() == planned(lead, s).len(),
        forall|j: int, k: int| 0 <= j < k < at.len() ==> #[trigger] at[j] < #[trigger] at[k],
        forall|i: int| 0 <= i < s.len() && (#[trigger] s[i]).dur.span() > 0 ==> at.contains(i),
        forall|k: int|
            0 <= k < at.len() ==> {
                let n = planned(lead, s)[k];
                let f = s[#[trigger] at[k]];
                &&& 0 <= at[k] < s.len()
                &&& f.dur.span() > 0
                &&& n.at == lead + items_span(s.take(at[k]))
                &&& n.dur == f.dur.span()
                &&& n.pitch == f.pitch
                &&& n.start == f.start
            },
    decreases s.len(),
{
    if s.len() == 0 {
        Seq::empty()
    } else {
        let init = s.drop_last();
        let last = s.len() - 1;
        lemma_items_span_take(s, last);
        assert(s.take(last) =~= init);
        lemma_span_bounds(s.last().dur);
        lemma_span_bounds(s.last().space);
        let before = law_every_sounding_frame_is_a_note(lead, init);
        let at = if s.last().dur.span() > 0 {
            before.push(last)
        } else {
            before
        };
        assert forall|i: int| 0 <= i < s.len() && (
        #[trigger] s[i]).dur.span() > 0 implies at.contains(i) by {
            if i < last {
                assert(init[i] == s[i]);
                assert(before.contains(i));
                let k = choose|k: int| 0 <= k < before.len() && before[k] == i;
                assert(at[k] == i);
            } else {
                assert(at[before.len() as int] == i);
            }
        }
        assert forall|k: int| 0 <= k < at.len() implies {
            let n = planned(lead, s)[k];
            let f = s[#[trigger] at[k]];
            &&& 0 <= at[k] < s.len()
            &&& f.dur.span() > 0
            &&& n.at == lead + items_span(s.take(at[k]))
            &&& n.dur == f.dur.span()
            &&& n.pitch == f.pitch
            &&& n.start == f.start
        } by {
            if k < before.len() {
                assert(before[k] == at[k]);
                assert(init[at[k]] == s[at[k]]);
                assert(s.take(at[k]) =~= init.take(at[k]));
                assert(planned(lead, s)[k] == planned(lead, init)[k]);
            }
        }
        at
    }
}

/// A frame is found by its id: the first that has it, and none only where none has.
pub proof fn law_a_frame_is_found_by_its_id(s: Seq<Item>, id: u64)
    ensures
        0 <= place_of(s, id) <= s.len(),
        place_of(s, id) < s.len() ==> s[place_of(s, id)].id == id,
        forall|k: int|
            0 <= k < s.len() && (#[trigger] s[k]).id == id ==> place_of(s, id) <= k,
    decreases s.len(),
{
    if s.len() > 0 && s[0].id != id {
        let rest = s.skip(1);
        law_a_frame_is_found_by_its_id(rest, id);
        assert forall|k: int| 0 <= k < s.len() && (#[trigger] s[k]).id == id implies place_of(s, id)
            <= k by {
            if k > 0 {
                assert(rest[k - 1] == s[k]);
            }
        }
    }
}

/// A block runs from the earlier of its two ends to the later, whichever is the
/// anchor, and there is none where an end is gone.
pub proof fn law_a_block_runs_between_its_ends(s: Seq<Item>, a: int, b: int, next: int)
    requires
        ids_below(s, next),
        0 <= a <= b < s.len(),
    ensures
        selected(s, Some((s[a].id, s[b].id))) == Some((a, b)),
        selected(s, Some((s[b].id, s[a].id))) == Some((a, b)),
        selected(s, None) is None,
        forall|x: u64|
            (forall|k: int| 0 <= k < s.len() ==> (#[trigger] s[k]).id != x) ==> #[trigger] selected(
                s,
                Some((x, s[a].id)),
            ) is None && selected(s, Some((s[a].id, x))) is None,
{
    law_a_frame_is_found_by_its_id(s, s[a].id);
    law_a_frame_is_found_by_its_id(s, s[b].id);
    assert forall|x: u64|
        (forall|k: int| 0 <= k < s.len() ==> (#[trigger] s[k]).id != x) implies #[trigger] selected(
        s,
        Some((x, s[a].id)),
    ) is None && selected(s, Some((s[a].id, x))) is None by {
        law_a_frame_is_found_by_its_id(s, x);
    }
}

/// What a click makes of a block: without one it selects its frame; with the key
/// held it moves the free end and keeps the anchor; on a frame of the block it takes
/// the block away; and on a frame outside it stretches the block to there, so that
/// the block takes in what it did and every frame up to the one clicked.
pub proof fn law_what_a_click_selects(
    s: Seq<Item>,
    next: int,
    anchor: int,
    free: int,
    at: int,
)
    requires
        ids_below(s, next),
        0 <= anchor < s.len(),
        0 <= free < s.len(),
        0 <= at < s.len(),
    ensures
        ({
            let sel = Some((s[anchor].id, s[free].id));
            let first = if anchor <= free {
                anchor
            } else {
                free
            };
            let last = if anchor <= free {
                free
            } else {
                anchor
            };
            &&& clicked(s, None, s[at].id, false) == Some((s[at].id, s[at].id))
            &&& clicked(s, None, s[at].id, true) == Some((s[at].id, s[at].id))
            &&& clicked(s, sel, s[at].id, true) == Some((s[anchor].id, s[at].id))
            &&& first <= at <= last ==> clicked(s, sel, s[at].id, false) is None
            &&& at < first ==> selected(s, clicked(s, sel, s[at].id, false)) == Some((at, last))
            &&& at > last ==> selected(s, clicked(s, sel, s[at].id, false)) == Some((first, at))
        }),
{
    law_a_frame_is_found_by_its_id(s, s[anchor].id);
    law_a_frame_is_found_by_its_id(s, s[free].id);
    law_a_frame_is_found_by_its_id(s, s[at].id);
}

/// Selecting a stretch selects the frames at its two ends and all between them, and
/// nothing where an end is not there.
pub proof fn law_a_stretch_is_selected_whole(s: Seq<Item>, next: int, a: int, b: int)
    requires
        ids_below(s, next),
        a <= b,
    ensures
        0 <= a && b < s.len() ==> selected(s, range_selection(s, a, b)) == Some((a, b)),
        a < 0 || b >= s.len() ==> selected(s, range_selection(s, a, b)) is None,
{
    if 0 <= a && b < s.len() {
        law_a_block_runs_between_its_ends(s, a, b, next);
    }
}

/// A note that is added repeats the last one, and the first of a row is a quarter
/// note with an eighth behind it, on the pitch it is given, from the file's start.
pub proof fn law_an_added_note_repeats_the_last(s: Seq<Item>, id: u64, pitch: u8)
    ensures
        added_item(s, id, pitch).id == id,
        s.len() > 0 ==> added_item(s, id, pitch) == (Item { id, ..s[s.len() - 1] }),
        s.len() == 0 ==> added_item(s, id, pitch).pitch == pitch && added_item(s, id, pitch).start
            == 0 && 4 * added_item(s, id, pitch).dur.span() == plain(1, Fraction::Zero).span() && 8
            * added_item(s, id, pitch).space.span() == plain(1, Fraction::Zero).span(),
{
}

/// A row's first frame starts behind its lead, each further one where the frame
/// before ends, and the row ends where its last frame does. A row without frames is
/// over at once.
pub proof fn law_where_frames_start(row: Row, k: int)
    requires
        0 <= k < row.items@.len(),
    ensures
        row.start_of(0) == row.lead.span(),
        row.start_of(k + 1) == row.start_of(k) + row.items@[k].dur.span()
            + row.items@[k].space.span(),
        row.end_span() == row.start_of(row.items@.len() as int),
{
    law_a_frame_starts_behind_the_one_before(row.items@, k);
    assert(row.items@.take(row.items@.len() as int) =~= row.items@);
}

/// Two rows that are the same but for their frames have one id, track, level and
/// lead, one missing source, and are saved and scrolled alike.
pub proof fn law_what_frames_leave_alone(a: Row, b: Row)
    requires
        same_but_frames(a, b),
    ensures
        a.id == b.id && a.track_id == b.track_id && a.gain == b.gain && a.lead == b.lead
            && a.autosave == b.autosave && a.autoscroll == b.autoscroll && a.missing == b.missing,
{
}

/// A row without frames takes no time, whatever its lead is.
pub proof fn law_an_empty_row_takes_no_time(row: Row)
    requires
        row.items@.len() == 0,
    ensures
        row.lead_span() == 0,
        row.end_span() == 0,
{
}

} // verus!
