//! The composition as a project: what a save records of it, and what a load
//! makes of it.

use vstd::prelude::*;

use super::panel::{copy_items, is_reconciled, own_row_ids, ComposerPanel};
use super::project::{
    source_name, text_view, Project, ProjectRow, ProjectView, RowView, SourceView, TrackSource,
};
use super::row::{ids_below, Item, Row};
use super::session::ProjectRequest;
use crate::path::{folder_of, join, joined, name_chars, name_of, parent};
use crate::registry::{track_place, EntryView, TrackRegistry};
use crate::text::{decimal, push_decimal, same_chars, chars_of};

verus! {

/// What an optional source says.
pub open spec fn missing_view(s: Option<TrackSource>) -> Option<SourceView> {
    match s {
        Some(t) => Some(t@),
        None => None,
    }
}

/// The name a row is saved under: its track's, or that of the source it is
/// looking for.
pub open spec fn saved_name(row: Row, tracks: Seq<EntryView>) -> Seq<char> {
    match row.track_id {
        Some(id) if track_place(tracks, id) < tracks.len() => tracks[track_place(tracks, id)].name,
        _ => match missing_view(row.missing) {
            Some(s) => source_name(s),
            None => Seq::empty(),
        },
    }
}

/// The source a row is saved with: the one it is looking for, or its track's.
pub open spec fn kept_source(row: Row, source: SourceView) -> SourceView {
    match missing_view(row.missing) {
        Some(s) => s,
        None => source,
    }
}

/// A row as it is saved.
pub open spec fn row_saved(
    row: Row,
    tracks: Seq<EntryView>,
    source: SourceView,
    gain: Seq<char>,
) -> RowView {
    RowView {
        track_name: saved_name(row, tracks),
        source: kept_source(row, source),
        gain,
        lead: row.lead,
        autosave: row.autosave,
        autoscroll: row.autoscroll,
        items: row.items@,
    }
}

/// What a row of a loaded project is looking for: its source, where it could not
/// be bound to a track.
pub open spec fn still_missing(source: SourceView, track: Option<u64>) -> Option<SourceView> {
    if track is Some || source is NoTrack {
        None
    } else {
        Some(source)
    }
}

/// The track a row of a loaded project was bound to.
pub open spec fn bound(resolved: Seq<Option<u64>>, i: int) -> Option<u64> {
    if i < resolved.len() {
        resolved[i]
    } else {
        None
    }
}

/// Frames numbered from zero.
pub open spec fn numbered(s: Seq<Item>) -> Seq<Item> {
    Seq::new(s.len(), |i: int| Item { id: i as u64, ..s[i] })
}

/// Whether a row is one of a loaded project.
pub open spec fn is_loaded_row(row: Row, p: RowView, id: int, track: Option<u64>, gain: u32) -> bool {
    &&& row.id == id
    &&& row.track_id == track
    &&& row.gain == gain
    &&& row.lead == p.lead
    &&& row.autosave == p.autosave
    &&& row.autoscroll == p.autoscroll
    &&& missing_view(row.missing) == still_missing(p.source, track)
    &&& row.items@ == numbered(p.items)
    &&& row.next_item_id == p.items.len()
    &&& row.sel is None
}

/// How many of the first `n` rows of a project are left looking for their
/// source.
pub open spec fn unbound(rows: Seq<RowView>, resolved: Seq<Option<u64>>, n: int) -> int
    decreases n,
{
    if n <= 0 {
        0
    } else {
        unbound(rows, resolved, n - 1) + if still_missing(
            rows[n - 1].source,
            bound(resolved, n - 1),
        ) is Some {
            1int
        } else {
            0
        }
    }
}

/// What is said of a loaded project.
pub open spec fn loaded_text(name: Seq<char>, rows: int, missing: int) -> Seq<char> {
    let front = "Loaded "@ + name + " — "@ + decimal(rows as nat);
    if missing == 0 {
        front + " row(s)."@
    } else {
        front + " row(s), "@ + decimal(missing as nat)
            + " with a missing source: pick a new one in the row's select box."@
    }
}

/// The tracks of the first `n` rows that want their sound written on a save.
pub open spec fn autosaved(rows: Seq<Row>, n: int) -> Seq<u64>
    decreases n,
{
    if n <= 0 {
        Seq::empty()
    } else {
        let before = autosaved(rows, n - 1);
        match rows[n - 1].track_id {
            Some(id) if rows[n - 1].autosave => before.push(id),
            _ => before,
        }
    }
}

/// Where a save goes: in place while the name has not changed, else into a
/// folder of its own beside the old one; and into a folder of the one that was
/// picked where there is no old one.
pub open spec fn save_folder(
    dir: Option<Seq<char>>,
    stem: Seq<char>,
    picked: Option<Seq<char>>,
) -> Option<Seq<char>> {
    match dir {
        Some(d) if name_of(d) == Some(stem) => Some(d),
        Some(d) if folder_of(d) is Some => Some(joined(folder_of(d)->0, stem)),
        _ => match picked {
            Some(p) => Some(joined(p, stem)),
            None => None,
        },
    }
}

/// Whether a save has to ask where to go.
pub open spec fn has_to_ask(dir: Option<Seq<char>>, stem: Seq<char>) -> bool {
    match dir {
        Some(d) => name_of(d) != Some(stem) && folder_of(d) is None,
        None => true,
    }
}

/// What is asked for.
pub open spec fn is_save(r: Option<ProjectRequest>, dir: Seq<char>, name: Seq<char>) -> bool {
    r matches Some(ProjectRequest::Save { dir: d, name: n }) && d@ == dir && n@ == name
}

impl ComposerPanel {
    /// The composition as it would be saved. `sources` is what the app decided
    /// to record for each row's track, `gains` and `tempo` are the numbers as
    /// they are written. A row that is still looking for its source keeps that.
    pub fn to_project(
        &self,
        name: &str,
        registry: &TrackRegistry,
        sources: &Vec<TrackSource>,
        gains: &Vec<String>,
        tempo: &str,
    ) -> (r: Project)
        requires
            sources@.len() == self.rows@.len(),
            gains@.len() == self.rows@.len(),
        ensures
            r@.name == name@,
            r@.tempo_bpm == tempo@,
            r@.rows.len() == self.rows@.len(),
            forall|i: int|
                0 <= i < r@.rows.len() ==> #[trigger] r@.rows[i] == row_saved(
                    self.rows@[i],
                    registry@,
                    sources@[i]@,
                    gains@[i]@,
                ),
    {
        let mut rows: Vec<ProjectRow> = Vec::new();
        let mut i: usize = 0;
        while i < self.rows.len()
            invariant
                i <= self.rows.len(),
                sources@.len() == self.rows@.len(),
                gains@.len() == self.rows@.len(),
                rows@.len() == i,
                forall|k: int|
                    0 <= k < i ==> (#[trigger] rows@[k])@ == row_saved(
                        self.rows@[k],
                        registry@,
                        sources@[k]@,
                        gains@[k]@,
                    ),
            decreases self.rows.len() - i,
        {
            let row = &self.rows[i];
            let named = match row.track_id {
                Some(id) => registry.name_of(id),
                None => None,
            };
            let track_name = match named {
                Some(n) => n,
                None => match &row.missing {
                    Some(s) => s.describe(),
                    None => String::new(),
                },
            };
            assert(track_name@ =~= saved_name(*row, registry@));
            let source = match &row.missing {
                Some(s) => s.duplicate(),
                None => sources[i].duplicate(),
            };
            rows.push(
                ProjectRow {
                    track_name,
                    source,
                    gain: gains[i].clone(),
                    lead: row.lead,
                    autosave: row.autosave,
                    autoscroll: row.autoscroll,
                    items: copy_items(&row.items),
                },
            );
            i += 1;
        }
        let p = Project { name: name.to_owned(), tempo_bpm: tempo.to_owned(), rows };
        assert forall|k: int| 0 <= k < p@.rows.len() implies #[trigger] p@.rows[k] == row_saved(
            self.rows@[k],
            registry@,
            sources@[k]@,
            gains@[k]@,
        ) by {
            assert(p@.rows[k] == rows@[k]@);
        }
        p
    }

    /// Replace the composition with a loaded project. `resolved` is the track
    /// each row's source was bound to, `gains` and `tempo` are its numbers as
    /// they were read. What is running stops.
    pub fn apply_project(
        &mut self,
        project: &Project,
        dir: &str,
        resolved: &Vec<Option<u64>>,
        gains: &Vec<u32>,
        tempo: u32,
    )
        requires
            gains@.len() == project.rows@.len(),
            old(self).next_row_id + project.rows@.len() <= u64::MAX,
        ensures
            final(self).wf(),
            final(self).tempo_bpm == tempo,
            final(self).project_name@ == project@.name,
            text_view(final(self).project_dir) == Some(dir@),
            !final(self).playing,
            !final(self).preparing,
            !final(self).recording,
            final(self).live_sent is None,
            final(self).request == old(self).request,
            final(self).repeat == old(self).repeat,
            final(self).exporting == old(self).exporting,
            final(self).round_units == old(self).round_units,
            final(self).record_track == old(self).record_track,
            final(self).clip == old(self).clip,
            final(self).clone_times == old(self).clone_times,
            final(self).next_row_id == old(self).next_row_id + project@.rows.len(),
            final(self).rows@.len() == project@.rows.len(),
            forall|i: int|
                0 <= i < final(self).rows@.len() ==> is_loaded_row(
                    #[trigger] final(self).rows@[i],
                    project@.rows[i],
                    old(self).next_row_id + i,
                    bound(resolved@, i),
                    gains@[i],
                ),
            final(self).status@ == loaded_text(
                project@.name,
                project@.rows.len() as int,
                unbound(project@.rows, resolved@, project@.rows.len() as int),
            ),
    {
        self.live_sent = None;
        self.playing = false;
        self.preparing = false;
        self.recording = false;
        self.tempo_bpm = tempo;
        self.project_name = project.name.clone();
        self.project_dir = Some(dir.to_owned());
        let ghost id0 = self.next_row_id as int;
        let ghost pv = project@;
        let mut rows: Vec<Row> = Vec::new();
        let mut missing: usize = 0;
        let mut i: usize = 0;
        while i < project.rows.len()
            invariant
                i <= project.rows.len(),
                gains@.len() == project.rows@.len(),
                pv == project@,
                id0 + project.rows@.len() <= u64::MAX,
                self.next_row_id == id0 + i,
                self.tempo_bpm == tempo,
                self.project_name@ == project@.name,
                text_view(self.project_dir) == Some(dir@),
                !self.playing,
                !self.preparing,
                !self.recording,
                self.live_sent is None,
                self.request == old(self).request,
                self.repeat == old(self).repeat,
                self.exporting == old(self).exporting,
                self.round_units == old(self).round_units,
                self.record_track == old(self).record_track,
                self.clip == old(self).clip,
                self.clone_times == old(self).clone_times,
                rows@.len() == i,
                missing == unbound(pv.rows, resolved@, i as int),
                missing <= i,
                own_row_ids(rows@, self.next_row_id as int),
                forall|k: int|
                    0 <= k < i ==> is_loaded_row(
                        #[trigger] rows@[k],
                        pv.rows[k],
                        id0 + k,
                        bound(resolved@, k),
                        gains@[k],
                    ),
            decreases project.rows.len() - i,
        {
            let prow = &project.rows[i];
            assert(pv.rows[i as int] == prow@);
            let id: u64 = self.next_row_id;
            self.next_row_id = id + 1;
            let track = if i < resolved.len() {
                resolved[i]
            } else {
                None
            };
            let row = loaded_row(prow, id, track, gains[i]);
            if row.missing.is_some() {
                missing = missing + 1;
            }
            let ghost before = rows@;
            rows.push(row);
            proof {
                assert forall|a: int, b: int| 0 <= a < b < rows@.len() implies (
                #[trigger] rows@[a]).id != (#[trigger] rows@[b]).id by {
                    assert(rows@[a] == before[a]);
                    if b < before.len() {
                        assert(rows@[b] == before[b]);
                    }
                }
            }
            i += 1;
        }
        let count: usize = rows.len();
        self.rows = rows;
        let mut out = "Loaded ".to_owned();
        out.append(project.name.as_str());
        out.append(" — ");
        push_decimal(&mut out, count as u64);
        if missing == 0 {
            out.append(" row(s).");
        } else {
            out.append(" row(s), ");
            push_decimal(&mut out, missing as u64);
            out.append(" with a missing source: pick a new one in the row's select box.");
        }
        self.status = out;
    }

    /// Which tracks want their sound written on the next save.
    pub fn autosave_track_ids(&self) -> (r: Vec<u64>)
        ensures
            r@ == autosaved(self.rows@, self.rows@.len() as int),
    {
        let mut out: Vec<u64> = Vec::new();
        let mut i: usize = 0;
        assert(out@ =~= autosaved(self.rows@, 0));
        while i < self.rows.len()
            invariant
                i <= self.rows.len(),
                out@ == autosaved(self.rows@, i as int),
            decreases self.rows.len() - i,
        {
            if self.rows[i].autosave {
                if let Some(id) = self.rows[i].track_id {
                    out.push(id);
                }
            }
            i += 1;
        }
        out
    }

    /// Take whatever the Save and Load buttons asked for, if anything.
    pub fn take_request(&mut self) -> (r: Option<ProjectRequest>)
        ensures
            r == old(self).request,
            final(self).request is None,
            final(self).same_but_status(&ComposerPanel { request: None, ..*old(self) }),
            final(self).status == old(self).status,
    {
        let mut out: Option<ProjectRequest> = None;
        std::mem::swap(&mut out, &mut self.request);
        out
    }

    /// Record where a save landed, so the next one goes to the same folder.
    pub fn set_project_dir(&mut self, dir: String, name: String)
        ensures
            *final(self) == (ComposerPanel {
                project_dir: Some(dir),
                project_name: name,
                ..*old(self)
            }),
    {
        self.project_dir = Some(dir);
        self.project_name = name;
    }

    /// Say something.
    pub fn set_status(&mut self, status: String)
        ensures
            *final(self) == (ComposerPanel { status, ..*old(self) }),
    {
        self.status = status;
    }

    /// Whether a save under a name has to ask where to go.
    pub fn asks_where(&self, stem: &str) -> (r: bool)
        ensures
            r == has_to_ask(text_view(self.project_dir), stem@),
    {
        match &self.project_dir {
            Some(d) => !is_called(d.as_str(), stem) && parent(d.as_str()).is_none(),
            None => true,
        }
    }

    /// Press Save. An existing project saves in place unless the name has
    /// changed, in which case the new name gets its own folder beside it; a
    /// project that has never been saved goes where `picked` says.
    pub fn request_save(&mut self, stem: &str, picked: Option<String>)
        ensures
            final(self).same_but_status(
                &ComposerPanel { request: final(self).request, ..*old(self) },
            ),
            final(self).status == old(self).status,
            match save_folder(text_view(old(self).project_dir), stem@, text_view(picked)) {
                Some(dir) => is_save(final(self).request, dir, stem@),
                None => final(self).request == old(self).request,
            },
    {
        let dir = match &self.project_dir {
            Some(d) => if is_called(d.as_str(), stem) {
                Some(d.clone())
            } else {
                match parent(d.as_str()) {
                    Some(p) => Some(join(p.as_str(), stem)),
                    None => match picked {
                        Some(p) => Some(join(p.as_str(), stem)),
                        None => None,
                    },
                }
            },
            None => match picked {
                Some(p) => Some(join(p.as_str(), stem)),
                None => None,
            },
        };
        if let Some(d) = dir {
            self.request = Some(ProjectRequest::Save { dir: d, name: stem.to_owned() });
        }
    }

    /// Press Load, with the manifest that was picked.
    pub fn request_load(&mut self, file: String)
        ensures
            *final(self) == (ComposerPanel {
                request: Some(ProjectRequest::Load { file }),
                ..*old(self)
            }),
    {
        self.request = Some(ProjectRequest::Load { file });
    }
}

/// Whether a path's last part is a name.
fn is_called(path: &str, name: &str) -> (r: bool)
    ensures
        r == (name_of(path@) == Some(name@)),
{
    match name_chars(path) {
        Some(n) => same_chars(&n, &chars_of(name)),
        None => false,
    }
}

/// A row of a loaded project.
fn loaded_row(prow: &ProjectRow, id: u64, track: Option<u64>, gain: u32) -> (r: Row)
    ensures
        is_loaded_row(r, prow@, id as int, track, gain),
        r.ids_unique(),
{
    let mut row = Row::new(id, track);
    row.gain = gain;
    row.lead = prow.lead;
    row.autosave = prow.autosave;
    row.autoscroll = prow.autoscroll;
    row.missing = match (track, &prow.source) {
        (None, TrackSource::NoTrack) => None,
        (None, src) => Some(src.duplicate()),
        (Some(_), _) => None,
    };
    let mut items: Vec<Item> = Vec::new();
    let mut k: usize = 0;
    while k < prow.items.len()
        invariant
            k <= prow.items.len(),
            items@ == numbered(prow.items@.take(k as int)),
        decreases prow.items.len() - k,
    {
        items.push(Item { id: k as u64, ..prow.items[k] });
        k += 1;
        assert(items@ =~= numbered(prow.items@.take(k as int)));
    }
    assert(prow.items@.take(k as int) =~= prow.items@);
    row.items = items;
    row.next_item_id = k as u64;
    assert(ids_below(row.items@, k as int));
    row
}

/// A save after a load that could not find a source does not lose it: what is
/// written again is what the project asked for, whatever the app says of the
/// row's track.
pub proof fn law_a_missing_source_is_kept(
    row: Row,
    p: RowView,
    id: int,
    gain: u32,
    source: SourceView,
)
    requires
        is_loaded_row(row, p, id, None, gain),
        !(p.source is NoTrack),
    ensures
        kept_source(row, source) == p.source,
{
}

/// A row that was bound to a track is saved with that track's source.
pub proof fn law_a_bound_row_takes_its_tracks_source(
    row: Row,
    p: RowView,
    id: int,
    track: u64,
    gain: u32,
    source: SourceView,
)
    requires
        is_loaded_row(row, p, id, Some(track), gain),
    ensures
        kept_source(row, source) == source,
{
}

/// What is loaded and saved again holds the same frames, in the same order.
pub proof fn law_a_loaded_row_saves_its_frames(
    row: Row,
    p: RowView,
    id: int,
    track: Option<u64>,
    gain: u32,
    tracks: Seq<EntryView>,
    source: SourceView,
    text: Seq<char>,
)
    requires
        is_loaded_row(row, p, id, track, gain),
    ensures
        ({
            let again = row_saved(row, tracks, source, text);
            &&& again.lead == p.lead
            &&& again.autosave == p.autosave
            &&& again.items.len() == p.items.len()
            &&& forall|k: int|
                0 <= k < p.items.len() ==> (#[trigger] again.items[k]).pitch == p.items[k].pitch
                    && again.items[k].dur == p.items[k].dur && again.items[k].space
                    == p.items[k].space
        }),
{
}

/// Whether each panel is what the one before it becomes when its rows are
/// reconciled with the tracks there are at that time.
pub open spec fn reconciled_in_turn(
    panels: Seq<ComposerPanel>,
    registries: Seq<TrackRegistry>,
) -> bool {
    &&& panels.len() == registries.len() + 1
    &&& forall|k: int|
        0 <= k < registries.len() ==> is_reconciled(
            panels[k],
            panels[k + 1],
            #[trigger] registries[k],
        )
}

/// A row that is looking for its source stays as it is, however often the rows
/// are reconciled.
proof fn lemma_a_missing_row_stays(
    panels: Seq<ComposerPanel>,
    registries: Seq<TrackRegistry>,
    i: int,
    k: int,
)
    requires
        reconciled_in_turn(panels, registries),
        0 <= i < panels[0].rows@.len(),
        panels[0].rows@[i].missing is Some,
        0 <= k < panels.len(),
    ensures
        panels[k].rows@.len() == panels[0].rows@.len(),
        panels[k].rows@[i] == panels[0].rows@[i],
        panels[k].tempo_bpm == panels[0].tempo_bpm,
    decreases k,
{
    if k > 0 {
        lemma_a_missing_row_stays(panels, registries, i, k - 1);
        assert(is_reconciled(panels[k - 1], panels[k - 1 + 1], registries[k - 1]));
    }
}

/// A source that could not be found survives: loaded, reconciled with whatever
/// tracks there are, as often as may be, and saved again, its row asks for the
/// same source, goes by that source's name, is on no other track, and keeps its
/// level, its lead, its settings and its frames. What the app says of the row's
/// track (`sources`) does not matter.
pub proof fn law_a_missing_source_survives(
    project: ProjectView,
    resolved: Seq<Option<u64>>,
    gains: Seq<u32>,
    tempo: u32,
    first_row: int,
    panels: Seq<ComposerPanel>,
    registries: Seq<TrackRegistry>,
    tracks: Seq<EntryView>,
    sources: Seq<SourceView>,
    texts: Seq<Seq<char>>,
    again: ProjectView,
    i: int,
)
    requires
        reconciled_in_turn(panels, registries),
        panels[0].tempo_bpm == tempo,
        panels[0].rows@.len() == project.rows.len(),
        forall|k: int|
            0 <= k < panels[0].rows@.len() ==> is_loaded_row(
                #[trigger] panels[0].rows@[k],
                project.rows[k],
                first_row + k,
                bound(resolved, k),
                gains[k],
            ),
        again.rows.len() == panels.last().rows@.len(),
        forall|k: int|
            0 <= k < again.rows.len() ==> #[trigger] again.rows[k] == row_saved(
                panels.last().rows@[k],
                tracks,
                sources[k],
                texts[k],
            ),
        0 <= i < project.rows.len(),
        bound(resolved, i) is None,
        !(project.rows[i].source is NoTrack),
    ensures
        again.rows.len() == project.rows.len(),
        again.rows[i].source == project.rows[i].source,
        again.rows[i].track_name == source_name(project.rows[i].source),
        again.rows[i].lead == project.rows[i].lead,
        again.rows[i].autosave == project.rows[i].autosave,
        again.rows[i].autoscroll == project.rows[i].autoscroll,
        again.rows[i].items == numbered(project.rows[i].items),
        again.rows[i].gain == texts[i],
        panels.last().rows@[i].gain == gains[i],
        panels.last().rows@[i].track_id is None,
        panels.last().tempo_bpm == tempo,
{
    let row = panels[0].rows@[i];
    assert(is_loaded_row(row, project.rows[i], first_row + i, bound(resolved, i), gains[i]));
    assert(missing_view(row.missing) == Some(project.rows[i].source));
    assert(row.missing is Some);
    lemma_a_missing_row_stays(panels, registries, i, panels.len() - 1);
    assert(panels.last().rows@[i] == row);
    assert(again.rows[i] == row_saved(row, tracks, sources[i], texts[i]));
}

/// A row is saved with its own lead, frames and switches; by the name of its track
/// where that is there, else by what its missing source is called.
pub proof fn law_what_is_saved_of_a_row(
    row: Row,
    tracks: Seq<EntryView>,
    source: SourceView,
    gain: Seq<char>,
)
    ensures
        ({
            let p = row_saved(row, tracks, source, gain);
            &&& p.gain == gain && p.lead == row.lead && p.items == row.items@
            &&& p.autosave == row.autosave && p.autoscroll == row.autoscroll
            &&& row.missing is None ==> p.source == source
            &&& row.missing is Some ==> p.source == row.missing->0@
            &&& forall|k: int|
                0 <= k < tracks.len() && row.track_id == Some((#[trigger] tracks[k]).id) && (forall|
                    j: int,
                |
                    0 <= j < k ==> (#[trigger] tracks[j]).id != tracks[k].id) ==> p.track_name
                    == tracks[k].name
            &&& row.track_id is None && row.missing is None ==> p.track_name.len() == 0
            &&& row.track_id is None && row.missing is Some ==> p.track_name == source_name(
                row.missing->0@,
            )
        }),
{
    if let Some(id) = row.track_id {
        crate::registry::law_a_track_is_found_by_its_id(tracks, id);
        assert forall|k: int|
            0 <= k < tracks.len() && row.track_id == Some((#[trigger] tracks[k]).id) && (forall|
                j: int,
            |
                0 <= j < k ==> (#[trigger] tracks[j]).id != tracks[k].id) implies saved_name(
            row,
            tracks,
        ) == tracks[k].name by {
            let p = track_place(tracks, id);
            if p < k {
                assert(tracks[p].id != tracks[k].id);
            }
        }
    }
}

/// A row that is loaded is what the project says: its lead, its switches and its
/// frames, which are numbered from nothing up; on the track that was found for it, at
/// its level. It keeps its source only where no track was found.
pub proof fn law_what_a_loaded_row_is(row: Row, p: RowView, id: int, track: Option<u64>, gain: u32)
    requires
        is_loaded_row(row, p, id, track, gain),
        p.items.len() <= u64::MAX,
    ensures
        row.id == id && row.track_id == track && row.gain == gain && row.lead == p.lead,
        row.autosave == p.autosave && row.autoscroll == p.autoscroll && row.sel is None,
        row.items@.len() == p.items.len() && row.next_item_id == p.items.len(),
        forall|k: int|
            0 <= k < p.items.len() ==> (#[trigger] row.items@[k]) == (Item {
                id: k as u64,
                ..p.items[k]
            }),
        track is Some || p.source is NoTrack ==> row.missing is None,
        track is None && !(p.source is NoTrack) ==> row.missing is Some && row.missing->0@
            == p.source,
{
}

/// A row is bound to the track that was found for it, and to none where none was
/// looked for.
pub proof fn law_what_a_row_is_bound_to(resolved: Seq<Option<u64>>, i: int)
    requires
        0 <= i,
    ensures
        i < resolved.len() ==> bound(resolved, i) == resolved[i],
        i >= resolved.len() ==> bound(resolved, i) is None,
{
}

/// The rows counted as missing are those whose source is one and for which no track
/// was found.
pub proof fn law_every_missing_source_counts(
    rows: Seq<RowView>,
    resolved: Seq<Option<u64>>,
    n: int,
)
    requires
        0 <= n <= rows.len(),
        rows.len() == resolved.len(),
    ensures
        unbound(rows, resolved, n) == Seq::new(n as nat, |i: int| i).filter(
            |i: int| resolved[i] is None && !(rows[i].source is NoTrack),
        ).len(),
    decreases n,
{
    reveal(Seq::filter);
    let all = Seq::new(n as nat, |i: int| i);
    if n > 0 {
        law_every_missing_source_counts(rows, resolved, n - 1);
        assert(all.drop_last() =~= Seq::new((n - 1) as nat, |i: int| i));
        assert(all.last() == n - 1);
    }
}

/// The tracks that are saved on every save are those of the rows that ask for it, in
/// order: `at` is the row of each.
pub proof fn law_every_row_that_asks_is_autosaved(rows: Seq<Row>, n: int) -> (at: Seq<int>)
    requires
        0 <= n <= rows.len(),
    ensures
        at.len() == autosaved(rows, n).len(),
        forall|j: int, k: int| 0 <= j < k < at.len() ==> #[trigger] at[j] < #[trigger] at[k],
        forall|i: int|
            0 <= i < n && (#[trigger] rows[i]).autosave && rows[i].track_id is Some
                ==> at.contains(i),
        forall|k: int|
            0 <= k < at.len() ==> 0 <= #[trigger] at[k] < n && rows[at[k]].autosave
                && rows[at[k]].track_id == Some(autosaved(rows, n)[k]),
    decreases n,
{
    if n <= 0 {
        Seq::empty()
    } else {
        let before = law_every_row_that_asks_is_autosaved(rows, n - 1);
        let at = if rows[n - 1].autosave && rows[n - 1].track_id is Some {
            before.push(n - 1)
        } else {
            before
        };
        assert forall|i: int|
            0 <= i < n && (#[trigger] rows[i]).autosave
                && rows[i].track_id is Some implies at.contains(i) by {
            if i < n - 1 {
                assert(before.contains(i));
                let k = choose|k: int| 0 <= k < before.len() && before[k] == i;
                assert(at[k] == i);
            } else {
                assert(at[before.len() as int] == i);
            }
        }
        at
    }
}

/// A project goes back into its folder where that is called by its name; renamed, it
/// goes beside it; and where it has no folder it goes into the one that was picked,
/// in a folder of its name. It has to be asked for exactly where it has none to go by.
pub proof fn law_where_a_project_is_saved(
    dir: Option<Seq<char>>,
    stem: Seq<char>,
    picked: Option<Seq<char>>,
)
    ensures
        dir is Some && name_of(dir->0) == Some(stem) ==> save_folder(dir, stem, picked) == dir
            && !has_to_ask(dir, stem),
        dir is Some && name_of(dir->0) != Some(stem) && folder_of(dir->0) is Some ==> save_folder(
            dir,
            stem,
            picked,
        ) == Some(joined(folder_of(dir->0)->0, stem)) && !has_to_ask(dir, stem),
        dir is None || (name_of(dir->0) != Some(stem) && folder_of(dir->0) is None) ==> has_to_ask(
            dir,
            stem,
        ) && (picked is Some ==> save_folder(dir, stem, picked) == Some(joined(picked->0, stem)))
            && (picked is None ==> save_folder(dir, stem, picked) is None),
{
}

/// What is asked for in a save is the folder and the name.
pub proof fn law_what_a_save_asks_for(r: Option<ProjectRequest>, dir: Seq<char>, name: Seq<char>)
    requires
        is_save(r, dir, name),
    ensures
        r matches Some(ProjectRequest::Save { dir: d, name: n }) && d@ == dir && n@ == name,
{
}

/// What is said of a load names the project and counts its rows, and those of them
/// whose sources are missing.
pub proof fn law_what_is_said_of_a_load(name: Seq<char>, rows: int, missing: int)
    ensures
        missing == 0 ==> loaded_text(name, rows, missing) == "Loaded "@ + name + " — "@ + decimal(
            rows as nat,
        ) + " row(s)."@,
        missing != 0 ==> loaded_text(name, rows, missing) == "Loaded "@ + name + " — "@ + decimal(
            rows as nat,
        ) + " row(s), "@ + decimal(missing as nat)
            + " with a missing source: pick a new one in the row's select box."@,
{
}

} // verus!
