//! What a load brings back: the tracks that a project names, each once, and the
//! composition on top of them.

use vstd::prelude::*;

use crate::bytes::copy_bytes;
use crate::composer::panel::ComposerPanel;
use crate::composer::project::{same_source, text_view, Project, RowView, SourceView, TrackSource};
use crate::composer::saving::{bound, is_loaded_row, loaded_text, unbound};
use crate::path::{folder_of, parent};
use crate::registry::{bytes_view, lemma_others, others, wav_place, EntryView, TrackRegistry};
use crate::track_format::{StateView, TrackState};
use crate::tracks::naming::{classes_view, drum_kit, ClassInfo};
use crate::tracks::panel::{
    fresh_entry, fresh_track, without, PluginTrackView, TrackKind, TracksPanel,
};

verus! {

/// What was found where a source points.
#[derive(Debug)]
pub enum Material {
    /// Nothing: the file is gone, or could not be read.
    Nothing,
    /// The grid of a LeSynth track.
    Grid(TrackState),
    /// A recording, and how long it runs, as the bits of the number.
    Recording { secs: u32 },
    /// A plugin, the state saved for it where it could be read, and what its
    /// factory says where it could be asked.
    Plugin { bytes: Option<Vec<u8>>, classes: Option<Vec<ClassInfo>> },
}

/// The internal plugin: where it should be, and whether it is there.
#[derive(Clone, Debug)]
pub struct Internal {
    pub path: Option<String>,
    pub there: bool,
    pub class_id: [i8; 16],
}

/// The tracks of the panels, and those the registry holds.
#[verifier::ext_equal]
pub ghost struct Desk {
    pub tracks: Seq<PluginTrackView>,
    /// The next id of the tracks panel.
    pub next: int,
    pub entries: Seq<EntryView>,
    /// The next id of the registry.
    pub registered: int,
    /// The recordings that a project brought.
    pub wavs: Seq<u64>,
}

/// The tracks as they stand.
pub open spec fn desk_of(tracks: &TracksPanel, registry: &TrackRegistry, wavs: Seq<u64>) -> Desk {
    Desk {
        tracks: tracks@,
        next: tracks.next_id as int,
        entries: registry@,
        registered: registry.next(),
        wavs,
    }
}

/// The name a track is adopted under.
pub open spec fn given_name(name: Seq<char>) -> Seq<char> {
    if name.len() == 0 {
        "Track"@
    } else {
        name
    }
}

/// The tracks with one more, and its id.
pub open spec fn with_track(
    d: Desk,
    name: Seq<char>,
    kind: TrackKind,
    path: Seq<char>,
    class_id: Option<Seq<i8>>,
    state: Option<StateView>,
    bytes: Option<Seq<u8>>,
    percussion: bool,
) -> (Desk, Option<u64>) {
    let id = d.registered as u64;
    (
        Desk {
            tracks: d.tracks.push(
                fresh_track(d.next as u64, id, name, kind, path, class_id, state, bytes),
            ),
            next: d.next + 1,
            entries: d.entries.push(
                fresh_entry(id, name, kind, path, class_id, state, bytes, percussion),
            ),
            registered: d.registered + 1,
            wavs: d.wavs,
        },
        Some(id),
    )
}

/// The tracks with a LeSynth more, where the internal plugin is to be had.
pub open spec fn with_lesynth(
    d: Desk,
    name: Seq<char>,
    state: Option<StateView>,
    internal: Internal,
) -> (Desk, Option<u64>) {
    match internal.path {
        Some(path) if internal.there => with_track(
            d,
            name,
            TrackKind::LeSynth,
            path@,
            Some(internal.class_id@),
            state,
            None,
            false,
        ),
        _ => (d, None),
    }
}

/// The tracks with a recording: one track per file, so a file that is one already
/// is that one.
pub open spec fn with_recording(d: Desk, name: Seq<char>, path: Seq<char>, secs: u32) -> (
    Desk,
    Option<u64>,
) {
    let k = wav_place(d.entries, path);
    if k < d.entries.len() {
        (d, Some(d.entries[k].id))
    } else {
        let id = d.registered as u64;
        (
            Desk {
                entries: d.entries.push(
                    EntryView {
                        id,
                        name,
                        plugin_path: Seq::empty(),
                        class_id: None,
                        is_lesynth: false,
                        percussion: false,
                        state: None,
                        vst_state: None,
                        wav: Some((path, secs)),
                        live: None,
                    },
                ),
                registered: d.registered + 1,
                wavs: d.wavs.push(id),
                ..d
            },
            Some(id),
        )
    }
}

/// What one source of a project comes to, or nothing where it cannot be found.
pub open spec fn adopted(
    d: Desk,
    source: SourceView,
    track_name: Seq<char>,
    m: Material,
    internal: Internal,
) -> (Desk, Option<u64>) {
    let name = given_name(track_name);
    match source {
        SourceView::NoTrack => (d, None),
        SourceView::LeSynthDefault => with_lesynth(d, name, None, internal),
        SourceView::LeSynth { file } => match m {
            Material::Grid(g) => with_lesynth(d, name, Some(g@), internal),
            _ => (d, None),
        },
        SourceView::Wav { path } => match m {
            Material::Recording { secs } => with_recording(d, name, path, secs),
            _ => (d, None),
        },
        SourceView::Vst { path, class_id, state } => match m {
            Material::Plugin { bytes, classes } => with_track(
                d,
                name,
                TrackKind::CustomVst,
                path,
                class_id,
                None,
                if state is Some {
                    bytes_view(bytes)
                } else {
                    None
                },
                drum_kit(classes_view(classes), name),
            ),
            _ => (d, None),
        },
    }
}

/// The first row that plays a source.
pub open spec fn first_like(rows: Seq<RowView>, source: SourceView) -> int
    decreases rows.len(),
{
    if rows.len() == 0 || same_source(rows[0].source, source) {
        0
    } else {
        1 + first_like(rows.skip(1), source)
    }
}

/// What the first `n` rows of a project come to: distinct sources once, so that
/// rows that share a source share a track.
pub open spec fn all_adopted(
    d: Desk,
    rows: Seq<RowView>,
    materials: Seq<Material>,
    internal: Internal,
    n: int,
) -> (Desk, Seq<Option<u64>>)
    decreases n,
{
    if n <= 0 {
        (d, Seq::empty())
    } else {
        let (e, ids) = all_adopted(d, rows, materials, internal, n - 1);
        let k = first_like(rows, rows[n - 1].source);
        if k < n - 1 {
            (e, ids.push(ids[k]))
        } else {
            let (f, id) = adopted(
                e,
                rows[n - 1].source,
                rows[n - 1].track_name,
                materials[n - 1],
                internal,
            );
            (f, ids.push(id))
        }
    }
}

/// Entries without those of some ids.
pub open spec fn without_ids(entries: Seq<EntryView>, ids: Seq<u64>) -> Seq<EntryView>
    decreases ids.len(),
{
    if ids.len() == 0 {
        entries
    } else {
        others(without_ids(entries, ids.drop_last()), ids.last())
    }
}

/// The tracks once what the last project brought has gone.
pub open spec fn cleared(d: Desk) -> Desk {
    Desk {
        tracks: Seq::empty(),
        entries: without_ids(without(d.entries, d.tracks), d.wavs),
        wavs: Seq::empty(),
        ..d
    }
}

proof fn lemma_first_like(rows: Seq<RowView>, source: SourceView, k: int)
    requires
        0 <= k <= rows.len(),
        k < rows.len() ==> same_source(rows[k].source, source),
        forall|i: int| 0 <= i < k ==> !same_source((#[trigger] rows[i]).source, source),
    ensures
        first_like(rows, source) == k,
    decreases k,
{
    if k > 0 {
        assert(!same_source(rows[0].source, source));
        let rest = rows.skip(1);
        assert forall|i: int| 0 <= i < k - 1 implies !same_source(
            (#[trigger] rest[i]).source,
            source,
        ) by {
            assert(rest[i] == rows[i + 1]);
        }
        if k < rows.len() {
            assert(rest[k - 1] == rows[k]);
        }
        lemma_first_like(rest, source, k - 1);
    }
}

/// For every row of a project, the first row that plays the same source: the ones
/// that stand for themselves are those to look for.
pub fn first_rows(project: &Project) -> (r: Vec<usize>)
    ensures
        r@.len() == project@.rows.len(),
        forall|i: int|
            0 <= i < r@.len() ==> #[trigger] r@[i] == first_like(
                project@.rows,
                project@.rows[i].source,
            ) && r@[i] <= i,
{
    let ghost rows = project@.rows;
    let mut out: Vec<usize> = Vec::new();
    let n: usize = project.rows.len();
    let mut k: usize = 0;
    while k < n
        invariant
            k <= n,
            n == project.rows@.len(),
            rows == project@.rows,
            out@.len() == k,
            forall|i: int|
                0 <= i < k ==> #[trigger] out@[i] == first_like(rows, rows[i].source) && out@[i]
                    <= i,
        decreases n - k,
    {
        assert(rows[k as int] == project.rows@[k as int]@);
        let ghost source = rows[k as int].source;
        let mut j: usize = 0;
        while j < k && !project.rows[j].source.same_as(&project.rows[k].source)
            invariant
                j <= k,
                k < n,
                n == project.rows@.len(),
                rows == project@.rows,
                source == project.rows@[k as int].source@,
                forall|i: int| 0 <= i < j ==> !same_source((#[trigger] rows[i]).source, source),
            decreases k - j,
        {
            assert(rows[j as int] == project.rows@[j as int]@);
            j += 1;
        }
        proof {
            assert(rows[j as int] == project.rows@[j as int]@);
            lemma_first_like(rows, source, j as int);
        }
        out.push(j);
        k += 1;
    }
    out
}

/// Bind one source of a project to a track, or `None` where it cannot be found: a
/// deleted grid, a plugin that has moved. The row then shows what is missing.
fn adopt_source(
    source: &TrackSource,
    track_name: &str,
    material: &Material,
    internal: &Internal,
    tracks: &mut TracksPanel,
    registry: &mut TrackRegistry,
    wavs: &mut Vec<u64>,
) -> (r: Option<u64>)
    requires
        old(tracks).wf(old(registry)),
        old(tracks).next_id < u64::MAX,
        old(registry).next() < u64::MAX,
    ensures
        final(tracks).wf(final(registry)),
        final(tracks).browser == old(tracks).browser,
        final(tracks).status == old(tracks).status,
        final(tracks).next_id <= old(tracks).next_id + 1,
        final(registry).next() <= old(registry).next() + 1,
        ({
            let before = desk_of(old(tracks), old(registry), old(wavs)@);
            let (after, id) = adopted(before, source@, track_name@, *material, *internal);
            &&& desk_of(final(tracks), final(registry), final(wavs)@) == after
            &&& r == id
        }),
{
    let ghost before = desk_of(tracks, registry, wavs@);
    let name = if track_name.unicode_len() == 0 {
        "Track"
    } else {
        track_name
    };
    let plugin = match &internal.path {
        Some(p) => Some(p.as_str()),
        None => None,
    };
    match source {
        TrackSource::NoTrack => None,
        TrackSource::LeSynthDefault => {
            let done = tracks.adopt_lesynth(
                registry,
                name,
                None,
                plugin,
                internal.there,
                internal.class_id,
            );
            match done {
                Ok(id) => Some(id),
                Err(_) => None,
            }
        },
        TrackSource::LeSynth { file } => match material {
            Material::Grid(g) => {
                let done = tracks.adopt_lesynth(
                    registry,
                    name,
                    Some(g.duplicate()),
                    plugin,
                    internal.there,
                    internal.class_id,
                );
                match done {
                    Ok(id) => Some(id),
                    Err(_) => None,
                }
            },
            _ => None,
        },
        TrackSource::Wav { path } => match material {
            Material::Recording { secs } => {
                match registry.find_wav(path.as_str()) {
                    Some(id) => Some(id),
                    None => {
                        let id: u64 = registry.add_wav(name, path.as_str(), *secs);
                        wavs.push(id);
                        Some(id)
                    },
                }
            },
            _ => None,
        },
        TrackSource::Vst { path, class_id, state } => match material {
            Material::Plugin { bytes, classes } => {
                let kept = match bytes {
                    Some(b) => if state.is_some() {
                        Some(copy_bytes(b))
                    } else {
                        None
                    },
                    None => None,
                };
                let done = tracks.adopt_vst(
                    registry,
                    name,
                    path.as_str(),
                    true,
                    *class_id,
                    kept,
                    classes,
                );
                match done {
                    Ok(id) => Some(id),
                    Err(_) => None,
                }
            },
            _ => None,
        },
    }
}

/// Load a project: what is open goes, the tracks it names come, and the
/// composition is put on them. `materials` is what was found for each row's
/// source, `gains` and `tempo` its numbers as they were read.
pub fn load_project(
    project: &Project,
    dir: &str,
    materials: &Vec<Material>,
    internal: &Internal,
    gains: &Vec<u32>,
    tempo: u32,
    tracks: &mut TracksPanel,
    registry: &mut TrackRegistry,
    wavs: &mut Vec<u64>,
    composer: &mut ComposerPanel,
)
    requires
        old(tracks).wf(old(registry)),
        materials@.len() == project.rows@.len(),
        gains@.len() == project.rows@.len(),
        old(tracks).next_id + project.rows@.len() <= u64::MAX,
        old(registry).next() + project.rows@.len() <= u64::MAX,
        old(composer).next_row_id + project.rows@.len() <= u64::MAX,
    ensures
        final(tracks).wf(final(registry)),
        final(composer).wf(),
        final(tracks).status@ == "Cleared for a loaded project."@,
        final(tracks).browser == old(tracks).browser,
        ({
            let d = cleared(desk_of(old(tracks), old(registry), old(wavs)@));
            let (after, ids) = all_adopted(
                d,
                project@.rows,
                materials@,
                *internal,
                project@.rows.len() as int,
            );
            &&& desk_of(final(tracks), final(registry), final(wavs)@) == after
            &&& final(composer).rows@.len() == project@.rows.len()
            &&& forall|i: int|
                0 <= i < final(composer).rows@.len() ==> is_loaded_row(
                    #[trigger] final(composer).rows@[i],
                    project@.rows[i],
                    old(composer).next_row_id + i,
                    ids[i],
                    gains@[i],
                )
            &&& final(composer).status@ == loaded_text(
                project@.name,
                project@.rows.len() as int,
                unbound(project@.rows, ids, project@.rows.len() as int),
            )
        }),
        final(composer).tempo_bpm == tempo,
        final(composer).project_name@ == project@.name,
        text_view(final(composer).project_dir) == Some(dir@),
        !final(composer).playing,
        !final(composer).preparing,
        !final(composer).recording,
        final(composer).live_sent is None,
        final(composer).request == old(composer).request,
        final(composer).repeat == old(composer).repeat,
        final(composer).exporting == old(composer).exporting,
        final(composer).round_units == old(composer).round_units,
        final(composer).record_track == old(composer).record_track,
        final(composer).clip == old(composer).clip,
        final(composer).clone_times == old(composer).clone_times,
        final(composer).next_row_id == old(composer).next_row_id + project@.rows.len(),
{
    let ghost at_first = desk_of(tracks, registry, wavs@);
    let ghost rows = project@.rows;
    tracks.clear(registry);
    let ghost emptied = registry@;
    let ghost gone = wavs@;
    let count: usize = wavs.len();
    let mut w: usize = 0;
    assert(gone.take(0).len() == 0);
    while w < count
        invariant
            w <= count,
            count == wavs@.len(),
            gone == wavs@,
            registry.wf(),
            registry.next() == old(registry).next(),
            registry@ == without_ids(emptied, gone.take(w as int)),
        decreases count - w,
    {
        proof {
            let part = gone.take(w + 1);
            assert(part.drop_last() =~= gone.take(w as int));
            assert(part.last() == gone[w as int]);
        }
        registry.remove(wavs[w]);
        w += 1;
    }
    assert(gone.take(count as int) =~= gone);
    wavs.clear();
    let ghost d = cleared(at_first);
    proof {
        assert(tracks@ =~= Seq::empty());
        assert(wavs@ =~= Seq::<u64>::empty());
        assert(desk_of(tracks, registry, wavs@) =~= d);
    }
    let firsts = first_rows(project);
    let mut resolved: Vec<Option<u64>> = Vec::new();
    let n: usize = project.rows.len();
    let mut k: usize = 0;
    while k < n
        invariant
            k <= n,
            n == project.rows@.len(),
            n == materials@.len(),
            rows == project@.rows,
            firsts@.len() == n,
            forall|i: int|
                0 <= i < n ==> #[trigger] firsts@[i] == first_like(rows, rows[i].source)
                    && firsts@[i] <= i,
            tracks.wf(registry),
            tracks.status@ == "Cleared for a loaded project."@,
            tracks.browser == old(tracks).browser,
            tracks.next_id <= old(tracks).next_id + k,
            registry.next() <= old(registry).next() + k,
            old(tracks).next_id + n <= u64::MAX,
            old(registry).next() + n <= u64::MAX,
            resolved@.len() == k,
            (desk_of(tracks, registry, wavs@), resolved@) == all_adopted(
                d,
                rows,
                materials@,
                *internal,
                k as int,
            ),
        decreases n - k,
    {
        assert(rows[k as int] == project.rows@[k as int]@);
        let first: usize = firsts[k];
        let id = if first < k {
            resolved[first]
        } else {
            adopt_source(
                &project.rows[k].source,
                project.rows[k].track_name.as_str(),
                &materials[k],
                internal,
                tracks,
                registry,
                wavs,
            )
        };
        resolved.push(id);
        k += 1;
    }
    composer.apply_project(project, dir, &resolved, gains, tempo);
    proof {
        assert forall|i: int| 0 <= i < composer.rows@.len() implies is_loaded_row(
            #[trigger] composer.rows@[i],
            rows[i],
            old(composer).next_row_id + i,
            resolved@[i],
            gains@[i],
        ) by {
            assert(bound(resolved@, i) == resolved@[i]);
        }
    }
}

/// The folder of a project, by its manifest.
pub fn project_folder(file: &str) -> (r: String)
    ensures
        r@ == (match folder_of(file@) {
            Some(d) => d,
            None => "."@,
        }),
{
    match parent(file) {
        Some(d) => d,
        None => ".".to_owned(),
    }
}

/// A load did not work.
pub fn load_failed(composer: &mut ComposerPanel, why: &str)
    ensures
        final(composer).same_but_status(old(composer)),
        final(composer).status@ == "Load failed: "@ + why@,
{
    let mut out = "Load failed: ".to_owned();
    out.append(why);
    composer.set_status(out);
}

proof fn lemma_ids_len(
    d: Desk,
    rows: Seq<RowView>,
    materials: Seq<Material>,
    internal: Internal,
    n: int,
    i: int,
)
    requires
        0 <= i < n,
    ensures
        all_adopted(d, rows, materials, internal, n).1.len() == n,
        all_adopted(d, rows, materials, internal, n).1[i] == all_adopted(
            d,
            rows,
            materials,
            internal,
            i + 1,
        ).1[i],
        all_adopted(d, rows, materials, internal, i + 1).1.len() == i + 1,
    decreases n,
{
    if n > 1 {
        if i < n - 1 {
            lemma_ids_len(d, rows, materials, internal, n - 1, i);
        } else {
            lemma_ids_len(d, rows, materials, internal, n - 1, n - 2);
        }
    } else {
        assert(all_adopted(d, rows, materials, internal, 0).1.len() == 0);
    }
}

/// Rows of a project that play the same source play the same track.
pub proof fn law_rows_of_one_source_share_a_track(
    d: Desk,
    rows: Seq<RowView>,
    materials: Seq<Material>,
    internal: Internal,
    n: int,
    i: int,
    j: int,
)
    requires
        0 <= i < n,
        0 <= j < n,
        n <= rows.len(),
        same_source(rows[i].source, rows[j].source),
    ensures
        all_adopted(d, rows, materials, internal, n).1[i] == all_adopted(
            d,
            rows,
            materials,
            internal,
            n,
        ).1[j],
{
    lemma_leader(d, rows, materials, internal, n, i);
    lemma_leader(d, rows, materials, internal, n, j);
    lemma_same_leader(rows, rows[i].source, rows[j].source);
}

proof fn lemma_same_leader(rows: Seq<RowView>, a: SourceView, b: SourceView)
    requires
        same_source(a, b),
    ensures
        first_like(rows, a) == first_like(rows, b),
    decreases rows.len(),
{
    if rows.len() > 0 {
        assert(same_source(rows[0].source, a) == same_source(rows[0].source, b));
        lemma_same_leader(rows.skip(1), a, b);
    }
}

proof fn lemma_leads(rows: Seq<RowView>, i: int)
    requires
        0 <= i < rows.len(),
    ensures
        0 <= first_like(rows, rows[i].source) <= i,
    decreases rows.len(),
{
    if !same_source(rows[0].source, rows[i].source) {
        assert(rows.skip(1)[i - 1] == rows[i]);
        lemma_leads(rows.skip(1), i - 1);
    }
}

/// A row has the track of the first row that plays its source.
proof fn lemma_leader(
    d: Desk,
    rows: Seq<RowView>,
    materials: Seq<Material>,
    internal: Internal,
    n: int,
    i: int,
)
    requires
        0 <= i < n <= rows.len(),
    ensures
        0 <= first_like(rows, rows[i].source) <= i,
        ({
            let ids = all_adopted(d, rows, materials, internal, n).1;
            ids[i] == ids[first_like(rows, rows[i].source)]
        }),
{
    lemma_leads(rows, i);
    let k = first_like(rows, rows[i].source);
    lemma_ids_len(d, rows, materials, internal, n, i);
    lemma_ids_len(d, rows, materials, internal, n, k);
    if k < i {
        lemma_ids_len(d, rows, materials, internal, i, k);
    }
}

/// What a load clears away is what the last one brought: the panel's tracks and
/// the recordings of the last project are gone from the registry, and every other
/// track is still there.
pub proof fn law_a_load_clears_what_the_last_one_brought(d: Desk, e: EntryView)
    ensures
        cleared(d).entries.contains(e) <==> d.entries.contains(e) && !(exists|i: int|
            0 <= i < d.tracks.len() && (#[trigger] d.tracks[i]).registry_id == e.id)
            && !d.wavs.contains(e.id),
{
    lemma_without(d.entries, d.tracks, e);
    lemma_without_ids(without(d.entries, d.tracks), d.wavs, e);
}

proof fn lemma_others_contains(s: Seq<EntryView>, id: u64, e: EntryView)
    ensures
        others(s, id).contains(e) <==> s.contains(e) && e.id != id,
{
    lemma_others(s, id);
    let o = others(s, id);
    if o.contains(e) {
        let k = choose|k: int| 0 <= k < o.len() && o[k] == e;
        assert(o[k].id != id && s.contains(o[k]));
    }
    if s.contains(e) && e.id != id {
        let k = choose|k: int| 0 <= k < s.len() && s[k] == e;
        assert(s[k].id != id);
    }
}

proof fn lemma_without(s: Seq<EntryView>, tracks: Seq<PluginTrackView>, e: EntryView)
    ensures
        without(s, tracks).contains(e) <==> s.contains(e) && !(exists|i: int|
            0 <= i < tracks.len() && (#[trigger] tracks[i]).registry_id == e.id),
    decreases tracks.len(),
{
    if tracks.len() > 0 {
        let front = tracks.drop_last();
        lemma_without(s, front, e);
        lemma_others_contains(without(s, front), tracks.last().registry_id, e);
        if exists|i: int| 0 <= i < tracks.len() && (#[trigger] tracks[i]).registry_id == e.id {
            let i = choose|i: int|
                0 <= i < tracks.len() && (#[trigger] tracks[i]).registry_id == e.id;
            if i < front.len() {
                assert(front[i].registry_id == e.id);
            }
        }
        if exists|i: int| 0 <= i < front.len() && (#[trigger] front[i]).registry_id == e.id {
            let i = choose|i: int|
                0 <= i < front.len() && (#[trigger] front[i]).registry_id == e.id;
            assert(tracks[i].registry_id == e.id);
        }
        if tracks.last().registry_id == e.id {
            assert(tracks[tracks.len() - 1].registry_id == e.id);
        }
    }
}

proof fn lemma_without_ids(s: Seq<EntryView>, ids: Seq<u64>, e: EntryView)
    ensures
        without_ids(s, ids).contains(e) <==> s.contains(e) && !ids.contains(e.id),
    decreases ids.len(),
{
    if ids.len() > 0 {
        let front = ids.drop_last();
        lemma_without_ids(s, front, e);
        lemma_others_contains(without_ids(s, front), ids.last(), e);
        if ids.contains(e.id) {
            let i = choose|i: int| 0 <= i < ids.len() && ids[i] == e.id;
            if i < front.len() {
                assert(front[i] == e.id);
            }
        }
        if front.contains(e.id) {
            let i = choose|i: int| 0 <= i < front.len() && front[i] == e.id;
            assert(ids[i] == e.id);
        }
        if ids.last() == e.id {
            assert(ids[ids.len() - 1] == e.id);
        }
    }
}

/// The first row with a source is where that source first stands.
pub proof fn law_a_source_first_stands_where_it_is_found(rows: Seq<RowView>, source: SourceView)
    ensures
        0 <= first_like(rows, source) <= rows.len(),
        first_like(rows, source) < rows.len() ==> same_source(
            rows[first_like(rows, source)].source,
            source,
        ),
        forall|k: int|
            0 <= k < rows.len() && same_source((#[trigger] rows[k]).source, source) ==> first_like(
                rows,
                source,
            ) <= k,
    decreases rows.len(),
{
    if rows.len() > 0 && !same_source(rows[0].source, source) {
        let rest = rows.skip(1);
        law_a_source_first_stands_where_it_is_found(rest, source);
        assert forall|k: int|
            0 <= k < rows.len() && same_source(
                (#[trigger] rows[k]).source,
                source,
            ) implies first_like(rows, source) <= k by {
            if k > 0 {
                assert(rest[k - 1] == rows[k]);
            }
        }
    }
}

/// Nothing is brought for a row without a track, nor for a source whose material was
/// not found.
pub proof fn law_what_is_not_found_brings_nothing(
    d: Desk,
    source: SourceView,
    track_name: Seq<char>,
    m: Material,
    internal: Internal,
)
    requires
        ({
            ||| source is NoTrack
            ||| source is LeSynth && !(m is Grid)
            ||| source is Wav && !(m is Recording)
            ||| source is Vst && !(m is Plugin)
            ||| (source is LeSynth || source is LeSynthDefault) && (internal.path is None
                || !internal.there)
        }),
    ensures
        adopted(d, source, track_name, m, internal) == (d, None::<u64>),
{
}

/// A plugin that was found comes back as a track behind the others: at its path, with
/// its class, with the bytes of its state where the project names one, and called by
/// the name that was saved. The row plays it.
pub proof fn law_a_plugin_comes_back(
    d: Desk,
    path: Seq<char>,
    class_id: Option<Seq<i8>>,
    state: Option<Seq<char>>,
    track_name: Seq<char>,
    bytes: Option<Vec<u8>>,
    classes: Option<Vec<ClassInfo>>,
    internal: Internal,
)
    requires
        0 <= d.registered <= u64::MAX,
        0 <= d.next <= u64::MAX,
    ensures
        ({
            let (e, id) = adopted(
                d,
                SourceView::Vst { path, class_id, state },
                track_name,
                Material::Plugin { bytes, classes },
                internal,
            );
            let entry = e.entries.last();
            let track = e.tracks.last();
            &&& e.entries.len() == d.entries.len() + 1 && e.entries.drop_last() == d.entries
            &&& e.tracks.len() == d.tracks.len() + 1 && e.tracks.drop_last() == d.tracks
            &&& e.wavs == d.wavs && e.registered == d.registered + 1 && e.next == d.next + 1
            &&& id == Some(entry.id) && entry.id == d.registered && track.registry_id == entry.id
            &&& track.id == d.next && track.kind is CustomVst && !entry.is_lesynth
            &&& entry.plugin_path == path && track.plugin_path == path
            &&& entry.class_id == class_id && track.class_id == class_id
            &&& state is None || bytes is None ==> entry.vst_state is None && track.vst_state is None
            &&& state is Some && bytes is Some ==> entry.vst_state == Some(bytes->0@)
                && track.vst_state == Some(bytes->0@)
            &&& track_name.len() > 0 ==> entry.name == track_name && track.name == track_name
            &&& track_name.len() == 0 ==> entry.name == "Track"@
            &&& entry.wav is None && entry.state is None
        }),
{
    let (e, id) = adopted(
        d,
        SourceView::Vst { path, class_id, state },
        track_name,
        Material::Plugin { bytes, classes },
        internal,
    );
    assert(e.entries.drop_last() =~= d.entries);
    assert(e.tracks.drop_last() =~= d.tracks);
}

/// A LeSynth track comes back behind the others, on the internal plugin, with the
/// grid that was read for it, or without one where the project names none.
pub proof fn law_a_lesynth_track_comes_back(
    d: Desk,
    source: SourceView,
    track_name: Seq<char>,
    m: Material,
    internal: Internal,
)
    requires
        internal.path is Some,
        internal.there,
        source is LeSynthDefault || (source is LeSynth && m is Grid),
        0 <= d.registered <= u64::MAX,
        0 <= d.next <= u64::MAX,
    ensures
        ({
            let (e, id) = adopted(d, source, track_name, m, internal);
            let entry = e.entries.last();
            let track = e.tracks.last();
            &&& e.entries.len() == d.entries.len() + 1 && e.entries.drop_last() == d.entries
            &&& e.tracks.len() == d.tracks.len() + 1 && e.tracks.drop_last() == d.tracks
            &&& e.wavs == d.wavs && e.registered == d.registered + 1 && e.next == d.next + 1
            &&& id == Some(entry.id) && entry.id == d.registered && track.registry_id == entry.id
            &&& track.kind is LeSynth && entry.is_lesynth
            &&& entry.plugin_path == internal.path->0@ && entry.class_id == Some(internal.class_id@)
            &&& source is LeSynthDefault ==> entry.state is None && track.import_state is None
            &&& source is LeSynth ==> entry.state == Some(m->Grid_0@) && track.import_state == Some(
                m->Grid_0@,
            )
            &&& track_name.len() > 0 ==> entry.name == track_name
            &&& !entry.percussion && entry.vst_state is None && entry.wav is None
        }),
{
    let (e, id) = adopted(d, source, track_name, m, internal);
    assert(e.entries.drop_last() =~= d.entries);
    assert(e.tracks.drop_last() =~= d.tracks);
}

/// A recording that is registered already is played by that track; one that is not
/// is registered behind the others, with its path and its length, and is known to
/// have come with the project.
pub proof fn law_a_recording_comes_back_once(
    d: Desk,
    path: Seq<char>,
    track_name: Seq<char>,
    secs: u32,
    internal: Internal,
)
    requires
        0 <= d.registered <= u64::MAX,
    ensures
        ({
            let (e, id) = adopted(
                d,
                SourceView::Wav { path },
                track_name,
                Material::Recording { secs },
                internal,
            );
            let k = wav_place(d.entries, path);
            &&& k < d.entries.len() ==> e == d && id == Some(d.entries[k].id)
            &&& k == d.entries.len() ==> {
                let entry = e.entries.last();
                &&& e.entries.len() == d.entries.len() + 1 && e.entries.drop_last() == d.entries
                &&& e.tracks == d.tracks && e.next == d.next && e.registered == d.registered + 1
                &&& id == Some(entry.id) && entry.id == d.registered
                &&& entry.wav == Some((path, secs))
                &&& e.wavs == d.wavs.push(entry.id)
                &&& track_name.len() > 0 ==> entry.name == track_name
            }
        }),
{
    let (e, id) = adopted(
        d,
        SourceView::Wav { path },
        track_name,
        Material::Recording { secs },
        internal,
    );
    if wav_place(d.entries, path) == d.entries.len() {
        assert(e.entries.drop_last() =~= d.entries);
    }
}

/// Every row is given a track or none, in order; a row whose source no earlier row
/// has gets what its own source brings, on top of what the rows before it brought.
pub proof fn law_every_row_gets_what_its_source_brings(
    d: Desk,
    rows: Seq<RowView>,
    materials: Seq<Material>,
    internal: Internal,
    n: int,
    i: int,
)
    requires
        0 <= i < n <= rows.len(),
    ensures
        all_adopted(d, rows, materials, internal, n).1.len() == n,
        (forall|j: int|
            0 <= j < i ==> !same_source((#[trigger] rows[j]).source, rows[i].source)) ==> all_adopted(
            d,
            rows,
            materials,
            internal,
            n,
        ).1[i] == adopted(
            all_adopted(d, rows, materials, internal, i).0,
            rows[i].source,
            rows[i].track_name,
            materials[i],
            internal,
        ).1,
    decreases n,
{
    lemma_as_many_ids(d, rows, materials, internal, n);
    if i < n - 1 {
        law_every_row_gets_what_its_source_brings(d, rows, materials, internal, n - 1, i);
        assert(all_adopted(d, rows, materials, internal, n).1[i] == all_adopted(
            d,
            rows,
            materials,
            internal,
            n - 1,
        ).1[i]);
    } else {
        law_a_source_first_stands_where_it_is_found(rows, rows[i].source);
        let k = first_like(rows, rows[i].source);
        if k < i {
            assert(same_source(rows[k].source, rows[i].source));
        }
        lemma_as_many_ids(d, rows, materials, internal, n - 1);
    }
}

proof fn lemma_as_many_ids(
    d: Desk,
    rows: Seq<RowView>,
    materials: Seq<Material>,
    internal: Internal,
    n: int,
)
    requires
        0 <= n,
    ensures
        all_adopted(d, rows, materials, internal, n).1.len() == n,
    decreases n,
{
    if n > 0 {
        lemma_as_many_ids(d, rows, materials, internal, n - 1);
    }
}

/// A load starts from an empty desk: no track of the panel and no recording of the
/// last project, and the numbers go on where they stood.
pub proof fn law_a_load_starts_from_an_empty_desk(d: Desk)
    ensures
        cleared(d).tracks.len() == 0,
        cleared(d).wavs.len() == 0,
        cleared(d).next == d.next,
        cleared(d).registered == d.registered,
{
}

/// Taking ids out leaves the entries of every other id, and none of those.
pub proof fn law_taking_ids_out_leaves_the_others(
    entries: Seq<EntryView>,
    ids: Seq<u64>,
    e: EntryView,
)
    ensures
        without_ids(entries, ids).contains(e) <==> entries.contains(e) && !ids.contains(e.id),
    decreases ids.len(),
{
    if ids.len() > 0 {
        law_taking_ids_out_leaves_the_others(entries, ids.drop_last(), e);
        lemma_others_contains(without_ids(entries, ids.drop_last()), ids.last(), e);
        let init = ids.drop_last();
        if ids.contains(e.id) && e.id != ids.last() {
            let k = choose|k: int| 0 <= k < ids.len() && ids[k] == e.id;
            assert(init[k] == e.id);
        }
        if init.contains(e.id) {
            let k = choose|k: int| 0 <= k < init.len() && init[k] == e.id;
            assert(ids[k] == e.id);
        }
    }
}

/// What stays listed when a desk is cleared: all that neither a track of the panel nor
/// a recording of the last project brought.
pub proof fn law_what_stays_listed(d: Desk, e: EntryView)
    ensures
        cleared(d).entries.contains(e) <==> d.entries.contains(e) && !d.wavs.contains(e.id)
            && forall|i: int|
            0 <= i < d.tracks.len() ==> (#[trigger] d.tracks[i]).registry_id != e.id,
{
    law_taking_ids_out_leaves_the_others(without(d.entries, d.tracks), d.wavs, e);
    crate::tracks::panel::law_taking_tracks_out_leaves_the_others(d.entries, d.tracks, e);
}

} // verus!
