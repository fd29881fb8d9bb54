//! What a save writes: the manifest's sources, and a file for every sound that
//! can be kept beside it.

use vstd::prelude::*;

use crate::composer::names::{candidate, first_free, is_taken, safe_name, unique_file_name};
use crate::composer::panel::ComposerPanel;
use crate::composer::project::{SourceView, TrackSource};
use crate::path::{file_label, label_of};
use crate::registry::{PlaybackSource, PlaybackView};
use crate::text::{ascii_lower, decimal, push_decimal};
use crate::track_format::{StateView, TrackState};

verus! {

/// A sound that is kept in a file of its own.
#[derive(Debug)]
pub enum Sound {
    /// The grid of a LeSynth track.
    Grid(TrackState),
    /// The state of any other plugin, as it gave it.
    Bytes(Vec<u8>),
}

/// What a sound holds.
pub ghost enum SoundView {
    Grid(StateView),
    Bytes(Seq<u8>),
}

impl View for Sound {
    type V = SoundView;

    open spec fn view(&self) -> SoundView {
        match self {
            Sound::Grid(s) => SoundView::Grid(s@),
            Sound::Bytes(b) => SoundView::Bytes(b@),
        }
    }
}

/// A file that a save may write.
#[derive(Debug)]
pub struct SoundFile {
    /// The track it is the sound of.
    pub id: u64,
    pub file: String,
    pub sound: Sound,
}

/// What a save comes to.
#[derive(Debug)]
pub struct SavePlan {
    /// The source of every track that can be played.
    pub sources: Vec<(u64, TrackSource)>,
    pub files: Vec<SoundFile>,
}

/// The sound a track keeps in a file, and what such files end in. A recording
/// keeps none, for it is a file of the user's own; nor does a plugin that gave no
/// state, nor a LeSynth in plain synth mode.
pub open spec fn sound_of(p: PlaybackView) -> Option<(Seq<char>, SoundView)> {
    if p.wav is Some {
        None
    } else if p.is_lesynth {
        match p.state {
            Some(s) => Some(("lsft"@, SoundView::Grid(s))),
            None => None,
        }
    } else {
        match p.vst_state {
            Some(b) => Some(("vststate"@, SoundView::Bytes(b))),
            None => None,
        }
    }
}

/// The source a track is saved with, given the file of its sound where it has
/// one.
pub open spec fn source_of(p: PlaybackView, file: Seq<char>) -> SourceView {
    match p.wav {
        Some(path) => SourceView::Wav { path },
        None => if p.is_lesynth {
            if p.state is Some {
                SourceView::LeSynth { file }
            } else {
                SourceView::LeSynthDefault
            }
        } else {
            SourceView::Vst {
                path: p.plugin_path,
                class_id: p.class_id,
                state: if p.vst_state is Some {
                    Some(file)
                } else {
                    None
                },
            }
        },
    }
}

/// The names of some files.
pub open spec fn file_names(files: Seq<SoundFile>) -> Seq<String> {
    files.map_values(|f: SoundFile| f.file)
}

/// Whether a name is the first one free for a track's sound.
pub open spec fn is_free_name(
    name: Seq<char>,
    track: Seq<char>,
    ext: Seq<char>,
    taken: Seq<String>,
) -> bool {
    exists|k: nat|
        name == candidate(safe_name(track), ext, k) && #[trigger] first_free(
            safe_name(track),
            ext,
            taken,
            k,
        )
}

/// Whether a plan is that of the first `n` tracks: one file per track, however
/// many rows share it, each under a name that is still free.
pub open spec fn is_plan(
    tracks: Seq<(u64, String)>,
    played: Seq<Option<PlaybackView>>,
    n: int,
    sources: Seq<(u64, TrackSource)>,
    files: Seq<SoundFile>,
) -> bool
    decreases n,
{
    if n <= 0 {
        sources.len() == 0 && files.len() == 0
    } else {
        match played[n - 1] {
            None => is_plan(tracks, played, n - 1, sources, files),
            Some(p) => {
                &&& sources.len() > 0
                &&& sources.last().0 == tracks[n - 1].0
                &&& match sound_of(p) {
                    None => {
                        &&& sources.last().1@ == source_of(p, Seq::empty())
                        &&& is_plan(tracks, played, n - 1, sources.drop_last(), files)
                    },
                    Some((ext, sound)) => {
                        &&& files.len() > 0
                        &&& files.last().id == tracks[n - 1].0
                        &&& files.last().sound@ == sound
                        &&& sources.last().1@ == source_of(p, files.last().file@)
                        &&& is_free_name(
                            files.last().file@,
                            tracks[n - 1].1@,
                            ext,
                            file_names(files.drop_last()),
                        )
                        &&& is_plan(
                            tracks,
                            played,
                            n - 1,
                            sources.drop_last(),
                            files.drop_last(),
                        )
                    },
                }
            },
        }
    }
}

/// What optional playback sources hold.
pub open spec fn played_view(s: Seq<Option<PlaybackSource>>) -> Seq<Option<PlaybackView>> {
    s.map_values(
        |p: Option<PlaybackSource>|
            match p {
                Some(q) => Some(q@),
                None => None,
            },
    )
}

/// Which names are taken depends on what they say alone.
proof fn lemma_taken(a: Seq<String>, b: Seq<String>, name: Seq<char>)
    requires
        a.len() == b.len(),
        forall|i: int| 0 <= i < a.len() ==> (#[trigger] a[i])@ == b[i]@,
    ensures
        is_taken(a, name) ==> is_taken(b, name),
{
    if is_taken(a, name) {
        let i = choose|i: int|
            0 <= i < a.len() && ascii_lower((#[trigger] a[i])@) == ascii_lower(name);
        assert(ascii_lower(b[i]@) == ascii_lower(name));
    }
}

proof fn lemma_free(a: Seq<String>, b: Seq<String>, stem: Seq<char>, ext: Seq<char>, k: nat)
    requires
        a.len() == b.len(),
        forall|i: int| 0 <= i < a.len() ==> (#[trigger] a[i])@ == b[i]@,
        first_free(stem, ext, a, k),
    ensures
        first_free(stem, ext, b, k),
{
    lemma_taken(b, a, candidate(stem, ext, k));
    assert forall|j: nat| j < k implies #[trigger] is_taken(b, candidate(stem, ext, j)) by {
        assert(is_taken(a, candidate(stem, ext, j)));
        lemma_taken(a, b, candidate(stem, ext, j));
    }
}

/// The file name for a track's sound.
fn name_sound(track: &str, ext: &str, files: &Vec<SoundFile>, taken: &Vec<String>) -> (r: String)
    requires
        taken@.len() == files@.len(),
        taken@.len() < usize::MAX,
        forall|i: int| 0 <= i < taken@.len() ==> (#[trigger] taken@[i])@ == files@[i].file@,
    ensures
        is_free_name(r@, track@, ext@, file_names(files@)),
{
    let name = unique_file_name(track, ext, taken);
    proof {
        let k = choose|k: nat|
            name@ == candidate(safe_name(track@), ext@, k) && first_free(
                safe_name(track@),
                ext@,
                taken@,
                k,
            );
        lemma_free(taken@, file_names(files@), safe_name(track@), ext@, k);
    }
    name
}

/// What a save writes. `tracks` are the tracks of the registry, by id and name,
/// and `played` what each of them plays right now.
pub fn plan_save(tracks: &Vec<(u64, String)>, played: &Vec<Option<PlaybackSource>>) -> (r: SavePlan)
    requires
        tracks@.len() == played@.len(),
        tracks@.len() < usize::MAX,
    ensures
        is_plan(tracks@, played_view(played@), tracks@.len() as int, r.sources@, r.files@),
{
    let ghost pv = played_view(played@);
    let mut sources: Vec<(u64, TrackSource)> = Vec::new();
    let mut files: Vec<SoundFile> = Vec::new();
    let mut taken: Vec<String> = Vec::new();
    let n: usize = tracks.len();
    let mut k: usize = 0;
    while k < n
        invariant
            k <= n,
            n == tracks@.len(),
            n == played@.len(),
            n < usize::MAX,
            pv == played_view(played@),
            files@.len() <= k,
            taken@.len() == files@.len(),
            forall|i: int| 0 <= i < taken@.len() ==> (#[trigger] taken@[i])@ == files@[i].file@,
            is_plan(tracks@, pv, k as int, sources@, files@),
        decreases n - k,
    {
        let id: u64 = tracks[k].0;
        let name = tracks[k].1.as_str();
        let ghost sources_before = sources@;
        let ghost files_before = files@;
        if let Some(p) = &played[k] {
            assert(pv[k as int] == Some(p@));
            let mut sound: Option<Sound> = None;
            let mut file = String::new();
            assert(file@ =~= Seq::<char>::empty());
            if p.wav.is_none() {
                if p.is_lesynth {
                    if let Some(s) = &p.state {
                        file = name_sound(name, "lsft", &files, &taken);
                        sound = Some(Sound::Grid(s.duplicate()));
                    }
                } else if let Some(b) = &p.vst_state {
                    file = name_sound(name, "vststate", &files, &taken);
                    sound = Some(Sound::Bytes(crate::bytes::copy_bytes(b)));
                }
            }
            let source = match &p.wav {
                Some(path) => TrackSource::Wav { path: path.clone() },
                None => if p.is_lesynth {
                    if sound.is_some() {
                        TrackSource::LeSynth { file: file.clone() }
                    } else {
                        TrackSource::LeSynthDefault
                    }
                } else {
                    TrackSource::Vst {
                        path: p.plugin_path.clone(),
                        class_id: p.class_id,
                        state: if sound.is_some() {
                            Some(file.clone())
                        } else {
                            None
                        },
                    }
                },
            };
            assert(source@ == source_of(p@, file@));
            sources.push((id, source));
            assert(sources@.drop_last() =~= sources_before);
            if let Some(s) = sound {
                taken.push(file.clone());
                files.push(SoundFile { id, file, sound: s });
                assert(files@.drop_last() =~= files_before);
            }
        } else {
            assert(pv[k as int] is None);
        }
        k += 1;
    }
    SavePlan { sources, files }
}

/// No two sounds of a save go to the same file, on any file system: their names
/// differ in more than the case of their letters.
pub proof fn law_no_two_sounds_share_a_file(
    tracks: Seq<(u64, String)>,
    played: Seq<Option<PlaybackView>>,
    n: int,
    sources: Seq<(u64, TrackSource)>,
    files: Seq<SoundFile>,
    a: int,
    b: int,
)
    requires
        is_plan(tracks, played, n, sources, files),
        0 <= a < b < files.len(),
    ensures
        ascii_lower(files[a].file@) != ascii_lower(files[b].file@),
    decreases n,
{
    match played[n - 1] {
        None => {
            law_no_two_sounds_share_a_file(tracks, played, n - 1, sources, files, a, b);
        },
        Some(p) => {
            match sound_of(p) {
                None => {
                    law_no_two_sounds_share_a_file(
                        tracks,
                        played,
                        n - 1,
                        sources.drop_last(),
                        files,
                        a,
                        b,
                    );
                },
                Some((ext, sound)) => {
                    let front = files.drop_last();
                    if b < front.len() {
                        law_no_two_sounds_share_a_file(
                            tracks,
                            played,
                            n - 1,
                            sources.drop_last(),
                            front,
                            a,
                            b,
                        );
                    } else {
                        let stem = safe_name(tracks[n - 1].1@);
                        let k = choose|k: nat|
                            files.last().file@ == candidate(stem, ext, k) && #[trigger] first_free(
                                stem,
                                ext,
                                file_names(front),
                                k,
                            );
                        assert(!is_taken(file_names(front), candidate(stem, ext, k)));
                        assert(file_names(front)[a] == files[a].file);
                    }
                },
            }
        },
    }
}

/// Whether a sound's file is written: when a row that plays the track has
/// autosave on, and when it is not there yet. Otherwise the file that is there is
/// left as it is, which is what pins a sound.
pub fn writes_sound(autosave: &Vec<u64>, id: u64, there: bool) -> (r: bool)
    ensures
        r == (autosave@.contains(id) || !there),
{
    if !there {
        return true;
    }
    let n: usize = autosave.len();
    let mut k: usize = 0;
    while k < n
        invariant
            k <= n,
            n == autosave@.len(),
            forall|i: int| 0 <= i < k ==> autosave@[i] != id,
        decreases n - k,
    {
        if autosave[k] == id {
            assert(autosave@[k as int] == id);
            return true;
        }
        k += 1;
    }
    false
}

/// The source that a plan has for a track.
pub open spec fn planned_source(sources: Seq<(u64, TrackSource)>, id: Option<u64>) -> SourceView
    decreases sources.len(),
{
    match id {
        None => SourceView::NoTrack,
        Some(t) => if sources.len() == 0 {
            SourceView::NoTrack
        } else if sources[0].0 == t {
            sources[0].1@
        } else {
            planned_source(sources.skip(1), id)
        },
    }
}

fn find_source(sources: &Vec<(u64, TrackSource)>, id: Option<u64>) -> (r: TrackSource)
    ensures
        r@ == planned_source(sources@, id),
{
    let t: u64 = match id {
        None => {
            return TrackSource::NoTrack;
        },
        Some(t) => t,
    };
    let mut k: usize = 0;
    assert(sources@.skip(0) =~= sources@);
    while k < sources.len()
        invariant
            k <= sources.len(),
            id == Some(t),
            planned_source(sources@, id) == planned_source(sources@.skip(k as int), id),
        decreases sources.len() - k,
    {
        assert(sources@.skip(k as int)[0] == sources@[k as int]);
        if sources[k].0 == t {
            return sources[k].1.duplicate();
        }
        assert(sources@.skip(k as int).skip(1) =~= sources@.skip(k + 1));
        k += 1;
    }
    TrackSource::NoTrack
}

/// The source every row of a composition is saved with, by its track.
pub fn row_sources(composer: &ComposerPanel, plan: &SavePlan) -> (r: Vec<TrackSource>)
    ensures
        r@.len() == composer.rows@.len(),
        forall|i: int|
            0 <= i < r@.len() ==> (#[trigger] r@[i])@ == planned_source(
                plan.sources@,
                composer.rows@[i].track_id,
            ),
{
    let mut out: Vec<TrackSource> = Vec::new();
    let n: usize = composer.rows.len();
    let mut k: usize = 0;
    while k < n
        invariant
            k <= n,
            n == composer.rows@.len(),
            out@.len() == k,
            forall|i: int|
                0 <= i < k ==> (#[trigger] out@[i])@ == planned_source(
                    plan.sources@,
                    composer.rows@[i].track_id,
                ),
        decreases n - k,
    {
        out.push(find_source(&plan.sources, composer.rows[k].track_id));
        k += 1;
    }
    out
}

/// A save came to an end. One that worked is where the next one goes.
pub fn finish_save(
    composer: &mut ComposerPanel,
    dir: String,
    name: String,
    outcome: Result<usize, String>,
)
    ensures
        match outcome {
            Ok(n) => {
                &&& final(composer).same_but_status(
                    &ComposerPanel {
                        project_dir: Some(dir),
                        project_name: name,
                        ..*old(composer)
                    },
                )
                &&& final(composer).status@ == "Saved to "@ + label_of(dir@) + " ("@ + decimal(
                    n as nat,
                ) + " grid file(s))."@
            },
            Err(why) => {
                &&& final(composer).same_but_status(old(composer))
                &&& final(composer).status@ == "Save failed: "@ + why@
            },
        },
{
    match outcome {
        Ok(n) => {
            let mut out = "Saved to ".to_owned();
            out.append(file_label(dir.as_str()).as_str());
            out.append(" (");
            push_decimal(&mut out, n as u64);
            out.append(" grid file(s)).");
            composer.set_project_dir(dir, name);
            composer.set_status(out);
        },
        Err(why) => {
            let mut out = "Save failed: ".to_owned();
            out.append(why.as_str());
            composer.set_status(out);
        },
    }
}

/// What is written of a track's sound is the grid of a LeSynth track and the state of
/// any other plugin, where there is one; a recording is its own file and nothing is
/// written of it.
pub proof fn law_what_is_written_of_a_sound(p: PlaybackView)
    ensures
        p.wav is Some ==> sound_of(p) is None,
        p.wav is None && p.is_lesynth && p.state is Some ==> sound_of(p) == Some(
            ("lsft"@, SoundView::Grid(p.state->0)),
        ),
        p.wav is None && !p.is_lesynth && p.vst_state is Some ==> sound_of(p) == Some(
            ("vststate"@, SoundView::Bytes(p.vst_state->0)),
        ),
        p.wav is None && p.is_lesynth && p.state is None ==> sound_of(p) is None,
        p.wav is None && !p.is_lesynth && p.vst_state is None ==> sound_of(p) is None,
{
}

/// A project names a recording by its path, a LeSynth track by its grid's file, or as
/// the plain one where it has no grid, and any other plugin by its path and class and
/// the file of its state, where it has one.
pub proof fn law_how_a_source_is_named(p: PlaybackView, file: Seq<char>)
    ensures
        p.wav is Some ==> source_of(p, file) == (SourceView::Wav { path: p.wav->0 }),
        p.wav is None && p.is_lesynth && p.state is Some ==> source_of(p, file) == (
        SourceView::LeSynth { file }),
        p.wav is None && p.is_lesynth && p.state is None ==> source_of(p, file)
            == SourceView::LeSynthDefault,
        p.wav is None && !p.is_lesynth && p.vst_state is Some ==> source_of(p, file) == (
        SourceView::Vst { path: p.plugin_path, class_id: p.class_id, state: Some(file) }),
        p.wav is None && !p.is_lesynth && p.vst_state is None ==> source_of(p, file) == (
        SourceView::Vst { path: p.plugin_path, class_id: p.class_id, state: None }),
{
}

/// Every track that can be played has its source in a plan, and no other has one, in
/// order: `at` is the track of each source. A track whose sound is written has its
/// file there, with that sound, and its source names that file: `of` is the file of
/// each source, where it has one.
pub proof fn law_every_track_has_its_source(
    tracks: Seq<(u64, String)>,
    played: Seq<Option<PlaybackView>>,
    n: int,
    sources: Seq<(u64, TrackSource)>,
    files: Seq<SoundFile>,
) -> (r: (Seq<int>, Seq<int>))
    requires
        is_plan(tracks, played, n, sources, files),
        0 <= n <= played.len(),
    ensures
        ({
            let (at, of) = r;
            &&& at.len() == sources.len() && of.len() == sources.len()
            &&& forall|j: int, k: int| 0 <= j < k < at.len() ==> #[trigger] at[j] < #[trigger] at[k]
            &&& forall|i: int|
                0 <= i < n && (#[trigger] played[i]) is Some ==> at.contains(i)
            &&& forall|k: int|
                0 <= k < at.len() ==> {
                    let p = played[#[trigger] at[k]];
                    &&& 0 <= at[k] < n
                    &&& p is Some
                    &&& sources[k].0 == tracks[at[k]].0
                    &&& match sound_of(p->0) {
                        None => sources[k].1@ == source_of(p->0, Seq::empty()),
                        Some((ext, sound)) => {
                            &&& 0 <= of[k] < files.len()
                            &&& files[of[k]].id == tracks[at[k]].0
                            &&& files[of[k]].sound@ == sound
                            &&& sources[k].1@ == source_of(p->0, files[of[k]].file@)
                        },
                    }
                }
        }),
    decreases n,
{
    if n <= 0 {
        (Seq::empty(), Seq::empty())
    } else {
        match played[n - 1] {
            None => law_every_track_has_its_source(tracks, played, n - 1, sources, files),
            Some(p) => {
                let silent = sound_of(p) is None;
                let rest = if silent {
                    files
                } else {
                    files.drop_last()
                };
                let front = sources.drop_last();
                let (a, o) = law_every_track_has_its_source(tracks, played, n - 1, front, rest);
                let at = a.push(n - 1);
                let of = o.push(files.len() - 1);
                assert forall|i: int|
                    0 <= i < n && (#[trigger] played[i]) is Some implies at.contains(i) by {
                    if i < n - 1 {
                        assert(a.contains(i));
                        let k = choose|k: int| 0 <= k < a.len() && a[k] == i;
                        assert(at[k] == i);
                    } else {
                        assert(at[a.len() as int] == i);
                    }
                }
                assert forall|k: int| 0 <= k < at.len() implies {
                    let q = played[#[trigger] at[k]];
                    &&& 0 <= at[k] < n
                    &&& q is Some
                    &&& sources[k].0 == tracks[at[k]].0
                    &&& match sound_of(q->0) {
                        None => sources[k].1@ == source_of(q->0, Seq::empty()),
                        Some((ext, sound)) => {
                            &&& 0 <= of[k] < files.len()
                            &&& files[of[k]].id == tracks[at[k]].0
                            &&& files[of[k]].sound@ == sound
                            &&& sources[k].1@ == source_of(q->0, files[of[k]].file@)
                        },
                    }
                } by {
                    if k < a.len() {
                        assert(at[k] == a[k] && of[k] == o[k] && front[k] == sources[k]);
                        if sound_of(played[a[k]]->0) is Some {
                            assert(rest[o[k]] == files[o[k]]);
                        }
                    }
                }
                (at, of)
            },
        }
    }
}

/// A row is saved with the source of its track: the first that the plan has for it,
/// and no track where it plays none or the plan has none.
pub proof fn law_a_row_is_saved_with_its_tracks_source(
    sources: Seq<(u64, TrackSource)>,
    id: u64,
    k: int,
)
    requires
        0 <= k < sources.len(),
        sources[k].0 == id,
        forall|j: int| 0 <= j < k ==> (#[trigger] sources[j]).0 != id,
    ensures
        planned_source(sources, Some(id)) == sources[k].1@,
        planned_source(sources, None) == SourceView::NoTrack,
    decreases sources.len(),
{
    if k > 0 {
        assert(sources[0].0 != id);
        let rest = sources.skip(1);
        assert forall|j: int| 0 <= j < k - 1 implies (#[trigger] rest[j]).0 != id by {
            assert(rest[j] == sources[j + 1]);
        }
        assert(rest[k - 1] == sources[k]);
        law_a_row_is_saved_with_its_tracks_source(rest, id, k - 1);
    }
}

/// A row whose track the plan does not have is saved without one.
pub proof fn law_a_row_without_a_planned_track(sources: Seq<(u64, TrackSource)>, id: u64)
    requires
        forall|j: int| 0 <= j < sources.len() ==> (#[trigger] sources[j]).0 != id,
    ensures
        planned_source(sources, Some(id)) == SourceView::NoTrack,
    decreases sources.len(),
{
    if sources.len() > 0 {
        assert(sources[0].0 != id);
        let rest = sources.skip(1);
        assert forall|j: int| 0 <= j < rest.len() implies (#[trigger] rest[j]).0 != id by {
            assert(rest[j] == sources[j + 1]);
        }
        law_a_row_without_a_planned_track(rest, id);
    }
}

/// A file that is free for a track's sound is called by the track's name, made safe,
/// and by what kind of sound it is; and no file there is called so.
pub proof fn law_what_a_sounds_file_is_called(
    name: Seq<char>,
    track: Seq<char>,
    ext: Seq<char>,
    taken: Seq<String>,
)
    requires
        is_free_name(name, track, ext, taken),
    ensures
        safe_name(track).is_prefix_of(name),
        name.skip(name.len() - ext.len()) == ext,
        forall|i: int|
            0 <= i < taken.len() ==> ascii_lower((#[trigger] taken[i])@) != ascii_lower(name),
        !is_taken(taken, candidate(safe_name(track), ext, 0)) ==> name == safe_name(track)
            + seq!['.'] + ext,
{
    let k = choose|k: nat|
        name == candidate(safe_name(track), ext, k) && #[trigger] first_free(
            safe_name(track),
            ext,
            taken,
            k,
        );
    assert(name.skip(name.len() - ext.len()) =~= ext);
    assert(name.take(safe_name(track).len() as int) =~= safe_name(track));
    assert(!is_taken(taken, name));
    if k > 0 {
        assert(is_taken(taken, candidate(safe_name(track), ext, 0)));
    }
}

/// What is seen of what is played, and of files' names, is what they are, one by one.
pub proof fn law_what_is_seen_of_what_is_played(
    s: Seq<Option<PlaybackSource>>,
    files: Seq<SoundFile>,
    i: int,
)
    ensures
        played_view(s).len() == s.len(),
        file_names(files).len() == files.len(),
        0 <= i < s.len() && s[i] is Some ==> played_view(s)[i] == Some(s[i]->0@),
        0 <= i < s.len() && s[i] is None ==> played_view(s)[i] is None,
        0 <= i < files.len() ==> file_names(files)[i] == files[i].file,
{
}

} // verus!
