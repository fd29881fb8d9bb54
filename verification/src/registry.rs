//! The one list of tracks every panel agrees on.
//!
//! A track is a playable sound source. Composer rows map onto one by id. Entries
//! are recipes, not live plugins: a library path, a class id and the state to
//! load into a fresh instance, so a composition plays whether or not the track's
//! editor is open. When it is, the entry names the instance behind it, so that
//! what is being edited can be asked for.

use vstd::prelude::*;

use crate::bytes::{copy_bytes, same_bytes};
use crate::composer::project::{class_view, text_view};
use crate::path::{is_same_path, same_path};
use crate::track_format::{same_state, StateView, TrackState};

verus! {

/// A recording that a track plays.
#[derive(Clone, Debug)]
pub struct WavFile {
    pub path: String,
    /// How long it runs in seconds, as the bits of the number.
    pub secs: u32,
}

/// One registered track.
#[derive(Clone, Debug)]
pub struct TrackEntry {
    /// Stable id. Composer rows store this.
    pub id: u64,
    pub name: String,
    /// Library to load for playback.
    pub plugin_path: String,
    /// Class to select from the factory; none takes the first.
    pub class_id: Option<[i8; 16]>,
    /// LeSynth tracks carry a grid.
    pub is_lesynth: bool,
    /// This track plays a drum kit.
    pub percussion: bool,
    /// Grid to import into a freshly loaded instance.
    pub state: Option<TrackState>,
    /// The same for every other plugin: its own state, opaque.
    pub vst_state: Option<Vec<u8>>,
    /// The recording this track plays instead of a plugin.
    pub wav: Option<WavFile>,
    /// The instance behind this track's open editor, by its handle.
    pub live: Option<u64>,
}

/// All it takes to load and configure an instance of a track.
#[derive(Clone, Debug)]
pub struct PlaybackSource {
    pub name: String,
    pub plugin_path: String,
    pub class_id: Option<[i8; 16]>,
    pub is_lesynth: bool,
    pub state: Option<TrackState>,
    pub vst_state: Option<Vec<u8>>,
    /// The path of the recording to play instead.
    pub wav: Option<String>,
}

/// What an entry holds.
pub struct EntryView {
    pub id: u64,
    pub name: Seq<char>,
    pub plugin_path: Seq<char>,
    pub class_id: Option<Seq<i8>>,
    pub is_lesynth: bool,
    pub percussion: bool,
    pub state: Option<StateView>,
    pub vst_state: Option<Seq<u8>>,
    pub wav: Option<(Seq<char>, u32)>,
    pub live: Option<u64>,
}

/// What a playback source holds.
pub struct PlaybackView {
    pub name: Seq<char>,
    pub plugin_path: Seq<char>,
    pub class_id: Option<Seq<i8>>,
    pub is_lesynth: bool,
    pub state: Option<StateView>,
    pub vst_state: Option<Seq<u8>>,
    pub wav: Option<Seq<char>>,
}

/// What an optional state holds.
pub open spec fn state_view(s: Option<TrackState>) -> Option<StateView> {
    match s {
        Some(t) => Some(t@),
        None => None,
    }
}

/// What optional bytes hold.
pub open spec fn bytes_view(s: Option<Vec<u8>>) -> Option<Seq<u8>> {
    match s {
        Some(t) => Some(t@),
        None => None,
    }
}

/// What an optional recording holds.
pub open spec fn wav_view(s: Option<WavFile>) -> Option<(Seq<char>, u32)> {
    match s {
        Some(t) => Some((t.path@, t.secs)),
        None => None,
    }
}

impl View for TrackEntry {
    type V = EntryView;

    open spec fn view(&self) -> EntryView {
        EntryView {
            id: self.id,
            name: self.name@,
            plugin_path: self.plugin_path@,
            class_id: class_view(self.class_id),
            is_lesynth: self.is_lesynth,
            percussion: self.percussion,
            state: state_view(self.state),
            vst_state: bytes_view(self.vst_state),
            wav: wav_view(self.wav),
            live: self.live,
        }
    }
}

impl View for PlaybackSource {
    type V = PlaybackView;

    open spec fn view(&self) -> PlaybackView {
        PlaybackView {
            name: self.name@,
            plugin_path: self.plugin_path@,
            class_id: class_view(self.class_id),
            is_lesynth: self.is_lesynth,
            state: state_view(self.state),
            vst_state: bytes_view(self.vst_state),
            wav: text_view(self.wav),
        }
    }
}

/// Whether two optional states are equal, number by number.
pub open spec fn same_states(a: Option<StateView>, b: Option<StateView>) -> bool {
    match (a, b) {
        (None, None) => true,
        (Some(x), Some(y)) => same_state(x, y),
        _ => false,
    }
}

/// Whether two sources load the identical instance. The name is not part of it.
pub open spec fn identical(a: PlaybackView, b: PlaybackView) -> bool {
    &&& same_path(a.plugin_path, b.plugin_path)
    &&& a.class_id == b.class_id
    &&& a.is_lesynth == b.is_lesynth
    &&& same_states(a.state, b.state)
    &&& a.vst_state == b.vst_state
    &&& match (a.wav, b.wav) {
        (None, None) => true,
        (Some(x), Some(y)) => same_path(x, y),
        _ => false,
    }
}

/// Where the track with an id stands, or the number of tracks.
pub open spec fn track_place(s: Seq<EntryView>, id: u64) -> int
    decreases s.len(),
{
    if s.len() == 0 || s[0].id == id {
        0
    } else {
        1 + track_place(s.skip(1), id)
    }
}

/// Where the track that plays a recording stands, or the number of tracks.
pub open spec fn wav_place(s: Seq<EntryView>, path: Seq<char>) -> int
    decreases s.len(),
{
    if s.len() == 0 || (s[0].wav matches Some((p, _)) && same_path(p, path)) {
        0
    } else {
        1 + wav_place(s.skip(1), path)
    }
}

/// The tracks that have another id.
pub open spec fn others(s: Seq<EntryView>, id: u64) -> Seq<EntryView>
    decreases s.len(),
{
    if s.len() == 0 {
        s
    } else if s.last().id == id {
        others(s.drop_last(), id)
    } else {
        others(s.drop_last(), id).push(s.last())
    }
}

/// What to load to play a track, with what its open editor says of itself: the
/// editor's grid for a LeSynth track, its bytes for any other, and what is
/// registered where it says nothing.
pub open spec fn playback_of(
    e: EntryView,
    grid: Option<StateView>,
    bytes: Option<Seq<u8>>,
) -> PlaybackView {
    PlaybackView {
        name: e.name,
        plugin_path: e.plugin_path,
        class_id: e.class_id,
        is_lesynth: e.is_lesynth,
        state: if e.is_lesynth && grid is Some {
            grid
        } else {
            e.state
        },
        vst_state: if !e.is_lesynth && (bytes matches Some(b) && b.len() > 0) {
            bytes
        } else {
            e.vst_state
        },
        wav: match e.wav {
            Some((path, _)) => Some(path),
            None => None,
        },
    }
}

fn copy_state(s: &Option<TrackState>) -> (r: Option<TrackState>)
    ensures
        state_view(r) == state_view(*s),
{
    match s {
        Some(t) => Some(t.duplicate()),
        None => None,
    }
}

fn copy_optional_bytes(s: &Option<Vec<u8>>) -> (r: Option<Vec<u8>>)
    ensures
        bytes_view(r) == bytes_view(*s),
{
    match s {
        Some(t) => Some(copy_bytes(t)),
        None => None,
    }
}

/// Whether two class ids are the same.
fn same_id(x: &[i8; 16], y: &[i8; 16]) -> (r: bool)
    ensures
        r == (x@ == y@),
{
    let mut i: usize = 0;
    while i < 16
        invariant
            i <= 16,
            forall|k: int| 0 <= k < i ==> x@[k] == y@[k],
        decreases 16 - i,
    {
        if x[i] != y[i] {
            return false;
        }
        i += 1;
    }
    assert(x@ =~= y@);
    true
}

/// Whether two optional class ids are the same.
pub fn same_class(a: &Option<[i8; 16]>, b: &Option<[i8; 16]>) -> (r: bool)
    ensures
        r == (class_view(*a) == class_view(*b)),
{
    match (a, b) {
        (None, None) => true,
        (Some(x), Some(y)) => same_id(x, y),
        _ => false,
    }
}

impl PlaybackSource {
    /// The same source once more.
    pub fn duplicate(&self) -> (r: PlaybackSource)
        ensures
            r@ == self@,
    {
        PlaybackSource {
            name: self.name.clone(),
            plugin_path: self.plugin_path.clone(),
            class_id: self.class_id,
            is_lesynth: self.is_lesynth,
            state: copy_state(&self.state),
            vst_state: copy_optional_bytes(&self.vst_state),
            wav: match &self.wav {
                Some(w) => Some(w.clone()),
                None => None,
            },
        }
    }

    /// Whether two sources load the identical instance. Two registry entries
    /// pointing at the same library with the same state are the same sound
    /// whatever they are called.
    pub fn same_recipe(&self, other: &PlaybackSource) -> (r: bool)
        ensures
            r == identical(self@, other@),
    {
        let states = match (&self.state, &other.state) {
            (None, None) => true,
            (Some(x), Some(y)) => x.same_as(y),
            _ => false,
        };
        let bytes = match (&self.vst_state, &other.vst_state) {
            (None, None) => true,
            (Some(x), Some(y)) => same_bytes(x, y),
            _ => false,
        };
        let wavs = match (&self.wav, &other.wav) {
            (None, None) => true,
            (Some(x), Some(y)) => is_same_path(x.as_str(), y.as_str()),
            _ => false,
        };
        is_same_path(self.plugin_path.as_str(), other.plugin_path.as_str()) && same_class(
            &self.class_id,
            &other.class_id,
        ) && self.is_lesynth == other.is_lesynth && states && bytes && wavs
    }
}

/// The track list.
#[derive(Clone, Debug)]
pub struct TrackRegistry {
    entries: Vec<TrackEntry>,
    next_id: u64,
}

/// What entries hold.
pub open spec fn entries_view(s: Seq<TrackEntry>) -> Seq<EntryView> {
    s.map_values(|e: TrackEntry| e@)
}

impl View for TrackRegistry {
    type V = Seq<EntryView>;

    closed spec fn view(&self) -> Seq<EntryView> {
        entries_view(self.entries@)
    }
}

impl TrackRegistry {
    /// The id the next track gets.
    pub closed spec fn next(&self) -> int {
        self.next_id as int
    }

    /// Every track has an id of its own, and the next one to be given is new.
    pub open spec fn wf(&self) -> bool {
        own_ids(self@, self.next())
    }

    /// No tracks.
    pub fn new() -> (r: TrackRegistry)
        ensures
            r@ == Seq::<EntryView>::empty(),
            r.next() == 0,
            r.wf(),
    {
        let r = TrackRegistry { entries: Vec::new(), next_id: 0 };
        assert(r@ =~= Seq::<EntryView>::empty());
        r
    }

    fn push(&mut self, entry: TrackEntry)
        requires
            old(self).next_id < u64::MAX,
            entry.id == old(self).next_id,
            old(self).wf(),
        ensures
            final(self)@ == old(self)@.push(entry@),
            final(self).next_id == old(self).next_id + 1,
            final(self).wf(),
    {
        let ghost before = self@;
        self.next_id = self.next_id + 1;
        self.entries.push(entry);
        assert(self@ =~= before.push(entry@));
    }

    /// Whether there are ids for so many more tracks.
    pub fn has_room(&self, count: u64) -> (r: bool)
        ensures
            r == (self.next() + count <= u64::MAX),
    {
        count <= u64::MAX - self.next_id
    }

    /// Register a track and return its id.
    pub fn add(
        &mut self,
        name: &str,
        plugin_path: &str,
        class_id: Option<[i8; 16]>,
        is_lesynth: bool,
        state: Option<TrackState>,
    ) -> (r: u64)
        requires
            old(self).wf(),
            old(self).next() < u64::MAX,
        ensures
            final(self).wf(),
            r == old(self).next(),
            final(self).next() == old(self).next() + 1,
            final(self)@ == old(self)@.push(
                EntryView {
                    id: r,
                    name: name@,
                    plugin_path: plugin_path@,
                    class_id: class_view(class_id),
                    is_lesynth,
                    percussion: false,
                    state: state_view(state),
                    vst_state: None,
                    wav: None,
                    live: None,
                },
            ),
    {
        let id: u64 = self.next_id;
        self.push(
            TrackEntry {
                id,
                name: name.to_owned(),
                plugin_path: plugin_path.to_owned(),
                class_id,
                is_lesynth,
                percussion: false,
                state,
                vst_state: None,
                wav: None,
                live: None,
            },
        );
        id
    }

    /// Register a track that plays a recording and return its id.
    pub fn add_wav(&mut self, name: &str, path: &str, secs: u32) -> (r: u64)
        requires
            old(self).wf(),
            old(self).next() < u64::MAX,
        ensures
            final(self).wf(),
            r == old(self).next(),
            final(self).next() == old(self).next() + 1,
            final(self)@ == old(self)@.push(
                EntryView {
                    id: r,
                    name: name@,
                    plugin_path: Seq::empty(),
                    class_id: None,
                    is_lesynth: false,
                    percussion: false,
                    state: None,
                    vst_state: None,
                    wav: Some((path@, secs)),
                    live: None,
                },
            ),
    {
        let id: u64 = self.next_id;
        let entry = TrackEntry {
            id,
            name: name.to_owned(),
            plugin_path: String::new(),
            class_id: None,
            is_lesynth: false,
            percussion: false,
            state: None,
            vst_state: None,
            wav: Some(WavFile { path: path.to_owned(), secs }),
            live: None,
        };
        assert(entry.plugin_path@ =~= Seq::<char>::empty());
        self.push(entry);
        id
    }

    fn place(&self, id: u64) -> (r: usize)
        ensures
            r == track_place(self@, id),
            r <= self.entries@.len(),
            r < self.entries@.len() ==> self.entries@[r as int].id == id,
    {
        let mut i: usize = 0;
        assert(self@.skip(0) =~= self@);
        while i < self.entries.len()
            invariant
                i <= self.entries.len(),
                track_place(self@, id) == i + track_place(self@.skip(i as int), id),
            decreases self.entries.len() - i,
        {
            assert(self@.skip(i as int)[0] == self.entries@[i as int]@);
            if self.entries[i].id == id {
                return i;
            }
            assert(self@.skip(i as int).skip(1) =~= self@.skip(i + 1));
            i += 1;
        }
        i
    }

    /// Record that this track plays a drum kit.
    pub fn set_percussion(&mut self, id: u64, percussion: bool)
        requires
            old(self).wf(),
        ensures
            final(self).wf(),
            final(self).next() == old(self).next(),
            final(self)@ == with_entry(
                old(self)@,
                id,
                |e: EntryView| EntryView { percussion, ..e },
            ),
    {
        let ghost before = self@;
        let i: usize = self.place(id);
        if i < self.entries.len() {
            self.entries[i].percussion = percussion;
            assert(self@ =~= before.update(
                i as int,
                EntryView { percussion, ..before[i as int] },
            ));
        }
        proof {
            lemma_same_ids(before, self@, self.next());
        }
    }

    /// Remember a plugin's own state for this track.
    pub fn set_vst_state(&mut self, id: u64, state: Option<Vec<u8>>)
        requires
            old(self).wf(),
        ensures
            final(self).wf(),
            final(self).next() == old(self).next(),
            final(self)@ == with_entry(
                old(self)@,
                id,
                |e: EntryView| EntryView { vst_state: bytes_view(state), ..e },
            ),
    {
        let ghost before = self@;
        let i: usize = self.place(id);
        if i < self.entries.len() {
            self.entries[i].vst_state = state;
            assert(self@ =~= before.update(
                i as int,
                EntryView { vst_state: bytes_view(state), ..before[i as int] },
            ));
        }
        proof {
            lemma_same_ids(before, self@, self.next());
        }
    }

    /// Remember a grid for this track. No grid is nothing to remember.
    pub fn set_state(&mut self, id: u64, state: Option<TrackState>)
        requires
            old(self).wf(),
        ensures
            final(self).wf(),
            final(self).next() == old(self).next(),
            final(self)@ == (if state is Some {
                with_entry(
                    old(self)@,
                    id,
                    |e: EntryView| EntryView { state: state_view(state), ..e },
                )
            } else {
                old(self)@
            }),
    {
        let ghost before = self@;
        let i: usize = self.place(id);
        if i < self.entries.len() && state.is_some() {
            self.entries[i].state = state;
            assert(self@ =~= before.update(
                i as int,
                EntryView { state: state_view(state), ..before[i as int] },
            ));
        }
        proof {
            lemma_same_ids(before, self@, self.next());
        }
    }

    /// Point this track at the instance behind its open editor, or clear it.
    pub fn set_live(&mut self, id: u64, live: Option<u64>)
        requires
            old(self).wf(),
        ensures
            final(self).wf(),
            final(self).next() == old(self).next(),
            final(self)@ == with_entry(old(self)@, id, |e: EntryView| EntryView { live, ..e }),
    {
        let ghost before = self@;
        let i: usize = self.place(id);
        if i < self.entries.len() {
            self.entries[i].live = live;
            assert(self@ =~= before.update(i as int, EntryView { live, ..before[i as int] }));
        }
        proof {
            lemma_same_ids(before, self@, self.next());
        }
    }

    /// Take a track out of the list.
    pub fn remove(&mut self, id: u64)
        requires
            old(self).wf(),
        ensures
            final(self).wf(),
            final(self).next() == old(self).next(),
            final(self)@ == others(old(self)@, id),
    {
        let ghost before = self@;
        let mut i: usize = 0;
        let n: usize = self.entries.len();
        let ghost mut gone = 0int;
        assert(self@ =~= others(before.take(0), id) + before.skip(0));
        while i < self.entries.len()
            invariant
                self.next_id == old(self).next_id,
                before == old(self)@,
                0 <= gone,
                gone + self.entries@.len() == before.len(),
                i <= self.entries@.len(),
                i == others(before.take(i + gone), id).len(),
                self@ == others(before.take(i + gone), id) + before.skip(i + gone),
            decreases self.entries.len() - i,
        {
            proof {
                assert(self@[i as int] == before[i + gone]);
                assert(before.take(i + gone + 1).drop_last() =~= before.take(i + gone));
                assert(before.take(i + gone + 1).last() == before[i + gone]);
                assert(self@[i as int] == self.entries@[i as int]@);
            }
            let ghost now = self@;
            if self.entries[i].id == id {
                let _gone = self.entries.remove(i);
                proof {
                    assert(self@ =~= now.remove(i as int));
                    assert(now.remove(i as int) =~= others(before.take(i + gone), id)
                        + before.skip(i + gone + 1));
                    gone = gone + 1;
                }
            } else {
                proof {
                    assert(now =~= others(before.take(i + gone + 1), id) + before.skip(
                        i + gone + 1,
                    ));
                }
                i += 1;
            }
        }
        proof {
            assert(before.take(before.len() as int) =~= before);
            assert(self@ =~= others(before, id));
            lemma_others(before, id);
        }
    }

    /// Whether there are no tracks.
    pub fn is_empty(&self) -> (r: bool)
        ensures
            r == (self@.len() == 0),
    {
        self.entries.len() == 0
    }

    /// Whether a track is registered.
    pub fn contains(&self, id: u64) -> (r: bool)
        ensures
            r == (track_place(self@, id) < self@.len()),
    {
        self.place(id) < self.entries.len()
    }

    /// The track that was registered first, of those still there.
    pub fn first_id(&self) -> (r: Option<u64>)
        ensures
            r == (if self@.len() == 0 {
                None
            } else {
                Some(self@[0].id)
            }),
    {
        if self.entries.len() == 0 {
            None
        } else {
            Some(self.entries[0].id)
        }
    }

    /// What a track is called.
    pub fn name_of(&self, id: u64) -> (r: Option<String>)
        ensures
            text_view(r) == (if track_place(self@, id) < self@.len() {
                Some(self@[track_place(self@, id)].name)
            } else {
                None
            }),
    {
        let i: usize = self.place(id);
        if i < self.entries.len() {
            assert(self@[i as int] == self.entries@[i as int]@);
            Some(self.entries[i].name.clone())
        } else {
            None
        }
    }

    /// Whether this track plays a drum kit. Not so for a track that is gone.
    pub fn is_percussion(&self, id: u64) -> (r: bool)
        ensures
            r == (track_place(self@, id) < self@.len() && self@[track_place(
                self@,
                id,
            )].percussion),
    {
        let i: usize = self.place(id);
        i < self.entries.len() && {
            assert(self@[i as int] == self.entries@[i as int]@);
            self.entries[i].percussion
        }
    }

    /// How long the recording of a track runs; none where it plays no recording.
    pub fn wav_secs(&self, id: u64) -> (r: Option<u32>)
        ensures
            r == (if track_place(self@, id) < self@.len() {
                match self@[track_place(self@, id)].wav {
                    Some((_, secs)) => Some(secs),
                    None => None,
                }
            } else {
                None
            }),
    {
        let i: usize = self.place(id);
        if i < self.entries.len() {
            assert(self@[i as int] == self.entries@[i as int]@);
            match &self.entries[i].wav {
                Some(w) => Some(w.secs),
                None => None,
            }
        } else {
            None
        }
    }

    /// Whether this track plays a recording.
    pub fn is_wav(&self, id: u64) -> (r: bool)
        ensures
            r == (track_place(self@, id) < self@.len() && self@[track_place(
                self@,
                id,
            )].wav is Some),
    {
        self.wav_secs(id).is_some()
    }

    /// The track that plays a recording, if one does.
    pub fn find_wav(&self, path: &str) -> (r: Option<u64>)
        ensures
            r == (if wav_place(self@, path@) < self@.len() {
                Some(self@[wav_place(self@, path@)].id)
            } else {
                None
            }),
    {
        let mut i: usize = 0;
        assert(self@.skip(0) =~= self@);
        while i < self.entries.len()
            invariant
                i <= self.entries.len(),
                wav_place(self@, path@) == i + wav_place(self@.skip(i as int), path@),
            decreases self.entries.len() - i,
        {
            assert(self@.skip(i as int)[0] == self.entries@[i as int]@);
            if let Some(w) = &self.entries[i].wav {
                if is_same_path(w.path.as_str(), path) {
                    return Some(self.entries[i].id);
                }
            }
            assert(self@.skip(i as int).skip(1) =~= self@.skip(i + 1));
            i += 1;
        }
        None
    }

    /// The id and the name of every track, for a row's select box.
    pub fn list(&self) -> (r: Vec<(u64, String)>)
        ensures
            r@.len() == self@.len(),
            forall|i: int|
                0 <= i < r@.len() ==> (#[trigger] r@[i]).0 == self@[i].id && r@[i].1@
                    == self@[i].name,
    {
        let mut out: Vec<(u64, String)> = Vec::new();
        let mut i: usize = 0;
        while i < self.entries.len()
            invariant
                i <= self.entries.len(),
                out@.len() == i,
                forall|k: int|
                    0 <= k < out@.len() ==> (#[trigger] out@[k]).0 == self@[k].id && out@[k].1@
                        == self@[k].name,
            decreases self.entries.len() - i,
        {
            out.push((self.entries[i].id, self.entries[i].name.clone()));
            assert(self@[i as int] == self.entries@[i as int]@);
            i += 1;
        }
        out
    }

    /// The entries, in the order they were registered.
    pub fn entries(&self) -> (r: &Vec<TrackEntry>)
        ensures
            entries_view(r@) == self@,
    {
        &self.entries
    }

    /// The instance behind a track's open editor, to be asked for its state.
    pub fn live_of(&self, id: u64) -> (r: Option<u64>)
        ensures
            r == (if track_place(self@, id) < self@.len() {
                self@[track_place(self@, id)].live
            } else {
                None
            }),
    {
        let i: usize = self.place(id);
        if i < self.entries.len() {
            assert(self@[i as int] == self.entries@[i as int]@);
            self.entries[i].live
        } else {
            None
        }
    }

    /// What to load to play a track. `grid` and `bytes` are what its open editor
    /// says of itself: the user is composing with what they can hear there.
    pub fn playback_source(
        &self,
        id: u64,
        grid: Option<TrackState>,
        bytes: Option<Vec<u8>>,
    ) -> (r: Option<PlaybackSource>)
        ensures
            match r {
                Some(p) => track_place(self@, id) < self@.len() && p@ == playback_of(
                    self@[track_place(self@, id)],
                    state_view(grid),
                    bytes_view(bytes),
                ),
                None => track_place(self@, id) == self@.len(),
            },
    {
        let i: usize = self.place(id);
        if i >= self.entries.len() {
            return None;
        }
        let e = &self.entries[i];
        assert(self@[i as int] == e@);
        let state = if e.is_lesynth && grid.is_some() {
            grid
        } else {
            copy_state(&e.state)
        };
        let vst_state = match bytes {
            Some(b) => if !e.is_lesynth && b.len() > 0 {
                Some(b)
            } else {
                copy_optional_bytes(&e.vst_state)
            },
            None => copy_optional_bytes(&e.vst_state),
        };
        let wav = match &e.wav {
            Some(w) => Some(w.path.clone()),
            None => None,
        };
        Some(
            PlaybackSource {
                name: e.name.clone(),
                plugin_path: e.plugin_path.clone(),
                class_id: e.class_id,
                is_lesynth: e.is_lesynth,
                state,
                vst_state,
                wav,
            },
        )
    }
}

/// The tracks with the one of an id changed, if it is there.
pub open spec fn with_entry(
    s: Seq<EntryView>,
    id: u64,
    f: spec_fn(EntryView) -> EntryView,
) -> Seq<EntryView> {
    let i = track_place(s, id);
    if i < s.len() {
        s.update(i, f(s[i]))
    } else {
        s
    }
}

/// Whether every track has an id of its own, all of them below `next`.
pub open spec fn own_ids(s: Seq<EntryView>, next: int) -> bool {
    &&& forall|i: int| 0 <= i < s.len() ==> (#[trigger] s[i]).id < next
    &&& forall|i: int, j: int|
        0 <= i < j < s.len() ==> (#[trigger] s[i]).id != (#[trigger] s[j]).id
}

/// Ids that have not changed are as unique as they were.
proof fn lemma_same_ids(a: Seq<EntryView>, b: Seq<EntryView>, next: int)
    requires
        own_ids(a, next),
        a.len() == b.len(),
        forall|i: int| 0 <= i < a.len() ==> (#[trigger] a[i]).id == b[i].id,
    ensures
        own_ids(b, next),
{
    assert forall|i: int| 0 <= i < b.len() implies (#[trigger] b[i]).id < next by {
        assert(a[i].id == b[i].id);
    }
    assert forall|i: int, j: int| 0 <= i < j < b.len() implies (#[trigger] b[i]).id != (
    #[trigger] b[j]).id by {
        assert(a[i].id == b[i].id && a[j].id == b[j].id);
    }
}

pub proof fn lemma_track_place(s: Seq<EntryView>, id: u64)
    ensures
        0 <= track_place(s, id) <= s.len(),
        track_place(s, id) < s.len() ==> s[track_place(s, id)].id == id,
        forall|i: int| 0 <= i < track_place(s, id) ==> (#[trigger] s[i]).id != id,
    decreases s.len(),
{
    if s.len() > 0 && s[0].id != id {
        lemma_track_place(s.skip(1), id);
        assert forall|i: int| 0 <= i < track_place(s, id) implies (#[trigger] s[i]).id != id by {
            if i > 0 {
                assert(s.skip(1)[i - 1] == s[i]);
            }
        }
    }
}

/// What is left of the tracks was among them, in the same order.
pub proof fn lemma_others(s: Seq<EntryView>, id: u64)
    ensures
        others(s, id).len() <= s.len(),
        forall|k: int|
            0 <= k < others(s, id).len() ==> (#[trigger] others(s, id)[k]).id != id && s.contains(
                others(s, id)[k],
            ),
        (forall|i: int, j: int|
            0 <= i < j < s.len() ==> (#[trigger] s[i]).id != (#[trigger] s[j]).id) ==> (forall|
            i: int,
            j: int,
        |
            0 <= i < j < others(s, id).len() ==> (#[trigger] others(s, id)[i]).id != (
            #[trigger] others(s, id)[j]).id),
        forall|i: int|
            0 <= i < s.len() && (#[trigger] s[i]).id != id ==> others(s, id).contains(s[i]),
    decreases s.len(),
{
    if s.len() > 0 {
        let init = s.drop_last();
        lemma_others(init, id);
        let o = others(init, id);
        let all = others(s, id);
        assert forall|k: int| 0 <= k < all.len() implies (#[trigger] all[k]).id != id
            && s.contains(all[k]) by {
            if k < o.len() {
                assert(o[k] == all[k]);
                let i = choose|i: int| 0 <= i < init.len() && init[i] == o[k];
                assert(s[i] == all[k]);
            } else {
                assert(all[k] == s[s.len() - 1]);
            }
        }
        if forall|i: int, j: int|
            0 <= i < j < s.len() ==> (#[trigger] s[i]).id != (#[trigger] s[j]).id {
            assert forall|i: int, j: int| 0 <= i < j < init.len() implies (#[trigger] init[i]).id
                != (#[trigger] init[j]).id by {
                assert(s[i] == init[i] && s[j] == init[j]);
            }
            assert forall|i: int, j: int| 0 <= i < j < all.len() implies (#[trigger] all[i]).id != (
            #[trigger] all[j]).id by {
                assert(all[i] == o[i]);
                if j < o.len() {
                    assert(all[j] == o[j]);
                } else {
                    let a = choose|a: int| 0 <= a < init.len() && init[a] == o[i];
                    assert(s[a] == o[i] && s[s.len() - 1] == all[j]);
                }
            }
        }
        assert forall|i: int| 0 <= i < s.len() && (#[trigger] s[i]).id != id implies all.contains(
            s[i],
        ) by {
            if i < init.len() {
                assert(init[i] == s[i]);
                let k = choose|k: int| 0 <= k < o.len() && o[k] == s[i];
                assert(all[k] == s[i]);
            } else {
                assert(all[all.len() - 1] == s[i]);
            }
        }
    }
}

/// A removed track is gone, and every other one is still there.
pub proof fn law_removing_a_track_leaves_the_others(s: Seq<EntryView>, id: u64, other: u64)
    requires
        other != id,
    ensures
        track_place(others(s, id), id) == others(s, id).len(),
        track_place(s, other) < s.len() <==> track_place(others(s, id), other) < others(
            s,
            id,
        ).len(),
{
    lemma_others(s, id);
    lemma_track_place(s, other);
    let o = others(s, id);
    lemma_track_place(o, id);
    lemma_track_place(o, other);
    if track_place(s, other) < s.len() {
        let x = s[track_place(s, other)];
        assert(o.contains(x));
        let k = choose|k: int| 0 <= k < o.len() && o[k] == x;
        assert(o[k].id == other);
    }
    if track_place(o, other) < o.len() {
        let x = o[track_place(o, other)];
        assert(s.contains(x));
        let k = choose|k: int| 0 <= k < s.len() && s[k] == x;
        assert(s[k].id == other);
    }
}

/// A track is found by its id, and is not there only where no track has it.
pub proof fn law_a_track_is_found_by_its_id(s: Seq<EntryView>, id: u64)
    ensures
        0 <= track_place(s, id) <= s.len(),
        track_place(s, id) < s.len() ==> s[track_place(s, id)].id == id,
        forall|k: int|
            0 <= k < s.len() && (#[trigger] s[k]).id == id ==> track_place(s, id) <= k,
    decreases s.len(),
{
    if s.len() > 0 && s[0].id != id {
        let rest = s.skip(1);
        law_a_track_is_found_by_its_id(rest, id);
        assert forall|k: int| 0 <= k < s.len() && (
        #[trigger] s[k]).id == id implies track_place(s, id) <= k by {
            if k > 0 {
                assert(rest[k - 1] == s[k]);
            }
        }
    }
}

/// A recording is found by its path: the first track that plays it, and none only
/// where no track plays it.
pub proof fn law_a_recording_is_found_by_its_path(s: Seq<EntryView>, path: Seq<char>)
    ensures
        0 <= wav_place(s, path) <= s.len(),
        wav_place(s, path) < s.len() ==> (s[wav_place(s, path)].wav matches Some((p, _))
            && same_path(p, path)),
        forall|k: int|
            0 <= k < s.len() && ((#[trigger] s[k]).wav matches Some((p, _)) && same_path(p, path))
                ==> wav_place(s, path) <= k,
    decreases s.len(),
{
    if s.len() > 0 && !(s[0].wav matches Some((p, _)) && same_path(p, path)) {
        let rest = s.skip(1);
        law_a_recording_is_found_by_its_path(rest, path);
        assert forall|k: int|
            0 <= k < s.len() && ((#[trigger] s[k]).wav matches Some((p, _)) && same_path(
                p,
                path,
            )) implies wav_place(s, path) <= k by {
            if k > 0 {
                assert(rest[k - 1] == s[k]);
            }
        }
    }
}

/// Removing a track leaves every other track, as it is and in order.
pub proof fn law_removing_leaves_what_has_another_id(s: Seq<EntryView>, id: u64)
    ensures
        others(s, id) == s.filter(|e: EntryView| e.id != id),
    decreases s.len(),
{
    reveal(Seq::filter);
    if s.len() > 0 {
        law_removing_leaves_what_has_another_id(s.drop_last(), id);
    } else {
        assert(others(s, id) =~= s.filter(|e: EntryView| e.id != id));
    }
}

/// A change to a track changes the one that has the id, and no other; there are as
/// many after it, in the same order.
pub proof fn law_a_change_is_to_one_track(
    s: Seq<EntryView>,
    next: int,
    id: u64,
    f: spec_fn(EntryView) -> EntryView,
)
    requires
        own_ids(s, next),
    ensures
        with_entry(s, id, f).len() == s.len(),
        forall|k: int|
            0 <= k < s.len() ==> #[trigger] with_entry(s, id, f)[k] == (if s[k].id == id {
                f(s[k])
            } else {
                s[k]
            }),
{
    law_a_track_is_found_by_its_id(s, id);
    assert forall|k: int| 0 <= k < s.len() implies #[trigger] with_entry(s, id, f)[k] == (
    if s[k].id == id {
        f(s[k])
    } else {
        s[k]
    }) by {
        let i = track_place(s, id);
        if s[k].id == id && i < k {
            assert(s[i].id != s[k].id);
        }
    }
}

/// A track plays what its open editor holds, where it holds something of the kind
/// the track has: a grid for LeSynth, bytes for any other plugin. Else it plays what
/// was kept for it. The rest is the track's own.
pub proof fn law_a_track_plays_what_its_editor_holds(
    e: EntryView,
    grid: Option<StateView>,
    bytes: Option<Seq<u8>>,
)
    ensures
        playback_of(e, grid, bytes).name == e.name,
        playback_of(e, grid, bytes).plugin_path == e.plugin_path,
        playback_of(e, grid, bytes).class_id == e.class_id,
        playback_of(e, grid, bytes).is_lesynth == e.is_lesynth,
        e.is_lesynth && grid is Some ==> playback_of(e, grid, bytes).state == grid,
        !e.is_lesynth || grid is None ==> playback_of(e, grid, bytes).state == e.state,
        !e.is_lesynth && bytes is Some && bytes->0.len() > 0 ==> playback_of(
            e,
            grid,
            bytes,
        ).vst_state == bytes,
        e.is_lesynth || bytes is None || bytes->0.len() == 0 ==> playback_of(
            e,
            grid,
            bytes,
        ).vst_state == e.vst_state,
        e.wav is None ==> playback_of(e, grid, bytes).wav is None,
        e.wav is Some ==> playback_of(e, grid, bytes).wav == Some((e.wav->0).0),
{
}

/// Two sources are one sound only where they load one class of one library with one
/// state, or play one recording. The name is no part of the sound.
pub proof fn law_what_one_sound_is(a: PlaybackView, b: PlaybackView)
    ensures
        identical(a, b) ==> same_path(a.plugin_path, b.plugin_path) && a.class_id == b.class_id
            && a.is_lesynth == b.is_lesynth && a.vst_state == b.vst_state,
        identical(a, b) ==> (a.state is Some <==> b.state is Some) && (a.wav is Some
            <==> b.wav is Some),
        identical(a, b) && a.state is Some ==> same_state(a.state->0, b.state->0),
        identical(a, b) && a.wav is Some ==> same_path(a.wav->0, b.wav->0),
        a.state is None && b == (PlaybackView { name: b.name, ..a }) && same_path(
            a.plugin_path,
            a.plugin_path,
        ) && (a.wav is Some ==> same_path(a.wav->0, a.wav->0)) ==> identical(a, b),
{
}

/// What a kept value shows is the value.
pub proof fn law_what_kept_values_show(
    s: Option<TrackState>,
    b: Option<Vec<u8>>,
    w: Option<WavFile>,
)
    ensures
        s is Some ==> state_view(s) == Some(s->0@),
        s is None ==> state_view(s) is None,
        b is Some ==> bytes_view(b) == Some(b->0@),
        b is None ==> bytes_view(b) is None,
        w is Some ==> wav_view(w) == Some((w->0.path@, w->0.secs)),
        w is None ==> wav_view(w) is None,
{
}

/// What is seen of tracks is what they are, one by one.
pub proof fn law_what_is_seen_of_tracks(s: Seq<TrackEntry>, i: int)
    requires
        0 <= i < s.len(),
    ensures
        entries_view(s).len() == s.len(),
        ({
            let e = entries_view(s)[i];
            &&& e.id == s[i].id && e.name == s[i].name@ && e.plugin_path == s[i].plugin_path@
            &&& e.is_lesynth == s[i].is_lesynth && e.percussion == s[i].percussion
            &&& e.class_id == class_view(s[i].class_id) && e.state == state_view(s[i].state)
            &&& e.vst_state == bytes_view(s[i].vst_state) && e.wav == wav_view(s[i].wav)
            &&& e.live == s[i].live
        }),
{
}

/// What is seen of a source to play is what it is.
pub proof fn law_what_is_seen_of_a_source(p: PlaybackSource)
    ensures
        p@.name == p.name@ && p@.plugin_path == p.plugin_path@ && p@.is_lesynth == p.is_lesynth,
        p@.class_id == class_view(p.class_id) && p@.state == state_view(p.state) && p@.vst_state
            == bytes_view(p.vst_state),
        p.wav is Some ==> p@.wav == Some(p.wav->0@),
        p.wav is None ==> p@.wav is None,
{
}

} // verus!
