//! The list of instrument tracks and what is done with them.

use vstd::prelude::*;

use super::browser::PluginBrowser;
use super::naming::{
    classes_view, drum_kit, is_a_drum_kit, is_fresh_name, module_name, name_module,
    unique_track_name, ClassInfo,
};
use crate::bytes::copy_bytes;
use crate::composer::project::{class_view, text_view};
use crate::midi::router::{router_wf, text_of, texts, MidiFeed, MidiRouter};
use crate::path::{file_stem, stem_of};
use crate::registry::{bytes_view, others, state_view, with_entry, EntryView, TrackRegistry};
use crate::text::{decimal, push_decimal};
use crate::track_format::{StateView, TrackState};

verus! {

/// Track flavour. Only LeSynth tracks carry the harmonic grid that can be
/// exported and imported.
#[derive(Clone, Copy, PartialEq, Eq, Debug, Structural)]
pub enum TrackKind {
    LeSynth,
    CustomVst,
}

/// A track's editor while it is open.
#[derive(Clone, Copy, PartialEq, Eq, Debug, Structural)]
pub struct OpenEditor {
    /// The instance behind it.
    pub handle: u64,
    /// An audio stream drives it.
    pub audible: bool,
}

/// One instrument track: what is kept of it, and its editor while open.
#[derive(Debug)]
pub struct PluginTrack {
    /// Stable, so that a row keeps its identity when rows above it go.
    pub id: u64,
    /// Its id in the registry, where the composer finds it.
    pub registry_id: u64,
    pub name: String,
    pub kind: TrackKind,
    /// The library to load whenever the editor is opened.
    pub plugin_path: String,
    /// The class to select from the factory; none takes the first.
    pub class_id: Option<[i8; 16]>,
    /// A grid to push into the instance when its editor is opened.
    pub import_state: Option<TrackState>,
    /// The same for a custom plugin: its own state.
    pub vst_state: Option<Vec<u8>>,
    /// The keyboard that plays this track; none follows the panel's.
    pub midi_source: Option<String>,
    /// Its own feed, made when its editor first opens and kept afterwards.
    pub feed: Option<MidiFeed>,
    pub editor: Option<OpenEditor>,
}

/// What a track holds.
pub ghost struct PluginTrackView {
    pub id: u64,
    pub registry_id: u64,
    pub name: Seq<char>,
    pub kind: TrackKind,
    pub plugin_path: Seq<char>,
    pub class_id: Option<Seq<i8>>,
    pub import_state: Option<StateView>,
    pub vst_state: Option<Seq<u8>>,
    pub midi_source: Option<Seq<char>>,
    pub feed: Option<MidiFeed>,
    pub editor: Option<OpenEditor>,
}

impl View for PluginTrack {
    type V = PluginTrackView;

    open spec fn view(&self) -> PluginTrackView {
        PluginTrackView {
            id: self.id,
            registry_id: self.registry_id,
            name: self.name@,
            kind: self.kind,
            plugin_path: self.plugin_path@,
            class_id: class_view(self.class_id),
            import_state: state_view(self.import_state),
            vst_state: bytes_view(self.vst_state),
            midi_source: text_view(self.midi_source),
            feed: self.feed,
            editor: self.editor,
        }
    }
}

/// The tracks panel: the list of instrument tracks, and the picker while it is
/// open.
#[derive(Debug)]
pub struct TracksPanel {
    pub tracks: Vec<PluginTrack>,
    pub next_id: u64,
    pub status: String,
    pub browser: Option<PluginBrowser>,
}

/// What the tracks hold.
pub open spec fn tracks_view(s: Seq<PluginTrack>) -> Seq<PluginTrackView> {
    s.map_values(|t: PluginTrack| t@)
}

/// Every track has an id of its own in the panel and in the registry.
pub open spec fn own_tracks(s: Seq<PluginTrackView>, next: int, registered: int) -> bool {
    &&& forall|i: int|
        0 <= i < s.len() ==> (#[trigger] s[i]).id < next && s[i].registry_id < registered
    &&& forall|i: int, j: int|
        0 <= i < j < s.len() ==> (#[trigger] s[i]).id != (#[trigger] s[j]).id && s[i].registry_id
            != s[j].registry_id
}

/// A track as it is when it has just been made.
pub open spec fn fresh_track(
    id: u64,
    registry_id: u64,
    name: Seq<char>,
    kind: TrackKind,
    path: Seq<char>,
    class_id: Option<Seq<i8>>,
    state: Option<StateView>,
    bytes: Option<Seq<u8>>,
) -> PluginTrackView {
    PluginTrackView {
        id,
        registry_id,
        name,
        kind,
        plugin_path: path,
        class_id,
        import_state: state,
        vst_state: bytes,
        midi_source: None,
        feed: None,
        editor: None,
    }
}

/// The registry's entry of a track that has just been made.
pub open spec fn fresh_entry(
    id: u64,
    name: Seq<char>,
    kind: TrackKind,
    path: Seq<char>,
    class_id: Option<Seq<i8>>,
    state: Option<StateView>,
    bytes: Option<Seq<u8>>,
    percussion: bool,
) -> EntryView {
    EntryView {
        id,
        name,
        plugin_path: path,
        class_id,
        is_lesynth: kind == TrackKind::LeSynth,
        percussion,
        state,
        vst_state: bytes,
        wav: None,
        live: None,
    }
}

/// The entries after every one of some tracks has been taken out.
pub open spec fn without(entries: Seq<EntryView>, tracks: Seq<PluginTrackView>) -> Seq<EntryView>
    decreases tracks.len(),
{
    if tracks.len() == 0 {
        entries
    } else {
        others(without(entries, tracks.drop_last()), tracks.last().registry_id)
    }
}

/// Why a track could not be adopted.
#[derive(Clone, PartialEq, Eq, Debug)]
pub enum AdoptError {
    /// The internal plugin is not there.
    NoInternalPlugin,
    /// The plugin at this path is not there.
    NoPlugin { path: String },
}

/// What an adoption's failure reads like.
pub open spec fn adopt_text(e: AdoptError) -> Seq<char> {
    match e {
        AdoptError::NoInternalPlugin => "internal LeSynth Fourier plugin not found"@,
        AdoptError::NoPlugin { path } => "plugin not found at "@ + path@,
    }
}

impl AdoptError {
    /// What it reads like.
    pub fn message(&self) -> (r: String)
        ensures
            r@ == adopt_text(*self),
    {
        match self {
            AdoptError::NoInternalPlugin => "internal LeSynth Fourier plugin not found".to_owned(),
            AdoptError::NoPlugin { path } => {
                let mut out = "plugin not found at ".to_owned();
                out.append(path.as_str());
                out
            },
        }
    }
}

/// What an editor was playing when it was asked.
#[derive(Debug)]
pub enum Captured {
    /// The grid of a LeSynth instance.
    Grid(TrackState),
    /// The state of any other plugin.
    Component(Vec<u8>),
    /// It had nothing to say: plain synth mode, or the plugin refused.
    Nothing,
}

/// A track after its editor has been asked. Plain synth mode is not a failure,
/// it is a track with nothing to remember; and an empty state is nothing.
pub open spec fn remembers(t: PluginTrackView, c: Captured) -> PluginTrackView {
    match (t.kind, c) {
        (TrackKind::LeSynth, Captured::Grid(g)) if t.editor is Some => PluginTrackView {
            import_state: Some(g@),
            ..t
        },
        (TrackKind::CustomVst, Captured::Component(b)) if t.editor is Some && b@.len() > 0 =>
            PluginTrackView { vst_state: Some(b@), ..t },
        _ => t,
    }
}

/// The registry after an editor has been asked.
pub open spec fn registry_remembers(
    s: Seq<EntryView>,
    t: PluginTrackView,
    c: Captured,
) -> Seq<EntryView> {
    match (t.kind, c) {
        (TrackKind::LeSynth, Captured::Grid(g)) if t.editor is Some => with_entry(
            s,
            t.registry_id,
            |e: EntryView| EntryView { state: Some(g@), ..e },
        ),
        (TrackKind::CustomVst, Captured::Component(b)) if t.editor is Some && b@.len() > 0 =>
            with_entry(s, t.registry_id, |e: EntryView| EntryView { vst_state: Some(b@), ..e }),
        _ => s,
    }
}

/// The registry with every track pointed at the instance behind its editor.
pub open spec fn lives(s: Seq<EntryView>, tracks: Seq<PluginTrackView>) -> Seq<EntryView>
    decreases tracks.len(),
{
    if tracks.len() == 0 {
        s
    } else {
        with_entry(
            lives(s, tracks.drop_last()),
            tracks.last().registry_id,
            |e: EntryView|
                EntryView {
                    live: match tracks.last().editor {
                        Some(o) => Some(o.handle),
                        None => None,
                    },
                    ..e
                },
        )
    }
}

/// What to load to open a track's editor.
#[derive(Debug)]
pub struct OpenPlan {
    pub plugin_path: String,
    pub class_id: Option<[i8; 16]>,
    /// The instance is tagged, so that its grid can be exported.
    pub tagged: bool,
    /// The plugin's own state, to go in before it is activated.
    pub vst_state: Option<Vec<u8>>,
    /// The grid, to go in before the window draws it.
    pub import_state: Option<TrackState>,
}

impl TracksPanel {
    /// What the tracks hold.
    pub open spec fn view(&self) -> Seq<PluginTrackView> {
        tracks_view(self.tracks@)
    }

    /// The panel's invariant, against the registry its tracks are in.
    pub open spec fn wf(&self, registry: &TrackRegistry) -> bool {
        registry.wf() && own_tracks(self@, self.next_id as int, registry.next())
    }

    /// The same panel but for its status line.
    pub open spec fn same_but_status(&self, other: &TracksPanel) -> bool {
        self.tracks == other.tracks && self.next_id == other.next_id && self.browser
            == other.browser
    }

    /// A panel without tracks.
    pub fn new() -> (r: TracksPanel)
        ensures
            r@.len() == 0,
            r.next_id == 0,
            r.browser is None,
            r.status@ == "Add a LeSynth Fourier or custom VST track."@,
    {
        TracksPanel {
            tracks: Vec::new(),
            next_id: 0,
            status: "Add a LeSynth Fourier or custom VST track.".to_owned(),
            browser: None,
        }
    }

    /// The next id, which is then taken.
    pub fn take_id(&mut self) -> (r: u64)
        requires
            old(self).next_id < u64::MAX,
        ensures
            r == old(self).next_id,
            *final(self) == (TracksPanel { next_id: (r + 1) as u64, ..*old(self) }),
    {
        let id: u64 = self.next_id;
        self.next_id = id + 1;
        id
    }

    /// Put a track into the list and into the registry.
    fn enlist(
        &mut self,
        registry: &mut TrackRegistry,
        name: &str,
        kind: TrackKind,
        path: &str,
        class_id: Option<[i8; 16]>,
        state: Option<TrackState>,
        bytes: Option<Vec<u8>>,
        percussion: bool,
    ) -> (r: u64)
        requires
            old(self).wf(old(registry)),
            old(self).next_id < u64::MAX,
            old(registry).next() < u64::MAX,
        ensures
            final(self).wf(final(registry)),
            r == old(registry).next(),
            final(registry).next() == r + 1,
            final(self).next_id == old(self).next_id + 1,
            final(self).status == old(self).status,
            final(self).browser == old(self).browser,
            final(self)@ == old(self)@.push(
                fresh_track(
                    old(self).next_id,
                    r,
                    name@,
                    kind,
                    path@,
                    class_view(class_id),
                    state_view(state),
                    bytes_view(bytes),
                ),
            ),
            final(registry)@ == old(registry)@.push(
                fresh_entry(
                    r,
                    name@,
                    kind,
                    path@,
                    class_view(class_id),
                    state_view(state),
                    bytes_view(bytes),
                    percussion,
                ),
            ),
    {
        let ghost was = self@;
        let ghost entries = registry@;
        let id: u64 = self.take_id();
        let lesynth = match kind {
            TrackKind::LeSynth => true,
            TrackKind::CustomVst => false,
        };
        let kept = match &state {
            Some(s) => Some(s.duplicate()),
            None => None,
        };
        let registry_id: u64 = registry.add(name, path, class_id, lesynth, kept);
        proof {
            let now = registry@;
            crate::registry::lemma_track_place(now, registry_id);
            assert(now[entries.len() as int].id == registry_id);
            assert(crate::registry::track_place(now, registry_id) == entries.len()) by {
                let k = crate::registry::track_place(now, registry_id);
                if k < entries.len() {
                    assert(now[k] == entries[k]);
                }
            }
        }
        let copy = match &bytes {
            Some(b) => Some(copy_bytes(b)),
            None => None,
        };
        registry.set_vst_state(registry_id, copy);
        proof {
            let now = registry@;
            crate::registry::lemma_track_place(now, registry_id);
            assert(now[entries.len() as int].id == registry_id);
            assert(crate::registry::track_place(now, registry_id) == entries.len()) by {
                let k = crate::registry::track_place(now, registry_id);
                if k < entries.len() {
                    assert(now[k] == entries[k]);
                }
            }
        }
        registry.set_percussion(registry_id, percussion);
        let track = PluginTrack {
            id,
            registry_id,
            name: name.to_owned(),
            kind,
            plugin_path: path.to_owned(),
            class_id,
            import_state: state,
            vst_state: bytes,
            midi_source: None,
            feed: None,
            editor: None,
        };
        let ghost new = track@;
        self.tracks.push(track);
        proof {
            assert(self@ =~= was.push(new));
            assert(registry@ =~= entries.push(
                fresh_entry(
                    registry_id,
                    name@,
                    kind,
                    path@,
                    class_view(class_id),
                    state_view(state),
                    bytes_view(bytes),
                    percussion,
                ),
            ));
        }
        registry_id
    }

    /// Add a LeSynth Fourier track in plain synth mode. `plugin` is where the
    /// internal plugin should be, if that is known at all.
    pub fn add_lesynth_track(
        &mut self,
        registry: &mut TrackRegistry,
        plugin: Option<&str>,
        there: bool,
        class_id: [i8; 16],
    )
        requires
            old(self).wf(old(registry)),
            old(self).next_id < u64::MAX,
            old(registry).next() < u64::MAX,
        ensures
            final(self).wf(final(registry)),
            final(self).browser == old(self).browser,
            match plugin {
                Some(path) if there => {
                    &&& final(self)@.len() == old(self)@.len() + 1
                    &&& is_fresh_name(
                        final(self)@.last().name,
                        "LeSynth Fourier "@ + decimal((old(self).next_id + 1) as nat),
                    )
                    &&& final(self)@ == old(self)@.push(
                        fresh_track(
                            old(self).next_id,
                            old(registry).next() as u64,
                            final(self)@.last().name,
                            TrackKind::LeSynth,
                            path@,
                            Some(class_id@),
                            None,
                            None,
                        ),
                    )
                    &&& final(registry)@ == old(registry)@.push(
                        fresh_entry(
                            old(registry).next() as u64,
                            final(self)@.last().name,
                            TrackKind::LeSynth,
                            path@,
                            Some(class_id@),
                            None,
                            None,
                            false,
                        ),
                    )
                    &&& final(self).next_id == old(self).next_id + 1
                    &&& final(registry).next() == old(registry).next() + 1
                    &&& final(self).status@ == "Created LeSynth Fourier track."@
                },
                _ => {
                    &&& final(self).same_but_status(old(self))
                    &&& *final(registry) == *old(registry)
                    &&& final(self).status@ == no_plugin_text(plugin)
                },
            },
    {
        if plugin.is_none() || !there {
            self.status = no_plugin(plugin);
            return ;
        }
        let path = plugin.unwrap();
        let mut stem = "LeSynth Fourier ".to_owned();
        push_decimal(&mut stem, self.next_id + 1);
        let name = unique_track_name(stem.as_str());
        let _id: u64 = self.enlist(
            registry,
            name.as_str(),
            TrackKind::LeSynth,
            path,
            Some(class_id),
            None,
            None,
            false,
        );
        self.status = "Created LeSynth Fourier track.".to_owned();
    }

    /// Add a track for a custom plugin, a bundle or a bare library, that has been
    /// found to load. `resolved` is the library inside the bundle, `classes` what
    /// its factory says.
    pub fn add_custom_vst_track(
        &mut self,
        registry: &mut TrackRegistry,
        path: &str,
        resolved: &str,
        classes: &Option<Vec<ClassInfo>>,
    )
        requires
            old(self).wf(old(registry)),
            old(self).next_id < u64::MAX,
            old(registry).next() < u64::MAX,
        ensures
            final(self).wf(final(registry)),
            final(self).browser == old(self).browser,
            final(self).next_id == old(self).next_id + 1,
            final(registry).next() == old(registry).next() + 1,
            ({
                let name = module_name(path@, resolved@);
                let id = old(registry).next() as u64;
                &&& final(self)@ == old(self)@.push(
                    fresh_track(
                        old(self).next_id,
                        id,
                        name,
                        TrackKind::CustomVst,
                        path@,
                        None,
                        None,
                        None,
                    ),
                )
                &&& final(registry)@ == old(registry)@.push(
                    fresh_entry(
                        id,
                        name,
                        TrackKind::CustomVst,
                        path@,
                        None,
                        None,
                        None,
                        drum_kit(classes_view(*classes), name),
                    ),
                )
                &&& final(self).status@ == "Created custom VST track '"@ + name + "'."@
            }),
    {
        let name = name_module(path, resolved);
        let drums = is_a_drum_kit(classes, name.as_str());
        let _id: u64 = self.enlist(
            registry,
            name.as_str(),
            TrackKind::CustomVst,
            path,
            None,
            None,
            None,
            drums,
        );
        let mut out = "Created custom VST track '".to_owned();
        out.append(name.as_str());
        out.append("'.");
        self.status = out;
    }

    /// What the picker came to: a plugin that loads becomes a track and the picker
    /// closes; one that does not leaves it open with the reason on screen.
    pub fn picked(
        &mut self,
        registry: &mut TrackRegistry,
        path: &str,
        outcome: Result<(String, Option<Vec<ClassInfo>>), String>,
    )
        requires
            old(self).wf(old(registry)),
            old(self).next_id < u64::MAX,
            old(registry).next() < u64::MAX,
        ensures
            final(self).wf(final(registry)),
            match outcome {
                Ok((resolved, classes)) => {
                    let name = module_name(path@, resolved@);
                    &&& final(self).browser is None
                    &&& final(self).next_id == old(self).next_id + 1
                    &&& final(registry).next() == old(registry).next() + 1
                    &&& final(self)@ == old(self)@.push(
                        fresh_track(
                            old(self).next_id,
                            old(registry).next() as u64,
                            name,
                            TrackKind::CustomVst,
                            path@,
                            None,
                            None,
                            None,
                        ),
                    )
                    &&& final(registry)@ == old(registry)@.push(
                        fresh_entry(
                            old(registry).next() as u64,
                            name,
                            TrackKind::CustomVst,
                            path@,
                            None,
                            None,
                            None,
                            drum_kit(classes_view(classes), name),
                        ),
                    )
                    &&& final(self).status@ == "Created custom VST track '"@ + name + "'."@
                },
                Err(why) => {
                    &&& *final(registry) == *old(registry)
                    &&& final(self).tracks == old(self).tracks
                    &&& final(self).next_id == old(self).next_id
                    &&& final(self).status == old(self).status
                    &&& match old(self).browser {
                        Some(b) => final(self).browser == Some(
                            PluginBrowser { error: Some(why), ..b },
                        ),
                        None => final(self).browser is None,
                    }
                },
            },
    {
        match outcome {
            Ok((resolved, classes)) => {
                self.add_custom_vst_track(registry, path, resolved.as_str(), &classes);
                self.browser = None;
            },
            Err(why) => {
                if let Some(b) = &mut self.browser {
                    b.error = Some(why);
                }
            },
        }
    }

    /// Open the picker with what is installed.
    pub fn open_browser(&mut self, browser: PluginBrowser)
        ensures
            *final(self) == (TracksPanel { browser: Some(browser), ..*old(self) }),
    {
        self.browser = Some(browser);
    }

    /// Close the picker.
    pub fn close_browser(&mut self)
        ensures
            *final(self) == (TracksPanel { browser: None, ..*old(self) }),
    {
        self.browser = None;
    }

    /// Adopt a LeSynth Fourier track from a grid: what loading a project does for
    /// every row that plays one. No grid is plain synth mode.
    pub fn adopt_lesynth(
        &mut self,
        registry: &mut TrackRegistry,
        name: &str,
        state: Option<TrackState>,
        plugin: Option<&str>,
        there: bool,
        class_id: [i8; 16],
    ) -> (r: Result<u64, AdoptError>)
        requires
            old(self).wf(old(registry)),
            old(self).next_id < u64::MAX,
            old(registry).next() < u64::MAX,
        ensures
            final(self).wf(final(registry)),
            final(self).browser == old(self).browser,
            final(self).status == old(self).status,
            match plugin {
                Some(path) if there => {
                    &&& r == Ok::<u64, AdoptError>(old(registry).next() as u64)
                    &&& final(self).next_id == old(self).next_id + 1
                    &&& final(registry).next() == old(registry).next() + 1
                    &&& final(self)@ == old(self)@.push(
                        fresh_track(
                            old(self).next_id,
                            old(registry).next() as u64,
                            name@,
                            TrackKind::LeSynth,
                            path@,
                            Some(class_id@),
                            state_view(state),
                            None,
                        ),
                    )
                    &&& final(registry)@ == old(registry)@.push(
                        fresh_entry(
                            old(registry).next() as u64,
                            name@,
                            TrackKind::LeSynth,
                            path@,
                            Some(class_id@),
                            state_view(state),
                            None,
                            false,
                        ),
                    )
                },
                _ => {
                    &&& r == Err::<u64, AdoptError>(AdoptError::NoInternalPlugin)
                    &&& *final(self) == *old(self)
                    &&& *final(registry) == *old(registry)
                },
            },
    {
        if plugin.is_none() || !there {
            return Err(AdoptError::NoInternalPlugin);
        }
        let path = plugin.unwrap();
        let id: u64 = self.enlist(
            registry,
            name,
            TrackKind::LeSynth,
            path,
            Some(class_id),
            state,
            None,
            false,
        );
        Ok(id)
    }

    /// Adopt a custom plugin's track by path: the other half of loading a project.
    pub fn adopt_vst(
        &mut self,
        registry: &mut TrackRegistry,
        name: &str,
        path: &str,
        there: bool,
        class_id: Option<[i8; 16]>,
        vst_state: Option<Vec<u8>>,
        classes: &Option<Vec<ClassInfo>>,
    ) -> (r: Result<u64, AdoptError>)
        requires
            old(self).wf(old(registry)),
            old(self).next_id < u64::MAX,
            old(registry).next() < u64::MAX,
        ensures
            final(self).wf(final(registry)),
            final(self).browser == old(self).browser,
            final(self).status == old(self).status,
            there ==> {
                &&& r == Ok::<u64, AdoptError>(old(registry).next() as u64)
                &&& final(self).next_id == old(self).next_id + 1
                &&& final(registry).next() == old(registry).next() + 1
                &&& final(self)@ == old(self)@.push(
                    fresh_track(
                        old(self).next_id,
                        old(registry).next() as u64,
                        name@,
                        TrackKind::CustomVst,
                        path@,
                        class_view(class_id),
                        None,
                        bytes_view(vst_state),
                    ),
                )
                &&& final(registry)@ == old(registry)@.push(
                    fresh_entry(
                        old(registry).next() as u64,
                        name@,
                        TrackKind::CustomVst,
                        path@,
                        class_view(class_id),
                        None,
                        bytes_view(vst_state),
                        drum_kit(classes_view(*classes), name@),
                    ),
                )
            },
            !there ==> {
                &&& r matches Err(AdoptError::NoPlugin { path: p }) && p@ == path@
                &&& *final(self) == *old(self)
                &&& *final(registry) == *old(registry)
            },
    {
        if !there {
            return Err(AdoptError::NoPlugin { path: path.to_owned() });
        }
        let drums = is_a_drum_kit(classes, name);
        let id: u64 = self.enlist(
            registry,
            name,
            TrackKind::CustomVst,
            path,
            class_id,
            None,
            vst_state,
            drums,
        );
        Ok(id)
    }

    /// Drop every track: what loading a project does before it adopts its own.
    pub fn clear(&mut self, registry: &mut TrackRegistry)
        requires
            old(self).wf(old(registry)),
        ensures
            final(self).wf(final(registry)),
            final(self)@.len() == 0,
            final(self).next_id == old(self).next_id,
            final(self).browser == old(self).browser,
            final(self).status@ == "Cleared for a loaded project."@,
            final(registry).next() == old(registry).next(),
            final(registry)@ == without(old(registry)@, old(self)@),
    {
        let ghost all = self@;
        let ghost entries = registry@;
        let n: usize = self.tracks.len();
        let mut k: usize = 0;
        assert(all.take(0).len() == 0);
        while k < n
            invariant
                k <= n,
                n == self.tracks@.len(),
                *self == *old(self),
                all == self@,
                entries == old(registry)@,
                registry.wf(),
                registry.next() == old(registry).next(),
                registry@ == without(entries, all.take(k as int)),
            decreases n - k,
        {
            proof {
                let part = all.take(k + 1);
                assert(part.drop_last() =~= all.take(k as int));
                assert(part.last() == self.tracks@[k as int]@);
            }
            registry.remove(self.tracks[k].registry_id);
            k += 1;
        }
        assert(all.take(n as int) =~= all);
        self.tracks = Vec::new();
        self.status = "Cleared for a loaded project.".to_owned();
    }

    /// A saved track has been read, or could not be: add it, with its grid in the
    /// registry, so that it plays without its editor ever being opened.
    pub fn load_lesynth_track(
        &mut self,
        registry: &mut TrackRegistry,
        file: &str,
        read: Result<TrackState, String>,
        plugin: Option<&str>,
        there: bool,
        class_id: [i8; 16],
    )
        requires
            old(self).wf(old(registry)),
            old(self).next_id < u64::MAX,
            old(registry).next() < u64::MAX,
        ensures
            final(self).wf(final(registry)),
            final(self).browser == old(self).browser,
            match (read, plugin) {
                (Err(why), _) => {
                    &&& final(self).same_but_status(old(self))
                    &&& *final(registry) == *old(registry)
                    &&& final(self).status@ == "Load failed: "@ + why@
                },
                (Ok(state), Some(path)) if there => {
                    &&& final(self).next_id == old(self).next_id + 1
                    &&& final(registry).next() == old(registry).next() + 1
                    &&& final(self)@.len() == old(self)@.len() + 1
                    &&& is_fresh_name(
                        final(self)@.last().name,
                        match stem_of(file@) {
                            Some(s) => s,
                            None => "LeSynth track"@,
                        },
                    )
                    &&& final(self)@ == old(self)@.push(
                        fresh_track(
                            old(self).next_id,
                            old(registry).next() as u64,
                            final(self)@.last().name,
                            TrackKind::LeSynth,
                            path@,
                            Some(class_id@),
                            Some(state@),
                            None,
                        ),
                    )
                    &&& final(registry)@ == old(registry)@.push(
                        fresh_entry(
                            old(registry).next() as u64,
                            final(self)@.last().name,
                            TrackKind::LeSynth,
                            path@,
                            Some(class_id@),
                            Some(state@),
                            None,
                            false,
                        ),
                    )
                    &&& final(self).status@
                        == "Loaded LeSynth track — open its editor to view."@
                },
                (Ok(_), _) => {
                    &&& final(self).same_but_status(old(self))
                    &&& *final(registry) == *old(registry)
                    &&& final(self).status@ == no_plugin_text(plugin)
                },
            },
    {
        let state = match read {
            Ok(s) => s,
            Err(why) => {
                let mut out = "Load failed: ".to_owned();
                out.append(why.as_str());
                self.status = out;
                return ;
            },
        };
        if plugin.is_none() || !there {
            self.status = no_plugin(plugin);
            return ;
        }
        let path = plugin.unwrap();
        let stem = match file_stem(file) {
            Some(s) => s,
            None => "LeSynth track".to_owned(),
        };
        let name = unique_track_name(stem.as_str());
        let _id: u64 = self.enlist(
            registry,
            name.as_str(),
            TrackKind::LeSynth,
            path,
            Some(class_id),
            Some(state),
            None,
            false,
        );
        self.status = "Loaded LeSynth track — open its editor to view.".to_owned();
    }

    /// Whether a track's live grid can be exported: a LeSynth with its editor open.
    pub fn can_export(&self, i: usize) -> (r: bool)
        ensures
            r == (i < self@.len() && self@[i as int].kind == TrackKind::LeSynth
                && self@[i as int].editor is Some),
    {
        if i >= self.tracks.len() {
            return false;
        }
        let lesynth = match self.tracks[i].kind {
            TrackKind::LeSynth => true,
            TrackKind::CustomVst => false,
        };
        assert(self@[i as int] == self.tracks@[i as int]@);
        lesynth && self.tracks[i].editor.is_some()
    }

    /// The name a track's grid is offered to be exported under.
    pub fn export_name(&self, i: usize) -> (r: Option<String>)
        ensures
            text_view(r) == (if i < self@.len() && self@[i as int].kind == TrackKind::LeSynth
                && self@[i as int].editor is Some {
                Some(self@[i as int].name + ".lsft"@)
            } else {
                None
            }),
    {
        if self.can_export(i) {
            let mut out = self.tracks[i].name.clone();
            out.append(".lsft");
            Some(out)
        } else {
            None
        }
    }

    /// An export came to an end.
    pub fn exported(&mut self, i: usize, outcome: Result<(), String>)
        requires
            i < old(self)@.len(),
        ensures
            final(self).same_but_status(old(self)),
            final(self).status@ == (match outcome {
                Ok(_) => "Exported "@ + old(self)@[i as int].name + "."@,
                Err(why) => "Export failed: "@ + why@,
            }),
    {
        self.status = match outcome {
            Ok(_) => {
                let mut out = "Exported ".to_owned();
                out.append(self.tracks[i].name.as_str());
                out.append(".");
                out
            },
            Err(why) => {
                let mut out = "Export failed: ".to_owned();
                out.append(why.as_str());
                out
            },
        };
    }

    /// What it takes to open a track's editor; nothing where it is open already.
    pub fn open_plan(&self, i: usize) -> (r: Option<OpenPlan>)
        ensures
            match r {
                None => i >= self@.len() || self@[i as int].editor is Some,
                Some(p) => {
                    &&& i < self@.len()
                    &&& self@[i as int].editor is None
                    &&& p.plugin_path@ == self@[i as int].plugin_path
                    &&& class_view(p.class_id) == self@[i as int].class_id
                    &&& p.tagged == (self@[i as int].kind == TrackKind::LeSynth)
                    &&& bytes_view(p.vst_state) == self@[i as int].vst_state
                    &&& state_view(p.import_state) == self@[i as int].import_state
                },
            },
    {
        if i >= self.tracks.len() {
            return None;
        }
        let t = &self.tracks[i];
        assert(self@[i as int] == t@);
        if t.editor.is_some() {
            return None;
        }
        Some(
            OpenPlan {
                plugin_path: t.plugin_path.clone(),
                class_id: t.class_id,
                tagged: match t.kind {
                    TrackKind::LeSynth => true,
                    TrackKind::CustomVst => false,
                },
                vst_state: match &t.vst_state {
                    Some(b) => Some(copy_bytes(b)),
                    None => None,
                },
                import_state: match &t.import_state {
                    Some(s) => Some(s.duplicate()),
                    None => None,
                },
            },
        )
    }

    /// The feed of a track, made once and kept: a track that changes keyboard
    /// changes what the router puts into its queue, not which queue it is.
    pub fn feed_of(&mut self, i: usize, router: &mut MidiRouter) -> (r: MidiFeed)
        requires
            i < old(self)@.len(),
            router_wf(old(router)@),
            old(router)@.next_id < u64::MAX,
            old(self)@[i as int].feed is None ==> (old(self)@[i as int].midi_source matches Some(
                p,
            ) ==> old(router)@.open.contains(p)),
        ensures
            router_wf(final(router)@),
            final(self)@ == old(self)@.update(
                i as int,
                PluginTrackView { feed: Some(r), ..old(self)@[i as int] },
            ),
            final(self).next_id == old(self).next_id,
            final(self).status == old(self).status,
            final(self).browser == old(self).browser,
            match old(self)@[i as int].feed {
                Some(f) => r == f && *final(router) == *old(router),
                None => {
                    &&& r.id == old(router)@.next_id
                    &&& final(router)@.subs == crate::midi::router::living(
                        old(router)@.subs,
                    ).push(
                        crate::midi::router::SubView {
                            id: r.id,
                            want: old(self)@[i as int].midi_source,
                            live: true,
                            queue: Seq::empty(),
                        },
                    )
                    &&& final(router)@.open == old(router)@.open
                    &&& final(router)@.default_port == old(router)@.default_port
                    &&& final(router)@.next_id == old(router)@.next_id + 1
                },
            },
    {
        let ghost was = self@;
        assert(was[i as int] == self.tracks@[i as int]@);
        match self.tracks[i].feed {
            Some(f) => {
                assert(self@ =~= was.update(
                    i as int,
                    PluginTrackView { feed: Some(f), ..was[i as int] },
                ));
                f
            },
            None => {
                let want = match &self.tracks[i].midi_source {
                    Some(p) => Some(p.clone()),
                    None => None,
                };
                assert(text_of(want) == was[i as int].midi_source);
                let f = router.subscribe(want);
                self.tracks[i].feed = Some(f);
                assert(self@ =~= was.update(
                    i as int,
                    PluginTrackView { feed: Some(f), ..was[i as int] },
                ));
                f
            },
        }
    }

    /// A track's editor opened, or did not. No audio device leaves it silent, and
    /// says so.
    pub fn editor_opened(&mut self, i: usize, outcome: Result<OpenEditor, String>)
        ensures
            final(self).next_id == old(self).next_id,
            final(self).browser == old(self).browser,
            i >= old(self)@.len() ==> *final(self) == *old(self),
            i < old(self)@.len() ==> match outcome {
                Ok(o) => {
                    &&& final(self)@ == old(self)@.update(
                        i as int,
                        PluginTrackView { editor: Some(o), ..old(self)@[i as int] },
                    )
                    &&& final(self).status@ == (if o.audible {
                        Seq::empty()
                    } else {
                        "Opened "@ + old(self)@[i as int].name + " — audio output unavailable."@
                    })
                },
                Err(why) => {
                    &&& final(self)@ == old(self)@
                    &&& final(self).status@ == "Open editor failed: "@ + why@
                },
            },
    {
        let ghost was = self@;
        if i >= self.tracks.len() {
            return ;
        }
        assert(was[i as int] == self.tracks@[i as int]@);
        match outcome {
            Ok(o) => {
                self.tracks[i].editor = Some(o);
                assert(self@ =~= was.update(
                    i as int,
                    PluginTrackView { editor: Some(o), ..was[i as int] },
                ));
                if o.audible {
                    self.status = String::new();
                    assert(self.status@ =~= Seq::empty());
                } else {
                    let mut out = "Opened ".to_owned();
                    out.append(self.tracks[i].name.as_str());
                    out.append(" — audio output unavailable.");
                    self.status = out;
                }
            },
            Err(why) => {
                let mut out = "Open editor failed: ".to_owned();
                out.append(why.as_str());
                self.status = out;
            },
        }
    }

    /// Keep what the open editor is playing on the track and in the registry, so
    /// that closing the window does not throw the user's edits away.
    pub fn capture_editor_state(
        &mut self,
        i: usize,
        registry: &mut TrackRegistry,
        captured: Captured,
    )
        requires
            old(self).wf(old(registry)),
            i < old(self)@.len(),
        ensures
            final(self).wf(final(registry)),
            final(registry).next() == old(registry).next(),
            final(self).next_id == old(self).next_id,
            final(self).status == old(self).status,
            final(self).browser == old(self).browser,
            final(self)@ == old(self)@.update(i as int, remembers(old(self)@[i as int], captured)),
            final(registry)@ == registry_remembers(old(registry)@, old(self)@[i as int], captured),
    {
        let ghost was = self@;
        let ghost t = self@[i as int];
        assert(t == self.tracks@[i as int]@);
        assert(was.update(i as int, t) =~= was);
        if self.tracks[i].editor.is_none() {
            return ;
        }
        let registry_id: u64 = self.tracks[i].registry_id;
        match (self.tracks[i].kind, captured) {
            (TrackKind::LeSynth, Captured::Grid(g)) => {
                registry.set_state(registry_id, Some(g.duplicate()));
                self.tracks[i].import_state = Some(g);
                assert(self@ =~= was.update(
                    i as int,
                    PluginTrackView { import_state: Some(g@), ..t },
                ));
            },
            (TrackKind::CustomVst, Captured::Component(b)) => {
                if b.len() > 0 {
                    registry.set_vst_state(registry_id, Some(copy_bytes(&b)));
                    self.tracks[i].vst_state = Some(b);
                    assert(self@ =~= was.update(
                        i as int,
                        PluginTrackView { vst_state: Some(b@), ..t },
                    ));
                }
            },
            _ => {},
        }
        proof {
            lemma_own_kept(was, self@, self.next_id as int, registry.next());
        }
    }

    /// Close a track's editor, keeping what it was playing first.
    pub fn close_editor(&mut self, i: usize, registry: &mut TrackRegistry, captured: Captured)
        requires
            old(self).wf(old(registry)),
            i < old(self)@.len(),
        ensures
            final(self).wf(final(registry)),
            final(registry).next() == old(registry).next(),
            final(self).next_id == old(self).next_id,
            final(self).status == old(self).status,
            final(self).browser == old(self).browser,
            final(self)@ == old(self)@.update(
                i as int,
                PluginTrackView {
                    editor: None,
                    ..remembers(old(self)@[i as int], captured)
                },
            ),
            final(registry)@ == registry_remembers(old(registry)@, old(self)@[i as int], captured),
    {
        let ghost was = self@;
        self.capture_editor_state(i, registry, captured);
        let ghost mid = self@;
        assert(mid.len() == was.len());
        assert(mid.len() == self.tracks@.len());
        assert(mid[i as int] == self.tracks@[i as int]@);
        let ghost mid_tracks = self.tracks@;
        self.tracks[i].editor = None;
        proof {
            assert forall|k: int| 0 <= k < was.len() && k != i implies #[trigger] self@[k]
                == was[k] by {
                assert(self.tracks@[k] == mid_tracks[k]);
                assert(mid[k] == was[k]);
            }
            assert(self@ =~= was.update(
                i as int,
                PluginTrackView { editor: None, ..mid[i as int] },
            ));
            lemma_own_kept(was, self@, self.next_id as int, registry.next());
        }
    }

    /// Keep the registry's view of which instances are live in step with the open
    /// editors: that is what lets a composition play a grid being edited.
    pub fn point_at_editors(&self, registry: &mut TrackRegistry)
        requires
            self.wf(old(registry)),
        ensures
            self.wf(final(registry)),
            final(registry).next() == old(registry).next(),
            final(registry)@ == lives(old(registry)@, self@),
    {
        let ghost all = self@;
        let ghost entries = registry@;
        let n: usize = self.tracks.len();
        let mut k: usize = 0;
        assert(all.take(0).len() == 0);
        while k < n
            invariant
                k <= n,
                n == self.tracks@.len(),
                all == self@,
                registry.wf(),
                registry.next() == old(registry).next(),
                registry@ == lives(entries, all.take(k as int)),
            decreases n - k,
        {
            proof {
                let part = all.take(k + 1);
                assert(part.drop_last() =~= all.take(k as int));
                assert(part.last() == self.tracks@[k as int]@);
            }
            let live = match self.tracks[k].editor {
                Some(o) => Some(o.handle),
                None => None,
            };
            registry.set_live(self.tracks[k].registry_id, live);
            k += 1;
        }
        assert(all.take(n as int) =~= all);
    }

    /// Take a track out of the list and out of the registry.
    pub fn remove_track(&mut self, i: usize, registry: &mut TrackRegistry)
        requires
            old(self).wf(old(registry)),
        ensures
            final(self).wf(final(registry)),
            final(registry).next() == old(registry).next(),
            final(self).next_id == old(self).next_id,
            final(self).browser == old(self).browser,
            i >= old(self)@.len() ==> *final(self) == *old(self) && *final(registry)
                == *old(registry),
            i < old(self)@.len() ==> {
                &&& final(self)@ == old(self)@.remove(i as int)
                &&& final(registry)@ == others(old(registry)@, old(self)@[i as int].registry_id)
                &&& final(self).status@ == "Removed "@ + old(self)@[i as int].name + "."@
            },
    {
        let ghost was = self@;
        if i < self.tracks.len() {
            let gone = self.tracks.remove(i);
            assert(gone@ == was[i as int]);
            registry.remove(gone.registry_id);
            let mut out = "Removed ".to_owned();
            out.append(gone.name.as_str());
            out.append(".");
            self.status = out;
            proof {
                assert(self@ =~= was.remove(i as int));
                let now = self@;
                assert forall|a: int| 0 <= a < now.len() implies #[trigger] now[a] == was[if a
                    < i {
                    a
                } else {
                    a + 1
                }] by {}
                assert forall|a: int, b: int| 0 <= a < b < now.len() implies (
                #[trigger] now[a]).id != (#[trigger] now[b]).id && now[a].registry_id
                    != now[b].registry_id by {}
            }
        }
    }

    /// What a track's keyboard picker shows.
    pub fn midi_label(&self, i: usize, default_port: &Option<String>) -> (r: String)
        requires
            i < self@.len(),
        ensures
            r@ == (match self@[i as int].midi_source {
                Some(p) => p,
                None => match text_view(*default_port) {
                    Some(p) => "default ("@ + p + ")"@,
                    None => "default (not connected)"@,
                },
            }),
    {
        assert(self@[i as int] == self.tracks@[i as int]@);
        match &self.tracks[i].midi_source {
            Some(p) => p.clone(),
            None => match default_port {
                Some(p) => {
                    let mut out = "default (".to_owned();
                    out.append(p.as_str());
                    out.append(")");
                    out
                },
                None => "default (not connected)".to_owned(),
            },
        }
    }

    /// Point a track at another keyboard. One whose editor has never been opened
    /// has no feed yet; the choice is remembered and used when it is. Returns the
    /// ports to close.
    pub fn retarget(&mut self, i: usize, want: Option<String>, router: &mut MidiRouter) -> (r: Vec<
        String,
    >)
        requires
            i < old(self)@.len(),
            router_wf(old(router)@),
            old(self)@[i as int].feed is Some ==> (want matches Some(p)
                ==> old(router)@.open.contains(p@)),
        ensures
            router_wf(final(router)@),
            final(self)@ == old(self)@.update(
                i as int,
                PluginTrackView { midi_source: text_view(want), ..old(self)@[i as int] },
            ),
            final(self).next_id == old(self).next_id,
            final(self).browser == old(self).browser,
            final(self).status@ == (match want {
                Some(p) => old(self)@[i as int].name + " now plays from "@ + p@ + "."@,
                None => old(self)@[i as int].name + " follows the MIDI panel's port."@,
            }),
            match old(self)@[i as int].feed {
                None => *final(router) == *old(router) && r@.len() == 0,
                Some(f) => {
                    let k = crate::midi::router::sub_place(old(router)@.subs, f.id);
                    let subs = if 0 <= k < old(router)@.subs.len() {
                        old(router)@.subs.update(
                            k,
                            crate::midi::router::SubView {
                                want: text_of(want),
                                ..old(router)@.subs[k]
                            },
                        )
                    } else {
                        old(router)@.subs
                    };
                    &&& final(router)@ == (crate::midi::router::RouterView {
                        open: crate::midi::router::still_open(
                            old(router)@.open,
                            old(router)@.default_port,
                            subs,
                        ),
                        subs,
                        ..old(router)@
                    })
                    &&& texts(r@) == crate::midi::router::to_close(
                        old(router)@.open,
                        old(router)@.default_port,
                        subs,
                    )
                },
            },
    {
        let ghost was = self@;
        assert(was[i as int] == self.tracks@[i as int]@);
        let mut status = self.tracks[i].name.clone();
        match &want {
            Some(p) => {
                status.append(" now plays from ");
                status.append(p.as_str());
                status.append(".");
            },
            None => {
                status.append(" follows the MIDI panel's port.");
            },
        }
        let copy = match &want {
            Some(p) => Some(p.clone()),
            None => None,
        };
        assert(text_of(copy) == text_of(want));
        let closed = match self.tracks[i].feed {
            Some(f) => router.set_source(f.id, copy),
            None => Vec::new(),
        };
        self.tracks[i].midi_source = want;
        assert(self@ =~= was.update(
            i as int,
            PluginTrackView { midi_source: text_view(want), ..was[i as int] },
        ));
        self.status = status;
        closed
    }

    /// A keyboard could not be switched to.
    pub fn retarget_failed(&mut self, why: &str)
        ensures
            final(self).same_but_status(old(self)),
            final(self).status@ == "Could not switch MIDI source: "@ + why@,
    {
        let mut out = "Could not switch MIDI source: ".to_owned();
        out.append(why);
        self.status = out;
    }

    /// How soon to look again, in milliseconds: while any editor is open its
    /// window may be closed directly; otherwise there is nothing to look for.
    pub fn repaint_after(&self) -> (r: Option<u64>)
        ensures
            r == (if exists|i: int| 0 <= i < self@.len() && (#[trigger] self@[i]).editor is Some {
                Some(250u64)
            } else {
                None
            }),
    {
        let n: usize = self.tracks.len();
        let mut k: usize = 0;
        while k < n
            invariant
                k <= n,
                n == self.tracks@.len(),
                forall|i: int| 0 <= i < k ==> (#[trigger] self@[i]).editor is None,
            decreases n - k,
        {
            assert(self@[k as int] == self.tracks@[k as int]@);
            if self.tracks[k].editor.is_some() {
                return Some(250);
            }
            k += 1;
        }
        None
    }
}

proof fn lemma_own_kept(
    a: Seq<PluginTrackView>,
    b: Seq<PluginTrackView>,
    next: int,
    registered: int,
)
    requires
        own_tracks(a, next, registered),
        a.len() == b.len(),
        forall|i: int|
            0 <= i < a.len() ==> (#[trigger] b[i]).id == a[i].id && b[i].registry_id
                == a[i].registry_id,
    ensures
        own_tracks(b, next, registered),
{
    assert forall|i: int, j: int| 0 <= i < j < b.len() implies (#[trigger] b[i]).id != (
    #[trigger] b[j]).id && b[i].registry_id != b[j].registry_id by {
        assert(a[i].id != a[j].id);
    }
}

/// What is said where the internal plugin is not to be had.
pub open spec fn no_plugin_text(plugin: Option<&str>) -> Seq<char> {
    match plugin {
        None => "Could not locate the internal plugin."@,
        Some(path) => "Internal plugin not found at "@ + path@,
    }
}

fn no_plugin(plugin: Option<&str>) -> (r: String)
    ensures
        r@ == no_plugin_text(plugin),
{
    match plugin {
        None => "Could not locate the internal plugin.".to_owned(),
        Some(path) => {
            let mut out = "Internal plugin not found at ".to_owned();
            out.append(path);
            out
        },
    }
}

/// What an editor was playing when it closed is what the track opens with next,
/// and what the registry plays: nothing of an edit is lost with its window.
pub proof fn law_closing_an_editor_keeps_its_sound(
    t: PluginTrackView,
    s: Seq<EntryView>,
    next: int,
    c: Captured,
)
    requires
        t.editor is Some,
        crate::registry::own_ids(s, next),
        crate::registry::track_place(s, t.registry_id) < s.len(),
        match t.kind {
            TrackKind::LeSynth => c is Grid,
            TrackKind::CustomVst => c matches Captured::Component(b) && b@.len() > 0,
        },
    ensures
        ({
            let now = remembers(t, c);
            let k = crate::registry::track_place(s, t.registry_id);
            let entries = registry_remembers(s, t, c);
            match c {
                Captured::Grid(g) => now.import_state == Some(g@) && entries[k].state == Some(g@),
                Captured::Component(b) => now.vst_state == Some(b@) && entries[k].vst_state == Some(
                    b@,
                ),
                Captured::Nothing => false,
            }
        }),
{
    crate::registry::lemma_track_place(s, t.registry_id);
}

/// A new track has its name, its library, its class and what was kept of its sound,
/// follows the panel's keyboard, and has no editor; the registry has the same of it.
pub proof fn law_what_a_new_track_has(
    id: u64,
    registry_id: u64,
    name: Seq<char>,
    kind: TrackKind,
    path: Seq<char>,
    class_id: Option<Seq<i8>>,
    state: Option<StateView>,
    bytes: Option<Seq<u8>>,
    percussion: bool,
)
    ensures
        ({
            let t = fresh_track(id, registry_id, name, kind, path, class_id, state, bytes);
            let e = fresh_entry(
                registry_id,
                name,
                kind,
                path,
                class_id,
                state,
                bytes,
                percussion,
            );
            &&& t.id == id && t.registry_id == registry_id && e.id == registry_id
            &&& t.name == name && e.name == name && t.kind == kind
            &&& t.plugin_path == path && e.plugin_path == path
            &&& t.class_id == class_id && e.class_id == class_id
            &&& t.import_state == state && e.state == state
            &&& t.vst_state == bytes && e.vst_state == bytes
            &&& t.midi_source is None && t.feed is None && t.editor is None
            &&& e.is_lesynth <==> kind is LeSynth
            &&& e.percussion == percussion && e.wav is None && e.live is None
        }),
{
}

/// A track remembers nothing of an editor that is not open, nothing of another kind
/// than its own, and nothing where there is nothing; and it never changes but in what
/// it remembers of its sound.
pub proof fn law_what_a_track_does_not_remember(t: PluginTrackView, c: Captured)
    ensures
        t.editor is None || c is Nothing ==> remembers(t, c) == t,
        t.kind is LeSynth && !(c is Grid) ==> remembers(t, c) == t,
        t.kind is CustomVst && !(c is Component) ==> remembers(t, c) == t,
        c matches Captured::Component(b) && b@.len() == 0 ==> remembers(t, c) == t,
        remembers(t, c) == (PluginTrackView {
            import_state: remembers(t, c).import_state,
            vst_state: remembers(t, c).vst_state,
            ..t
        }),
        t.kind is LeSynth ==> remembers(t, c).vst_state == t.vst_state,
        t.kind is CustomVst ==> remembers(t, c).import_state == t.import_state,
{
}

/// What a track's editor held goes to the registry's entry of that track and to no
/// other, and changes nothing of it but its sound.
pub proof fn law_the_registry_remembers_for_one_track(
    s: Seq<EntryView>,
    next: int,
    t: PluginTrackView,
    c: Captured,
    k: int,
)
    requires
        crate::registry::own_ids(s, next),
        0 <= k < s.len(),
    ensures
        registry_remembers(s, t, c).len() == s.len(),
        s[k].id != t.registry_id ==> registry_remembers(s, t, c)[k] == s[k],
        registry_remembers(s, t, c)[k] == (EntryView {
            state: registry_remembers(s, t, c)[k].state,
            vst_state: registry_remembers(s, t, c)[k].vst_state,
            ..s[k]
        }),
        remembers(t, c) == t && (t.editor is None || c is Nothing) ==> registry_remembers(s, t, c)
            == s,
{
    crate::registry::law_a_track_is_found_by_its_id(s, t.registry_id);
}

/// After the registry is pointed at the editors, the entry of every track has the
/// instance behind the track's editor, or none where it has none, and an entry of no
/// track stays as it was.
pub proof fn law_the_registry_points_at_open_editors(
    s: Seq<EntryView>,
    next: int,
    tracks: Seq<PluginTrackView>,
    k: int,
)
    requires
        crate::registry::own_ids(s, next),
        0 <= k < s.len(),
        forall|i: int, j: int|
            0 <= i < j < tracks.len() ==> (#[trigger] tracks[i]).registry_id != (
            #[trigger] tracks[j]).registry_id,
    ensures
        lives(s, tracks).len() == s.len(),
        lives(s, tracks)[k] == (EntryView { live: lives(s, tracks)[k].live, ..s[k] }),
        forall|i: int|
            0 <= i < tracks.len() && (#[trigger] tracks[i]).registry_id == s[k].id ==> lives(
                s,
                tracks,
            )[k].live == (if tracks[i].editor is Some {
                Some(tracks[i].editor->0.handle)
            } else {
                None
            }),
        (forall|i: int| 0 <= i < tracks.len() ==> (#[trigger] tracks[i]).registry_id != s[k].id)
            ==> lives(s, tracks)[k] == s[k],
    decreases tracks.len(),
{
    if tracks.len() > 0 {
        let init = tracks.drop_last();
        assert forall|i: int, j: int| 0 <= i < j < init.len() implies (
        #[trigger] init[i]).registry_id != (#[trigger] init[j]).registry_id by {
            assert(init[i] == tracks[i] && init[j] == tracks[j]);
        }
        law_the_registry_points_at_open_editors(s, next, init, k);
        let before = lives(s, init);
        let t = tracks.last();
        assert forall|j: int| 0 <= j < s.len() implies before.len() == s.len() && (
        #[trigger] before[j]).id == s[j].id by {
            law_the_registry_points_at_open_editors(s, next, init, j);
        }
        assert(crate::registry::own_ids(before, next)) by {
            assert forall|i: int, j: int| 0 <= i < j < before.len() implies (
            #[trigger] before[i]).id != (#[trigger] before[j]).id by {
                assert(s[i].id != s[j].id);
            }
            assert forall|i: int| 0 <= i < before.len() implies (#[trigger] before[i]).id < next by {
                assert(s[i].id < next);
            }
        }
        let f = |e: EntryView|
            EntryView {
                live: match t.editor {
                    Some(o) => Some(o.handle),
                    None => None,
                },
                ..e
            };
        crate::registry::law_a_change_is_to_one_track(before, next, t.registry_id, f);
        assert(lives(s, tracks)[k] == (if before[k].id == t.registry_id {
            f(before[k])
        } else {
            before[k]
        })) by {
            assert(lives(s, tracks) =~= crate::registry::with_entry(before, t.registry_id, f));
        }
        assert forall|i: int|
            0 <= i < tracks.len() && (#[trigger] tracks[i]).registry_id == s[k].id implies lives(
            s,
            tracks,
        )[k].live == (if tracks[i].editor is Some {
            Some(tracks[i].editor->0.handle)
        } else {
            None
        }) by {
            if i < init.len() {
                assert(init[i] == tracks[i]);
                assert(tracks[i].registry_id != tracks[tracks.len() - 1].registry_id);
            }
        }
        if forall|i: int| 0 <= i < tracks.len() ==> (#[trigger] tracks[i]).registry_id != s[k].id {
            assert(tracks[tracks.len() - 1].registry_id != s[k].id);
            assert forall|i: int| 0 <= i < init.len() implies (#[trigger] init[i]).registry_id
                != s[k].id by {
                assert(init[i] == tracks[i]);
            }
        }
    }
}

/// Panels that are the same but for what they say have the same tracks and browser.
pub proof fn law_what_is_the_same_but_for_the_status(a: TracksPanel, b: TracksPanel)
    requires
        a.same_but_status(&b),
    ensures
        a.tracks == b.tracks && a.next_id == b.next_id && a.browser == b.browser,
{
}

/// What is seen of tracks is what they are, one by one.
pub proof fn law_what_is_seen_of_tracks(s: Seq<PluginTrack>, i: int)
    requires
        0 <= i < s.len(),
    ensures
        tracks_view(s).len() == s.len(),
        ({
            let t = tracks_view(s)[i];
            &&& t.id == s[i].id && t.registry_id == s[i].registry_id && t.name == s[i].name@
            &&& t.kind == s[i].kind && t.plugin_path == s[i].plugin_path@
            &&& t.class_id == class_view(s[i].class_id)
            &&& t.import_state == state_view(s[i].import_state)
            &&& t.vst_state == bytes_view(s[i].vst_state)
            &&& t.midi_source == text_view(s[i].midi_source)
            &&& t.feed == s[i].feed && t.editor == s[i].editor
        }),
{
}

/// What is said where a plugin is missing: which, where it should be.
pub proof fn law_what_is_said_of_a_missing_plugin(path: String)
    ensures
        adopt_text(AdoptError::NoInternalPlugin) == "internal LeSynth Fourier plugin not found"@,
        adopt_text(AdoptError::NoPlugin { path }) == "plugin not found at "@ + path@,
        no_plugin_text(None) == "Could not locate the internal plugin."@,
{
}

/// Taking tracks out leaves the entries of every other track, and none of theirs.
pub proof fn law_taking_tracks_out_leaves_the_others(
    entries: Seq<EntryView>,
    tracks: Seq<PluginTrackView>,
    e: EntryView,
)
    ensures
        without(entries, tracks).contains(e) <==> entries.contains(e) && forall|i: int|
            0 <= i < tracks.len() ==> (#[trigger] tracks[i]).registry_id != e.id,
    decreases tracks.len(),
{
    if tracks.len() > 0 {
        let init = tracks.drop_last();
        law_taking_tracks_out_leaves_the_others(entries, init, e);
        let before = without(entries, init);
        let id = tracks.last().registry_id;
        crate::registry::law_removing_leaves_what_has_another_id(before, id);
        crate::order::lemma_filter(before, |x: EntryView| x.id != id);
        if forall|i: int| 0 <= i < tracks.len() ==> (#[trigger] tracks[i]).registry_id != e.id {
            assert forall|i: int| 0 <= i < init.len() implies (#[trigger] init[i]).registry_id
                != e.id by {
                assert(init[i] == tracks[i]);
            }
            assert(tracks[tracks.len() - 1].registry_id != e.id);
        }
        if id != e.id && forall|i: int|
            0 <= i < init.len() ==> (#[trigger] init[i]).registry_id != e.id {
            assert forall|i: int| 0 <= i < tracks.len() implies (#[trigger] tracks[i]).registry_id
                != e.id by {
                if i < init.len() {
                    assert(init[i] == tracks[i]);
                }
            }
        }
    }
}

} // verus!
