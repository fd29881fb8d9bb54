use gemstone::arguments::{has_flag, longest, option_value, source_argument};
use gemstone::composer::length::{Duration, Fraction};
use gemstone::composer::panel::ComposerPanel;
use gemstone::composer::project::{Project, ProjectRow, TrackSource};
use gemstone::daw::devices::{octave_choices, octave_shift_label, status_mood, DevicePanel, Mood};
use gemstone::daw::load::{first_rows, load_failed, load_project, project_folder, Internal, Material};
use gemstone::daw::save::{finish_save, plan_save, row_sources, writes_sound, Sound};
use gemstone::file_label;
use gemstone::path::{extension, file_stem, is_same_path, join, parent};
use gemstone::registry::{PlaybackSource, TrackRegistry};
use gemstone::tracks::panel::TracksPanel;

#[test]
fn a_path_shows_as_its_name_alone() {
    assert_eq!(file_label("/home/kuba/Music/My Song/My Song.gmstn"), "My Song.gmstn");
    assert_eq!(file_label("/opt/vst3/Dexed.vst3"), "Dexed.vst3");
    // A folder is named by its own last component, which is what the
    // Composer shows for a project directory.
    assert_eq!(file_label("/home/kuba/Music/My Song"), "My Song");
    // Relative paths, and a name that is already bare, come through as-is.
    assert_eq!(file_label("internal_plugins/liblesynth_fourier.so"), "liblesynth_fourier.so");
    assert_eq!(file_label("voice.lsft"), "voice.lsft");
    // Nothing to take a name from: better the odd string than an empty
    // label with no clue in it.
    assert_eq!(file_label("/"), "/");
    assert_eq!(file_label(".."), "..");
}

#[test]
fn paths_are_taken_apart_as_the_system_does() {
    for p in ["/a/b.c", "a/./b", "/a//b/", "a/.hidden", "x.tar.gz", "/", "", "..", "a/..", "."] {
        let want = std::path::Path::new(p);
        assert_eq!(parent(p), want.parent().map(|q| q.display().to_string()), "parent of {p:?}");
        assert_eq!(
            file_stem(p),
            want.file_stem().map(|q| q.to_string_lossy().into_owned()),
            "stem of {p:?}"
        );
        assert_eq!(
            extension(p).map(|v| v.into_iter().collect::<String>()),
            want.extension().map(|q| q.to_string_lossy().into_owned()),
            "extension of {p:?}"
        );
        assert_eq!(join(p, "f"), want.join("f").display().to_string(), "{p:?} and a file");
    }
    for (a, b) in [("/a//b/", "/a/b"), ("a/./b", "a/b"), ("/a", "a"), ("a/../b", "b")] {
        assert_eq!(is_same_path(a, b), std::path::Path::new(a) == std::path::Path::new(b));
    }
}

fn row(name: &str, source: TrackSource) -> ProjectRow {
    ProjectRow {
        track_name: name.to_string(),
        source,
        gain: "1".to_string(),
        lead: Duration::new(0, Fraction::Zero),
        autosave: true,
        autoscroll: true,
        items: vec![],
    }
}

fn internal() -> Internal {
    Internal { path: Some("/p.so".to_string()), there: true, class_id: [3; 16] }
}

/// Load a project of some rows onto an empty desk.
fn loaded(rows: Vec<ProjectRow>, materials: Vec<Material>) -> (TracksPanel, TrackRegistry, Vec<u64>, ComposerPanel) {
    let project = Project { name: "Song".to_string(), tempo_bpm: "120".to_string(), rows };
    let mut tracks = TracksPanel::new();
    let mut registry = TrackRegistry::new();
    let mut wavs = vec![];
    let mut composer = ComposerPanel::new();
    let gains = vec![1.0f32.to_bits(); project.rows.len()];
    load_project(
        &project,
        "/music/Song",
        &materials,
        &internal(),
        &gains,
        120.0f32.to_bits(),
        &mut tracks,
        &mut registry,
        &mut wavs,
        &mut composer,
    );
    (tracks, registry, wavs, composer)
}

#[test]
fn a_wav_row_saves_as_a_path_and_loads_back_onto_the_file() {
    let wav = TrackSource::Wav { path: "/takes/a.wav".to_string() };
    let (tracks, registry, wavs, composer) = loaded(
        vec![row("a.wav", wav.clone())],
        vec![Material::Recording { secs: 2.0f32.to_bits() }],
    );
    assert!(tracks.tracks.is_empty(), "a recording is no plugin track");
    let id = composer.rows[0].track_id.expect("the row plays the file");
    assert_eq!(wavs, vec![id]);
    assert_eq!(registry.find_wav("/takes/./a.wav"), Some(id));
    assert_eq!(registry.wav_secs(id), Some(2.0f32.to_bits()));
    // Saved again, it is the same path, and nothing is copied.
    let played = vec![registry.playback_source(id, None, None)];
    let plan = plan_save(&registry.list(), &played);
    assert!(plan.files.is_empty());
    let sources = row_sources(&composer, &plan);
    assert_eq!(sources, vec![wav]);
}

#[test]
fn a_missing_audio_file_leaves_the_row_asking_for_it() {
    let wav = TrackSource::Wav { path: "/takes/gone.wav".to_string() };
    let (_, registry, wavs, composer) =
        loaded(vec![row("gone.wav", wav.clone())], vec![Material::Nothing]);
    assert!(registry.is_empty() && wavs.is_empty());
    assert_eq!(composer.rows[0].track_id, None);
    assert_eq!(composer.rows[0].missing, Some(wav));
    assert!(composer.track_label(0, &registry).contains("gone.wav"));
}

#[test]
fn rows_of_one_source_share_a_track() {
    let rows = || {
        vec![
            row("A", TrackSource::LeSynthDefault),
            row("", TrackSource::LeSynthDefault),
            row(
                "P",
                TrackSource::Vst {
                    path: "/v.so".to_string(),
                    class_id: None,
                    state: Some("P.vststate".to_string()),
                },
            ),
        ]
    };
    let project = Project { name: String::new(), tempo_bpm: "1".to_string(), rows: rows() };
    assert_eq!(first_rows(&project), vec![0, 0, 2]);
    let (tracks, registry, _, composer) = loaded(
        rows(),
        vec![
            Material::Nothing,
            Material::Nothing,
            Material::Plugin { bytes: Some(vec![5]), classes: None },
        ],
    );
    assert_eq!(tracks.tracks.len(), 2);
    assert_eq!(composer.rows[0].track_id, composer.rows[1].track_id);
    assert_ne!(composer.rows[0].track_id, composer.rows[2].track_id);
    assert_eq!(registry.list().len(), 2);
    assert_eq!(tracks.tracks[1].vst_state, Some(vec![5]));
}

#[test]
fn a_load_clears_what_the_last_one_brought() {
    let (mut tracks, mut registry, mut wavs, mut composer) = loaded(
        vec![row("a.wav", TrackSource::Wav { path: "/a.wav".to_string() })],
        vec![Material::Recording { secs: 0 }],
    );
    let empty = Project { name: "E".to_string(), tempo_bpm: "90".to_string(), rows: vec![] };
    load_project(
        &empty,
        "/music/E",
        &vec![],
        &internal(),
        &vec![],
        90.0f32.to_bits(),
        &mut tracks,
        &mut registry,
        &mut wavs,
        &mut composer,
    );
    assert!(registry.is_empty() && wavs.is_empty() && composer.rows.is_empty());
    assert_eq!(f32::from_bits(composer.tempo_bpm), 90.0);
    load_failed(&mut composer, "unreadable");
    assert_eq!(composer.status, "Load failed: unreadable");
    assert_eq!(project_folder("/music/E/E.gmstn"), "/music/E");
}

fn played(path: &str, bytes: Option<Vec<u8>>) -> Option<PlaybackSource> {
    Some(PlaybackSource {
        name: "N".to_string(),
        plugin_path: path.to_string(),
        class_id: None,
        is_lesynth: false,
        state: None,
        vst_state: bytes,
        wav: None,
    })
}

#[test]
fn no_two_sounds_share_a_file() {
    let tracks =
        vec![(0, "Voice".to_string()), (1, "Voice".to_string()), (2, "Plain".to_string())];
    let plan = plan_save(
        &tracks,
        &vec![played("/a.so", Some(vec![1])), played("/b.so", Some(vec![2])), played("/c.so", None)],
    );
    let names: Vec<&str> = plan.files.iter().map(|f| f.file.as_str()).collect();
    assert_eq!(names, vec!["Voice.vststate", "Voice 2.vststate"]);
    assert!(matches!(&plan.files[1].sound, Sound::Bytes(b) if *b == vec![2]));
    assert_eq!(
        plan.sources[2].1,
        TrackSource::Vst { path: "/c.so".to_string(), class_id: None, state: None }
    );
}

#[test]
fn a_sound_is_written_where_a_row_asks_or_none_is_there() {
    assert!(writes_sound(&vec![4], 4, true));
    assert!(!writes_sound(&vec![4], 5, true));
    assert!(writes_sound(&vec![], 5, false));
}

#[test]
fn a_save_says_where_it_went() {
    let mut composer = ComposerPanel::new();
    finish_save(&mut composer, "/music/Song".to_string(), "Song".to_string(), Ok(2));
    assert!(composer.status.starts_with("Saved to Song (2"), "{}", composer.status);
    assert_eq!(composer.project_dir.as_deref(), Some("/music/Song"));
    finish_save(&mut composer, "/x".to_string(), "X".to_string(), Err("full".to_string()));
    assert_eq!(composer.status, "Save failed: full");
    assert_eq!(composer.project_dir.as_deref(), Some("/music/Song"));
}

#[test]
fn the_octave_picker_reads_in_words() {
    assert_eq!(octave_shift_label(-1), "−1 octave down");
    assert_eq!(octave_shift_label(-3), "−3 octaves down");
    assert_eq!(octave_choices().len(), 9);
    for (text, mood) in [("MIDI error: busy", Mood::Bad), ("Connected: A", Mood::Good)] {
        assert_eq!(status_mood(text), mood, "{text}");
    }
    assert_eq!(status_mood("Add a file to begin."), Mood::Neutral);
}

#[test]
fn the_device_panel_connects_what_is_chosen() {
    let mut panel = DevicePanel::new();
    assert_eq!(panel.keyboard_label(), "Select USB keyboard…");
    assert_eq!(panel.connect_midi(), None);
    assert_eq!(panel.status, "No MIDI input ports found.");
    panel.refresh(vec!["Midi Through:0".to_string(), "MPK mini".to_string()]);
    assert_eq!(panel.ports.len(), 2);
    assert_eq!(panel.keyboards, vec!["MPK mini".to_string()]);
    let port = panel.connect_midi().expect("a port to open");
    panel.connected(&port, Ok(()));
    assert_eq!(panel.status, format!("Connected: {port}"));
    panel.connected(&port, Err("busy".to_string()));
    assert_eq!(panel.status, "MIDI error: busy");
}

#[test]
fn arguments_are_read_by_name() {
    let args: Vec<String> =
        ["in.wav", "--rate", "48000", "--quiet"].iter().map(|s| s.to_string()).collect();
    assert!(has_flag(&args, "--quiet") && !has_flag(&args, "--loud"));
    assert_eq!(option_value(&args, "--rate").as_deref(), Some("48000"));
    assert_eq!(option_value(&args, "--quiet"), None);
    assert_eq!(source_argument(&args).as_deref(), Some("in.wav"));
    assert_eq!(longest(&vec![3, 9, 2, 9]), Some(3));
    assert_eq!(longest(&vec![]), None);
}
