use gemstone::composer::names::sanitize_name;
use gemstone::midi::MidiRouter;
use gemstone::registry::TrackRegistry;
use gemstone::track_format::TrackState;
use gemstone::tracks::browser::{
    system_folders, vst3_candidates, vst3_search_paths, PluginBrowser, System,
};
use gemstone::tracks::naming::{
    is_a_drum_kit, name_module, name_with, unique_track_name, ClassInfo, AUDIO_CATEGORY,
};
use gemstone::tracks::panel::{AdoptError, Captured, OpenEditor, TracksPanel};

const CLASS: [i8; 16] = [7; 16];

fn texts(v: &[&str]) -> Vec<String> {
    v.iter().map(|s| s.to_string()).collect()
}

fn grid() -> TrackState {
    TrackState {
        num_harmonics: 1,
        num_buckets: 1,
        base_freq: 0,
        duration_secs: 0,
        sample_rate: 0,
        display_gain: 0,
        amplitude: vec![0],
        phase: vec![0],
        pitch_ratio: vec![0],
        bucket_lengths: vec![],
        dc: vec![],
        nyquist: vec![],
        amp_enabled: vec![],
        phase_enabled: vec![],
    }
}

#[test]
fn a_fresh_track_name_is_never_a_repeat() {
    let names: std::collections::HashSet<String> =
        (0..64).map(|_| unique_track_name("LeSynth Fourier 1")).collect();
    assert_eq!(names.len(), 64);
    // The readable part still leads, so a select box shows what the track is
    // before it shows which one it is.
    assert!(
        unique_track_name("LeSynth Fourier 1").starts_with("LeSynth Fourier 1 · "),
        "the name no longer reads as a name"
    );
    // And it survives being turned into a file name.
    let name = unique_track_name("Voice");
    assert_eq!(
        sanitize_name(&name).matches('-').count(),
        4,
        "the UUID did not survive sanitising: {name}"
    );
    // The identifier is a random one, in the usual form.
    let id = name.strip_prefix("Voice · ").unwrap();
    assert_eq!(id.len(), 36);
    assert_eq!(id.as_bytes()[14], b'4');
    assert_eq!(uuid::Uuid::parse_str(id).unwrap().get_version_num(), 4);
    assert_ne!(name_with("a", "x"), name_with("a", "y"));
}

#[test]
fn a_module_is_named_by_its_file() {
    assert_eq!(name_module("/opt/Dexed.vst3", "/opt/Dexed.vst3/x/Dexed.so"), "Dexed");
    assert_eq!(name_module("/", "/a/b.so"), "b");
    assert_eq!(name_module("/", "/"), "/");
}

#[test]
fn the_audio_class_says_whether_it_is_a_kit() {
    let class = |category: &str, sub: &str| ClassInfo {
        name: "X".to_string(),
        category: category.to_string(),
        subcategories: sub.to_string(),
    };
    let kit = Some(vec![
        class("Component Controller Class", "Drum"),
        class(AUDIO_CATEGORY, "Instrument|Drum"),
    ]);
    assert!(is_a_drum_kit(&kit, "Anything"));
    let synth = Some(vec![class(AUDIO_CATEGORY, "Instrument|Synth")]);
    assert!(!is_a_drum_kit(&synth, "Vital"));
    assert!(!is_a_drum_kit(&None, "Vital"));
    assert!(is_a_drum_kit(&None, "Sitala"));
}

#[test]
fn plugins_are_listed_by_name_and_namesakes_by_folder() {
    let entries =
        texts(&["/b/Zeta.vst3", "/a/notes.txt", "/a/alpha.vst3", "/a/Zeta.vst3", "/a/alpha.vst3"]);
    let browser = PluginBrowser::scan(texts(&["/a", "/b"]), &entries);
    let names: Vec<&str> = browser.found.iter().map(|(n, _)| n.as_str()).collect();
    assert_eq!(names.len(), 3, "{names:?}");
    assert_eq!(names[0], "alpha");
    assert!(names[1].starts_with("Zeta") && names[2].starts_with("Zeta"));
    assert_ne!(names[1], names[2], "namesakes are told apart");
    assert!(browser.error.is_none());
}

#[test]
fn the_plugin_folders_are_those_that_exist() {
    let linux = system_folders(System::Linux, Some("/home/me"), None);
    let dirs = vst3_candidates(&texts(&["/extra"]), Some("/home/me"), &linux);
    assert_eq!(
        dirs,
        texts(&["/extra", "/home/me/.vst3", "/usr/lib/vst3", "/usr/local/lib/vst3", "/usr/lib64/vst3"])
    );
    assert_eq!(
        vst3_search_paths(&dirs, &vec![true, false, true, false, false]),
        texts(&["/extra", "/usr/lib/vst3"])
    );
    assert_eq!(vst3_search_paths(&texts(&["/a", "/a"]), &vec![true, true]), texts(&["/a"]));
}

#[test]
fn a_track_is_made_only_where_its_plugin_is() {
    let mut registry = TrackRegistry::new();
    let mut panel = TracksPanel::new();
    panel.add_lesynth_track(&mut registry, None, false, CLASS);
    assert_eq!(panel.status, "Could not locate the internal plugin.");
    panel.add_lesynth_track(&mut registry, Some("/p.so"), false, CLASS);
    assert_eq!(panel.status, "Internal plugin not found at /p.so");
    assert!(panel.tracks.is_empty() && registry.is_empty());
    panel.add_lesynth_track(&mut registry, Some("/p.so"), true, CLASS);
    assert_eq!(panel.status, "Created LeSynth Fourier track.");
    assert!(panel.tracks[0].name.starts_with("LeSynth Fourier 1 · "));
    assert_eq!(registry.name_of(panel.tracks[0].registry_id), Some(panel.tracks[0].name.clone()));

    assert_eq!(
        panel.adopt_lesynth(&mut registry, "x", None, None, false, CLASS),
        Err(AdoptError::NoInternalPlugin)
    );
    let gone = panel.adopt_vst(&mut registry, "x", "/q.so", false, None, None, &None);
    assert_eq!(gone, Err(AdoptError::NoPlugin { path: "/q.so".to_string() }));
    assert_eq!(gone.unwrap_err().message(), "plugin not found at /q.so");
    let id = panel.adopt_vst(&mut registry, "Sitala", "/q.so", true, None, None, &None).unwrap();
    assert!(registry.is_percussion(id));
    assert_eq!(panel.tracks.len(), 2);
}

#[test]
fn a_picked_plugin_closes_the_picker_only_when_it_loads() {
    let mut registry = TrackRegistry::new();
    let mut panel = TracksPanel::new();
    panel.open_browser(PluginBrowser::scan(vec![], &vec![]));
    panel.picked(&mut registry, "/bad.vst3", Err("not a plugin".to_string()));
    let error = panel.browser.as_ref().and_then(|b| b.error.clone()).expect("the picker says why");
    assert!(error.contains("not a plugin"), "{error}");
    panel.picked(&mut registry, "/good.vst3", Ok(("/good.so".to_string(), None)));
    assert!(panel.browser.is_none());
    assert_eq!(panel.tracks.len(), 1);
    assert!(panel.tracks[0].name.starts_with("good"));
}

#[test]
fn closing_an_editor_keeps_its_sound() {
    let mut registry = TrackRegistry::new();
    let mut panel = TracksPanel::new();
    panel.add_lesynth_track(&mut registry, Some("/p.so"), true, CLASS);
    let id = panel.tracks[0].registry_id;
    panel.editor_opened(0, Ok(OpenEditor { handle: 9, audible: true }));
    panel.point_at_editors(&mut registry);
    assert_eq!(registry.live_of(id), Some(9));
    assert!(panel.repaint_after().is_some());
    panel.close_editor(0, &mut registry, Captured::Grid(grid()));
    assert!(panel.tracks[0].editor.is_none());
    let played = registry.playback_source(id, None, None).unwrap();
    assert!(played.state.unwrap().same_as(&grid()));
    panel.point_at_editors(&mut registry);
    assert_eq!(registry.live_of(id), None);
    panel.editor_opened(0, Err("no display".to_string()));
    assert_eq!(panel.status, "Open editor failed: no display");
}

#[test]
fn a_removed_track_leaves_the_registry() {
    let mut registry = TrackRegistry::new();
    let mut panel = TracksPanel::new();
    panel.add_lesynth_track(&mut registry, Some("/p.so"), true, CLASS);
    panel.add_custom_vst_track(&mut registry, "/q.vst3", "/q.so", &None);
    let name = panel.tracks[0].name.clone();
    panel.remove_track(0, &mut registry);
    assert_eq!(panel.status, format!("Removed {name}."));
    assert_eq!(registry.list().len(), 1);
    panel.clear(&mut registry);
    assert!(panel.tracks.is_empty() && registry.is_empty());
}

#[test]
fn a_track_hears_the_keyboard_it_is_pointed_at() {
    let mut registry = TrackRegistry::new();
    let mut panel = TracksPanel::new();
    let mut router = MidiRouter::new();
    panel.add_lesynth_track(&mut registry, Some("/p.so"), true, CLASS);
    assert_eq!(panel.midi_label(0, &None), "default (not connected)");
    assert_eq!(panel.midi_label(0, &Some("A".to_string())), "default (A)");
    router.opened("A");
    router.set_default_port(Some("A".to_string()));
    router.opened("B");
    let feed = panel.feed_of(0, &mut router);
    assert_eq!(panel.feed_of(0, &mut router).id, feed.id, "one feed per track");
    panel.retarget(0, Some("B".to_string()), &mut router);
    assert_eq!(panel.midi_label(0, &None), "B");
    router.deliver("B", [0x90, 60, 1]);
    assert_eq!(router.drain(feed), vec![[0x90, 60, 1]]);
    panel.retarget_failed("busy");
    assert_eq!(panel.status, "Could not switch MIDI source: busy");
}

#[test]
fn a_loaded_grid_becomes_a_track_of_its_name() {
    let mut registry = TrackRegistry::new();
    let mut panel = TracksPanel::new();
    panel.load_lesynth_track(&mut registry, "/x/Voice.lsft", Err("bad".to_string()), Some("/p.so"), true, CLASS);
    assert_eq!(panel.status, "Load failed: bad");
    panel.load_lesynth_track(&mut registry, "/x/Voice.lsft", Ok(grid()), Some("/p.so"), true, CLASS);
    assert!(panel.tracks[0].name.contains("Voice"), "{}", panel.tracks[0].name);
    let plan = panel.open_plan(0).unwrap();
    assert_eq!(plan.plugin_path, "/p.so");
    assert!(plan.import_state.is_some());
    assert!(!panel.can_export(0), "there is no editor to take the grid from");
    panel.editor_opened(0, Ok(OpenEditor { handle: 1, audible: true }));
    assert!(panel.can_export(0));
    assert!(panel.export_name(0).unwrap().ends_with(".lsft"));
    panel.exported(0, Err("disk full".to_string()));
    assert_eq!(panel.status, "Export failed: disk full");
    assert!(panel.open_plan(0).is_none(), "it is open already");
}

#[test]
fn every_system_has_its_own_plugin_folders() {
    let none: Vec<String> = Vec::new();
    assert_eq!(
        system_folders(System::Windows, None, Some("C:/Program Files/Common Files")),
        texts(&["C:/Program Files/Common Files/VST3"])
    );
    assert_eq!(system_folders(System::Windows, Some("/home/me"), None), none);
    assert_eq!(
        system_folders(System::MacOs, Some("/Users/me"), None),
        texts(&["/Users/me/Library/Audio/Plug-Ins/VST3", "/Library/Audio/Plug-Ins/VST3"])
    );
    assert_eq!(
        system_folders(System::MacOs, None, None),
        texts(&["/Library/Audio/Plug-Ins/VST3"])
    );
    assert_eq!(system_folders(System::Other, Some("/home/me"), None), none);
    assert_eq!(vst3_candidates(&none, None, &none), none);
}
