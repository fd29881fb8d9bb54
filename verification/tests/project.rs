use gemstone::composer::length::{Duration, Fraction};
use gemstone::composer::names::{grid_file_name, sanitize_name, unique_file_name, EXTENSION};
use gemstone::composer::project::{
    class_from_hex, hex_class, num, one_line, Project, ProjectError, ProjectRow, TrackSource,
};
use gemstone::composer::row::Item;
use gemstone::text::chars_of;

fn note(pitch: u8, dur: Duration, space: Duration) -> Item {
    Item { id: 0, pitch, start: 0, dur, space }
}

fn sample() -> Project {
    Project {
        name: "My Song".to_string(),
        tempo_bpm: "132.5".to_string(),
        rows: vec![
            ProjectRow {
                track_name: "LeSynth Fourier 1".to_string(),
                source: TrackSource::LeSynth { file: "voice.lsft".to_string() },
                gain: "0.75".to_string(),
                lead: Duration::new(0, Fraction::Eighth),
                autosave: true,
                autoscroll: true,
                items: vec![
                    note(60, Duration::new(0, Fraction::Quarter), Duration::new(0, Fraction::Eighth)),
                    note(67, Duration::new(2, Fraction::Zero), Duration::new(0, Fraction::Zero)),
                ],
            },
            ProjectRow {
                track_name: "some-plugin.so".to_string(),
                source: TrackSource::Vst {
                    path: "/opt/vst3/some plugin.so".to_string(),
                    class_id: Some([1, 2, 3, -4, 5, 6, 7, 8, 9, 10, 11, 12, 13, 14, 15, -16]),
                    state: Some("some plugin.vststate".to_string()),
                },
                gain: "1".to_string(),
                lead: Duration::new(1, Fraction::Sixteenth),
                autosave: false,
                autoscroll: true,
                items: vec![],
            },
        ],
    }
}

#[test]
fn a_project_round_trips_through_the_file() {
    let p = sample();
    let back = Project::parse(&p.to_text()).expect("parses");
    assert_eq!(back, p);
}

#[test]
fn a_path_needs_no_escaping() {
    let mut p = sample();
    p.rows[1].source = TrackSource::Vst {
        path: "/opt/vst3/weird = name (v2) [x86].so".to_string(),
        class_id: None,
        state: Some("weird = name.vststate".to_string()),
    };
    p.name = "Song = 2".to_string();
    let back = Project::parse(&p.to_text()).expect("parses");
    assert_eq!(back, p);
}

#[test]
fn an_unknown_field_is_skipped_not_fatal() {
    let text = "gemstone-project 1\nname = X\nsomething_new = 4\n\n\
                [row]\nsource = none\nfuture_field = yes\nnote = 60 0 1/4 0 none\n";
    let p = Project::parse(text).expect("parses");
    assert_eq!(p.name, "X");
    assert_eq!(p.rows.len(), 1);
    assert_eq!(p.rows[0].items.len(), 1);
}

#[test]
fn a_newer_format_is_refused() {
    let err = Project::parse("gemstone-project 99\nname = X\n").unwrap_err().message();
    assert!(err.contains("newer Gemstone"), "{err}");
    assert!(Project::parse("something else\n").is_err());
}

#[test]
fn every_source_kind_round_trips() {
    for src in [
        TrackSource::NoTrack,
        TrackSource::LeSynthDefault,
        TrackSource::LeSynth { file: "a b.lsft".to_string() },
        TrackSource::Wav { path: "/takes/a b.wav".to_string() },
        TrackSource::Vst { path: "/x/y.so".to_string(), class_id: None, state: None },
        TrackSource::Vst {
            path: "/x/y.so".to_string(),
            class_id: Some([-1i8; 16]),
            state: None,
        },
        TrackSource::Vst {
            path: "/x/y.so".to_string(),
            class_id: None,
            state: Some("y.vststate".to_string()),
        },
    ] {
        let mut p = sample();
        p.rows.truncate(1);
        p.rows[0].source = src.clone();
        let back = Project::parse(&p.to_text()).expect("parses");
        assert_eq!(back.rows[0].source, src);
    }
}

#[test]
fn a_name_becomes_one_safe_path_component() {
    assert_eq!(sanitize_name("My Song"), "My Song");
    assert_eq!(sanitize_name("a/b"), "a_b");
    assert_eq!(sanitize_name("  "), "Untitled");
    assert_eq!(sanitize_name(""), "Untitled");
    // Nothing that escapes the folder, starts a hidden one, or ends the
    // string somewhere a filesystem will not follow.
    for hostile in ["../etc", "..", "/", ".hidden", "a\0b", "c:\\x", "  ..  "] {
        let got = sanitize_name(hostile);
        assert!(!got.is_empty(), "{hostile:?} sanitised to nothing");
        assert!(!got.starts_with('.'), "{hostile:?} -> {got:?} is hidden");
        assert!(
            !got.contains(['/', '\\', '\0']),
            "{hostile:?} -> {got:?} still has a separator"
        );
        assert_eq!(std::path::Path::new(&got).components().count(), 1, "{got:?}");
    }
    // A letter of any script is kept.
    assert_eq!(sanitize_name("é日本 2-x_y.z"), "é日本 2-x_y.z");
}

#[test]
fn grid_file_names_do_not_collide() {
    let mut taken = Vec::new();
    for want in ["Voice.lsft", "Voice 2.lsft", "Voice 3.lsft"] {
        let got = grid_file_name("Voice", &taken);
        assert_eq!(got, want);
        taken.push(got);
    }
    assert_eq!(unique_file_name("a/b", "vststate", &taken), "a_b.vststate");
}

#[test]
fn a_missing_vst_names_its_path() {
    let src = TrackSource::Vst {
        path: "/nowhere/plugin.so".to_string(),
        class_id: None,
        state: Some("plugin.vststate".to_string()),
    };
    assert_eq!(src.required_path("/x").unwrap(), "/nowhere/plugin.so");
    assert!(src.describe().contains("plugin.so"));
}

#[test]
fn a_grid_lies_in_the_project_s_folder() {
    let src = TrackSource::LeSynth { file: "Voice.lsft".to_string() };
    assert_eq!(src.required_path("/music/Song"), Some("/music/Song/Voice.lsft".to_string()));
    assert_eq!(src.describe(), "Voice.lsft");
    assert_eq!(TrackSource::LeSynthDefault.required_path("/x"), None);
    assert_eq!(TrackSource::NoTrack.required_path("/x"), None);
    assert_eq!(EXTENSION, "gmstn");
}

#[test]
fn a_fraction_keeps_its_nominator() {
    let mut p = sample();
    p.rows[0].items[0].dur = Duration::with_num(2, 3, Fraction::Eighth);
    assert!(p.to_text().contains("2 3/8"), "{}", p.to_text());
    assert_eq!(Project::parse(&p.to_text()).unwrap(), p);
}

#[test]
fn every_fault_is_told_apart() {
    let head = "gemstone-project 1\n[row]\n";
    let fault = |body: &str| Project::parse(&format!("{head}{body}\n")).unwrap_err();
    assert_eq!(Project::parse("").unwrap_err(), ProjectError::Empty);
    assert_eq!(
        Project::parse("something else\n").unwrap_err(),
        ProjectError::NotAProject { header: "something else".to_string() }
    );
    assert_eq!(Project::parse("gemstone-project x\n").unwrap_err(), ProjectError::BadVersion);
    assert_eq!(
        Project::parse("gemstone-project 99\n").unwrap_err(),
        ProjectError::Newer { version: 99 }
    );
    assert_eq!(
        fault("lead = 0 1/3"),
        ProjectError::BadFraction { token: "1/3".to_string() }
    );
    assert_eq!(
        fault("note = 60 0 1/4"),
        ProjectError::BadNote { value: "60 0 1/4".to_string() }
    );
    assert_eq!(fault("note = x 0 1/4 0 none"), ProjectError::BadPitch);
    assert_eq!(
        fault("source = tape"),
        ProjectError::BadSource { value: "tape".to_string() }
    );
    for e in [
        fault("lead = 0 1/3"),
        fault("note = 60 0 1/4"),
        fault("note = x 0 1/4 0 none"),
        fault("source = tape"),
    ] {
        assert!(!e.message().is_empty());
    }
}

#[test]
fn a_class_id_is_thirty_two_digits() {
    let id = [1, 2, 3, -4, 5, 6, 7, 8, 9, 10, 11, 12, 13, 14, 15, -16];
    assert_eq!(hex_class(&id), "010203fc05060708090a0b0c0d0e0ff0");
    assert_eq!(class_from_hex(&chars_of(&hex_class(&id))), Ok(id));
    assert_eq!(class_from_hex(&chars_of("0102")), Err(ProjectError::ClassIdLength { len: 4 }));
    assert_eq!(
        class_from_hex(&chars_of("zz0203fc05060708090a0b0c0d0e0ff0")),
        Err(ProjectError::ClassIdDigits)
    );
}

#[test]
fn a_value_stays_on_its_line() {
    assert_eq!(one_line("a\nb\r c"), "a b  c");
    assert_eq!(num("132.5000"), "132.5");
    assert_eq!(num("1.0000"), "1");
    let mut p = sample();
    p.rows.truncate(1);
    p.name = "two\nlines".to_string();
    assert_eq!(Project::parse(&p.to_text()).unwrap().name, "two lines");
}
