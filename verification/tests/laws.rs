use gemstone::analysis::segmentation::Pitch;
use gemstone::composer::length::{Duration, Fraction, LONGEST, TICKS_PER_UNIT};
use gemstone::composer::names::{grid_file_name, sanitize_name};
use gemstone::composer::project::{Project, ProjectError};
use gemstone::audio::limiter::Lookahead;
use gemstone::composer::record::{
    notes_from, quantize, split_units, split_voices, GridNote, RecordedNote, LONGEST_PLAIN,
};
use gemstone::file_label;
use gemstone::midi::list_usb_midi_keyboards;
use gemstone::number::{is_greater, is_no_less, same_number, same_numbers};
use gemstone::order::put_in_order;
use gemstone::path::{join, with_slashes};
use gemstone::registry::TrackRegistry;
use gemstone::track_format::TrackState;

#[test]
fn bits_are_ordered_as_their_numbers() {
    let values =
        [0.0f32, -0.0, 1.0, -1.0, 0.4, f32::MIN_POSITIVE, f32::INFINITY, f32::NEG_INFINITY, f32::NAN];
    for a in values {
        for b in values {
            let (x, y) = (a.to_bits(), b.to_bits());
            assert_eq!(same_number(x, y), a == b, "{a} and {b}");
            assert_eq!(is_no_less(x, y), a >= b, "{a} and {b}");
            assert_eq!(is_greater(x, y), a > b, "{a} and {b}");
        }
    }
    assert!(same_numbers(&vec![0.0f32.to_bits()], &vec![(-0.0f32).to_bits()]));
    assert!(!same_numbers(&vec![], &vec![0]));
}

#[test]
fn ordering_keeps_everything() {
    let pitches: Vec<Pitch> = [5u32, 1, 3, 1].iter().map(|f| Pitch { freq: *f }).collect();
    let sorted: Vec<u32> = put_in_order(&pitches).iter().map(|p| p.freq).collect();
    assert_eq!(sorted, vec![1, 1, 3, 5]);
    let again = put_in_order(&put_in_order(&pitches));
    assert_eq!(again.iter().map(|p| p.freq).collect::<Vec<_>>(), sorted);
}

#[test]
fn saving_again_changes_nothing() {
    let text = "gemstone-project 1\nname =  A  song \ntempo = 120\n\n[row]\ntrack = x\n\
                source = vst /a b.so\ngain = 1\nautosave = off\nlead = 1 3/8\n\
                note = 60 0 1/4 0 none\nnote = 61 2 none 0 1/256\n";
    let first = Project::parse(text).unwrap();
    let saved = first.to_text();
    let second = Project::parse(&saved).unwrap();
    assert_eq!(second, first);
    assert_eq!(second.to_text(), saved);
}

#[test]
fn a_joined_name_is_the_name() {
    for dir in ["/a/b", "a", "/"] {
        assert_eq!(file_label(&join(dir, "My Song.gmstn")), "My Song.gmstn");
    }
}

#[test]
fn removing_a_track_leaves_the_others() {
    let mut registry = TrackRegistry::new();
    let a = registry.add("a", "/a.so", None, false, None);
    let b = registry.add("b", "/b.so", None, false, None);
    let c = registry.add_wav("c.wav", "/c.wav", 0);
    registry.remove(b);
    assert!(registry.contains(a) && !registry.contains(b) && registry.is_wav(c));
    assert_eq!(registry.name_of(a).as_deref(), Some("a"));
    assert_eq!(registry.first_id(), Some(a));
    assert_eq!(registry.list().len(), 2);
    assert_eq!(registry.entries().len(), 2);
    let d = registry.add("d", "/d.so", None, false, None);
    assert_ne!(d, b, "an id is never given out twice");
}

#[test]
fn a_track_that_was_read_is_valid() {
    let state = TrackState {
        num_harmonics: 2,
        num_buckets: 1,
        base_freq: 1,
        duration_secs: 2,
        sample_rate: 3,
        display_gain: 4,
        amplitude: vec![1, 2],
        phase: vec![3, 4],
        pitch_ratio: vec![5],
        bucket_lengths: vec![6],
        dc: vec![7],
        nyquist: vec![8],
        amp_enabled: vec![],
        phase_enabled: vec![true, false],
    };
    let read = TrackState::from_bytes(&state.to_bytes()).unwrap();
    assert!(read.validate().is_ok());
    assert!(read.same_as(&state));
}

#[test]
fn rounding_is_off_by_half_a_step_at_most() {
    for at in [0, 7, 8, 9, 23, 24, 25] {
        let t = at * TICKS_PER_UNIT;
        let note = RecordedNote { at: t, dur: 16 * TICKS_PER_UNIT, pitch: 60 };
        let placed = quantize(&[note], 16)[0].at;
        assert_eq!(placed % 16, 0);
        assert!((placed - at).abs() <= 8, "{at} became {placed}");
    }
}

#[test]
fn every_key_struck_is_a_note_of_some_row() {
    let t = |u: i64| Some(u * TICKS_PER_UNIT);
    let messages = vec![
        (t(0), [0x90, 60, 1]),
        (t(0), [0x90, 64, 1]),
        (t(64), [0x80, 60, 0]),
        (t(64), [0x80, 64, 0]),
        (t(64), [0x90, 67, 1]),
    ];
    let notes = notes_from(&messages, 128 * TICKS_PER_UNIT);
    assert_eq!(notes.len(), 3);
    let rows = split_voices(&quantize(&notes, 16));
    assert_eq!(rows.iter().map(|r| r.len()).sum::<usize>(), 3);
    assert_eq!(rows.len(), 2);
}

#[test]
fn lengths_are_said_one_way() {
    for wholes in [0u8, 3, 16] {
        for num in 1..=16u8 {
            for frac in Fraction::all() {
                let d = Duration::with_num(wholes, num, frac);
                let plain = Duration::exact(d.units()).expect("every offered length is found");
                assert_eq!(plain.units(), d.units());
            }
        }
    }
    for units in [1i64, 255, 1000, 97_920] {
        let parts = Duration::split(units);
        assert_eq!(parts.iter().map(|d| d.units()).sum::<i64>(), units);
    }
}

#[test]
fn free_names_differ_from_every_taken_one() {
    let taken: Vec<String> =
        ["A.lsft", "A 2.lsft", "A 4.lsft"].iter().map(|s| s.to_string()).collect();
    assert_eq!(grid_file_name("A", &taken), "A 3.lsft");
}

#[test]
fn names_are_looked_at_in_small_letters() {
    let all: Vec<String> =
        ["MIDI THROUGH Port-0", "VIRTUAL Raw", "Nord Éclair"].iter().map(|s| s.to_string()).collect();
    assert_eq!(list_usb_midi_keyboards(&all), vec!["Nord Éclair".to_string()]);
}

#[test]
fn a_fault_quotes_what_it_found() {
    let e = ProjectError::BadSource { value: "a \"b\"\t".to_string() };
    let want = format!("{:?}", "a \"b\"\t");
    assert!(e.message().contains(&want), "{}", e.message());
}

#[test]
fn no_typed_name_is_hidden_or_leads_out() {
    assert_eq!(sanitize_name(". .. ."), "Untitled");
    assert_eq!(sanitize_name(". .x"), "x");
    assert_eq!(sanitize_name(" . ./x. ."), "_x");
    assert_eq!(sanitize_name("v1.2"), "v1.2");
    for hostile in [". .", " .\t. a", "..\u{a0}..", ". ./..", "a . . "] {
        let got = sanitize_name(hostile);
        assert!(!got.starts_with('.') && !got.ends_with('.'), "{hostile:?} became {got:?}");
        assert_eq!(got.trim(), got);
        assert_eq!(std::path::Path::new(&got).components().count(), 1);
    }
}

#[test]
fn a_silence_is_laid_out_over_as_few_lengths_as_can_be() {
    assert_eq!(
        Duration::split(255),
        vec![
            Duration::with_num(0, 15, Fraction::Sixteenth),
            Duration::with_num(0, 15, Fraction::TwoHundredFiftySixth),
        ]
    );
    let most = 3 * LONGEST as usize;
    let mut offered = vec![false; LONGEST as usize + 1];
    for wholes in 0..=16u8 {
        for num in 1..=16u8 {
            for frac in Fraction::all() {
                offered[Duration::with_num(wholes, num, frac).units() as usize] = true;
            }
        }
    }
    let lengths: Vec<usize> = (1..offered.len()).filter(|u| offered[*u]).collect();
    let mut fewest = vec![usize::MAX; most + 1];
    fewest[0] = 0;
    for units in 1..=most {
        for &length in lengths.iter().take_while(|l| **l <= units) {
            fewest[units] = fewest[units].min(fewest[units - length].saturating_add(1));
        }
    }
    for units in 1..=most {
        let parts = Duration::split(units as i64);
        assert_eq!(parts.len(), fewest[units], "{units} units");
        assert_eq!(parts.iter().map(|d| d.units()).sum::<i64>(), units as i64);
    }
    assert!(Duration::split(0).is_empty() && Duration::split(-5).is_empty());
}

#[test]
fn a_line_with_an_unknown_key_changes_nothing() {
    let lines = [
        "gemstone-project 1",
        "name = A",
        "[row]",
        "source = vst /a.so",
        "note = 60 0 3/8 0 none",
    ];
    let whole = Project::parse(&lines.join("\n")).unwrap();
    for at in 1..=lines.len() {
        for strange in ["future = 1", "Note_2 = 60 0 x", "names = B", "no field at all"] {
            let mut more: Vec<&str> = lines.to_vec();
            more.insert(at, strange);
            assert_eq!(Project::parse(&more.join("\n")).unwrap(), whole, "{strange} at {at}");
        }
    }
}

#[test]
fn a_nominator_is_one_that_the_boxes_offer() {
    let read = |token: &str| {
        Project::parse(&format!("gemstone-project 1\n[row]\nlead = 0 {token}"))
            .map(|p| p.rows[0].lead)
    };
    assert_eq!(read("3/8"), Ok(Duration::with_num(0, 3, Fraction::Eighth)));
    assert_eq!(
        read("16/256"),
        Ok(Duration::with_num(0, 16, Fraction::TwoHundredFiftySixth))
    );
    for token in ["+1/4", "01/8", "200/256", "17/256", "0/4", "/4", "1/3", "1/+4"] {
        assert_eq!(
            read(token),
            Err(ProjectError::BadFraction { token: token.to_string() }),
            "{token}"
        );
    }
}

#[test]
fn a_path_is_split_where_its_system_splits_it() {
    assert_eq!(file_label(&with_slashes("C:\\songs\\a.wav", true)), "a.wav");
    assert_eq!(file_label(&with_slashes("/songs/a\\b.wav", false)), "a\\b.wav");
}

#[test]
fn pitches_are_ordered_as_numbers() {
    let values = [1.5f32, -2.0, 0.25, -0.5];
    let pitches: Vec<Pitch> = values.iter().map(|f| Pitch { freq: f.to_bits() }).collect();
    let sorted: Vec<f32> = put_in_order(&pitches).iter().map(|p| f32::from_bits(p.freq)).collect();
    assert_eq!(sorted, vec![-2.0, -0.5, 0.25, 1.5]);
}

#[test]
fn a_take_has_as_many_rows_as_its_deepest_chord() {
    let note = |at: i64, dur: i64, pitch: u8| GridNote { at, dur, pitch };
    let chord = [note(0, 64, 60), note(0, 64, 64), note(0, 64, 67), note(64, 32, 60)];
    assert_eq!(split_voices(&chord).len(), 3);
    let line = [note(0, 20, 60), note(16, 20, 62), note(32, 20, 64)];
    assert_eq!(split_voices(&line).len(), 1);
    // A note that comes and goes under two held ones takes a third row.
    let held = [note(0, 2, 60), note(0, 10, 64), note(3, 17, 60), note(4, 1, 72)];
    assert_eq!(split_voices(&held).len(), 3);
}

#[test]
fn a_silence_takes_no_more_parts_than_it_needs() {
    for units in 1..LONGEST_PLAIN {
        let needed = ((units % 256).count_ones() as usize).max(1);
        assert_eq!(split_units(units).len(), needed, "{units} units");
    }
}

#[test]
fn every_note_starts_where_its_key_was_struck() {
    let t = |u: i64| Some(u * TICKS_PER_UNIT);
    let messages = vec![
        (t(-4), [0x90, 60, 1]),
        (t(8), [0x90, 60, 1]),
        (None, [0x90, 61, 1]),
        (t(16), [0x90, 62, 1]),
        (t(24), [0x80, 60, 0]),
    ];
    let notes = notes_from(&messages, 32 * TICKS_PER_UNIT);
    let starts: Vec<(i64, u8)> = notes.iter().map(|n| (n.at, n.pitch)).collect();
    assert_eq!(starts, vec![(0, 60), (8 * TICKS_PER_UNIT, 60), (16 * TICKS_PER_UNIT, 62)]);
}

#[test]
fn a_stream_hands_back_as_many_samples_as_it_takes_in() {
    let mut stream = Lookahead::new(2, 3);
    for block in [1usize, 5, 7, 30, 2] {
        let data = vec![1u32; block];
        for chunk in stream.feed(&data) {
            if let Some(held) = stream.hold(chunk) {
                stream.play_out(&held);
            }
        }
        assert!(stream.ready() >= block);
        assert_eq!(stream.take_out(block).len(), block);
    }
}
