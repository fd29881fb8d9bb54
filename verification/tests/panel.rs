use gemstone::composer::cards::{
    exported_message, frame_look, Fill, Frame, FrameState, Readout, NO_TRACK,
};
use gemstone::composer::length::{Duration, Fraction, TICKS_PER_UNIT, UNITS_PER_BEAT, UNITS_PER_WHOLE};
use gemstone::composer::panel::{ComposerPanel, NO_BLOCK};
use gemstone::composer::project::{Project, ProjectRow, TrackSource};
use gemstone::composer::row::{Item, Row, DEFAULT_DRUM_PITCH, DEFAULT_PITCH};
use gemstone::composer::session::{notes_so_far, LiveSnapshot, ProjectRequest, Start};
use gemstone::registry::TrackRegistry;

const QUARTER: i64 = UNITS_PER_WHOLE / 4;
const EIGHTH: i64 = UNITS_PER_WHOLE / 8;

type Spec = (u8, Duration, Duration);

fn frac(f: Fraction) -> Duration {
    Duration::new(0, f)
}

fn row_of(items: &[Spec]) -> Row {
    let mut row = Row::new(0, None);
    for (pitch, dur, space) in items {
        let id = row.next_item_id;
        row.next_item_id += 1;
        row.items.push(Item { id, pitch: *pitch, start: 0, dur: *dur, space: *space });
    }
    row
}

/// A panel of several rows, each with its own id.
fn panel_with_rows(rows: &[&[Spec]]) -> ComposerPanel {
    let mut panel = ComposerPanel::new();
    for items in rows {
        let id = panel.next_row_id;
        panel.next_row_id += 1;
        let mut row = row_of(items);
        row.id = id;
        panel.rows.push(row);
    }
    panel
}

/// A panel with one row of `items`, playing track `track`.
fn panel_with(items: &[Spec], track: Option<u64>) -> ComposerPanel {
    let mut panel = ComposerPanel::new();
    let mut row = row_of(items);
    row.track_id = track;
    panel.rows.push(row);
    panel
}

fn registry_with(names: &[&str]) -> (TrackRegistry, Vec<u64>) {
    let mut registry = TrackRegistry::new();
    let ids = names
        .iter()
        .map(|n| registry.add(n, "/nonexistent/plugin.so", None, false, None))
        .collect();
    (registry, ids)
}

/// Where each row's notes start, in units, frames of no length left out.
fn note_starts(panel: &ComposerPanel) -> Vec<Vec<i64>> {
    panel
        .rows
        .iter()
        .map(|row| {
            let mut at = row.lead_units();
            let mut out = Vec::new();
            for item in &row.items {
                if item.dur.units() > 0 {
                    out.push(at);
                }
                at += item.total_units();
            }
            out
        })
        .collect()
}

/// One row as it sounds: where each note starts, how long it lasts, its pitch.
type Heard = (u64, Vec<(f64, f64, u8)>);

/// A snapshot in seconds, the rows and the length of the loop.
fn in_secs(s: &LiveSnapshot) -> (Vec<Heard>, f64) {
    let spu = 60.0 / f32::from_bits(s.tempo_bpm) as f64 / UNITS_PER_BEAT as f64;
    let rows = s
        .rows
        .iter()
        .map(|r| {
            let notes =
                r.notes.iter().map(|n| (n.at as f64 * spu, n.dur as f64 * spu, n.pitch)).collect();
            (r.row_id, notes)
        })
        .collect();
    (rows, s.loop_units as f64 * spu)
}

#[test]
fn a_live_snapshot_separates_note_edits_from_track_changes() {
    let items = [(60, frac(Fraction::Quarter), frac(Fraction::Eighth))];
    let panel = panel_with(&items, Some(7));
    let before = panel.live_snapshot();
    assert_eq!(
        in_secs(&before).0,
        in_secs(&panel.live_snapshot()).0,
        "an untouched composition must snapshot equal, or every frame republishes it"
    );

    // A note edit: same rows and tracks, different schedule.
    let mut edited = panel_with(&items, Some(7));
    edited.rows[0].items[0].pitch = 64;
    let after = edited.live_snapshot();
    assert_eq!(after.shape, before.shape, "a pitch change is not structural");
    assert_ne!(in_secs(&after).0, in_secs(&before).0, "the pitch change was not noticed");

    // Tempo moves every note *and* the loop length.
    let mut faster = panel_with(&items, Some(7));
    faster.tempo_bpm = 180.0f32.to_bits();
    let after = faster.live_snapshot();
    assert_eq!(after.shape, before.shape, "tempo is not structural");
    assert_ne!(in_secs(&after).0, in_secs(&before).0, "the tempo change did not move the notes");
    assert_ne!(in_secs(&after).1, in_secs(&before).1, "the loop length did not follow");

    // A different track means a different plugin: structural.
    let moved = panel_with(&items, Some(8));
    assert_ne!(
        moved.live_snapshot().shape,
        before.shape,
        "pointing a row at another track must count as structural"
    );

    // A row with nothing to play is in neither the plans nor the snapshot.
    let silent = panel_with(&[(60, frac(Fraction::Zero), frac(Fraction::Eighth))], Some(7));
    assert!(silent.live_snapshot().rows.is_empty());
}

#[test]
fn a_row_follows_the_track_list_as_tracks_come_and_go() {
    let (mut registry, ids) = registry_with(&["one", "two"]);
    let mut panel = ComposerPanel::new();
    panel.add_row(&registry);
    assert_eq!(panel.rows[0].track_id, Some(ids[0]));

    // The track this row plays is deleted → it takes the next available one.
    registry.remove(ids[0]);
    panel.reconcile_tracks(&registry);
    assert_eq!(panel.rows[0].track_id, Some(ids[1]));

    // Every track deleted → the placeholder, not a dangling id.
    registry.remove(ids[1]);
    panel.reconcile_tracks(&registry);
    assert_eq!(panel.rows[0].track_id, None);
    assert_eq!(panel.track_label(0, &registry), NO_TRACK);

    // A track exists again → the row picks it up.
    let late = registry.add("late", "/nonexistent/plugin.so", None, false, None);
    panel.reconcile_tracks(&registry);
    assert_eq!(panel.rows[0].track_id, Some(late));
    assert_eq!(panel.track_label(0, &registry), "late");
}

#[test]
fn a_start_past_the_end_of_the_file_is_pulled_back_into_it() {
    let mut registry = TrackRegistry::new();
    registry.add_wav("short.wav", "/x/short.wav", 2.0f32.to_bits());
    let mut panel = ComposerPanel::new();
    panel.add_row(&registry);
    panel.rows[0].add_note(DEFAULT_PITCH);
    panel.rows[0].items[0].start = 30.0f32.to_bits();

    panel.settle_starts(0, &registry);
    assert_eq!(f32::from_bits(panel.rows[0].items[0].start), 2.0);
}

#[test]
fn a_take_becomes_rows_on_the_composition() {
    let (registry, ids) = registry_with(&["one"]);
    let mut panel = ComposerPanel::new();
    panel.reconcile_tracks(&registry);
    // Nothing to play along to, so no transport is started.
    assert_eq!(panel.start_recording(0), Start::Listen);
    assert!(!panel.playing && !panel.preparing);
    assert!(panel.recording, "a take is running");

    // Two quarter notes at the default 120 BPM, the second a beat after the first.
    assert_eq!(f32::from_bits(panel.tempo_bpm), 120.0);
    let spu = 0.5 / UNITS_PER_BEAT as f64;
    let at = |ms: u64| Some((ms as f64 / 1000.0 / spu * TICKS_PER_UNIT as f64).round() as i64);
    let heard = vec![
        (at(0), [0x90, 60, 100]),
        (at(480), [0x80, 60, 0]),
        (at(500), [0x90, 64, 100]),
        (at(990), [0x80, 64, 0]),
    ];

    let status = panel
        .finish_recording(&registry, Some(heard), at(990).unwrap())
        .expect("the take reports itself");
    assert!(status.contains("2 note(s)"), "{status}");
    assert_eq!(panel.rows.len(), 1);
    assert_eq!(panel.rows[0].track_id, Some(ids[0]));
    assert_eq!(panel.rows[0].items.iter().map(|i| i.pitch).collect::<Vec<_>>(), vec![60, 64]);
    // Rounded to 1/16 and back to seconds: a quarter note each, a beat apart.
    let played = panel.rows[0].planned_notes();
    assert_eq!(played.len(), 2);
    assert!((played[0].at as f64 * spu - 0.0).abs() < 1e-9, "{played:?}");
    assert!((played[1].at as f64 * spu - 0.5).abs() < 1e-9, "{played:?}");
    assert!((played[0].dur as f64 * spu - 0.5).abs() < 1e-9, "{played:?}");
    // The take is over.
    assert!(!panel.recording);
    assert_eq!(panel.finish_recording(&registry, None, 0), None);
}

#[test]
fn a_take_that_was_lost_or_empty_changes_nothing() {
    let (registry, _ids) = registry_with(&["one"]);
    let mut panel = ComposerPanel::new();
    assert_eq!(panel.start_recording(0), Start::Listen);
    assert_eq!(panel.start_recording(0), Start::Refused);
    assert!(panel.finish_recording(&registry, None, 0).is_some());
    assert!(panel.rows.is_empty());
    panel.start_recording(0);
    let text = panel.finish_recording(&registry, Some(vec![]), 0).unwrap();
    assert!(text.contains("nothing") || text.contains("Nothing"), "{text}");
    assert!(panel.rows.is_empty());
    assert_eq!(notes_so_far(&vec![[0x90, 60, 1], [0x90, 60, 0], [0x80, 60, 1]]), 1);
}

fn one_row(source: TrackSource, gain: &str, lead: Duration, autosave: bool, items: Vec<Item>) -> ProjectRow {
    ProjectRow {
        track_name: "Voice".to_string(),
        source,
        gain: gain.to_string(),
        lead,
        autosave,
        autoscroll: true,
        items,
    }
}

fn lone(pitch: u8, dur: Fraction, space: Fraction) -> Vec<Item> {
    vec![Item { id: 0, pitch, start: 0, dur: frac(dur), space: frac(space) }]
}

#[test]
fn a_missing_source_is_kept_until_the_user_replaces_it() {
    let (registry, ids) = registry_with(&["other"]);
    let mut panel = ComposerPanel::new();
    let loaded = Project {
        name: "Song".to_string(),
        tempo_bpm: "100".to_string(),
        rows: vec![one_row(
            TrackSource::LeSynth { file: "Voice.lsft".to_string() },
            "0.5",
            frac(Fraction::Eighth),
            false,
            lone(62, Fraction::Quarter, Fraction::Zero),
        )],
    };
    // Nothing could be bound to it: the grid is gone.
    panel.apply_project(
        &loaded,
        "/tmp/Song",
        &vec![None],
        &vec![0.5f32.to_bits()],
        100.0f32.to_bits(),
    );

    assert_eq!(panel.rows.len(), 1);
    assert!(panel.rows[0].missing.is_some(), "the row must be marked");
    assert_eq!(panel.rows[0].track_id, None);
    assert_eq!(f32::from_bits(panel.rows[0].gain), 0.5);
    assert!(!panel.rows[0].autosave, "autosave must round-trip");
    assert_eq!(panel.rows[0].items.len(), 1);
    assert!(panel.track_label(0, &registry).contains("Voice.lsft"));

    // A track exists, and the row must NOT be quietly moved onto it.
    panel.reconcile_tracks(&registry);
    assert_eq!(panel.rows[0].track_id, None, "an unresolved row was adopted silently");

    // Saving again keeps the reference rather than erasing it.
    let again = panel.to_project(
        "Song",
        &registry,
        &vec![TrackSource::NoTrack],
        &vec!["0.5".to_string()],
        "100",
    );
    assert_eq!(
        again.rows[0].source,
        TrackSource::LeSynth { file: "Voice.lsft".to_string() },
        "a re-save lost what the row was looking for"
    );
    assert_eq!(again.rows[0].track_name, "Voice.lsft");

    // The user picks a replacement: the row becomes ordinary again.
    panel.pick_track(0, ids[0]);
    assert!(panel.is_picked(0, ids[0]));
    panel.reconcile_tracks(&registry);
    assert_eq!(panel.rows[0].track_id, Some(ids[0]));
    let fixed = panel.to_project(
        "Song",
        &registry,
        &vec![TrackSource::LeSynthDefault],
        &vec!["0.5".to_string()],
        "100",
    );
    assert_eq!(fixed.rows[0].source, TrackSource::LeSynthDefault);
}

#[test]
fn a_loaded_project_restores_every_row_setting() {
    let (registry, ids) = registry_with(&["a", "b"]);
    let mut panel = ComposerPanel::new();
    panel.add_row(&registry);
    let loaded = Project {
        name: "Two".to_string(),
        tempo_bpm: "88".to_string(),
        rows: vec![
            one_row(
                TrackSource::LeSynthDefault,
                "1.5",
                Duration::new(1, Fraction::Sixteenth),
                true,
                vec![],
            ),
            one_row(
                TrackSource::LeSynthDefault,
                "0.25",
                frac(Fraction::Zero),
                false,
                lone(70, Fraction::Half, Fraction::Quarter),
            ),
        ],
    };
    panel.apply_project(
        &loaded,
        "/tmp/Two",
        &vec![Some(ids[0]), Some(ids[1])],
        &vec![1.5f32.to_bits(), 0.25f32.to_bits()],
        88.0f32.to_bits(),
    );

    assert_eq!(panel.rows.len(), 2, "the old row must be replaced, not appended to");
    assert_eq!(f32::from_bits(panel.tempo_bpm), 88.0);
    assert_eq!(f32::from_bits(panel.rows[0].gain), 1.5);
    assert_eq!(panel.rows[0].lead, Duration::new(1, Fraction::Sixteenth));
    assert_eq!(panel.rows[1].track_id, Some(ids[1]));
    assert!(!panel.rows[1].autosave);
    assert_eq!(panel.rows[1].items[0].pitch, 70);
    // Row ids stay unique, so two rows never share widget state.
    assert_ne!(panel.rows[0].id, panel.rows[1].id);
    // And only rows with autosave on ask for a fresh grid.
    assert_eq!(panel.autosave_track_ids(), vec![ids[0]]);
    assert_eq!(panel.project_dir.as_deref(), Some("/tmp/Two"));
    assert_eq!(panel.project_name, "Two");
}

#[test]
fn spanning_the_rows_takes_the_same_stretch_of_time_out_of_each() {
    let quarter = (60, frac(Fraction::Quarter), frac(Fraction::Zero));
    let eighth = (48, frac(Fraction::Eighth), frac(Fraction::Zero));
    let mut panel = panel_with_rows(&[&[quarter; 4], &[eighth; 8]]);

    // The second and third quarter on the top row: 1/4 up to 3/4.
    panel.rows[0].select_range(1, 2);
    panel.span_rows();

    assert_eq!(panel.rows[0].sel_range(), Some((1, 2)), "the row it was marked on is unchanged");
    assert_eq!(
        panel.rows[1].sel_range(),
        Some((2, 5)),
        "four eighths cover the same stretch as two quarters"
    );
    let block = panel.block().expect("a block");
    assert_eq!((block.from, block.to), (QUARTER, 3 * QUARTER));
    assert_eq!(block.frames(), 6);
}

/// A row that comes in an eighth late, against one that starts at zero and
/// stops an eighth early.
fn uneven() -> ComposerPanel {
    let mut panel = panel_with_rows(&[
        &[(60, frac(Fraction::Quarter), frac(Fraction::Zero))],
        &[(36, frac(Fraction::Eighth), frac(Fraction::Eighth))],
    ]);
    panel.rows[0].lead = frac(Fraction::Eighth);
    panel.select_all();
    panel
}

#[test]
fn a_clone_moves_every_row_on_by_the_same_stretch_of_time() {
    let mut panel = uneven();
    let block = panel.block().expect("a block");
    assert_eq!((block.from, block.to), (0, 3 * EIGHTH), "the window is what the rows span");

    let before = note_starts(&panel);
    assert_eq!(before, vec![vec![EIGHTH], vec![0]]);

    panel.clone_block(2);

    let window = 3 * EIGHTH;
    assert_eq!(
        note_starts(&panel),
        vec![
            vec![EIGHTH, EIGHTH + window, EIGHTH + 2 * window],
            vec![0, window, 2 * window],
        ],
        "each copy lands exactly one window on, on both rows"
    );
    // Nothing was invented: the copies are the frames that were selected.
    assert_eq!(panel.rows[0].items.len(), 3);
    assert!(panel.rows[0].items.iter().all(|i| i.pitch == 60));
    assert!(panel.rows[1].items.iter().all(|i| i.pitch == 36));
}

#[test]
fn cloning_the_clone_repeats_the_same_stretch_again() {
    let mut panel = uneven();
    let window = 3 * EIGHTH;

    panel.clone_block(1);
    assert_eq!(panel.block().expect("a block").window(), window, "the copy measures the same");
    panel.clone_block(1);

    assert_eq!(
        note_starts(&panel),
        vec![
            vec![EIGHTH, EIGHTH + window, EIGHTH + 2 * window],
            vec![0, window, 2 * window],
        ],
    );
}

#[test]
fn a_gap_no_length_box_can_name_is_still_exact() {
    assert_eq!(Duration::exact(255), None, "no fraction divides 255 units few enough times");
    assert_eq!(Duration::split(255).iter().map(|d| d.units()).sum::<i64>(), 255);
    assert_eq!(
        Duration::exact(UNITS_PER_WHOLE + 3 * EIGHTH),
        Some(Duration::with_num(1, 3, Fraction::Eighth)),
        "and a length that can be named is named the plainest way"
    );

    // A whole note against a single 1/256: the short row has 255 units of
    // window to make up between one copy and the next.
    let mut panel = panel_with_rows(&[
        &[(60, Duration::new(1, Fraction::Zero), frac(Fraction::Zero))],
        &[(36, frac(Fraction::TwoHundredFiftySixth), frac(Fraction::Zero))],
    ]);
    panel.select_all();
    panel.clone_block(2);

    let w = UNITS_PER_WHOLE;
    assert_eq!(
        note_starts(&panel),
        vec![vec![0, w, 2 * w], vec![0, w, 2 * w]],
        "the odd gap is spread over placeholder frames rather than rounded away"
    );
    // The frames it was spread over are silences: they play nothing.
    assert_eq!(panel.rows[1].planned_notes().len(), 3);
}

#[test]
fn a_pasted_block_lands_at_the_end_of_the_composition_on_every_row_at_once() {
    let mut panel = panel_with_rows(&[
        &[(60, frac(Fraction::Quarter), frac(Fraction::Zero))],
        &[(36, frac(Fraction::Eighth), frac(Fraction::Zero))],
    ]);
    panel.select_all();
    panel.copy_block();
    panel.clear_block();
    panel.paste_block();

    assert_eq!(
        note_starts(&panel),
        vec![vec![0, QUARTER], vec![0, QUARTER]],
        "the short row is padded up to the paste point rather than closing the gap"
    );
    // The block follows what was pasted, so a second paste carries on.
    assert_eq!(panel.rows[0].sel_range(), Some((1, 1)));
    assert_eq!(panel.rows[1].sel_range(), Some((1, 1)));

    panel.paste_block();
    assert_eq!(
        note_starts(&panel),
        vec![vec![0, QUARTER, 2 * QUARTER], vec![0, QUARTER, 2 * QUARTER]]
    );
}

#[test]
fn a_paste_says_when_the_row_it_was_copied_from_is_gone() {
    let mut panel = panel_with_rows(&[
        &[(60, frac(Fraction::Quarter), frac(Fraction::Zero))],
        &[(36, frac(Fraction::Eighth), frac(Fraction::Zero))],
    ]);
    panel.select_all();
    panel.copy_block();
    panel.rows.remove(1);
    panel.paste_block();

    assert_eq!(panel.rows.len(), 1);
    assert_eq!(note_starts(&panel), vec![vec![0, QUARTER]]);
    assert!(panel.status.contains("gone"), "the status says so: {}", panel.status);
}

#[test]
fn the_block_bar_and_the_lit_frames_say_what_is_selected() {
    let mut panel = panel_with_rows(&[&[
        (60, frac(Fraction::Quarter), frac(Fraction::Eighth)),
        (62, frac(Fraction::Quarter), frac(Fraction::Eighth)),
    ]]);
    panel.rows[0].select_range(0, 0);

    let row = &panel.rows[0];
    let looks: Vec<_> = (0..2)
        .flat_map(|k| {
            let state =
                FrameState { sounding: false, percussion: false, selected: row.is_selected(k) };
            let item = row.items[k];
            [
                frame_look(Frame::Note { pitch: item.pitch }, item.dur, state),
                frame_look(Frame::Space, item.space, state),
            ]
        })
        .collect();

    // One note and its space are one item, so both of the selected item's
    // frames are lit — and nothing else is.
    assert_eq!(
        looks.iter().filter(|l| l.fill == Fill::NoteSelected).count(),
        1,
        "the selected note is not lit: {looks:?}"
    );
    assert_eq!(
        looks.iter().filter(|l| l.fill == Fill::SpaceSelected).count(),
        1,
        "the space tied to it did not follow it into the block: {looks:?}"
    );
    // A select box on each note frame, filled on the one in the block.
    assert_eq!(looks.iter().filter(|l| l.handles && l.ticked).count(), 1);
    assert_eq!(looks.iter().filter(|l| l.handles && !l.ticked).count(), 1);
    // And the bar, which is the only place a block that spans rows can be read.
    let bar = panel.block_bar();
    assert!(
        bar.has && bar.label.contains("1 frame(s) on 1 row(s)"),
        "the block bar does not say what is selected: {bar:?}"
    );
    assert!(bar.clip.is_none());
}

#[test]
fn a_second_box_joins_the_block_instead_of_unticking_the_first() {
    let mut panel = panel_with_rows(&[&[
        (60, frac(Fraction::Quarter), frac(Fraction::Eighth)),
        (62, frac(Fraction::Quarter), frac(Fraction::Eighth)),
        (64, frac(Fraction::Quarter), frac(Fraction::Eighth)),
    ]]);
    let row = &mut panel.rows[0];
    let boxes: Vec<u64> = row
        .items
        .iter()
        .filter(|i| {
            let plain = FrameState { sounding: false, percussion: false, selected: false };
            frame_look(Frame::Note { pitch: i.pitch }, i.dur, plain).handles
        })
        .map(|i| i.id)
        .collect();
    assert_eq!(boxes.len(), 3, "three note frames, three select boxes: {boxes:?}");

    row.apply_clicks(Some((boxes[0], false)), None);
    assert_eq!(row.sel_range(), Some((0, 0)), "a plain click did not select");

    row.apply_clicks(Some((boxes[2], false)), None);
    assert_eq!(
        row.sel_range(),
        Some((0, 2)),
        "a second box unticked the first instead of joining the block"
    );

    // The block grew forwards, so it is anchored on frame 0 and shift drags
    // the end just clicked — frame 2 — back onto frame 1.
    row.apply_clicks(Some((boxes[1], true)), None);
    assert_eq!(
        row.sel_range(),
        Some((0, 1)),
        "shift did not reach the button — the block would only ever grow"
    );
}

#[test]
fn nothing_selected_says_what_to_press() {
    let mut panel = panel_with_rows(&[&[(60, frac(Fraction::Quarter), frac(Fraction::Zero))]]);
    assert!(panel.block().is_none());
    assert!(!panel.block_bar().has);
    panel.copy_block();
    assert_eq!(panel.status, NO_BLOCK);
    panel.clone_block(1);
    assert_eq!(panel.status, NO_BLOCK);
    assert_eq!(panel.rows[0].items.len(), 1);
}

#[test]
fn the_transport_offers_what_can_be_done() {
    let (registry, _ids) = registry_with(&["one"]);
    let mut panel = ComposerPanel::new();
    panel.add_row(&registry);
    assert!(!panel.has_playable_rows());
    assert!(matches!(panel.readout(), Readout::Stopped));
    assert_eq!(panel.start_playback(0), Start::Refused);
    panel.add_note(0, &registry);
    assert_eq!(panel.rows[0].items[0].pitch, DEFAULT_PITCH);
    assert!(panel.has_playable_rows());
    assert_eq!(panel.start_playback(1), Start::Load);
    assert!(panel.preparing && !panel.playing);
    assert!(!panel.controls().play && panel.controls().stop);
    panel.playback_started(1, 1, 1);
    assert!(panel.playing && !panel.preparing);
    panel.repeat = true;
    assert!(matches!(panel.readout(), Readout::Looping));
    // An untouched composition is not handed over again; an edited one is, once.
    assert!(!panel.push_live_edits());
    panel.rows[0].items[0].pitch = 62;
    assert!(panel.push_live_edits());
    assert!(!panel.push_live_edits());
    panel.stop_playback(None);
    assert!(!panel.playing);
    panel.start_playback(1);
    panel.playback_failed("no device");
    assert!(!panel.preparing && panel.status.contains("no device"));
}

#[test]
fn a_drum_row_starts_on_the_kick() {
    let (mut registry, ids) = registry_with(&["kit"]);
    registry.set_percussion(ids[0], true);
    let mut panel = ComposerPanel::new();
    panel.add_row(&registry);
    panel.add_note(0, &registry);
    assert_eq!(panel.rows[0].items[0].pitch, DEFAULT_DRUM_PITCH);
    panel.remove_row(0);
    assert!(panel.rows.is_empty());
}

#[test]
fn a_saved_project_is_saved_where_it_lies() {
    let mut panel = ComposerPanel::new();
    panel.project_name = "a/b".to_string();
    assert!(panel.asks_where("a_b"));
    panel.request_save("a_b", None);
    assert!(panel.take_request().is_none(), "nowhere was picked");
    panel.request_save("a_b", Some("/music".to_string()));
    assert_eq!(
        panel.take_request(),
        Some(ProjectRequest::Save { dir: "/music/a_b".to_string(), name: "a_b".to_string() })
    );
    assert!(panel.take_request().is_none());
    panel.set_project_dir("/music/a_b".to_string(), "a_b".to_string());
    assert!(!panel.asks_where("a_b"));
    // A new name gets its own folder beside it.
    assert!(!panel.asks_where("other"));
    panel.request_save("other", None);
    assert_eq!(
        panel.take_request(),
        Some(ProjectRequest::Save { dir: "/music/other".to_string(), name: "other".to_string() })
    );
    panel.request_load("/music/x.gmstn".to_string());
    assert_eq!(
        panel.take_request(),
        Some(ProjectRequest::Load { file: "/music/x.gmstn".to_string() })
    );
}

#[test]
fn an_export_says_what_it_wrote() {
    assert_eq!(
        exported_message("2.5", "song.wav", 2, 2, "44100"),
        "Exported 2.5 s to song.wav (2 row(s), 44100 Hz)."
    );
    let text = exported_message("2.5", "song.wav", 1, 2, "44100");
    assert!(text.starts_with("Exported 2.5 s to song.wav — only 1 of 2 row(s)"), "{text}");
    let mut panel = ComposerPanel::new();
    assert!(!panel.can_export(0));
    assert!(panel.can_export(1));
    panel.export_started("song.wav");
    assert!(panel.exporting);
    panel.export_finished(Some(text.clone()));
    assert!(!panel.exporting);
    assert_eq!(panel.status, text);
}
