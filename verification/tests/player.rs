use gemstone::composer::player::{
    check_export, export_block, heard_at, lay_out, live_update, loop_sample_for, prepare_voices,
    schedule_from, source_channel, tail_samples, take_live_update, Event, PlacedEdit, PlayError,
    SampleNote, Transport, BLOCK, NOTE_VELOCITY,
};
use gemstone::composer::row::PlannedNote;
use gemstone::composer::share::{
    distinct_libraries, needs_restore, notes_collide, share_groups, RowPlan,
};
use gemstone::registry::PlaybackSource;

/// A second at 120 BPM, in units.
const SECOND: f64 = 128.0;

fn note(at_secs: f64, dur_secs: f64, pitch: u8) -> PlannedNote {
    PlannedNote {
        at: (at_secs * SECOND) as i64,
        dur: (dur_secs * SECOND) as i64,
        pitch,
        start: 0,
    }
}

fn source(path: &str) -> PlaybackSource {
    PlaybackSource {
        name: path.to_string(),
        plugin_path: path.to_string(),
        class_id: None,
        is_lesynth: false,
        state: None,
        vst_state: None,
        wav: None,
    }
}

fn plan(row_id: u64, source: PlaybackSource, gain: f32, notes: Vec<PlannedNote>) -> RowPlan {
    RowPlan { row_id, source, gain: gain.to_bits(), notes }
}

#[test]
fn rows_of_one_instrument_share_one_instance() {
    let plans = vec![
        plan(0, source("/x.so"), 1.0, vec![note(0.0, 1.0, 60)]),
        plan(1, source("/x.so"), 1.0, vec![note(0.0, 1.0, 64)]),
        plan(2, source("/x.so"), 1.0, vec![note(0.0, 1.0, 67)]),
    ];
    assert_eq!(share_groups(&plans), vec![vec![0, 1, 2]]);
}

#[test]
fn a_different_recipe_is_never_shared() {
    let mut other = source("/x.so");
    other.class_id = Some([9; 16]);
    let mut stateful = source("/x.so");
    stateful.vst_state = Some(vec![1, 2, 3]);
    let mut renamed = source("/x.so");
    renamed.name = "another name".to_string();
    let plans = vec![
        plan(0, source("/x.so"), 1.0, vec![note(0.0, 1.0, 60)]),
        plan(1, source("/y.so"), 1.0, vec![note(0.0, 1.0, 62)]),
        plan(2, other, 1.0, vec![note(0.0, 1.0, 64)]),
        plan(3, stateful, 1.0, vec![note(0.0, 1.0, 65)]),
        // Same library, same state, a different name: the same sound.
        plan(4, renamed, 1.0, vec![note(0.0, 1.0, 67)]),
    ];
    assert_eq!(share_groups(&plans), vec![vec![0, 4], vec![1], vec![2], vec![3]]);
    assert_eq!(distinct_libraries(&plans), vec!["/x.so".to_string(), "/y.so".to_string()]);
}

#[test]
fn rows_at_different_levels_are_never_shared() {
    let plans = vec![
        plan(0, source("/x.so"), 1.0, vec![note(0.0, 1.0, 60)]),
        plan(1, source("/x.so"), 0.5, vec![note(0.0, 1.0, 64)]),
        plan(2, source("/x.so"), 1.0, vec![note(0.0, 1.0, 67)]),
    ];
    assert_eq!(share_groups(&plans), vec![vec![0, 2], vec![1]]);
}

#[test]
fn rows_whose_notes_would_collide_are_never_shared() {
    let plans = vec![
        plan(0, source("/x.so"), 1.0, vec![note(0.0, 1.0, 60)]),
        // Same pitch, overlapping — must not share.
        plan(1, source("/x.so"), 1.0, vec![note(0.5, 1.0, 60)]),
        // Same pitch, but after the first has finished — safe.
        plan(2, source("/x.so"), 1.0, vec![note(2.0, 1.0, 60)]),
    ];
    assert_eq!(share_groups(&plans), vec![vec![0, 2], vec![1]]);
    assert!(notes_collide(&plans[0].notes, &plans[1].notes));
    assert!(!notes_collide(&plans[0].notes, &plans[2].notes));

    // Touching end to end is not a collision: the note-off is sorted ahead
    // of the note-on at the same sample.
    let touching = vec![
        plan(0, source("/x.so"), 1.0, vec![note(0.0, 1.0, 60)]),
        plan(1, source("/x.so"), 1.0, vec![note(1.0, 1.0, 60)]),
    ];
    assert_eq!(share_groups(&touching), vec![vec![0, 1]]);
}

fn placed(at: u64, len: u64, pitch: u8) -> SampleNote {
    SampleNote { at, len, pitch }
}

#[test]
fn a_shared_schedule_holds_every_row_s_notes() {
    // At a thousand samples a second.
    let notes = vec![placed(0, 1000, 60), placed(0, 1000, 64), placed(1000, 1000, 60)];
    let (schedule, last) = schedule_from(&notes);
    assert_eq!(
        schedule.iter().map(|e| (e.at, e.pitch, e.on)).collect::<Vec<_>>(),
        vec![
            (0, 60, true),
            (0, 64, true),
            (1000, 60, false),
            (1000, 64, false),
            (1000, 60, true),
            (2000, 60, false),
        ]
    );
    assert_eq!(last, 2000);
}

#[test]
fn a_note_shorter_than_a_sample_still_sounds() {
    let (schedule, last) = schedule_from(&vec![placed(5, 0, 60)]);
    assert_eq!(
        schedule,
        vec![Event { at: 5, pitch: 60, on: true }, Event { at: 6, pitch: 60, on: false }]
    );
    assert_eq!(last, 6);
}

fn two_rows() -> Vec<RowPlan> {
    vec![
        plan(10, source("/x.so"), 1.0, vec![note(0.0, 1.0, 60)]),
        plan(11, source("/y.so"), 0.5, vec![note(0.0, 1.0, 64)]),
    ]
}

#[test]
fn only_what_loaded_plays() {
    let plans = two_rows();
    let placed = vec![vec![placed(0, 1000, 60)], vec![placed(0, 3000, 64)]];
    let groups = share_groups(&plans);
    let ready = prepare_voices(&plans, &placed, &groups, &vec![true, false], 1000).unwrap();
    assert_eq!(ready.voices.len(), 1);
    assert_eq!(ready.voices[0].row_ids, vec![10]);
    assert_eq!(ready.rows_playing, 1);
    assert_eq!(ready.end_sample, 1000 + tail_samples(1000));
    let none = prepare_voices(&plans, &placed, &groups, &vec![false, false], 1000);
    assert!(matches!(none, Err(PlayError::NoPlayableRows)));
    assert!(!PlayError::NoPlayableRows.message().is_empty());
}

#[test]
fn the_transport_loops_where_the_music_is_written_to_end() {
    let plans = two_rows();
    let placed_notes = vec![vec![placed(0, 100, 60)], vec![placed(50, 150, 64)]];
    let groups = share_groups(&plans);
    let ready = prepare_voices(&plans, &placed_notes, &groups, &vec![true, true], 1000).unwrap();
    let mut t = Transport::new(ready, 256, 1000);
    assert_eq!(t.loop_sample, 256);
    assert_eq!(loop_sample_for(100, 200), 200);
    assert_eq!(t.voice_rows(), vec![vec![10], vec![11]]);

    let chunk = t.next_chunk(200, true);
    assert_eq!((chunk.start, chunk.frames, chunk.wraps), (0, 200, false));
    let due = t.chunk_events(chunk);
    assert_eq!(
        due[0].iter().map(|d| (d.offset, d.status, d.pitch, d.velocity)).collect::<Vec<_>>(),
        vec![(0, 0x90, 60, NOTE_VELOCITY), (100, 0x80, 60, 0)]
    );
    assert_eq!(due[1].iter().map(|d| (d.offset, d.pitch)).collect::<Vec<_>>(), vec![(50, 64)]);
    t.finish_chunk(chunk, true, &mut None);
    assert_eq!(t.position, 200);

    // The next one stops at the loop point, so nothing is played twice.
    let chunk = t.next_chunk(200, true);
    assert_eq!((chunk.start, chunk.frames, chunk.wraps), (200, 56, true));
    let due = t.chunk_events(chunk);
    assert_eq!(due[1].len(), 1, "the note that ends at the loop point is released");
    // A live edit is taken in at the loop point.
    let rows = vec![PlacedEdit { row_id: 10, gain: 2.0f32.to_bits(), notes: vec![placed(0, 10, 61)] }];
    let (update, diverged) = live_update(&t.voice_rows(), &rows, 512);
    assert!(!update.applied);
    let mut pending = Some(update);
    t.finish_chunk(chunk, true, &mut pending);
    assert_eq!(t.position, 0);
    assert_eq!(t.loop_sample, 512);
    assert_eq!(t.voices[0].schedule[0].pitch, 61);
    assert!(pending.unwrap().applied);
    assert!(!diverged);
}

#[test]
fn an_update_is_taken_in_once() {
    let plans = two_rows();
    let placed_notes = vec![vec![placed(0, 100, 60)], vec![placed(50, 150, 64)]];
    let ready =
        prepare_voices(&plans, &placed_notes, &share_groups(&plans), &vec![true, true], 1000).unwrap();
    let mut voices = ready.voices;
    let rows = vec![PlacedEdit { row_id: 11, gain: 0, notes: vec![placed(7, 10, 70)] }];
    let (mut update, _) = live_update(&vec![vec![10], vec![11]], &rows, 300);
    let mut loop_sample = 0;
    take_live_update(&mut update, &mut voices, &mut loop_sample);
    assert_eq!(voices[1].schedule[0].at, 7);
    assert_eq!(loop_sample, 300);
    voices[1].schedule.clear();
    take_live_update(&mut update, &mut voices, &mut loop_sample);
    assert!(voices[1].schedule.is_empty(), "it was already applied");
}

#[test]
fn an_export_is_cut_into_blocks() {
    assert_eq!(export_block(0, 1000), Some(BLOCK));
    assert_eq!(export_block(600, 1000), Some(400));
    assert_eq!(export_block(1000, 1000), None);
    assert_eq!(check_export(2), Ok(()));
    assert_eq!(check_export(0), Err(PlayError::NoChannels));
    assert_eq!(heard_at(None, 5, 0), None);
    assert_eq!(heard_at(Some(100), 150, 20), Some(30));
}

#[test]
fn a_plugin_s_buses_are_laid_out_in_order() {
    let l = lay_out(&vec![2], &vec![2, 1], 256, 512);
    assert_eq!((l.in_channels, l.out_channels, l.main_out), (2, 3, 2));
    assert_eq!(l.out_buses, vec![2, 1]);
    // The main bus starts behind the inputs; a mono plugin plays on both sides.
    assert_eq!(source_channel(2, 2, 1), 3);
    assert_eq!(source_channel(2, 1, 1), 2);
}

#[test]
fn a_state_is_restored_only_when_it_differs() {
    let a = Some(vec![1u8, 2]);
    assert!(!needs_restore(&a, &a.clone()));
    assert!(needs_restore(&a, &Some(vec![1])));
    assert!(needs_restore(&a, &None));
    assert!(!needs_restore(&None, &a));
}
