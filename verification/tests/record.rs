use gemstone::composer::length::{Duration, TICKS_PER_UNIT, UNITS_PER_WHOLE, MAX_WHOLES};
use gemstone::composer::record::{
    duration_from_units, longest_within, nearest_duration, notes_from, quantize, round_choice,
    round_label, shares_a_row, split_units, split_voices, voice_items, GridNote, RecordedNote,
    DEFAULT_ROUND_UNITS, ROUNDINGS,
};
use gemstone::composer::row::Row;

const WHOLE: i64 = UNITS_PER_WHOLE;
const HALF: i64 = WHOLE / 2;
const QUARTER: i64 = WHOLE / 4;
const EIGHTH: i64 = WHOLE / 8;
const SIXTEENTH: i64 = WHOLE / 16;

/// A take at 120 BPM: a quarter note is half a second.
const SPU: f64 = 0.5 / QUARTER as f64;

fn ticks(secs: f64) -> i64 {
    (secs / SPU * TICKS_PER_UNIT as f64).round() as i64
}

fn note(at_secs: f64, dur_secs: f64, pitch: u8) -> RecordedNote {
    RecordedNote { at: ticks(at_secs), dur: ticks(dur_secs), pitch }
}

fn grid_note(at: i64, dur: i64, pitch: u8) -> GridNote {
    GridNote { at, dur, pitch }
}

/// A row built from one voice of a take.
fn row_from(voice: &[GridNote]) -> Row {
    let mut row = Row::new(0, None);
    let (lead, items) = voice_items(voice, &mut row.next_item_id);
    row.lead = lead;
    row.items = items;
    row
}

#[test]
fn some_lengths_are_not_one_length() {
    assert!(duration_from_units(QUARTER + EIGHTH).is_none());
    assert_eq!(
        duration_from_units(WHOLE + EIGHTH).map(Duration::units),
        Some(WHOLE + EIGHTH)
    );
    // Past the whole-note ceiling there is nothing to express it with.
    assert!(duration_from_units(WHOLE * (MAX_WHOLES as i64 + 1)).is_none());
}

#[test]
fn a_silence_is_split_exactly() {
    for units in [1, EIGHTH, QUARTER + EIGHTH, WHOLE * 3 + SIXTEENTH, 4321] {
        let terms = split_units(units);
        assert_eq!(
            terms.iter().map(|d| d.units()).sum::<i64>(),
            units,
            "{units} units did not add up"
        );
        assert!(terms.iter().all(|d| d.units() > 0));
    }
    assert!(split_units(0).is_empty());
    // Longest first, and no more terms than the length needs.
    assert_eq!(
        split_units(QUARTER + EIGHTH).iter().map(|d| d.units()).collect::<Vec<_>>(),
        vec![QUARTER, EIGHTH]
    );
}

#[test]
fn a_note_length_takes_the_nearest_and_ties_go_short() {
    assert_eq!(nearest_duration(QUARTER).units(), QUARTER);
    assert_eq!(nearest_duration(QUARTER + EIGHTH).units(), QUARTER);
    assert_eq!(nearest_duration(QUARTER + EIGHTH + 1).units(), HALF);
    // Longer than anything the boxes can say: the longest they can.
    assert_eq!(
        nearest_duration(WHOLE * 100).units(),
        WHOLE * MAX_WHOLES as i64 + HALF
    );
}

#[test]
fn rounding_does_not_accumulate() {
    // Four "quarter notes" at 120 BPM, none of them on time: 30 ms late,
    // 30 ms early, 20 ms late.
    let played: Vec<RecordedNote> =
        [0.0, 0.53, 0.97, 1.52].iter().map(|at| note(*at, 0.45, 60)).collect();
    let quantized = quantize(&played, SIXTEENTH);
    assert_eq!(
        quantized.iter().map(|n| n.at).collect::<Vec<_>>(),
        vec![0, QUARTER, QUARTER * 2, QUARTER * 3]
    );
}

#[test]
fn a_short_hit_is_not_rounded_away() {
    let quantized = quantize(&[note(0.0, 0.005, 36)], SIXTEENTH);
    assert_eq!(quantized, vec![grid_note(0, SIXTEENTH, 36)]);
}

#[test]
fn a_recorded_row_puts_every_note_where_it_was_played() {
    // Starts at 0, 3/8 and 1 + 1/16 — the middle one is a position no
    // single space frame can express.
    let voice = [
        grid_note(0, EIGHTH, 60),
        grid_note(QUARTER + EIGHTH, SIXTEENTH, 64),
        grid_note(WHOLE + SIXTEENTH, QUARTER, 67),
    ];
    let row = row_from(&voice);
    let played: Vec<(i64, u8)> = row.planned_notes().iter().map(|n| (n.at, n.pitch)).collect();
    assert_eq!(
        played,
        vec![(0, 60), (QUARTER + EIGHTH, 64), (WHOLE + SIXTEENTH, 67)]
    );
    // The middle position needed a placeholder frame to reach it, so the
    // row holds more frames than it does notes.
    assert_eq!(row.items.len(), 4);
}

#[test]
fn a_rounded_note_never_overruns_the_next_one() {
    // Played nearly a quarter long, but the next note is an eighth away.
    let voice = [grid_note(0, QUARTER, 60), grid_note(EIGHTH, EIGHTH, 62)];
    let row = row_from(&voice);
    let notes = row.planned_notes();
    assert_eq!(notes[0].dur, EIGHTH);
    assert_eq!(notes[1].at, EIGHTH);
}

#[test]
fn a_chord_becomes_a_row_each_and_a_melody_does_not() {
    let chord = [
        grid_note(0, QUARTER, 60),
        grid_note(0, QUARTER, 64),
        grid_note(0, QUARTER, 67),
    ];
    let voices = split_voices(&chord);
    assert_eq!(voices.len(), 3);
    assert_eq!(voices[0][0].pitch, 60);

    let melody = [
        grid_note(0, QUARTER, 60),
        grid_note(QUARTER, QUARTER, 62),
        grid_note(HALF, QUARTER, 64),
    ];
    assert_eq!(split_voices(&melody).len(), 1);

    // A note held under a whole line — it lasts through the notes that
    // follow, so it really is a second voice.
    let held = [
        grid_note(0, WHOLE, 36),
        grid_note(QUARTER, QUARTER, 60),
        grid_note(HALF, QUARTER, 62),
    ];
    let voices = split_voices(&held);
    assert_eq!(voices.len(), 2);
    assert_eq!(voices[0].len(), 1);
    assert_eq!(voices[1].len(), 2);
}

#[test]
fn a_late_release_stays_in_one_row_and_is_trimmed() {
    // Three quarter notes, each held a sixteenth into the one after it.
    let sloppy = [
        grid_note(0, QUARTER + SIXTEENTH, 40),
        grid_note(QUARTER, QUARTER + SIXTEENTH, 43),
        grid_note(HALF, QUARTER, 45),
    ];
    let voices = split_voices(&sloppy);
    assert_eq!(voices.len(), 1, "a late release must not open a row");

    let row = row_from(&voices[0]);
    let played = row.planned_notes();
    assert_eq!(
        played.iter().map(|n| (n.at, n.dur)).collect::<Vec<_>>(),
        vec![(0, QUARTER), (QUARTER, QUARTER), (HALF, QUARTER)]
    );
}

#[test]
fn a_take_is_read_off_the_keyboard_the_way_keyboards_send_it() {
    let at = |ms: u64| Some(ticks(ms as f64 / 1000.0));
    let messages = vec![
        (at(0), [0x90, 60, 100]),
        // A note-off spelled as a note-on with no velocity, which is what
        // most keyboards actually send.
        (at(500), [0x90, 60, 0]),
        (at(500), [0x90, 64, 100]),
        // Struck again without a release: the first one has to end here.
        (at(1000), [0x90, 64, 100]),
        (at(1500), [0x80, 64, 0]),
        // Still held when the take ends.
        (at(1500), [0x90, 67, 100]),
    ];
    let notes = notes_from(&messages, ticks(2.0));
    assert_eq!(
        notes,
        vec![
            note(0.0, 0.5, 60),
            note(0.5, 0.5, 64),
            note(1.0, 0.5, 64),
            note(1.5, 0.5, 67),
        ]
    );
}

#[test]
fn unplaceable_messages_are_dropped_and_early_ones_pulled_to_zero() {
    // No clock at all until 150 ms in, and 200 ms of latency behind it.
    let at = |ms: u64| {
        let secs = ms as f64 / 1000.0;
        if secs >= 0.15 { Some(ticks(secs - 0.35)) } else { None }
    };
    let messages = vec![
        (at(0), [0x90, 60, 100]),
        (at(100), [0x80, 60, 0]),
        (at(200), [0x90, 62, 100]),
        (at(700), [0x80, 62, 0]),
    ];
    let notes = notes_from(&messages, ticks(1.0));
    // The 60 was played before there was a clock and is gone; the 62 was
    // struck 150 ms before zero and starts at zero, ending where it ended.
    assert_eq!(notes, vec![note(0.0, 0.35, 62)]);
}

#[test]
fn a_rounding_reads_as_its_note_value() {
    assert_eq!(round_label(DEFAULT_ROUND_UNITS), "1/16");
    for k in 0..ROUNDINGS {
        let (label, units) = round_choice(k);
        assert_eq!(round_label(units), label);
    }
    assert_eq!(longest_within(QUARTER + EIGHTH).units(), QUARTER);
    assert!(shares_a_row(grid_note(0, QUARTER, 60), grid_note(QUARTER, QUARTER, 62)));
    assert!(!shares_a_row(grid_note(0, QUARTER, 60), grid_note(0, QUARTER, 62)));
    assert_eq!(grid_note(3, 4, 60).end(), 7);
}
