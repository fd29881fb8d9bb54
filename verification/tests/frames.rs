use gemstone::composer::block::add_gap;
use gemstone::composer::cards::{
    edit_length, fit_hint, frame_look, frame_title, is_sounding, start_within, Border, Fill, Frame,
    FrameState, LEAD_SPACE_ID,
};
use gemstone::composer::length::{
    note_label, pitch_name, span_label, Duration, Fraction, MAX_NUM, MAX_WHOLES, TICKS_PER_UNIT,
    UNITS_PER_BEAT, UNITS_PER_WHOLE,
};
use gemstone::composer::row::{
    Item, Row, DEFAULT_DRUM_PITCH, DEFAULT_PITCH, PITCH_MAX, PITCH_MIN,
};
use gemstone::midi::gm_percussion_name;

const QUARTER: i64 = UNITS_PER_WHOLE / 4;
const EIGHTH: i64 = UNITS_PER_WHOLE / 8;

/// `(pitch, note length, space length)` per item.
fn row_with(items: &[(u8, Duration, Duration)]) -> Row {
    let mut row = Row::new(0, None);
    for (pitch, dur, space) in items {
        let id = row.next_item_id;
        row.next_item_id += 1;
        row.items.push(Item {
            id,
            pitch: *pitch,
            start: 0,
            dur: *dur,
            space: *space,
        });
    }
    row
}

fn frac(f: Fraction) -> Duration {
    Duration::new(0, f)
}

/// A stretch of seconds as ticks, at so many seconds a unit.
fn ticks(secs: f64, spu: f64) -> i64 {
    (secs / spu * TICKS_PER_UNIT as f64).round() as i64
}

#[test]
fn a_new_note_carries_on_from_the_one_before_it() {
    let mut row = Row::new(0, None);
    row.add_note(DEFAULT_DRUM_PITCH);
    assert_eq!(row.items[0].pitch, DEFAULT_DRUM_PITCH);
    assert_eq!(row.items[0].dur, Duration::new(0, Fraction::Quarter));
    assert_eq!(row.items[0].space, Duration::new(0, Fraction::Eighth));

    row.items[0].pitch = 42;
    row.items[0].dur = Duration::with_num(2, 3, Fraction::Sixteenth);
    row.items[0].space = Duration::with_num(1, 5, Fraction::Half);
    row.add_note(DEFAULT_DRUM_PITCH);
    row.add_note(DEFAULT_DRUM_PITCH);
    for i in [1, 2] {
        assert_eq!(row.items[i].pitch, 42, "the pitch was not carried over");
        assert_eq!(
            row.items[i].dur,
            Duration::with_num(2, 3, Fraction::Sixteenth),
            "the note length was not carried over"
        );
        assert_eq!(
            row.items[i].space,
            Duration::with_num(1, 5, Fraction::Half),
            "the space was not carried over"
        );
        assert_eq!(row.items[i].dur.num, 3, "the note's nominator was not carried over");
        assert_eq!(row.items[i].space.num, 5, "the space's nominator was not carried over");
    }

    row.items[2].pitch = 46;
    row.items[2].dur = Duration::with_num(0, 7, Fraction::ThirtySecond);
    row.add_note(DEFAULT_DRUM_PITCH);
    assert_eq!(row.items[3].pitch, 46);
    assert_eq!(row.items[3].dur, Duration::with_num(0, 7, Fraction::ThirtySecond));

    let ids: std::collections::HashSet<u64> = row.items.iter().map(|i| i.id).collect();
    assert_eq!(ids.len(), row.items.len(), "two frames share an id");

    row.items.clear();
    row.add_note(DEFAULT_PITCH);
    assert_eq!(row.items[0].pitch, DEFAULT_PITCH);
    assert_eq!(row.items[0].dur, Duration::new(0, Fraction::Quarter));
    assert_eq!(row.items[0].space, Duration::new(0, Fraction::Eighth));
    assert_eq!(row.items[0].dur.num, 1);
    assert_eq!(row.items[0].space.num, 1);
}

#[test]
fn a_drum_row_labels_its_notes_with_the_drum() {
    assert_eq!(note_label(36, false), "C2");
    assert_eq!(note_label(36, true), "C2 · Bass Drum (Kick)");
    assert_eq!(note_label(42, true), "F#2 · Closed Hi-Hat");
    // Outside the General MIDI percussion range there is nothing to add.
    assert_eq!(note_label(100, true), "E7");
    // And the first note on a drum row is the kick, not middle C's bongo.
    assert_eq!(gm_percussion_name(DEFAULT_DRUM_PITCH), Some("Bass Drum (Kick)"));
    assert_eq!(gm_percussion_name(DEFAULT_PITCH), Some("Hi Bongo"));
}

#[test]
fn a_row_opens_with_a_space_before_its_first_note() {
    let mut row = row_with(&[
        (60, frac(Fraction::Quarter), frac(Fraction::Zero)),
        (62, frac(Fraction::Quarter), frac(Fraction::Zero)),
    ]);
    // Zero by default, so a row still starts at time zero.
    assert_eq!(row.lead.units(), 0);
    assert_eq!(row.starts(), vec![0, QUARTER]);

    row.lead = frac(Fraction::Eighth);
    assert_eq!(
        row.starts(),
        vec![EIGHTH, EIGHTH + QUARTER],
        "the lead space must push every note in the row, not just the first"
    );
    assert_eq!(row.end_units(), EIGHTH + 2 * QUARTER);
    let notes = row.planned_notes();
    assert_eq!(notes[0].at, EIGHTH);
    assert_eq!(notes[1].at, EIGHTH + QUARTER);
}

#[test]
fn deleting_the_first_note_keeps_the_lead_space_for_the_next_one() {
    let mut row = row_with(&[
        (60, frac(Fraction::Quarter), frac(Fraction::Zero)),
        (62, frac(Fraction::Half), frac(Fraction::Zero)),
    ]);
    row.lead = frac(Fraction::Eighth);

    row.delete_item(0);

    assert_eq!(row.lead, frac(Fraction::Eighth), "the lead space went with the note");
    assert_eq!(row.items.len(), 1);
    assert_eq!(row.items[0].pitch, 62);
    assert_eq!(
        row.starts(),
        vec![EIGHTH],
        "the note that is first now must wait through the same lead space"
    );

    row.delete_item(0);
    assert!(row.items.is_empty());
    assert_eq!(row.lead, frac(Fraction::Eighth));
    assert_eq!(row.end_units(), 0, "an empty row has nothing to wait for");
    row.add_note(DEFAULT_PITCH);
    assert_eq!(row.starts(), vec![EIGHTH]);
}

#[test]
fn adding_a_note_appends_the_note_and_a_space_behind_it() {
    let mut row = row_with(&[]);
    row.add_note(DEFAULT_PITCH);
    assert_eq!(row.items.len(), 1);
    assert_eq!(row.items[0].pitch, DEFAULT_PITCH);
    assert!(row.items[0].dur.units() > 0);
    assert!(row.items[0].space.units() > 0);

    row.add_note(DEFAULT_PITCH);
    assert_eq!(row.items.len(), 2);
    // Ids stay unique, so two items never share a widget id.
    assert_ne!(row.items[0].id, row.items[1].id);
}

#[test]
fn a_space_can_only_leave_with_the_note_it_is_tied_to() {
    let mut row = row_with(&[
        (60, frac(Fraction::Quarter), frac(Fraction::Half)),
        (64, frac(Fraction::Quarter), frac(Fraction::Eighth)),
    ]);
    assert_eq!(row.end_units(), QUARTER + UNITS_PER_WHOLE / 2 + QUARTER + EIGHTH);

    row.delete_item(0);
    assert_eq!(row.items.len(), 1);
    assert_eq!(row.items[0].pitch, 64);
    assert_eq!(row.end_units(), QUARTER + EIGHTH);
    assert_eq!(row.starts(), vec![0]);
}

#[test]
fn a_space_may_be_zero_length() {
    let row = row_with(&[
        (60, frac(Fraction::Quarter), Duration::new(0, Fraction::Zero)),
        (64, frac(Fraction::Quarter), frac(Fraction::Eighth)),
    ]);
    assert_eq!(row.items[0].space.units(), 0);
    assert_eq!(row.items[0].space.label(), "0");
    let notes = row.planned_notes();
    assert_eq!(notes[1].at, QUARTER);
    assert_eq!(row.end_units(), QUARTER + QUARTER + EIGHTH);
}

#[test]
fn a_length_is_its_whole_part_plus_its_fraction() {
    assert_eq!(Duration::new(0, Fraction::Zero).units(), 0);
    assert_eq!(Duration::new(1, Fraction::Zero).units(), UNITS_PER_WHOLE);
    assert_eq!(
        Duration::new(1, Fraction::Half).units(),
        UNITS_PER_WHOLE + UNITS_PER_WHOLE / 2
    );
    // A dotted half: 1/2 + 1/4.
    assert_eq!(
        Duration::new(0, Fraction::Half).units() + Duration::new(0, Fraction::Quarter).units(),
        UNITS_PER_WHOLE * 3 / 4
    );
    // Every fraction is a whole number of units, halving down to a 1/256.
    assert_eq!(Fraction::TwoHundredFiftySixth.units(), 1);
    for pair in Fraction::all()[1..].windows(2) {
        assert_eq!(pair[1].units(), pair[0].units() / 2);
    }
    assert_eq!(Duration::new(2, Fraction::Eighth).label(), "2 + 1/8");
    assert_eq!(Duration::new(0, Fraction::Eighth).label(), "1/8");
    assert_eq!(Duration::new(3, Fraction::Zero).label(), "3");
}

#[test]
fn a_nominator_counts_the_fraction_it_sits_over() {
    let dotted_quarter = Duration::with_num(0, 3, Fraction::Eighth);
    assert_eq!(dotted_quarter.units(), UNITS_PER_WHOLE * 3 / 8);
    assert_eq!(
        dotted_quarter.units(),
        Duration::new(0, Fraction::Quarter).units() + Duration::new(0, Fraction::Eighth).units(),
    );
    assert_eq!(dotted_quarter.label(), "3/8");
    assert_eq!(Duration::with_num(2, 3, Fraction::Eighth).label(), "2 + 3/8");
    assert_eq!(
        Duration::with_num(2, 3, Fraction::Eighth).units(),
        UNITS_PER_WHOLE * 2 + UNITS_PER_WHOLE * 3 / 8,
    );
    // One of a fraction is the fraction, named the way it always was.
    assert_eq!(
        Duration::with_num(0, 1, Fraction::Eighth),
        Duration::new(0, Fraction::Eighth),
    );
    assert_eq!(Duration::with_num(0, 1, Fraction::Eighth).label(), "1/8");
    // Every fraction knows what it is named after.
    for f in Fraction::all() {
        let whole = if f == Fraction::Zero { 0 } else { UNITS_PER_WHOLE };
        assert_eq!(f.units() * f.denom(), whole);
    }
    // It reaches the top of the box without overflowing the grid.
    assert_eq!(
        Duration::with_num(MAX_WHOLES, MAX_NUM, Fraction::Half).units(),
        UNITS_PER_WHOLE * (MAX_WHOLES as i64 + MAX_NUM as i64 / 2),
    );
}

#[test]
fn a_nominator_without_a_fraction_is_canonicalised_away() {
    // What the boxes can do: count a fraction, then take the fraction away.
    let mut d = Duration::with_num(2, 5, Fraction::Eighth);
    d.frac = Fraction::Zero;
    d.canonicalise();
    assert_eq!(d, Duration::new(2, Fraction::Zero));
    assert_eq!(d.units(), UNITS_PER_WHOLE * 2);
    assert_eq!(d.label(), "2");
    // And a nominator is never zero: a fraction is counted at least once.
    let mut none = Duration::with_num(0, 0, Fraction::Sixteenth);
    assert_eq!(none.units(), UNITS_PER_WHOLE / 16);
    none.num = 0;
    none.canonicalise();
    assert_eq!(none.num, 1);
}

#[test]
fn frames_play_in_sequence_and_spaces_are_the_silences() {
    let row = row_with(&[
        (60, frac(Fraction::Quarter), frac(Fraction::Eighth)),
        (64, frac(Fraction::Quarter), frac(Fraction::Zero)),
    ]);
    let notes = row.planned_notes();
    assert_eq!(notes.len(), 2); // the spaces are not played
    assert_eq!(notes[0].at, 0);
    assert_eq!(notes[0].dur, QUARTER);
    // The second note waits out the quarter *and* the eighth of silence.
    assert_eq!(notes[1].at, QUARTER + EIGHTH);
    assert_eq!(notes[1].pitch, 64);
    assert_eq!(row.end_units(), QUARTER + EIGHTH + QUARTER);

    // A note left at length zero is silence, not a click — but its space
    // still counts, so what follows keeps its place.
    let row = row_with(&[
        (60, frac(Fraction::Zero), frac(Fraction::Eighth)),
        (62, frac(Fraction::Half), frac(Fraction::Zero)),
    ]);
    let notes = row.planned_notes();
    assert_eq!(notes.len(), 1);
    assert_eq!(notes[0].pitch, 62);
    assert_eq!(notes[0].at, EIGHTH);
}

#[test]
fn equal_lengths_before_a_note_make_it_sound_with_another_row() {
    let spu = 0.5 / UNITS_PER_BEAT as f64; // 120 BPM
    let at = |row: &Row, k: usize| row.planned_notes()[k].at as f64 * spu;

    // Two eighths played back to back, then the note.
    let dense = row_with(&[
        (60, frac(Fraction::Eighth), frac(Fraction::Zero)),
        (62, frac(Fraction::Eighth), frac(Fraction::Zero)),
        (64, Duration::new(1, Fraction::Zero), frac(Fraction::Zero)),
    ]);
    // A note cut short and a long space instead — the same moment, reached
    // by a different route.
    let sparse = row_with(&[
        (59, frac(Fraction::Eighth), frac(Fraction::Eighth)),
        (67, Duration::new(1, Fraction::Zero), frac(Fraction::Zero)),
    ]);

    let third = at(&dense, 2);
    let second = at(&sparse, 1);
    assert_eq!(third, second);
    assert_eq!(third, (EIGHTH + EIGHTH) as f64 * spu);
    // …and a row whose lengths do not add up the same does not join them.
    let off = row_with(&[
        (59, frac(Fraction::Sixteenth), frac(Fraction::Zero)),
        (67, Duration::new(1, Fraction::Zero), frac(Fraction::Zero)),
    ]);
    assert_ne!(at(&off, 1), third);
}

#[test]
fn deleting_a_frame_pulls_the_rest_forward() {
    let mut row = row_with(&[
        (60, frac(Fraction::Quarter), frac(Fraction::Zero)),
        (62, frac(Fraction::Quarter), frac(Fraction::Quarter)),
        (64, frac(Fraction::Quarter), frac(Fraction::Zero)),
    ]);
    assert_eq!(row.starts(), vec![0, QUARTER, 3 * QUARTER]);
    row.delete_item(1); // takes its own quarter of silence with it
    assert_eq!(row.items.len(), 2);
    assert_eq!(row.starts(), vec![0, QUARTER]);
    assert_eq!(row.end_units(), 2 * QUARTER);
}

#[test]
fn pitch_names_follow_scientific_notation() {
    assert_eq!(pitch_name(60), "C4");
    assert_eq!(pitch_name(61), "C#4");
    assert_eq!(pitch_name(PITCH_MIN), "C0");
    assert_eq!(pitch_name(PITCH_MAX), "B8");
}

#[test]
fn a_length_is_fitted_to_a_stretch_of_a_recording() {
    // 120 BPM: a beat is half a second, so a whole note is two.
    let spu = 0.5 / UNITS_PER_BEAT as f64;
    let closest = |secs: f64, spu: f64| Duration::closest_to(ticks(secs, spu));
    assert_eq!(closest(2.0, spu), Duration::new(1, Fraction::Zero));
    assert_eq!(closest(1.0, spu), Duration::new(0, Fraction::Half));
    assert_eq!(closest(3.0, spu), Duration::new(1, Fraction::Half));
    // Three eighths — the dotted quarter, which only the nominator can name.
    assert_eq!(closest(0.75, spu), Duration::with_num(0, 3, Fraction::Eighth));
    // The same stretch of file at twice the tempo is twice the note value.
    let fast = 0.25 / UNITS_PER_BEAT as f64;
    assert_eq!(closest(1.0, fast), Duration::new(1, Fraction::Zero));

    // Ties go to the plainest: half a whole note is `1/2`, not `2/4`.
    assert_eq!(closest(1.0, spu).frac, Fraction::Half);
    assert_eq!(closest(1.0, spu).num, 1);

    // Nothing left of the file is no length at all — but a sliver of it is
    // the shortest note there is, never a frame that plays nothing.
    assert_eq!(closest(0.0, spu), Duration::new(0, Fraction::Zero));
    assert_eq!(closest(-1.0, spu), Duration::new(0, Fraction::Zero));
    assert_eq!(
        closest(0.0001, spu),
        Duration::new(0, Fraction::TwoHundredFiftySixth)
    );

    // A recording longer than the boxes can say gets the longest they can.
    assert_eq!(
        closest(1000.0, spu),
        Duration::with_num(MAX_WHOLES, MAX_NUM, Fraction::Half)
    );
}

#[test]
fn a_fit_that_is_not_exact_says_which_way_it_missed() {
    let spu = 0.5 / UNITS_PER_BEAT as f64;
    let error_secs = |d: Duration, secs: f64| d.units() as f64 * spu - secs;
    let hint = |secs: f64, d: Duration| {
        fit_hint(
            &format!("{secs:.3}"),
            d,
            (error_secs(d, secs) * 1_000_000.0).round() as i64,
        )
    };
    // 5.81 s, which no length at 120 BPM names — the nominator stops at sixteen,
    // so the nearest is 2 + 7/8 (5.75 s), 60 ms short.
    let fitted = Duration::closest_to(ticks(5.81, spu));
    assert_eq!(fitted, Duration::with_num(2, 7, Fraction::Eighth));
    assert!((error_secs(fitted, 5.81) + 0.06).abs() < 1e-6);
    assert!(hint(5.81, fitted).contains("60 ms short"), "{}", hint(5.81, fitted));

    // An exact fit says so rather than showing a rounded zero.
    let exact = Duration::closest_to(ticks(2.0, spu));
    assert_eq!(error_secs(exact, 2.0), 0.0);
    assert!(hint(2.0, exact).contains("exactly"));
}

#[test]
fn a_fit_hint_rounds_to_whole_milliseconds() {
    let d = Duration::new(1, Fraction::Zero);
    assert!(fit_hint("2.000", d, 499).contains("is exactly."));
    assert!(fit_hint("2.000", d, -499).contains("is exactly."));
    assert!(fit_hint("2.000", d, 500).contains("0 ms long"));
    assert!(fit_hint("2.000", d, 1500).contains("2 ms long"));
    assert!(fit_hint("2.000", d, 2500).contains("2 ms long"));
    assert!(fit_hint("2.000", d, -2501).contains("3 ms short"));
    assert!(fit_hint("1.250", d, 0).contains("there is 1.250 s of the recording left"));
}

#[test]
fn a_block_is_clicked_open_and_clicked_shut() {
    let mut row = row_with(&[
        (60, frac(Fraction::Quarter), frac(Fraction::Zero)),
        (62, frac(Fraction::Quarter), frac(Fraction::Zero)),
        (64, frac(Fraction::Quarter), frac(Fraction::Zero)),
    ]);
    let ids: Vec<u64> = row.items.iter().map(|i| i.id).collect();

    row.select_item(ids[1], false);
    assert_eq!(row.sel_range(), Some((1, 1)), "a plain click selects one frame");

    row.select_item(ids[1], false);
    assert_eq!(row.sel_range(), None, "the same click again drops the block");

    row.select_item(ids[0], false);
    row.select_item(ids[2], false);
    assert_eq!(
        row.sel_range(),
        Some((0, 2)),
        "a plain click on a second box must grow the block, not restart it"
    );

    row.select_item(ids[1], false);
    assert_eq!(row.sel_range(), None, "a box inside the block drops the block");
    row.select_item(ids[2], false);
    row.select_item(ids[0], false);
    assert_eq!(row.sel_range(), Some((0, 2)), "a box in front of the block grows it");

    row.select_item(ids[1], true);
    assert_eq!(row.sel_range(), Some((1, 2)), "shift shrinks from the end last clicked");

    row.select_item(ids[0], true);
    assert_eq!(
        row.sel_range(),
        Some((0, 2)),
        "shift takes everything between the anchor and the frame clicked, \
         whichever way round they are"
    );

    row.select_item(ids[1], false);
    row.select_item(ids[1], false);
    row.select_item(ids[2], true);
    row.delete_item(0);
    assert_eq!(row.sel_range(), Some((0, 1)), "the same two frames, one place earlier");

    row.delete_item(1);
    assert_eq!(row.sel, None);
}

#[test]
fn a_gap_is_laid_out_without_loss() {
    // One length can say it: no frames more.
    let mut space = frac(Fraction::Eighth);
    let extra = add_gap(&mut space, EIGHTH);
    assert_eq!(space, frac(Fraction::Quarter));
    assert!(extra.is_empty());
    // No length can say 255 units: the rest is laid out behind it.
    let mut space = frac(Fraction::Zero);
    let extra = add_gap(&mut space, 255);
    let rest: i64 = extra.iter().map(|d| d.units()).sum();
    assert_eq!(space.units() + rest, 255);
    assert!(!extra.is_empty());
}

#[test]
fn a_card_says_what_it_is() {
    let d = Duration::with_num(0, 3, Fraction::Eighth);
    assert_eq!(frame_title(Frame::Note { pitch: 36 }, 5, true, d), "C2 · Bass Drum (Kick) · 3/8");
    assert_eq!(frame_title(Frame::Note { pitch: 36 }, 5, false, d), "C2 · 3/8");
    assert_eq!(frame_title(Frame::Wav, 5, false, d), "wav · 3/8");
    assert_eq!(frame_title(Frame::Space, 5, false, d), "space · 3/8");
    assert_eq!(frame_title(Frame::Space, LEAD_SPACE_ID, false, d), "lead · 3/8");
}

#[test]
fn a_card_is_drawn_by_what_it_is_and_what_is_done_with_it() {
    let d = frac(Fraction::Quarter);
    let plain = FrameState { sounding: false, percussion: false, selected: false };
    let note = frame_look(Frame::Note { pitch: 60 }, d, plain);
    assert_eq!((note.fill, note.border), (Fill::Note, Border::Note));
    assert!(note.handles && !note.ticked && !note.thick && !note.fits && note.counts);

    let picked = frame_look(
        Frame::Note { pitch: 60 },
        d,
        FrameState { selected: true, ..plain },
    );
    assert_eq!((picked.fill, picked.border), (Fill::NoteSelected, Border::Selected));
    assert!(picked.ticked && picked.thick);

    // Where the transport is beats what is selected; the border says the rest.
    let both = frame_look(
        Frame::Note { pitch: 60 },
        d,
        FrameState { selected: true, sounding: true, ..plain },
    );
    assert_eq!((both.fill, both.border), (Fill::NoteSounding, Border::Selected));
    let sounding = frame_look(Frame::Wav, d, FrameState { sounding: true, ..plain });
    assert_eq!((sounding.fill, sounding.border), (Fill::NoteSounding, Border::Playhead));
    assert!(sounding.wide && sounding.fits);

    // A space has nothing of its own to press, and no fraction no nominator.
    let space = frame_look(
        Frame::Space,
        frac(Fraction::Zero),
        FrameState { selected: true, ..plain },
    );
    assert_eq!((space.fill, space.border), (Fill::SpaceSelected, Border::Selected));
    assert!(!space.handles && !space.ticked && !space.counts);
}

#[test]
fn the_boxes_leave_a_length_canonical() {
    let mut d = frac(Fraction::Quarter);
    edit_length(&mut d, 2, 5, Fraction::Zero);
    assert_eq!(d, Duration::new(2, Fraction::Zero));
    edit_length(&mut d, 0, 0, Fraction::Eighth);
    assert_eq!(d, Duration::new(0, Fraction::Eighth));
}

#[test]
fn a_note_sounds_from_its_start_up_to_its_end() {
    let at = |u: i64| Some(u * TICKS_PER_UNIT);
    assert!(!is_sounding(64, 64, None));
    assert!(!is_sounding(64, 64, Some(64 * TICKS_PER_UNIT - 1)));
    assert!(is_sounding(64, 64, at(64)));
    assert!(is_sounding(64, 64, Some(128 * TICKS_PER_UNIT - 1)));
    assert!(!is_sounding(64, 64, at(128)));
}

#[test]
fn clicks_are_applied_in_turn() {
    let mut row = row_with(&[
        (60, frac(Fraction::Quarter), frac(Fraction::Zero)),
        (62, frac(Fraction::Quarter), frac(Fraction::Zero)),
    ]);
    row.apply_clicks(Some((1, false)), None);
    assert_eq!(row.sel_range(), Some((1, 1)));
    assert!(row.is_selected(1) && !row.is_selected(0));
    row.apply_clicks(None, Some(0));
    assert_eq!(row.sel_range(), Some((0, 0)));
    assert_eq!(row.items.len(), 1);
    assert!(row.follows(true) && !row.follows(false));
}

#[test]
fn a_start_is_held_inside_its_file() {
    let b = |x: f32| x.to_bits();
    assert_eq!(start_within(b(30.0), b(2.0)), b(2.0));
    assert_eq!(start_within(b(1.5), b(2.0)), b(1.5));
    assert_eq!(start_within(b(-1.0), b(2.0)), b(0.0));
    assert_eq!(start_within(b(1.0), b(0.0)), b(0.001));
}

#[test]
fn a_stretch_reads_in_whole_notes() {
    assert_eq!(span_label(UNITS_PER_WHOLE), "1");
    assert_eq!(span_label(3 * EIGHTH), "3/8");
}
