use gemstone::midi::input::{
    arrive, is_software_port, select_port, shift_octaves, take_in, tap, MAX_QUEUED_EVENTS,
    MAX_TAPPED_EVENTS,
};
use gemstone::midi::router::{missing_port, unopened_port};
use gemstone::midi::{
    add_midi_tap, gm_percussion_name, list_usb_midi_keyboards, new_midi_queue, new_midi_taps,
    new_octave_shift, plays_a_drum_kit, MidiRouter, MAX_OCTAVE_SHIFT,
};

#[test]
fn the_core_kit_is_the_general_midi_one() {
    assert_eq!(gm_percussion_name(36), Some("Bass Drum (Kick)"));
    assert_eq!(gm_percussion_name(38), Some("Acoustic Snare"));
    assert_eq!(gm_percussion_name(42), Some("Closed Hi-Hat"));
    assert_eq!(gm_percussion_name(46), Some("Open Hi-Hat"));
    assert_eq!(gm_percussion_name(49), Some("Crash Cymbal 1"));
    assert_eq!(gm_percussion_name(51), Some("Ride Cymbal 1"));
    // The GM2 percussion range and nothing outside it.
    assert_eq!(gm_percussion_name(26), None);
    assert_eq!(gm_percussion_name(88), None);
    assert!((27..=87).all(|n| gm_percussion_name(n).is_some()));
}

#[test]
fn a_drum_plugin_is_recognised_by_its_category_or_its_name() {
    // The precise signal, when a plugin makes it.
    assert!(plays_a_drum_kit("Anything", "Instrument|Drum"));
    // jdrummer does not: it calls itself a synth, so the name answers.
    assert!(plays_a_drum_kit("jdrummer", "Instrument|Synth"));
    assert!(plays_a_drum_kit("MT Power Drum Kit 2", ""));
    assert!(plays_a_drum_kit("Sitala", ""));
    // And a synth is not a drum kit however it is spelled.
    assert!(!plays_a_drum_kit("Vital", "Instrument|Synth"));
    assert!(!plays_a_drum_kit("Surge XT", ""));
    assert!(!plays_a_drum_kit("Dexed", "Instrument|Synth"));
    assert!(!plays_a_drum_kit("LeSynth", ""));
}

/// A router whose panel is connected to `default`, with that port open.
fn router_on(default: &str) -> MidiRouter {
    let mut router = MidiRouter::new();
    router.opened(default);
    router.set_default_port(Some(default.to_string()));
    router
}

#[test]
fn two_instances_on_one_keyboard_both_hear_all_of_it() {
    let mut router = router_on("A");
    let one = router.subscribe(None);
    let two = router.subscribe(Some("A".to_string()));

    router.deliver("A", [0x90, 60, 100]);
    router.deliver("A", [0x80, 60, 0]);
    assert_eq!(router.drain(one), vec![[0x90, 60, 100], [0x80, 60, 0]]);
    assert_eq!(router.drain(two), vec![[0x90, 60, 100], [0x80, 60, 0]]);
}

#[test]
fn each_instance_hears_only_its_own_keyboard() {
    let mut router = router_on("A");
    router.opened("B");
    let follows_default = router.subscribe(None);
    let on_a = router.subscribe(Some("A".to_string()));
    let on_b = router.subscribe(Some("B".to_string()));

    router.deliver("B", [0x90, 48, 100]);
    assert!(router.drain(follows_default).is_empty());
    assert!(router.drain(on_a).is_empty());
    assert_eq!(router.drain(on_b), vec![[0x90, 48, 100]]);

    // Connecting the panel elsewhere moves everything that follows it, with
    // nothing re-subscribed.
    router.set_default_port(Some("B".to_string()));
    router.deliver("B", [0x90, 50, 100]);
    assert_eq!(router.drain(follows_default), vec![[0x90, 50, 100]]);
    assert_eq!(router.drain(on_b), vec![[0x90, 50, 100]]);
    assert!(router.drain(on_a).is_empty());
}

#[test]
fn a_dropped_instance_releases_its_keyboard() {
    let mut router = router_on("A");
    router.opened("B");
    let gone = router.subscribe(Some("B".to_string()));
    assert!(router.port_is_wanted("B"));

    router.unsubscribe(gone);
    // Delivering is what notices: the subscription goes with its instance.
    router.deliver("B", [0x90, 60, 100]);
    assert!(router.drain(gone).is_empty(), "a dead subscription was kept");
    assert!(!router.port_is_wanted("B"));
    // The panel's own port stays open whether or not a track asked for it.
    assert!(router.port_is_wanted("A"));
    assert_eq!(router.release_unused(), vec!["B".to_string()]);
    assert!(!router.is_open("B") && router.is_open("A"));
    assert!(router.release_unused().is_empty());
}

#[test]
fn an_instance_can_be_moved_to_another_keyboard() {
    let mut router = router_on("A");
    router.opened("B");
    let feed = router.subscribe(Some("B".to_string()));
    assert_eq!(router.set_source(feed.id, None), vec!["B".to_string()]);
    router.deliver("A", [0x90, 60, 1]);
    assert_eq!(router.drain(feed), vec![[0x90, 60, 1]]);
    assert_eq!(router.default_port().as_deref(), Some("A"));
}

#[test]
fn what_arrives_is_shifted_tapped_and_delivered() {
    let mut router = router_on("A");
    let feed = router.subscribe(None);
    let mut shift = new_octave_shift();
    shift.store(1);
    let mut held = [0i8; 128];
    let mut taps = new_midi_taps();
    let take = add_midi_tap(&mut taps);
    let got = router.receive("A", &[0x90, 60, 100], &shift, &mut held, &mut taps, 7);
    assert_eq!(got, Some([0x90, 72, 100]));
    assert_eq!(router.drain(feed), vec![[0x90, 72, 100]]);
    assert_eq!(taps.take(take), Some(vec![(7, [0x90, 72, 100])]));
}

#[test]
fn the_shift_moves_notes_and_nothing_else() {
    let mut shift = new_octave_shift();
    let mut held = [0i8; 128];
    shift.store(-2);

    // Middle C down two octaves.
    assert_eq!(
        shift_octaves([0x90, 60, 100], &shift, &mut held),
        Some([0x90, 36, 100])
    );
    // A control change carries a controller number, not a note: moving it
    // would turn the modulation wheel into some other control.
    assert_eq!(
        shift_octaves([0xB0, 60, 100], &shift, &mut held),
        Some([0xB0, 60, 100])
    );
    // Off the bottom of MIDI — there is no such note to play.
    assert_eq!(shift_octaves([0x90, 12, 100], &shift, &mut held), None);
}

#[test]
fn moving_the_shift_under_a_held_key_does_not_strand_the_note() {
    let mut shift = new_octave_shift();
    let mut held = [0i8; 128];

    shift.store(-1);
    let on = shift_octaves([0x90, 60, 100], &shift, &mut held).unwrap();
    assert_eq!(on, [0x90, 48, 100]);

    // …and now the user moves the picker, still holding the key.
    shift.store(2);
    // Both spellings of a release follow the note where it went.
    assert_eq!(
        shift_octaves([0x80, 60, 0], &shift, &mut held),
        Some([0x80, 48, 0])
    );
    assert_eq!(
        shift_octaves([0x90, 60, 0], &shift, &mut held),
        Some([0x90, 48, 0])
    );
    // So does an aftertouch, which names the key the same way.
    assert_eq!(
        shift_octaves([0xA0, 60, 90], &shift, &mut held),
        Some([0xA0, 48, 90])
    );
    // The next press takes the shift that is set now.
    assert_eq!(
        shift_octaves([0x90, 60, 100], &shift, &mut held),
        Some([0x90, 84, 100])
    );
    assert_eq!(shift.load(), 2);
    assert!(MAX_OCTAVE_SHIFT >= 2);
}

#[test]
fn a_message_is_its_first_three_bytes() {
    let shift = new_octave_shift();
    let mut held = [0i8; 128];
    assert_eq!(arrive(&[0xC0, 5], &shift, &mut held), None);
    assert_eq!(arrive(&[0x90, 60, 1, 99], &shift, &mut held), Some([0x90, 60, 1]));
    let mut queue = new_midi_queue();
    let mut taps = new_midi_taps();
    assert_eq!(
        take_in(&[0x90, 60, 1], &shift, &mut held, &mut queue, &mut taps, 0),
        Some([0x90, 60, 1])
    );
    assert_eq!(queue.drain(), vec![[0x90, 60, 1]]);
    assert!(queue.drain().is_empty());
}

#[test]
fn a_queue_nobody_drains_keeps_the_newest() {
    let mut queue = new_midi_queue();
    for i in 0..MAX_QUEUED_EVENTS + 2 {
        queue.push([0x90, (i % 128) as u8, 1]);
    }
    let got = queue.drain();
    assert_eq!(got.len(), MAX_QUEUED_EVENTS);
    assert_eq!(got[0][1], 2);
}

#[test]
fn a_tap_stops_when_it_is_full_rather_than_losing_its_front() {
    let mut taps = new_midi_taps();
    let id = add_midi_tap(&mut taps);
    for i in 0..MAX_TAPPED_EVENTS as u64 + 3 {
        tap(&mut taps, i, [0x90, 60, 1]);
    }
    assert_eq!(taps.heard(id).len(), MAX_TAPPED_EVENTS);
    let events = taps.take(id).unwrap();
    assert_eq!(events[0].0, 0);
    assert_eq!(events.len(), MAX_TAPPED_EVENTS);
    assert_eq!(taps.take(id), Some(vec![]));
    assert!(taps.heard(id).is_empty());
    assert_eq!(taps.take(id + 1), None, "there is no such tap");
}

#[test]
fn a_tap_can_start_over() {
    let mut taps = new_midi_taps();
    let id = add_midi_tap(&mut taps);
    tap(&mut taps, 1, [0x90, 60, 1]);
    assert_eq!(taps.heard(id), vec![[0x90, 60, 1]]);
    taps.forget(id);
    tap(&mut taps, 2, [0x80, 60, 0]);
    assert_eq!(taps.take(id), Some(vec![(2, [0x80, 60, 0])]));
    tap(&mut taps, 3, [0x90, 61, 1]);
    assert!(taps.heard(id).is_empty(), "it was closed");
}

#[test]
fn hardware_keyboards_are_told_from_software_ports() {
    let all: Vec<String> =
        ["Midi Through:0", "MPK mini", "USB MIDI Keyboard"].iter().map(|s| s.to_string()).collect();
    assert!(is_software_port("midi through:0"));
    assert!(!is_software_port("mpk mini"));
    assert_eq!(
        list_usb_midi_keyboards(&all),
        vec!["MPK mini".to_string(), "USB MIDI Keyboard".to_string()]
    );
    assert_eq!(select_port(&all, Some("MPK")), Some(1));
    assert_eq!(select_port(&all, Some("nothing like it")), Some(0));
    assert_eq!(select_port(&all, None), Some(0));
    assert_eq!(select_port(&[], None), None);
    assert!(missing_port("X").contains('X'));
    assert!(unopened_port("X", "busy").contains("busy"));
}
