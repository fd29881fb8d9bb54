//! The keyboard: what its notes mean on a kit, and how its messages reach the
//! instruments that listen to it.

pub mod drums;
pub mod input;
pub mod message;
pub mod router;

pub use drums::{gm_percussion_name, plays_a_drum_kit};
pub use input::{
    add_midi_tap, list_usb_midi_keyboards, new_midi_queue, new_midi_taps, new_octave_shift,
    MidiEventQueue, MidiTap, MidiTaps, OctaveShift, MAX_OCTAVE_SHIFT,
};
pub use router::{MidiFeed, MidiRouter};
