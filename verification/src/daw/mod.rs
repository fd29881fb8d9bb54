//! The workstation around the panels: the keyboard's own panel, and saving and
//! loading a project across all of them.

pub mod devices;
pub mod load;
pub mod save;

pub use devices::octave_shift_label;
