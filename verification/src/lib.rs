//! Arrange instrument tracks in rows of frames, save them, record them and play
//! them.

pub mod analysis;
pub mod arguments;
pub mod audio;
pub mod bytes;
pub mod composer;
pub mod daw;
pub mod editor_window;
pub mod midi;
pub mod number;
pub mod order;
pub mod path;
pub mod registry;
pub mod resynth;
pub mod text;
pub mod track_format;
pub mod tracks;

pub use path::file_label;
