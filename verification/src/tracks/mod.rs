//! Instrument tracks: a hosted plugin with an editor to open and close.
//!
//! A track is light: a name and a plugin path. The instance, its audio stream
//! and its editor window exist only while the editor is open.

pub mod browser;
pub mod naming;
pub mod panel;

pub use browser::{vst3_search_paths, PluginBrowser};
pub use naming::unique_track_name;
pub use panel::TracksPanel;
