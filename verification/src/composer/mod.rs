//! The track composer: rows of frames, the blocks they are edited in, the
//! project they are saved as, the takes they are recorded from and the schedule
//! they are played by.

pub mod block;
pub mod cards;
pub mod length;
pub mod names;
pub mod panel;
pub mod player;
pub mod project;
pub mod record;
pub mod round_trip;
pub mod row;
pub mod saving;
pub mod session;
pub mod share;
