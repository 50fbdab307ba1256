//! The players that come with the library.

pub mod cfr_player;
