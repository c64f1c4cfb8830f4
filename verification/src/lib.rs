//! Sample bookkeeping and playback decisions for a small music visualiser.
//!
//! The audio thread hands the library blocks of samples; the library keeps a
//! bounded window of the newest ones, prepares them for the spectrum, and
//! decides per frame what the player does with dropped files and key presses.

pub mod music;
pub mod plugin;
pub mod player;
