//! Sections of a Launchpad X pad grid: reading their configuration, checking
//! it, completing the default section, and answering the grid's MIDI
//! messages with notes and colours.
pub mod text;
pub mod number;
pub mod section;
pub mod config;
pub mod midi;
pub mod laws;
