//! Turns standard MIDI files into timed keystroke timelines for a diatonic
//! in-game instrument with three octave rows of seven keys.
//!
//! - `midi` decodes a file into note events, using `tempo` for time;
//! - `mapper` projects pitches onto degrees, accidentals and keys;
//! - `polyphony` caps the notes that sound together;
//! - `playback` builds the key timeline and decides what a player does next.

pub mod chunks;
pub mod config;
pub mod keyboard;
pub mod mapper;
pub mod midi;
pub mod playback;
pub mod polyphony;
pub mod sort;
pub mod tempo;
