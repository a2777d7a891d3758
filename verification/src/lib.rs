//! Solver core for pedal-harp music: given the pitches required on each
//! beat, it enumerates the enharmonic spellings that the seven pedals can
//! realize and searches for the cheapest sequences of pedal changes.
pub mod note;
pub mod pitch_class;
pub mod harp;
pub mod astar;
pub mod cost;
pub mod util;
pub mod assign;
pub mod candidate;
pub mod solve;
pub mod shift;

