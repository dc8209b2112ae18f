//! Held keys and the voices that sound them.

pub mod notes;
pub mod voices;

pub use notes::{MidiNote, Notes};
pub use voices::{GlobalParams, LegatoMode, Voice};
