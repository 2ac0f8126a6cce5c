//! Notes and what they are made of.

pub mod accidental;
pub mod duration;
pub mod note;
pub mod pitch;

pub use accidental::Accidental;
pub use duration::{Duration, DurationType};
pub use note::{Note, NoteView};
pub use pitch::{Pitch, PitchName};
