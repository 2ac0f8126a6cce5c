//! Musical context: identifiers, clefs, keys and tempo.

pub mod clef;
pub mod id;
pub mod key;
pub mod tempo;

pub use clef::{Clef, ClefType};
pub use id::{generate_id, IdRegistry};
pub use key::{Key, KeyMode, KeySignature};
pub use tempo::{Tempo, TimeSignature};
