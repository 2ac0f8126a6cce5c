//! An in-memory document model for symbolic music.
//!
//! A [`Composition`] owns parts, staves, voices, phrases, chords and notes.
//! Durations are exact fractions of a beat, so that nested tuplets and
//! parallel voices can be timed and merged without rounding.

pub mod composition;
pub mod context;
pub mod cutting;
pub mod editing;
pub mod editing_laws;
pub mod error;
pub mod flatten;
pub mod laws;
pub mod lookup_laws;
pub mod model;
pub mod modification;
pub mod note;
pub mod render;
pub mod restructure;
pub mod storage;
pub mod structure;
pub mod temporal;
pub mod text;
pub mod unmodify;

pub use composition::{Composition, CompositionView};
pub use context::{
    generate_id, Clef, ClefType, IdRegistry, Key, KeyMode, KeySignature, Tempo, TimeSignature,
};
pub use error::{StructureError, TimingError};
pub use modification::{
    NoteModification, NoteModificationType, PhraseModification, PhraseModificationType,
};
pub use note::{Accidental, Duration, DurationType, Note, NoteView, Pitch, PitchName};
pub use storage::SerializedItem;
pub use structure::{
    Chord, ChordView, MultiVoice, MultiVoiceView, Part, PartView, Phrase, PhraseContent, PhraseContentView,
    PhraseView, Staff, StaffContent, StaffContentView, StaffView,
};
pub use temporal::{
    place_and_merge, place_and_merge_part_timeslice, Fraction, Onset, PartEntry, PartTimeslice, Slice,
    Timeslice,
};
