//! The containers of the document tree.

pub mod chord;
pub mod multivoice;
pub mod part;
pub mod phrase;
pub mod phrase_laws;
pub mod staff;

pub use chord::{Chord, ChordView};
pub use multivoice::{MultiVoice, MultiVoiceView};
pub use part::{Part, PartView};
pub use phrase::{Phrase, PhraseContent, PhraseContentView, PhraseView};
pub use staff::{Staff, StaffContent, StaffContentView, StaffView};
