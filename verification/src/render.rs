//! Diagnostic text: a readable line for every node of the tree. It is meant
//! for people who debug, not for storage.

use crate::composition::{Composition, CompositionView};
use crate::context::tempo::{Tempo, TimeSignature};
use crate::modification::{
    NoteModification, NoteModificationType, PhraseModification, PhraseModificationType,
};
use crate::note::duration::{Duration, DurationType};
use crate::note::note::{Note, NoteView};
use crate::note::pitch::{Pitch, PitchName};
use crate::structure::chord::{Chord, ChordView};
use crate::structure::multivoice::{MultiVoice, MultiVoiceView};
use crate::structure::part::{Part, PartView};
use crate::structure::phrase::{
    content_views, lemma_content_view_items, Phrase, PhraseContent, PhraseContentView, PhraseView,
};
use crate::structure::staff::{Staff, StaffContent, StaffContentView, StaffView};
use crate::text::{decimal, decimal_text};
use vstd::prelude::*;
use vstd::string::StringExecFns;

verus! {

/// The first `upto` texts, with a comma and a blank between them.
pub open spec fn joined(texts: Seq<Seq<char>>, upto: int) -> Seq<char>
    decreases upto,
{
    if upto <= 0 {
        Seq::empty()
    } else if upto == 1 {
        texts[0]
    } else {
        joined(texts, upto - 1) + ", "@ + texts[upto - 1]
    }
}

/// The texts in round brackets after a blank, or nothing where there are
/// none.
pub open spec fn bracketed(texts: Seq<Seq<char>>) -> Seq<char> {
    if texts.len() == 0 {
        Seq::empty()
    } else {
        " ("@ + joined(texts, texts.len() as int) + ")"@
    }
}

/// Puts one more text at the end of a list that is being written.
fn append_joined(s: &mut String, item: &str, written: usize, Ghost(head): Ghost<Seq<char>>, Ghost(texts): Ghost<Seq<Seq<char>>>)
    requires
        written < texts.len(),
        item@ == texts[written as int],
        old(s)@ == head + joined(texts, written as int),
    ensures
        final(s)@ == head + joined(texts, written + 1),
{
    if written > 0 {
        s.append(", ");
    }
    s.append(item);
    proof {
        if written > 0 {
            assert(s@ =~= head + (joined(texts, written as int) + ", "@ + item@));
        } else {
            assert(s@ =~= head + item@);
        }
    }
}

/// As many dots as a duration has.
pub open spec fn dots_text(dots: nat) -> Seq<char>
    decreases dots,
{
    if dots == 0 {
        Seq::empty()
    } else {
        dots_text((dots - 1) as nat) + "."@
    }
}

impl DurationType {
    /// The name of the written value.
    pub open spec fn name(self) -> Seq<char> {
        match self {
            DurationType::Maxima => "Maxima"@,
            DurationType::Long => "Long"@,
            DurationType::Breve => "Breve"@,
            DurationType::Whole => "Whole"@,
            DurationType::Half => "Half"@,
            DurationType::Quarter => "Quarter"@,
            DurationType::Eighth => "Eighth"@,
            DurationType::Sixteenth => "Sixteenth"@,
            DurationType::ThirtySecond => "ThirtySecond"@,
            DurationType::SixtyFourth => "SixtyFourth"@,
            DurationType::OneHundredTwentyEighth => "OneHundredTwentyEighth"@,
            DurationType::TwoHundredFiftySixth => "TwoHundredFiftySixth"@,
            DurationType::Exact { numerator, denominator } => decimal(self.numer()) + "/"@ + decimal(
                self.denom(),
            ),
        }
    }

    /// Renders the written value for diagnostics.
    pub fn to_string(&self) -> (s: String)
        ensures
            s@ == self.name(),
    {
        match self {
            DurationType::Maxima => String::from_str("Maxima"),
            DurationType::Long => String::from_str("Long"),
            DurationType::Breve => String::from_str("Breve"),
            DurationType::Whole => String::from_str("Whole"),
            DurationType::Half => String::from_str("Half"),
            DurationType::Quarter => String::from_str("Quarter"),
            DurationType::Eighth => String::from_str("Eighth"),
            DurationType::Sixteenth => String::from_str("Sixteenth"),
            DurationType::ThirtySecond => String::from_str("ThirtySecond"),
            DurationType::SixtyFourth => String::from_str("SixtyFourth"),
            DurationType::OneHundredTwentyEighth => String::from_str("OneHundredTwentyEighth"),
            DurationType::TwoHundredFiftySixth => String::from_str("TwoHundredFiftySixth"),
            DurationType::Exact { numerator, denominator } => {
                let over: u64 = if *numerator == 0 {
                    1
                } else {
                    *numerator
                };
                let under: u64 = if *denominator == 0 {
                    1
                } else {
                    *denominator
                };
                let mut s = decimal_text(over);
                s.append("/");
                s.append(decimal_text(under).as_str());
                s
            },
        }
    }
}

impl Duration {
    /// The name of the written value, followed by its dots.
    pub open spec fn text(self) -> Seq<char> {
        self.value.name() + dots_text(self.dots as nat)
    }

    /// Renders the duration for diagnostics.
    pub fn to_string(&self) -> (s: String)
        ensures
            s@ == self.text(),
    {
        let mut s = self.value.to_string();
        let mut i: u8 = 0;
        proof {
            assert(s@ =~= self.value.name() + dots_text(0));
        }
        while i < self.dots
            invariant
                i <= self.dots,
                s@ == self.value.name() + dots_text(i as nat),
            decreases self.dots - i,
        {
            s.append(".");
            proof {
                assert(s@ =~= self.value.name() + dots_text((i + 1) as nat));
            }
            i += 1;
        }
        s
    }
}

impl PitchName {
    /// The letter of the pitch, or the word for a rest.
    pub open spec fn name(self) -> Seq<char> {
        match self {
            PitchName::Rest => "Rest"@,
            PitchName::A => "A"@,
            PitchName::B => "B"@,
            PitchName::C => "C"@,
            PitchName::D => "D"@,
            PitchName::E => "E"@,
            PitchName::F => "F"@,
            PitchName::G => "G"@,
        }
    }

    /// Renders the letter for diagnostics.
    pub fn to_string(&self) -> (s: String)
        ensures
            s@ == self.name(),
    {
        match self {
            PitchName::Rest => String::from_str("Rest"),
            PitchName::A => String::from_str("A"),
            PitchName::B => String::from_str("B"),
            PitchName::C => String::from_str("C"),
            PitchName::D => String::from_str("D"),
            PitchName::E => String::from_str("E"),
            PitchName::F => String::from_str("F"),
            PitchName::G => String::from_str("G"),
        }
    }
}

impl Tempo {
    /// The base note and the beats per minute.
    pub open spec fn text(self) -> Seq<char> {
        self.base_note.text() + "="@ + decimal(self.beats_per_minute as nat)
    }

    /// Renders the tempo for diagnostics.
    pub fn to_string(&self) -> (s: String)
        ensures
            s@ == self.text(),
    {
        let mut s = self.base_note.to_string();
        s.append("=");
        s.append(decimal_text(self.beats_per_minute as u64).as_str());
        s
    }
}

impl TimeSignature {
    /// The two numbers of the time signature.
    pub open spec fn text(self) -> Seq<char> {
        decimal(self.numerator as nat) + "/"@ + decimal(self.denominator as nat)
    }

    /// Renders the time signature for diagnostics.
    pub fn to_string(&self) -> (s: String)
        ensures
            s@ == self.text(),
    {
        let mut s = decimal_text(self.numerator as u64);
        s.append("/");
        s.append(decimal_text(self.denominator as u64).as_str());
        s
    }
}

impl NoteModificationType {
    /// The name of the modification.
    pub open spec fn name(self) -> Seq<char> {
        match self {
            NoteModificationType::Accent => "Accent"@,
            NoteModificationType::Fermata => "Fermata"@,
            NoteModificationType::Grace => "Grace"@,
            NoteModificationType::Staccato => "Staccato"@,
            NoteModificationType::Tenuto => "Tenuto"@,
            NoteModificationType::Tie => "Tie"@,
            NoteModificationType::Trill => "Trill"@,
            NoteModificationType::Turn => "Turn"@,
        }
    }

    /// Renders the modification for diagnostics.
    pub fn to_string(&self) -> (s: String)
        ensures
            s@ == self.name(),
    {
        match self {
            NoteModificationType::Accent => String::from_str("Accent"),
            NoteModificationType::Fermata => String::from_str("Fermata"),
            NoteModificationType::Grace => String::from_str("Grace"),
            NoteModificationType::Staccato => String::from_str("Staccato"),
            NoteModificationType::Tenuto => String::from_str("Tenuto"),
            NoteModificationType::Tie => String::from_str("Tie"),
            NoteModificationType::Trill => String::from_str("Trill"),
            NoteModificationType::Turn => String::from_str("Turn"),
        }
    }
}

impl PhraseModificationType {
    /// The name of the modification, with its number where it has one.
    pub open spec fn text(self) -> Seq<char> {
        match self {
            PhraseModificationType::Crescendo => "Crescendo"@,
            PhraseModificationType::Decrescendo => "Decrescendo"@,
            PhraseModificationType::Glissando => "Glissando"@,
            PhraseModificationType::Legato => "Legato"@,
            PhraseModificationType::Pedal => "Pedal"@,
            PhraseModificationType::Slur => "Slur"@,
            PhraseModificationType::Tremolo { relative_speed } => "Tremolo at "@ + decimal(
                relative_speed as nat,
            ),
            PhraseModificationType::Tuplet { into_beats } => "Tuplet into "@ + decimal(
                into_beats as nat,
            ),
        }
    }

    /// Renders the modification for diagnostics.
    pub fn to_string(&self) -> (s: String)
        ensures
            s@ == self.text(),
    {
        match self {
            PhraseModificationType::Crescendo => String::from_str("Crescendo"),
            PhraseModificationType::Decrescendo => String::from_str("Decrescendo"),
            PhraseModificationType::Glissando => String::from_str("Glissando"),
            PhraseModificationType::Legato => String::from_str("Legato"),
            PhraseModificationType::Pedal => String::from_str("Pedal"),
            PhraseModificationType::Slur => String::from_str("Slur"),
            PhraseModificationType::Tremolo { relative_speed } => {
                let mut s = String::from_str("Tremolo at ");
                s.append(decimal_text(*relative_speed as u64).as_str());
                s
            },
            PhraseModificationType::Tuplet { into_beats } => {
                let mut s = String::from_str("Tuplet into ");
                s.append(decimal_text(*into_beats as u64).as_str());
                s
            },
        }
    }
}

impl NoteModification {
    /// Renders the modification for diagnostics.
    pub fn to_string(&self) -> (s: String)
        ensures
            s@ == self.spec_modification().name(),
    {
        self.modification.to_string()
    }
}

impl PhraseModification {
    /// Renders the modification for diagnostics.
    pub fn to_string(&self) -> (s: String)
        ensures
            s@ == self.spec_modification().text(),
    {
        self.modification.to_string()
    }
}

/// The texts of the modifications of a note.
pub open spec fn note_modification_texts(items: Seq<NoteModification>) -> Seq<Seq<char>> {
    Seq::new(items.len(), |i: int| items[i].spec_modification().name())
}

/// The texts of the modifications of a phrase.
pub open spec fn phrase_modification_texts(items: Seq<PhraseModification>) -> Seq<Seq<char>> {
    Seq::new(items.len(), |i: int| items[i].spec_modification().text())
}

/// The texts of the notes of a chord.
pub open spec fn note_texts(items: Seq<NoteView>) -> Seq<Seq<char>> {
    Seq::new(items.len(), |i: int| items[i].text())
}

/// The texts of the voices of a group.
pub open spec fn phrase_texts(items: Seq<PhraseView>) -> Seq<Seq<char>> {
    Seq::new(items.len(), |i: int| items[i].text())
}

/// The texts of the items of a staff.
pub open spec fn item_texts(items: Seq<StaffContentView>) -> Seq<Seq<char>> {
    Seq::new(items.len(), |i: int| items[i].text())
}

/// The texts of the staves of a part.
pub open spec fn staff_texts(items: Seq<StaffView>) -> Seq<Seq<char>> {
    Seq::new(items.len(), |i: int| items[i].text())
}

impl NoteView {
    /// The pitch with its accidental and octave, or the word for a rest;
    /// then the duration; then the modifications in brackets.
    pub open spec fn text(self) -> Seq<char> {
        (if self.pitch.name == PitchName::Rest {
            self.pitch.name.name()
        } else {
            self.pitch.name.name() + self.accidental.symbol() + decimal(self.pitch.octave as nat)
        }) + " "@ + self.duration.text() + bracketed(note_modification_texts(self.modifications))
    }
}

impl ChordView {
    /// The notes of the chord in square brackets.
    pub open spec fn text(self) -> Seq<char> {
        "Chord: ["@ + joined(note_texts(self.notes), self.notes.len() as int) + "]"@
    }
}

impl PhraseContentView {
    /// The text of the child.
    pub open spec fn text(self) -> Seq<char>
        decreases self,
    {
        match self {
            PhraseContentView::Note(note) => note.text(),
            PhraseContentView::Chord(chord) => chord.text(),
            PhraseContentView::Phrase(phrase) => phrase.text(),
        }
    }
}

impl PhraseView {
    /// The texts of the children of the phrase.
    pub open spec fn child_texts(self) -> Seq<Seq<char>>
        decreases self, 0nat,
    {
        Seq::new(
            self.content.len(),
            |i: int|
                if 0 <= i < self.content.len() {
                    self.content[i].text()
                } else {
                    Seq::empty()
                },
        )
    }

    /// The modifications of the phrase in round brackets, then its
    /// children in square brackets.
    pub open spec fn text(self) -> Seq<char>
        decreases self, 1nat,
    {
        "Phrase"@ + bracketed(phrase_modification_texts(self.modifications)) + ": ["@ + joined(
            self.child_texts(),
            self.content.len() as int,
        ) + "]"@
    }
}

impl MultiVoiceView {
    /// The voices of the group in square brackets.
    pub open spec fn text(self) -> Seq<char> {
        "MultiVoice: ["@ + joined(phrase_texts(self.voices), self.voices.len() as int) + "]"@
    }
}

impl StaffContentView {
    /// The text of the item.
    pub open spec fn text(self) -> Seq<char> {
        match self {
            StaffContentView::Phrase(phrase) => phrase.text(),
            StaffContentView::Chord(chord) => chord.text(),
            StaffContentView::MultiVoice(voices) => voices.text(),
        }
    }
}

impl StaffView {
    /// The items of the staff in square brackets.
    pub open spec fn text(self) -> Seq<char> {
        "Staff: ["@ + joined(item_texts(self.content), self.content.len() as int) + "]"@
    }
}

impl PartView {
    /// The name of the part, then its staves in square brackets.
    pub open spec fn text(self) -> Seq<char> {
        "Part "@ + self.name + ": ["@ + joined(staff_texts(self.staves), self.staves.len() as int)
            + "]"@
    }
}

/// A text that may be missing, or `otherwise` in its place.
pub open spec fn text_or(text: Option<Seq<char>>, otherwise: Seq<char>) -> Seq<char> {
    match text {
        Some(t) => t,
        None => otherwise,
    }
}

/// The first of the texts, or `otherwise` where there is none.
pub open spec fn first_or(texts: Seq<Seq<char>>, otherwise: Seq<char>) -> Seq<char> {
    if texts.len() > 0 {
        texts[0]
    } else {
        otherwise
    }
}

/// A number of at most two digits in two digits.
pub open spec fn two_digits(n: nat) -> Seq<char> {
    if n < 10 {
        "0"@ + decimal(n)
    } else {
        decimal(n)
    }
}

/// A length of whole seconds in minutes and seconds.
pub open spec fn clock(seconds: nat) -> Seq<char> {
    two_digits(seconds / 60) + ":"@ + two_digits(seconds % 60)
}

impl CompositionView {
    /// The length of the composition as diagnostics print it: minutes and
    /// whole seconds, or a word where the length cannot be computed.
    pub open spec fn length_text(self) -> Seq<char> {
        match self.seconds() {
            Ok(length) => clock(length.numer() / length.denom()),
            Err(_) => "unknown"@,
        }
    }

    /// What diagnostics print of a composition: its title and authors, its
    /// tempo, key and time signature, the number of its parts and its
    /// length.
    pub open spec fn text(self) -> Seq<char> {
        "Composition:\n  Title: "@ + self.title + "\n  First Composer: "@ + first_or(
            self.composers,
            "Unknown"@,
        ) + "\n  First Lyricist: "@ + first_or(self.lyricists, "Unknown"@)
            + "\n  First Arranger: "@ + first_or(self.arrangers, "Unknown"@) + "\n  Publisher: "@
            + text_or(self.publisher, "Unknown"@) + "\n  Copyright: "@ + text_or(
            self.copyright,
            "None"@,
        ) + "\n  Tempo: "@ + self.tempo.text() + "\n  Key: "@ + self.starting_key.name()
            + "\n  Time Signature: "@ + self.starting_time_signature.text() + "\n  Num Parts: "@
            + decimal(self.parts.len()) + "\n  Length: "@ + self.length_text()
    }
}

impl Pitch {
    /// Renders the letter of the pitch for diagnostics.
    pub fn to_string(&self) -> (s: String)
        ensures
            s@ == self.name.name(),
    {
        self.name.to_string()
    }
}

impl Note {
    /// Renders the note for diagnostics.
    pub fn to_string(&self) -> (s: String)
        ensures
            s@ == self@.text(),
    {
        let mut s = self.pitch.name.to_string();
        if !self.pitch.is_rest() {
            s.append(self.accidental.to_string().as_str());
            s.append(decimal_text(self.pitch.octave as u64).as_str());
        }
        s.append(" ");
        s.append(self.duration.to_string().as_str());
        let ghost head = s@;
        let ghost texts = note_modification_texts(self.modifications@);
        if self.modifications.len() > 0 {
            s.append(" (");
            let ghost open = s@;
            let mut i: usize = 0;
            proof {
                assert(s@ =~= open + joined(texts, 0));
            }
            while i < self.modifications.len()
                invariant
                    i <= self.modifications.len(),
                    texts == note_modification_texts(self.modifications@),
                    s@ == open + joined(texts, i as int),
                decreases self.modifications.len() - i,
            {
                let item = self.modifications[i].to_string();
                append_joined(&mut s, item.as_str(), i, Ghost(open), Ghost(texts));
                i += 1;
            }
            s.append(")");
            proof {
                assert(s@ =~= head + bracketed(texts));
            }
        } else {
            proof {
                assert(s@ =~= head + bracketed(texts));
            }
        }
        s
    }
}

impl Chord {
    /// Renders the chord for diagnostics.
    pub fn to_string(&self) -> (s: String)
        ensures
            s@ == self@.text(),
    {
        let mut s = String::from_str("Chord: [");
        let ghost texts = note_texts(self@.notes);
        let mut i: usize = 0;
        proof {
            assert(s@ =~= "Chord: ["@ + joined(texts, 0));
        }
        while i < self.notes.len()
            invariant
                i <= self.notes.len(),
                texts == note_texts(self@.notes),
                s@ == "Chord: ["@ + joined(texts, i as int),
            decreases self.notes.len() - i,
        {
            let item = self.notes[i].to_string();
            append_joined(&mut s, item.as_str(), i, Ghost("Chord: ["@), Ghost(texts));
            i += 1;
        }
        s.append("]");
        s
    }
}

impl PhraseContent {
    /// Renders the child for diagnostics.
    pub fn to_string(&self) -> (s: String)
        ensures
            s@ == self@.text(),
        decreases self,
    {
        match self {
            PhraseContent::Note(note) => note.to_string(),
            PhraseContent::Chord(chord) => chord.to_string(),
            PhraseContent::Phrase(phrase) => phrase.to_string(),
        }
    }
}

impl Phrase {
    /// Renders the phrase for diagnostics: its modifications in round
    /// brackets, then its children in square brackets.
    pub fn to_string(&self) -> (s: String)
        ensures
            s@ == self@.text(),
        decreases self,
    {
        proof {
            self.lemma_view();
        }
        let mut s = String::from_str("Phrase");
        let ghost marks = phrase_modification_texts(self.modifications@);
        if self.modifications.len() > 0 {
            s.append(" (");
            let ghost open = s@;
            let mut j: usize = 0;
            proof {
                assert(s@ =~= open + joined(marks, 0));
            }
            while j < self.modifications.len()
                invariant
                    j <= self.modifications.len(),
                    marks == phrase_modification_texts(self.modifications@),
                    s@ == open + joined(marks, j as int),
                decreases self.modifications.len() - j,
            {
                let item = self.modifications[j].to_string();
                append_joined(&mut s, item.as_str(), j, Ghost(open), Ghost(marks));
                j += 1;
            }
            s.append(")");
            proof {
                assert(s@ =~= "Phrase"@ + bracketed(marks));
            }
        } else {
            proof {
                assert(s@ =~= "Phrase"@ + bracketed(marks));
            }
        }
        s.append(": [");
        let ghost head = s@;
        let ghost texts = self@.child_texts();
        let mut i: usize = 0;
        proof {
            assert(s@ =~= head + joined(texts, 0));
        }
        while i < self.content.len()
            invariant
                i <= self.content.len(),
                self@.content == content_views(self.content@),
                texts == self@.child_texts(),
                s@ == head + joined(texts, i as int),
            decreases self.content.len() - i,
        {
            proof {
                lemma_content_view_items(self.content@);
            }
            let item = self.content[i].to_string();
            append_joined(&mut s, item.as_str(), i, Ghost(head), Ghost(texts));
            i += 1;
        }
        s.append("]");
        s
    }
}

impl MultiVoice {
    /// Renders the group of voices for diagnostics.
    pub fn to_string(&self) -> (s: String)
        ensures
            s@ == self@.text(),
    {
        let mut s = String::from_str("MultiVoice: [");
        let ghost texts = phrase_texts(self@.voices);
        let mut i: usize = 0;
        proof {
            assert(s@ =~= "MultiVoice: ["@ + joined(texts, 0));
        }
        while i < self.voices.len()
            invariant
                i <= self.voices.len(),
                texts == phrase_texts(self@.voices),
                s@ == "MultiVoice: ["@ + joined(texts, i as int),
            decreases self.voices.len() - i,
        {
            let item = self.voices[i].to_string();
            append_joined(&mut s, item.as_str(), i, Ghost("MultiVoice: ["@), Ghost(texts));
            i += 1;
        }
        s.append("]");
        s
    }
}

impl StaffContent {
    /// Renders the item for diagnostics.
    pub fn to_string(&self) -> (s: String)
        ensures
            s@ == self@.text(),
    {
        match self {
            StaffContent::Phrase(phrase) => phrase.to_string(),
            StaffContent::Chord(chord) => chord.to_string(),
            StaffContent::MultiVoice(voices) => voices.to_string(),
        }
    }
}

impl Staff {
    /// Renders the staff for diagnostics.
    pub fn to_string(&self) -> (s: String)
        ensures
            s@ == self@.text(),
    {
        let mut s = String::from_str("Staff: [");
        let ghost texts = item_texts(self@.content);
        let mut i: usize = 0;
        proof {
            assert(s@ =~= "Staff: ["@ + joined(texts, 0));
        }
        while i < self.content.len()
            invariant
                i <= self.content.len(),
                texts == item_texts(self@.content),
                s@ == "Staff: ["@ + joined(texts, i as int),
            decreases self.content.len() - i,
        {
            let item = self.content[i].to_string();
            append_joined(&mut s, item.as_str(), i, Ghost("Staff: ["@), Ghost(texts));
            i += 1;
        }
        s.append("]");
        s
    }
}

impl Part {
    /// Renders the part for diagnostics.
    pub fn to_string(&self) -> (s: String)
        ensures
            s@ == self@.text(),
    {
        let mut s = String::from_str("Part ");
        s.append(self.name.as_str());
        s.append(": [");
        let ghost head = s@;
        let ghost texts = staff_texts(self@.staves);
        let mut i: usize = 0;
        proof {
            assert(s@ =~= head + joined(texts, 0));
        }
        while i < self.staves.len()
            invariant
                i <= self.staves.len(),
                texts == staff_texts(self@.staves),
                s@ == head + joined(texts, i as int),
            decreases self.staves.len() - i,
        {
            let item = self.staves[i].to_string();
            append_joined(&mut s, item.as_str(), i, Ghost(head), Ghost(texts));
            i += 1;
        }
        s.append("]");
        s
    }
}

/// Puts a number of at most two digits at the end of the text, in two
/// digits.
fn append_two_digits(s: &mut String, n: u64)
    ensures
        final(s)@ == old(s)@ + two_digits(n as nat),
{
    if n < 10 {
        s.append("0");
    }
    s.append(decimal_text(n).as_str());
    proof {
        assert(s@ =~= old(s)@ + two_digits(n as nat));
    }
}

/// Puts the first of the texts at the end of the text, or `otherwise` where
/// there is none.
fn append_first_or(s: &mut String, texts: &Vec<String>, otherwise: &str)
    ensures
        final(s)@ == old(s)@ + first_or(crate::model::views(texts@), otherwise@),
{
    if texts.len() > 0 {
        s.append(texts[0].as_str());
    } else {
        s.append(otherwise);
    }
}

/// Puts a text that may be missing at the end of the text, or `otherwise`
/// in its place.
fn append_text_or(s: &mut String, text: &Option<String>, otherwise: &str)
    ensures
        final(s)@ == old(s)@ + text_or(crate::composition::text_view(*text), otherwise@),
{
    match text {
        Some(t) => s.append(t.as_str()),
        None => s.append(otherwise),
    }
}

impl Composition {
    /// Renders the composition for diagnostics: its title and authors, its
    /// tempo, key and time signature, the number of its parts and its
    /// length in minutes and seconds.
    pub fn to_string(&self) -> (s: String)
        ensures
            s@ == self@.text(),
    {
        let mut s = String::from_str("Composition:\n  Title: ");
        s.append(self.title.as_str());
        s.append("\n  First Composer: ");
        append_first_or(&mut s, &self.composers, "Unknown");
        s.append("\n  First Lyricist: ");
        append_first_or(&mut s, &self.lyricists, "Unknown");
        s.append("\n  First Arranger: ");
        append_first_or(&mut s, &self.arrangers, "Unknown");
        s.append("\n  Publisher: ");
        append_text_or(&mut s, &self.publisher, "Unknown");
        s.append("\n  Copyright: ");
        append_text_or(&mut s, &self.copyright, "None");
        s.append("\n  Tempo: ");
        s.append(self.tempo.to_string().as_str());
        s.append("\n  Key: ");
        s.append(self.starting_key.to_string().as_str());
        s.append("\n  Time Signature: ");
        s.append(self.starting_time_signature.to_string().as_str());
        s.append("\n  Num Parts: ");
        s.append(decimal_text(self.parts.len() as u64).as_str());
        s.append("\n  Length: ");
        let ghost head = s@;
        match self.get_duration() {
            Ok(length) => {
                let whole: u64 = length.numerator() / length.denominator();
                append_two_digits(&mut s, whole / 60);
                s.append(":");
                append_two_digits(&mut s, whole % 60);
                proof {
                    assert(s@ =~= head + clock(whole as nat));
                }
            },
            Err(_) => {
                s.append("unknown");
            },
        }
        s
    }
}

} // verus!
