//! Accidentals.

use vstd::prelude::*;
use vstd::string::StringExecFns;

verus! {

/// The alteration written in front of a note.
#[derive(Copy, Clone, Debug, PartialEq, Eq, Structural, Hash)]
pub enum Accidental {
    Unmarked,
    Natural,
    Sharp,
    Flat,
    DoubleSharp,
    DoubleFlat,
}

impl Default for Accidental {
    fn default() -> (r: Self)
        ensures
            r == Accidental::Unmarked,
    {
        Accidental::Unmarked
    }
}

impl Accidental {
    /// The number of semitones by which the accidental moves a pitch.
    pub open spec fn semitones(self) -> int {
        match self {
            Accidental::Sharp => 1,
            Accidental::Flat => -1,
            Accidental::DoubleSharp => 2,
            Accidental::DoubleFlat => -2,
            _ => 0,
        }
    }

    /// The symbol of the accidental; none at all where nothing is written.
    pub open spec fn symbol(self) -> Seq<char> {
        match self {
            Accidental::Natural => "♮"@,
            Accidental::Sharp => "♯"@,
            Accidental::Flat => "♭"@,
            Accidental::DoubleSharp => "𝄪"@,
            Accidental::DoubleFlat => "𝄫"@,
            Accidental::Unmarked => ""@,
        }
    }

    #[must_use]
    pub fn value(&self) -> (r: i16)
        ensures
            r == self.semitones(),
    {
        match self {
            Accidental::Sharp => 1,
            Accidental::Flat => -1,
            Accidental::DoubleSharp => 2,
            Accidental::DoubleFlat => -2,
            _ => 0,
        }
    }

    /// Renders the accidental for diagnostics.
    pub fn to_string(&self) -> (s: String)
        ensures
            s@ == self.symbol(),
    {
        match self {
            Accidental::Natural => String::from_str("♮"),
            Accidental::Sharp => String::from_str("♯"),
            Accidental::Flat => String::from_str("♭"),
            Accidental::DoubleSharp => String::from_str("𝄪"),
            Accidental::DoubleFlat => String::from_str("𝄫"),
            Accidental::Unmarked => String::from_str(""),
        }
    }
}

} // verus!
