//! The errors of the library.

use vstd::prelude::*;
use vstd::string::StringExecFns;

verus! {

/// Why a duration could not be computed.
#[derive(Copy, Clone, Debug, PartialEq, Eq, Structural, Hash)]
pub enum TimingError {
    /// A phrase carries a tuplet and has no children to spread it over.
    EmptyTuplet,
    /// The notes of a chord do not all have the same nominal duration.
    NonUniformChord,
    /// An exact value does not fit in a fraction of 64-bit terms.
    Overflow,
    /// The tempo has no beats per minute, so that no beat ever ends.
    ZeroTempo,
}

/// Why a tree could not be changed.
#[derive(Copy, Clone, Debug, PartialEq, Eq, Structural, Hash)]
pub enum StructureError {
    /// The position given for an insertion lies beyond the end.
    IndexOutOfRange,
}

impl TimingError {
    /// What diagnostics print for the error.
    pub open spec fn message(self) -> Seq<char> {
        match self {
            TimingError::EmptyTuplet => "tuplet over a phrase without children"@,
            TimingError::NonUniformChord => "chord with notes of different durations"@,
            TimingError::Overflow => "duration too large to hold exactly"@,
            TimingError::ZeroTempo => "tempo of zero beats per minute"@,
        }
    }

    /// Renders the error for diagnostics.
    pub fn to_string(&self) -> (s: String)
        ensures
            s@ == self.message(),
    {
        match self {
            TimingError::EmptyTuplet => String::from_str("tuplet over a phrase without children"),
            TimingError::NonUniformChord => String::from_str(
                "chord with notes of different durations",
            ),
            TimingError::Overflow => String::from_str("duration too large to hold exactly"),
            TimingError::ZeroTempo => String::from_str("tempo of zero beats per minute"),
        }
    }
}

impl StructureError {
    /// What diagnostics print for the error.
    pub open spec fn message(self) -> Seq<char> {
        match self {
            StructureError::IndexOutOfRange => "insertion index out of range"@,
        }
    }

    /// Renders the error for diagnostics.
    pub fn to_string(&self) -> (s: String)
        ensures
            s@ == self.message(),
    {
        match self {
            StructureError::IndexOutOfRange => String::from_str("insertion index out of range"),
        }
    }
}

} // verus!
