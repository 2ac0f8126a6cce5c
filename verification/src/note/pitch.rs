//! Pitches.

use vstd::prelude::*;

verus! {

/// The letter of a pitch, or a rest.
#[derive(Copy, Clone, Debug, PartialEq, Eq, Structural, Hash)]
pub enum PitchName {
    Rest,
    A,
    B,
    C,
    D,
    E,
    F,
    G,
}

/// A pitch: a letter and an octave. A rest has no octave to speak of.
#[derive(Copy, Clone, Debug, PartialEq, Eq, Structural, Hash)]
pub struct Pitch {
    pub name: PitchName,
    pub octave: u8,
}

impl Pitch {
    /// The place of the letter in a key signature's table of accidentals:
    /// zero for a rest, one to seven for A to G.
    pub open spec fn letter(self) -> int {
        match self.name {
            PitchName::Rest => 0,
            PitchName::A => 1,
            PitchName::B => 2,
            PitchName::C => 3,
            PitchName::D => 4,
            PitchName::E => 5,
            PitchName::F => 6,
            PitchName::G => 7,
        }
    }

    #[must_use]
    pub fn new(name: PitchName, octave: u8) -> (r: Self)
        ensures
            r == (Pitch { name, octave }),
    {
        Pitch { name, octave }
    }

    /// The pitch of a rest.
    #[must_use]
    pub fn new_rest() -> (r: Self)
        ensures
            r == (Pitch { name: PitchName::Rest, octave: 0 }),
    {
        Pitch { name: PitchName::Rest, octave: 0 }
    }

    #[must_use]
    pub fn is_rest(&self) -> (r: bool)
        ensures
            r == (self.name == PitchName::Rest),
    {
        self.name == PitchName::Rest
    }

    /// The index of the pitch in the table that `Key::accidentals` returns.
    #[must_use]
    pub fn letter_index(&self) -> (r: usize)
        ensures
            r == self.letter(),
            r < 8,
    {
        match self.name {
            PitchName::Rest => 0,
            PitchName::A => 1,
            PitchName::B => 2,
            PitchName::C => 3,
            PitchName::D => 4,
            PitchName::E => 5,
            PitchName::F => 6,
            PitchName::G => 7,
        }
    }
}

} // verus!
