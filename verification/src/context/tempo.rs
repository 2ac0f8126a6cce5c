//! Tempo and time signature.

use crate::note::duration::{Duration, DurationType};
use vstd::prelude::*;

verus! {

/// A tempo: how many of its base note pass in a minute.
#[derive(Copy, Clone, Debug, PartialEq, Eq, Structural, Hash)]
pub struct Tempo {
    pub base_note: Duration,
    pub beats_per_minute: u16,
}

impl Default for Tempo {
    fn default() -> (r: Self)
        ensures
            r == Tempo::usual(),
    {
        Tempo { base_note: Duration { value: DurationType::Quarter, dots: 0 }, beats_per_minute: 120 }
    }
}

impl Tempo {
    /// The usual tempo: 120 quarter notes to the minute.
    pub open spec fn usual() -> Tempo {
        Tempo { base_note: Duration { value: DurationType::Quarter, dots: 0 }, beats_per_minute: 120 }
    }

    #[must_use]
    pub fn new(base_note: Duration, beats_per_minute: u16) -> (r: Self)
        ensures
            r == (Tempo { base_note, beats_per_minute }),
    {
        Tempo { base_note, beats_per_minute }
    }
}

/// A time signature: so many beats of such a note to the bar.
#[derive(Copy, Clone, Debug, PartialEq, Eq, Structural, Hash)]
pub struct TimeSignature {
    pub numerator: u8,
    pub denominator: u8,
}

impl Default for TimeSignature {
    fn default() -> (r: Self)
        ensures
            r == TimeSignature::usual(),
    {
        TimeSignature { numerator: 4, denominator: 4 }
    }
}

impl TimeSignature {
    /// The usual time signature: four quarters to the bar.
    pub open spec fn usual() -> TimeSignature {
        TimeSignature { numerator: 4, denominator: 4 }
    }

    #[must_use]
    pub fn new(numerator: u8, denominator: u8) -> (r: Self)
        ensures
            r == (TimeSignature { numerator, denominator }),
    {
        TimeSignature { numerator, denominator }
    }
}

} // verus!
