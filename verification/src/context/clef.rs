//! Clefs.

use vstd::prelude::*;
use vstd::string::StringExecFns;

verus! {

/// The family of symbol that a clef is drawn with.
#[derive(Copy, Clone, Debug, PartialEq, Eq, Structural, Hash)]
pub enum ClefType {
    GClef,
    CClef,
    FClef,
}

impl Default for ClefType {
    fn default() -> (r: Self)
        ensures
            r == ClefType::GClef,
    {
        ClefType::GClef
    }
}

/// A clef. A baritone clef may be drawn with either of two symbols, so it
/// carries its own.
#[derive(Copy, Clone, Debug, PartialEq, Eq, Structural, Hash)]
pub enum Clef {
    Treble,
    Bass,
    FrenchViolin,
    Subbass,
    Tenor,
    Alto,
    Soprano,
    MezzoSoprano,
    Baritone(ClefType),
}

impl Default for Clef {
    fn default() -> (r: Self)
        ensures
            r == Clef::Treble,
    {
        Clef::Treble
    }
}

impl Clef {
    /// The symbol family of each clef.
    pub open spec fn symbol_family(self) -> ClefType {
        match self {
            Clef::Treble | Clef::FrenchViolin => ClefType::GClef,
            Clef::Bass | Clef::Subbass => ClefType::FClef,
            Clef::Tenor | Clef::Alto | Clef::Soprano | Clef::MezzoSoprano => ClefType::CClef,
            Clef::Baritone(clef_type) => clef_type,
        }
    }

    /// The name of each clef, as diagnostics print it.
    pub open spec fn name(self) -> Seq<char> {
        match self {
            Clef::Treble => "Treble"@,
            Clef::Bass => "Bass"@,
            Clef::FrenchViolin => "French Violin"@,
            Clef::Subbass => "Subbass"@,
            Clef::Tenor => "Tenor"@,
            Clef::Alto => "Alto"@,
            Clef::Soprano => "Soprano"@,
            Clef::MezzoSoprano => "Mezzo Soprano"@,
            Clef::Baritone(ClefType::GClef) => "Baritone (G-Clef)"@,
            Clef::Baritone(ClefType::CClef) => "Baritone (C-Clef)"@,
            Clef::Baritone(ClefType::FClef) => "Baritone (F-Clef)"@,
        }
    }

    #[must_use]
    pub fn clef_type(&self) -> (r: ClefType)
        ensures
            r == self.symbol_family(),
    {
        match self {
            Clef::Treble | Clef::FrenchViolin => ClefType::GClef,
            Clef::Bass | Clef::Subbass => ClefType::FClef,
            Clef::Tenor | Clef::Alto | Clef::Soprano | Clef::MezzoSoprano => ClefType::CClef,
            Clef::Baritone(clef_type) => *clef_type,
        }
    }

    /// Renders the clef for diagnostics.
    pub fn to_string(&self) -> (s: String)
        ensures
            s@ == self.name(),
    {
        match self {
            Clef::Treble => String::from_str("Treble"),
            Clef::Bass => String::from_str("Bass"),
            Clef::FrenchViolin => String::from_str("French Violin"),
            Clef::Subbass => String::from_str("Subbass"),
            Clef::Tenor => String::from_str("Tenor"),
            Clef::Alto => String::from_str("Alto"),
            Clef::Soprano => String::from_str("Soprano"),
            Clef::MezzoSoprano => String::from_str("Mezzo Soprano"),
            Clef::Baritone(clef_type) => match clef_type {
                ClefType::GClef => String::from_str("Baritone (G-Clef)"),
                ClefType::CClef => String::from_str("Baritone (C-Clef)"),
                ClefType::FClef => String::from_str("Baritone (F-Clef)"),
            },
        }
    }
}

} // verus!
