//! Keys and their signatures on the circle of fifths.

use crate::note::Accidental;
use vstd::prelude::*;
use vstd::string::StringExecFns;

verus! {

/// Whether a key is major or minor.
#[derive(Copy, Clone, Debug, PartialEq, Eq, Structural, Hash)]
pub enum KeyMode {
    Major,
    Minor,
}

impl Default for KeyMode {
    fn default() -> (r: Self)
        ensures
            r == KeyMode::Major,
    {
        KeyMode::Major
    }
}

/// The tonic of a key.
#[derive(Copy, Clone, Debug, PartialEq, Eq, Structural, Hash)]
pub enum KeySignature {
    A,
    ASharp,
    AFlat,
    B,
    BFlat,
    C,
    CSharp,
    CFlat,
    D,
    DSharp,
    DFlat,
    E,
    EFlat,
    F,
    FSharp,
    G,
    GSharp,
    GFlat,
}

impl Default for KeySignature {
    fn default() -> (r: Self)
        ensures
            r == KeySignature::C,
    {
        KeySignature::C
    }
}

/// A key: a tonic and a mode.
#[derive(Copy, Clone, Debug, PartialEq, Eq, Structural, Hash)]
pub struct Key {
    pub mode: KeyMode,
    pub signature: KeySignature,
}

impl Default for Key {
    fn default() -> (r: Self)
        ensures
            r == Key::usual(),
    {
        Key { mode: KeyMode::Major, signature: KeySignature::C }
    }
}

impl KeyMode {
    /// The other mode.
    pub open spec fn opposite(self) -> KeyMode {
        match self {
            KeyMode::Major => KeyMode::Minor,
            KeyMode::Minor => KeyMode::Major,
        }
    }

    /// The name of the mode, as diagnostics print it.
    pub open spec fn name(self) -> Seq<char> {
        match self {
            KeyMode::Major => "Major"@,
            KeyMode::Minor => "Minor"@,
        }
    }

    /// Renders the mode for diagnostics.
    pub fn to_string(&self) -> (s: String)
        ensures
            s@ == self.name(),
    {
        match self {
            KeyMode::Major => String::from_str("Major"),
            KeyMode::Minor => String::from_str("Minor"),
        }
    }
}

impl KeySignature {
    /// The name of the tonic, as diagnostics print it.
    pub open spec fn name(self) -> Seq<char> {
        match self {
            KeySignature::A => "A"@,
            KeySignature::ASharp => "A♯"@,
            KeySignature::AFlat => "A♭"@,
            KeySignature::B => "B"@,
            KeySignature::BFlat => "B♭"@,
            KeySignature::C => "C"@,
            KeySignature::CSharp => "C♯"@,
            KeySignature::CFlat => "C♭"@,
            KeySignature::D => "D"@,
            KeySignature::DSharp => "D♯"@,
            KeySignature::DFlat => "D♭"@,
            KeySignature::E => "E"@,
            KeySignature::EFlat => "E♭"@,
            KeySignature::F => "F"@,
            KeySignature::FSharp => "F♯"@,
            KeySignature::G => "G"@,
            KeySignature::GSharp => "G♯"@,
            KeySignature::GFlat => "G♭"@,
        }
    }

    /// Renders the tonic for diagnostics.
    pub fn to_string(&self) -> (s: String)
        ensures
            s@ == self.name(),
    {
        match self {
            KeySignature::A => String::from_str("A"),
            KeySignature::ASharp => String::from_str("A♯"),
            KeySignature::AFlat => String::from_str("A♭"),
            KeySignature::B => String::from_str("B"),
            KeySignature::BFlat => String::from_str("B♭"),
            KeySignature::C => String::from_str("C"),
            KeySignature::CSharp => String::from_str("C♯"),
            KeySignature::CFlat => String::from_str("C♭"),
            KeySignature::D => String::from_str("D"),
            KeySignature::DSharp => String::from_str("D♯"),
            KeySignature::DFlat => String::from_str("D♭"),
            KeySignature::E => String::from_str("E"),
            KeySignature::EFlat => String::from_str("E♭"),
            KeySignature::F => String::from_str("F"),
            KeySignature::FSharp => String::from_str("F♯"),
            KeySignature::G => String::from_str("G"),
            KeySignature::GSharp => String::from_str("G♯"),
            KeySignature::GFlat => String::from_str("G♭"),
        }
    }
}

/// The tonic of the major key with the given number of sharps (positive) or
/// flats (negative). Outside the circle of fifths it is C.
pub open spec fn major_tonic(fifths: int) -> KeySignature {
    if fifths == -7 {
        KeySignature::CFlat
    } else if fifths == -6 {
        KeySignature::GFlat
    } else if fifths == -5 {
        KeySignature::DFlat
    } else if fifths == -4 {
        KeySignature::AFlat
    } else if fifths == -3 {
        KeySignature::EFlat
    } else if fifths == -2 {
        KeySignature::BFlat
    } else if fifths == -1 {
        KeySignature::F
    } else if fifths == 1 {
        KeySignature::G
    } else if fifths == 2 {
        KeySignature::D
    } else if fifths == 3 {
        KeySignature::A
    } else if fifths == 4 {
        KeySignature::E
    } else if fifths == 5 {
        KeySignature::B
    } else if fifths == 6 {
        KeySignature::FSharp
    } else if fifths == 7 {
        KeySignature::CSharp
    } else {
        KeySignature::C
    }
}

/// The tonic of the minor key with the given number of sharps (positive) or
/// flats (negative). Outside the circle of fifths it is C.
pub open spec fn minor_tonic(fifths: int) -> KeySignature {
    if fifths == -7 {
        KeySignature::AFlat
    } else if fifths == -6 {
        KeySignature::EFlat
    } else if fifths == -5 {
        KeySignature::BFlat
    } else if fifths == -4 {
        KeySignature::F
    } else if fifths == -2 {
        KeySignature::G
    } else if fifths == -1 {
        KeySignature::D
    } else if fifths == 0 {
        KeySignature::A
    } else if fifths == 1 {
        KeySignature::E
    } else if fifths == 2 {
        KeySignature::B
    } else if fifths == 3 {
        KeySignature::FSharp
    } else if fifths == 4 {
        KeySignature::CSharp
    } else if fifths == 5 {
        KeySignature::GSharp
    } else if fifths == 6 {
        KeySignature::DSharp
    } else if fifths == 7 {
        KeySignature::ASharp
    } else {
        KeySignature::C
    }
}

/// The tonic of the key with the given mode and number of fifths.
pub open spec fn tonic(fifths: int, mode: KeyMode) -> KeySignature {
    match mode {
        KeyMode::Major => major_tonic(fifths),
        KeyMode::Minor => minor_tonic(fifths),
    }
}

/// The place of a note letter in the order in which sharps are added to a
/// key signature (F, C, G, D, A, E, B), counted from one. Letters are numbered
/// from A = 1 to G = 7.
pub open spec fn sharp_rank(letter: int) -> int {
    (2 * letter + 2) % 7 + 1
}

/// The accidental that a key signature of the given fifths puts on a letter
/// (A = 1 to G = 7). Flats are added in the reverse order of the sharps.
/// Index zero stands for a rest and never has one.
pub open spec fn signature_accidental(fifths: int, letter: int) -> Accidental {
    if letter < 1 || letter > 7 {
        Accidental::Unmarked
    } else if fifths >= sharp_rank(letter) {
        Accidental::Sharp
    } else if fifths <= sharp_rank(letter) - 8 {
        Accidental::Flat
    } else {
        Accidental::Unmarked
    }
}

impl Key {
    /// The usual key: C major.
    pub open spec fn usual() -> Key {
        Key { mode: KeyMode::Major, signature: KeySignature::C }
    }

    /// The number of sharps (positive) or flats (negative) of the key. A
    /// tonic that has no key in this mode counts as C major.
    pub open spec fn spec_fifths(self) -> int {
        match (self.signature, self.mode) {
            (KeySignature::A, KeyMode::Major) => 3,
            (KeySignature::A, KeyMode::Minor) => 0,
            (KeySignature::ASharp, KeyMode::Minor) => 7,
            (KeySignature::AFlat, KeyMode::Major) => -4,
            (KeySignature::AFlat, KeyMode::Minor) => -7,
            (KeySignature::B, KeyMode::Major) => 5,
            (KeySignature::B, KeyMode::Minor) => 2,
            (KeySignature::BFlat, KeyMode::Major) => -2,
            (KeySignature::BFlat, KeyMode::Minor) => -5,
            (KeySignature::C, KeyMode::Minor) => -3,
            (KeySignature::CSharp, KeyMode::Major) => 7,
            (KeySignature::CSharp, KeyMode::Minor) => 4,
            (KeySignature::CFlat, KeyMode::Major) => -7,
            (KeySignature::D, KeyMode::Major) => 2,
            (KeySignature::D, KeyMode::Minor) => -1,
            (KeySignature::DSharp, KeyMode::Minor) => 6,
            (KeySignature::DFlat, KeyMode::Major) => -5,
            (KeySignature::E, KeyMode::Major) => 4,
            (KeySignature::E, KeyMode::Minor) => 1,
            (KeySignature::EFlat, KeyMode::Major) => -3,
            (KeySignature::EFlat, KeyMode::Minor) => -6,
            (KeySignature::F, KeyMode::Major) => -1,
            (KeySignature::F, KeyMode::Minor) => -4,
            (KeySignature::FSharp, KeyMode::Major) => 6,
            (KeySignature::FSharp, KeyMode::Minor) => 3,
            (KeySignature::G, KeyMode::Major) => 1,
            (KeySignature::G, KeyMode::Minor) => -2,
            (KeySignature::GSharp, KeyMode::Minor) => 5,
            (KeySignature::GFlat, KeyMode::Major) => -6,
            _ => 0,
        }
    }

    /// Whether the circle of fifths holds a key with this tonic and mode.
    pub open spec fn is_defined(self) -> bool {
        exists|fifths: int| -7 <= fifths <= 7 && self.signature
            == #[trigger] tonic(fifths, self.mode)
    }

    /// The key with the same tonic and the other mode.
    pub open spec fn parallel(self) -> Key {
        Key { mode: self.mode.opposite(), signature: self.signature }
    }

    /// The key with the same signature and the other mode.
    pub open spec fn relative(self) -> Key {
        Key { mode: self.mode.opposite(), signature: tonic(self.spec_fifths(), self.mode.opposite()) }
    }

    /// The name of the key: its tonic, and an `m` where it is minor.
    pub open spec fn name(self) -> Seq<char> {
        self.signature.name() + (match self.mode {
            KeyMode::Major => ""@,
            KeyMode::Minor => "m"@,
        })
    }

    #[must_use]
    pub fn new(signature: KeySignature, mode: KeyMode) -> (r: Self)
        ensures
            r == (Key { mode, signature }),
    {
        Self { signature, mode }
    }

    /// The key with the given number of fifths; major where no mode is given.
    #[must_use]
    pub fn from_fifths(fifths: i8, mode: Option<KeyMode>) -> (r: Self)
        ensures
            r.mode == (match mode {
                Some(m) => m,
                None => KeyMode::Major,
            }),
            r.signature == tonic(fifths as int, r.mode),
    {
        let mode = match mode {
            Some(m) => m,
            None => KeyMode::Major,
        };
        let signature = match mode {
            KeyMode::Major => match fifths {
                -7 => KeySignature::CFlat,
                -6 => KeySignature::GFlat,
                -5 => KeySignature::DFlat,
                -4 => KeySignature::AFlat,
                -3 => KeySignature::EFlat,
                -2 => KeySignature::BFlat,
                -1 => KeySignature::F,
                1 => KeySignature::G,
                2 => KeySignature::D,
                3 => KeySignature::A,
                4 => KeySignature::E,
                5 => KeySignature::B,
                6 => KeySignature::FSharp,
                7 => KeySignature::CSharp,
                _ => KeySignature::C,
            },
            KeyMode::Minor => match fifths {
                -7 => KeySignature::AFlat,
                -6 => KeySignature::EFlat,
                -5 => KeySignature::BFlat,
                -4 => KeySignature::F,
                -2 => KeySignature::G,
                -1 => KeySignature::D,
                0 => KeySignature::A,
                1 => KeySignature::E,
                2 => KeySignature::B,
                3 => KeySignature::FSharp,
                4 => KeySignature::CSharp,
                5 => KeySignature::GSharp,
                6 => KeySignature::DSharp,
                7 => KeySignature::ASharp,
                _ => KeySignature::C,
            },
        };
        Self { signature, mode }
    }

    #[must_use]
    pub fn fifths(&self) -> (r: i8)
        ensures
            r == self.spec_fifths(),
            -7 <= r <= 7,
    {
        match (self.signature, self.mode) {
            (KeySignature::A, KeyMode::Major) => 3,
            (KeySignature::A, KeyMode::Minor) => 0,
            (KeySignature::ASharp, KeyMode::Minor) => 7,
            (KeySignature::AFlat, KeyMode::Major) => -4,
            (KeySignature::AFlat, KeyMode::Minor) => -7,
            (KeySignature::B, KeyMode::Major) => 5,
            (KeySignature::B, KeyMode::Minor) => 2,
            (KeySignature::BFlat, KeyMode::Major) => -2,
            (KeySignature::BFlat, KeyMode::Minor) => -5,
            (KeySignature::C, KeyMode::Minor) => -3,
            (KeySignature::CSharp, KeyMode::Major) => 7,
            (KeySignature::CSharp, KeyMode::Minor) => 4,
            (KeySignature::CFlat, KeyMode::Major) => -7,
            (KeySignature::D, KeyMode::Major) => 2,
            (KeySignature::D, KeyMode::Minor) => -1,
            (KeySignature::DSharp, KeyMode::Minor) => 6,
            (KeySignature::DFlat, KeyMode::Major) => -5,
            (KeySignature::E, KeyMode::Major) => 4,
            (KeySignature::E, KeyMode::Minor) => 1,
            (KeySignature::EFlat, KeyMode::Major) => -3,
            (KeySignature::EFlat, KeyMode::Minor) => -6,
            (KeySignature::F, KeyMode::Major) => -1,
            (KeySignature::F, KeyMode::Minor) => -4,
            (KeySignature::FSharp, KeyMode::Major) => 6,
            (KeySignature::FSharp, KeyMode::Minor) => 3,
            (KeySignature::G, KeyMode::Major) => 1,
            (KeySignature::G, KeyMode::Minor) => -2,
            (KeySignature::GSharp, KeyMode::Minor) => 5,
            (KeySignature::GFlat, KeyMode::Major) => -6,
            _ => 0,
        }
    }

    #[must_use]
    pub fn to_parallel(&self) -> (r: Self)
        ensures
            r == self.parallel(),
    {
        Self {
            mode: if self.mode == KeyMode::Major {
                KeyMode::Minor
            } else {
                KeyMode::Major
            },
            signature: self.signature,
        }
    }

    #[must_use]
    pub fn to_relative(&self) -> (r: Self)
        ensures
            r == self.relative(),
    {
        let new_mode = if self.mode == KeyMode::Major {
            KeyMode::Minor
        } else {
            KeyMode::Major
        };
        Key::from_fifths(self.fifths(), Some(new_mode))
    }

    pub fn make_parallel(&mut self)
        ensures
            *final(self) == old(self).parallel(),
    {
        self.mode = if self.mode == KeyMode::Major {
            KeyMode::Minor
        } else {
            KeyMode::Major
        };
    }

    pub fn make_relative(&mut self)
        ensures
            *final(self) == old(self).relative(),
    {
        let new_mode = if self.mode == KeyMode::Major {
            KeyMode::Minor
        } else {
            KeyMode::Major
        };
        *self = Key::from_fifths(self.fifths(), Some(new_mode));
    }

    /// The accidental that the key signature puts on each note letter: entry
    /// zero is for a rest, entries one to seven for A to G.
    #[must_use]
    pub fn accidentals(self) -> (r: [Accidental; 8])
        ensures
            forall|letter: int|
                0 <= letter < 8 ==> #[trigger] r[letter] == signature_accidental(
                    self.spec_fifths(),
                    letter,
                ),
    {
        let fifths = self.fifths();
        [
            Accidental::Unmarked,
            if fifths <= -3 {
                Accidental::Flat
            } else if fifths >= 5 {
                Accidental::Sharp
            } else {
                Accidental::Unmarked
            },
            if fifths <= -1 {
                Accidental::Flat
            } else if fifths >= 7 {
                Accidental::Sharp
            } else {
                Accidental::Unmarked
            },
            if fifths <= -6 {
                Accidental::Flat
            } else if fifths >= 2 {
                Accidental::Sharp
            } else {
                Accidental::Unmarked
            },
            if fifths <= -4 {
                Accidental::Flat
            } else if fifths >= 4 {
                Accidental::Sharp
            } else {
                Accidental::Unmarked
            },
            if fifths <= -2 {
                Accidental::Flat
            } else if fifths >= 6 {
                Accidental::Sharp
            } else {
                Accidental::Unmarked
            },
            if fifths <= -7 {
                Accidental::Flat
            } else if fifths >= 1 {
                Accidental::Sharp
            } else {
                Accidental::Unmarked
            },
            if fifths <= -5 {
                Accidental::Flat
            } else if fifths >= 3 {
                Accidental::Sharp
            } else {
                Accidental::Unmarked
            },
        ]
    }

    /// Renders the key for diagnostics.
    pub fn to_string(&self) -> (s: String)
        ensures
            s@ == self.name(),
    {
        let mut s = self.signature.to_string();
        match self.mode {
            KeyMode::Major => s.append(""),
            KeyMode::Minor => s.append("m"),
        }
        s
    }
}

/// Every number of fifths on the circle comes back from the key that was
/// made from it, in either mode.
pub proof fn lemma_fifths_round_trip(fifths: int, mode: KeyMode)
    requires
        -7 <= fifths <= 7,
    ensures
        (Key { mode, signature: tonic(fifths, mode) }).spec_fifths() == fifths,
{
}

/// A key of the circle of fifths is the key made from its own fifths and mode.
pub proof fn lemma_key_round_trip(key: Key)
    requires
        key.is_defined(),
    ensures
        tonic(key.spec_fifths(), key.mode) == key.signature,
{
    let fifths = choose|fifths: int| -7 <= fifths <= 7 && key.signature
        == #[trigger] tonic(fifths, key.mode);
    lemma_fifths_round_trip(fifths, key.mode);
}

/// A key and its relative key have the same signature, and the relative of
/// the relative is the key itself, for every key of the circle of fifths.
pub proof fn lemma_relative_keeps_fifths(key: Key)
    requires
        key.is_defined(),
    ensures
        key.relative().spec_fifths() == key.spec_fifths(),
        key.relative().is_defined(),
        key.relative().relative() == key,
{
    let fifths = choose|fifths: int| -7 <= fifths <= 7 && key.signature
        == #[trigger] tonic(fifths, key.mode);
    lemma_fifths_round_trip(fifths, key.mode);
    lemma_fifths_round_trip(fifths, key.mode.opposite());
    assert(key.relative().signature == tonic(fifths, key.relative().mode));
}

/// The parallel of the parallel of a key is the key itself.
pub proof fn lemma_parallel_is_involution(key: Key)
    ensures
        key.parallel().parallel() == key,
{
}

/// A key signature never puts a sharp on one letter and a flat on another.
pub proof fn lemma_signature_has_one_kind(fifths: int, first: int, second: int)
    requires
        -7 <= fifths <= 7,
    ensures
        !(signature_accidental(fifths, first) == Accidental::Sharp && signature_accidental(
            fifths,
            second,
        ) == Accidental::Flat),
{
}

} // verus!
