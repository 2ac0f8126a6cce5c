//! Notes and rests.

use crate::context::id::IdRegistry;
use crate::context::tempo::Tempo;
use crate::error::TimingError;
use crate::modification::{
    discard_note_modification, find_note_modification, lookup_note_modification, NoteModification,
    NoteModificationType,
};
use crate::note::accidental::Accidental;
use crate::note::duration::{Duration, lemma_beats_are_exact};
use crate::note::pitch::Pitch;
use crate::temporal::fraction::{Fraction, lemma_fraction_arithmetic};
use vstd::prelude::*;

verus! {

/// A note or a rest: the leaf of the document tree.
#[derive(Debug)]
pub struct Note {
    pub(crate) id: usize,
    pub pitch: Pitch,
    pub duration: Duration,
    pub accidental: Accidental,
    pub(crate) modifications: Vec<NoteModification>,
}

/// What a note is, as plain data.
pub struct NoteView {
    pub id: usize,
    pub pitch: Pitch,
    pub duration: Duration,
    pub accidental: Accidental,
    pub modifications: Seq<NoteModification>,
}

impl View for Note {
    type V = NoteView;

    open(crate) spec fn view(&self) -> NoteView {
        NoteView {
            id: self.id,
            pitch: self.pitch,
            duration: self.duration,
            accidental: self.accidental,
            modifications: self.modifications@,
        }
    }
}

/// The factor that a tuplet ratio stands for: one where there is none.
pub open spec fn scale(ratio: Option<Fraction>) -> real {
    match ratio {
        Some(r) => r.value(),
        None => 1real,
    }
}

impl NoteView {
    /// The length of the note in beats of `base` under the tuplet factor
    /// `ratio`: its nominal length times the factor.
    pub open spec fn exact_beats(self, base: Duration, ratio: real) -> real {
        self.duration.exact_beats(base) * ratio
    }

    /// The length of the note in beats as a fraction, or the overflow that
    /// kept it from being computed.
    pub open spec fn beats(self, base: Duration, ratio: Option<Fraction>) -> Result<
        Fraction,
        TimingError,
    > {
        match self.duration.spec_beats(base) {
            None => Err(TimingError::Overflow),
            Some(nominal) => match ratio {
                None => Ok(nominal),
                Some(r) => match nominal.spec_mul(r) {
                    None => Err(TimingError::Overflow),
                    Some(scaled) => Ok(scaled),
                },
            },
        }
    }

    /// The first modification of the note with the given identifier.
    pub open spec fn find_modification(self, id: usize) -> Option<NoteModification> {
        find_note_modification(self.modifications, id, 0)
    }

    /// Whether the note or one of its modifications has the identifier.
    pub open spec fn has_id(self, id: usize) -> bool {
        self.id == id || exists|i: int|
            0 <= i < self.modifications.len() && (#[trigger] self.modifications[i]).spec_id() == id
    }

    /// Whether every identifier in the note lies below the bound.
    pub open spec fn below(self, bound: int) -> bool {
        forall|id: usize| #[trigger] self.has_id(id) ==> id < bound
    }
}

/// The fraction that the engine computes for a note is its exact length.
pub proof fn lemma_note_beats_are_exact(note: NoteView, base: Duration, ratio: Option<Fraction>)
    requires
        ratio is Some ==> ratio.unwrap().well_formed(),
    ensures
        note.beats(base, ratio) is Ok ==> note.beats(base, ratio).unwrap().well_formed()
            && note.beats(base, ratio).unwrap().value() == note.exact_beats(base, scale(ratio)),
{
    lemma_beats_are_exact(note.duration, base);
    if note.beats(base, ratio) is Ok {
        let nominal = note.duration.spec_beats(base).unwrap();
        match ratio {
            None => {
                let x = nominal.value();
                assert(x * 1real == x) by (nonlinear_arith);
            },
            Some(r) => {
                lemma_fraction_arithmetic(nominal, r);
            },
        }
    }
}

impl Note {
    /// The identifier of the note.
    pub open(crate) spec fn spec_id(&self) -> usize {
        self.id
    }

    /// A note with the next identifier of the registry; without an
    /// accidental where none is given.
    pub fn new(
        registry: &mut IdRegistry,
        pitch: Pitch,
        duration: Duration,
        accidental: Option<Accidental>,
    ) -> (r: Self)
        requires
            old(registry).spec_remaining() > 0,
        ensures
            r@ == (NoteView {
                id: old(registry).next_id(),
                pitch,
                duration,
                accidental: match accidental {
                    Some(a) => a,
                    None => Accidental::Unmarked,
                },
                modifications: Seq::empty(),
            }),
            *final(registry) == old(registry).after(1),
            final(registry).next_id() == old(registry).next_id() + 1,
    {
        Note {
            id: registry.generate_id(),
            pitch,
            duration,
            accidental: match accidental {
                Some(a) => a,
                None => Accidental::Unmarked,
            },
            modifications: Vec::new(),
        }
    }

    pub fn get_id(&self) -> (r: usize)
        ensures
            r == self@.id,
    {
        self.id
    }

    pub fn is_rest(&self) -> (r: bool)
        ensures
            r == (self@.pitch.name == crate::note::pitch::PitchName::Rest),
    {
        self.pitch.is_rest()
    }

    /// The length of the note in beats of `base`, scaled by the tuplet ratio
    /// where one is in force.
    pub fn get_beats(&self, base: &Duration, tuplet_ratio: Option<Fraction>) -> (r: Result<
        Fraction,
        TimingError,
    >)
        ensures
            r == self@.beats(*base, tuplet_ratio),
            r is Ok ==> r.unwrap().value() == self@.exact_beats(*base, scale(tuplet_ratio)),
    {
        proof {
            if let Some(ratio) = tuplet_ratio {
                use_type_invariant(ratio);
            }
            lemma_note_beats_are_exact(self@, *base, tuplet_ratio);
        }
        match self.duration.beats(base) {
            None => Err(TimingError::Overflow),
            Some(nominal) => match tuplet_ratio {
                None => Ok(nominal),
                Some(ratio) => match nominal.checked_mul(&ratio) {
                    None => Err(TimingError::Overflow),
                    Some(scaled) => Ok(scaled),
                },
            },
        }
    }

    /// The length of the note in beats of the tempo.
    pub fn get_duration(&self, tempo: &Tempo, tuplet_ratio: Option<Fraction>) -> (r: Result<
        Fraction,
        TimingError,
    >)
        ensures
            r == self@.beats(tempo.base_note, tuplet_ratio),
            r is Ok ==> r.unwrap().value()
                == self@.exact_beats(tempo.base_note, scale(tuplet_ratio)),
    {
        self.get_beats(&tempo.base_note, tuplet_ratio)
    }

    /// Attaches a modification and returns its identifier.
    pub fn add_modification(&mut self, registry: &mut IdRegistry, modification: NoteModificationType) -> (id: usize)
        requires
            old(registry).spec_remaining() > 0,
        ensures
            id == old(registry).next_id(),
            *final(registry) == old(registry).after(1),
            final(registry).next_id() == old(registry).next_id() + 1,
            final(self)@ == (NoteView {
                modifications: old(self)@.modifications.push(NoteModification::made(id, modification)),
                ..old(self)@
            }),
            old(self)@.below(old(registry).next_id() as int) ==> final(self)@.below(
                final(registry).next_id() as int,
            ),
    {
        proof {
            if self@.below(registry.next_id() as int) {
                crate::laws::lemma_note_stays_below(
                    self@,
                    NoteModification::made(registry.next_id(), modification),
                    registry.next_id() + 1,
                );
            }
        }
        let item = NoteModification::new(registry, modification);
        let id = item.get_id();
        self.modifications.push(item);
        id
    }

    /// The first modification with the given identifier.
    pub fn get_modification(&self, id: usize) -> (r: Option<&NoteModification>)
        ensures
            match r {
                Some(m) => Some(*m) == self@.find_modification(id),
                None => self@.find_modification(id) is None,
            },
    {
        lookup_note_modification(&self.modifications, id)
    }

    /// Detaches every modification with the given identifier.
    pub fn remove_modification(&mut self, id: usize)
        ensures
            final(self)@ == old(self)@.without_modification(id),
    {
        discard_note_modification(&mut self.modifications, id);
    }
}

impl Clone for Note {
    fn clone(&self) -> (r: Self)
        ensures
            r@ == self@,
    {
        let mut modifications: Vec<NoteModification> = Vec::new();
        let mut i: usize = 0;
        while i < self.modifications.len()
            invariant
                i <= self.modifications.len(),
                modifications@ == self.modifications@.take(i as int),
            decreases self.modifications.len() - i,
        {
            modifications.push(self.modifications[i]);
            proof {
                assert(self.modifications@.take(i + 1) == self.modifications@.take(i as int).push(
                    self.modifications@[i as int],
                ));
            }
            i += 1;
        }
        proof {
            assert(self.modifications@.take(i as int) == self.modifications@);
        }
        Note {
            id: self.id,
            pitch: self.pitch,
            duration: self.duration,
            accidental: self.accidental,
            modifications,
        }
    }
}

} // verus!
