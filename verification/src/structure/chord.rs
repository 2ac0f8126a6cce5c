//! Chords: notes that sound together.

use crate::context::id::IdRegistry;
use crate::context::tempo::Tempo;
use crate::error::{StructureError, TimingError};
use crate::model::{lemma_filter_push, lemma_views, views};
use crate::note::accidental::Accidental;
use crate::note::duration::Duration;
use crate::note::note::{lemma_note_beats_are_exact, Note, NoteView, scale};
use crate::note::pitch::Pitch;
use crate::temporal::fraction::{Fraction, lemma_ratio_whole};
use vstd::prelude::*;

verus! {

/// Notes that sound together. All of them are meant to have the same
/// nominal duration; the duration engine refuses a chord where they do not.
#[derive(Debug)]
pub struct Chord {
    pub(crate) id: usize,
    pub(crate) notes: Vec<Note>,
}

/// What a chord is, as plain data.
pub struct ChordView {
    pub id: usize,
    pub notes: Seq<NoteView>,
}

impl View for Chord {
    type V = ChordView;

    open(crate) spec fn view(&self) -> ChordView {
        ChordView { id: self.id, notes: views(self.notes@) }
    }
}

/// The first note with the given identifier, from position `from` on.
pub open spec fn find_note_among(notes: Seq<NoteView>, id: usize, from: int) -> Option<NoteView>
    decreases notes.len() - from,
{
    if from < 0 || from >= notes.len() {
        None
    } else if notes[from].id == id {
        Some(notes[from])
    } else {
        find_note_among(notes, id, from + 1)
    }
}

impl ChordView {
    /// Whether all notes of the chord have the same nominal duration.
    pub open spec fn uniform(self) -> bool {
        forall|i: int|
            0 <= i < self.notes.len() ==> (#[trigger] self.notes[i]).duration
                == self.notes[0].duration
    }

    /// The length of the chord in beats of `base` under the tuplet factor
    /// `ratio`: that of its notes, and nothing where it has none.
    pub open spec fn exact_beats(self, base: Duration, ratio: real) -> real {
        if self.notes.len() == 0 {
            0real
        } else {
            self.notes[0].exact_beats(base, ratio)
        }
    }

    /// The length of the chord in beats as a fraction, or the reason why
    /// there is none.
    pub open spec fn beats(self, base: Duration, ratio: Option<Fraction>) -> Result<
        Fraction,
        TimingError,
    > {
        if !self.uniform() {
            Err(TimingError::NonUniformChord)
        } else if self.notes.len() == 0 {
            Ok(Fraction::spec_zero())
        } else {
            self.notes[0].beats(base, ratio)
        }
    }

    /// The first note of the chord with the given identifier.
    pub open spec fn find_note(self, id: usize) -> Option<NoteView> {
        find_note_among(self.notes, id, 0)
    }

    /// The chord without the notes that have the given identifier.
    pub open spec fn without(self, id: usize) -> ChordView {
        ChordView { id: self.id, notes: self.notes.filter(|n: NoteView| n.id != id) }
    }

    /// The chord with one more note at position `at`.
    pub open spec fn with_note(self, at: int, note: NoteView) -> ChordView {
        ChordView { id: self.id, notes: self.notes.insert(at, note) }
    }

    /// Whether the chord, one of its notes or one of their modifications has
    /// the identifier.
    pub open spec fn has_id(self, id: usize) -> bool {
        self.id == id || exists|i: int| 0 <= i < self.notes.len()
            && (#[trigger] self.notes[i]).has_id(id)
    }

    /// Whether every identifier in the chord lies below the bound.
    pub open spec fn below(self, bound: int) -> bool {
        forall|id: usize| #[trigger] self.has_id(id) ==> id < bound
    }
}

/// The fraction that the engine computes for a chord is its exact length.
pub proof fn lemma_chord_beats_are_exact(chord: ChordView, base: Duration, ratio: Option<Fraction>)
    requires
        ratio is Some ==> ratio.unwrap().well_formed(),
    ensures
        chord.beats(base, ratio) is Ok ==> chord.beats(base, ratio).unwrap().well_formed()
            && chord.beats(base, ratio).unwrap().value() == chord.exact_beats(base, scale(ratio)),
{
    if chord.notes.len() > 0 {
        lemma_note_beats_are_exact(chord.notes[0], base, ratio);
    } else {
        lemma_ratio_whole(0);
    }
}

/// A search finds nothing under an identifier that the notes do not have.
pub proof fn lemma_find_note_among_none(notes: Seq<NoteView>, id: usize, from: int)
    requires
        from >= 0,
        forall|i: int| from <= i < notes.len() ==> (#[trigger] notes[i]).id != id,
    ensures
        find_note_among(notes, id, from) is None,
    decreases notes.len() - from,
{
    if from < notes.len() {
        lemma_find_note_among_none(notes, id, from + 1);
    }
}

/// A search finds the first note that has the identifier.
pub proof fn lemma_find_note_among_first(notes: Seq<NoteView>, id: usize, from: int, at: int)
    requires
        0 <= from <= at < notes.len(),
        notes[at].id == id,
        forall|i: int| from <= i < at ==> (#[trigger] notes[i]).id != id,
    ensures
        find_note_among(notes, id, from) == Some(notes[at]),
    decreases at - from,
{
    if from < at {
        lemma_find_note_among_first(notes, id, from + 1, at);
    }
}

/// A note that is put into a chord under an identifier that the chord does
/// not hold yet is the one that a lookup of that identifier returns.
pub proof fn lemma_chord_finds_new_note(chord: ChordView, at: int, note: NoteView)
    requires
        0 <= at <= chord.notes.len(),
        !chord.has_id(note.id),
    ensures
        chord.with_note(at, note).find_note(note.id) == Some(note),
{
    let notes = chord.with_note(at, note).notes;
    assert forall|i: int| 0 <= i < at implies (#[trigger] notes[i]).id != note.id by {
        assert(chord.notes[i].has_id(notes[i].id));
    }
    lemma_find_note_among_first(notes, note.id, 0, at);
}

/// After the notes with an identifier have been taken out of a chord, a
/// lookup of that identifier finds nothing.
pub proof fn lemma_chord_without_forgets(chord: ChordView, id: usize)
    ensures
        chord.without(id).find_note(id) is None,
{
    let keep = |n: NoteView| n.id != id;
    let rest = chord.notes.filter(keep);
    assert forall|i: int| 0 <= i < rest.len() implies (#[trigger] rest[i]).id != id by {
        chord.notes.lemma_filter_pred(keep, i);
    }
    lemma_find_note_among_none(rest, id, 0);
}

impl Chord {
    /// An empty chord with the next identifier of the registry.
    pub fn new(registry: &mut IdRegistry) -> (r: Self)
        requires
            old(registry).spec_remaining() > 0,
        ensures
            r@ == (ChordView { id: old(registry).next_id(), notes: Seq::empty() }),
            *final(registry) == old(registry).after(1),
            final(registry).next_id() == old(registry).next_id() + 1,
    {
        let r = Chord { id: registry.generate_id(), notes: Vec::new() };
        proof {
            assert(r@.notes =~= Seq::empty());
        }
        r
    }

    pub fn get_id(&self) -> (r: usize)
        ensures
            r == self@.id,
    {
        self.id
    }

    /// The number of notes in the chord.
    pub fn len(&self) -> (r: usize)
        ensures
            r == self@.notes.len(),
    {
        self.notes.len()
    }

    /// Puts a new note at the end of the chord and returns its identifier.
    pub fn add_note(
        &mut self,
        registry: &mut IdRegistry,
        pitch: Pitch,
        duration: Duration,
        accidental: Option<Accidental>,
    ) -> (id: usize)
        requires
            old(registry).spec_remaining() > 0,
        ensures
            id == old(registry).next_id(),
            *final(registry) == old(registry).after(1),
            final(registry).next_id() == old(registry).next_id() + 1,
            final(self)@ == old(self)@.with_note(
                old(self)@.notes.len() as int,
                NoteView {
                    id,
                    pitch,
                    duration,
                    accidental: match accidental {
                        Some(a) => a,
                        None => Accidental::Unmarked,
                    },
                    modifications: Seq::empty(),
                },
            ),
            old(self)@.below(old(registry).next_id() as int) ==> final(self)@.below(
                final(registry).next_id() as int,
            ),
    {
        proof {
            let item = NoteView {
                id: registry.next_id(),
                pitch,
                duration,
                accidental: match accidental {
                Some(a) => a,
                None => Accidental::Unmarked,
            },
                modifications: Seq::empty(),
            };
            if self@.below(registry.next_id() as int) {
                crate::laws::lemma_chord_stays_below(
                    self@,
                    self@.notes.len() as int,
                    item,
                    registry.next_id() + 1,
                );
            }
        }
        let note = Note::new(registry, pitch, duration, accidental);
        let id = note.get_id();
        proof {
            lemma_views(self.notes@, self.notes@.len() as int, note);
            assert(self@.notes.push(note@) =~= self@.notes.insert(self@.notes.len() as int, note@));
        }
        self.notes.push(note);
        id
    }

    /// Puts a new note at position `index` and returns its identifier, or
    /// changes nothing where the position lies beyond the end.
    pub fn insert_note(
        &mut self,
        registry: &mut IdRegistry,
        index: usize,
        pitch: Pitch,
        duration: Duration,
        accidental: Option<Accidental>,
    ) -> (r: Result<usize, StructureError>)
        requires
            old(registry).spec_remaining() > 0,
        ensures
            match r {
                Ok(id) => {
                    &&& index <= old(self)@.notes.len()
                    &&& id == old(registry).next_id()
                    &&& *final(registry) == old(registry).after(1)
                    &&& final(registry).next_id() == old(registry).next_id() + 1
                    &&& final(self)@ == old(self)@.with_note(
                        index as int,
                        NoteView {
                            id,
                            pitch,
                            duration,
                            accidental: match accidental {
                                Some(a) => a,
                                None => Accidental::Unmarked,
                            },
                            modifications: Seq::empty(),
                        },
                    )
                },
                Err(e) => {
                    &&& e == StructureError::IndexOutOfRange
                    &&& index > old(self)@.notes.len()
                    &&& *final(registry) == *old(registry)
                    &&& final(self)@ == old(self)@
                },
            },
            old(self)@.below(old(registry).next_id() as int) ==> final(self)@.below(
                final(registry).next_id() as int,
            ),
    {
        proof {
            let item = NoteView {
                id: registry.next_id(),
                pitch,
                duration,
                accidental: match accidental {
                Some(a) => a,
                None => Accidental::Unmarked,
            },
                modifications: Seq::empty(),
            };
            if self@.below(registry.next_id() as int) && index <= self@.notes.len() {
                crate::laws::lemma_chord_stays_below(
                    self@,
                    index as int,
                    item,
                    registry.next_id() + 1,
                );
            }
        }
        if index > self.notes.len() {
            return Err(StructureError::IndexOutOfRange);
        }
        let note = Note::new(registry, pitch, duration, accidental);
        let id = note.get_id();
        proof {
            lemma_views(self.notes@, index as int, note);
        }
        self.notes.insert(index, note);
        Ok(id)
    }

    /// The first note of the chord with the given identifier.
    pub fn get_note(&self, id: usize) -> (r: Option<&Note>)
        ensures
            match r {
                Some(note) => Some(note@) == self@.find_note(id),
                None => self@.find_note(id) is None,
            },
    {
        let mut i: usize = 0;
        while i < self.notes.len()
            invariant
                i <= self.notes.len(),
                self@.find_note(id) == find_note_among(self@.notes, id, i as int),
            decreases self.notes.len() - i,
        {
            if self.notes[i].id == id {
                return Some(&self.notes[i]);
            }
            i += 1;
        }
        None
    }

    /// Takes every note with the given identifier out of the chord.
    pub fn remove_item(&mut self, id: usize)
        ensures
            final(self)@ == old(self)@.without(id),
    {
        let ghost keep = |n: NoteView| n.id != id;
        let ghost before = old(self)@.notes;
        let mut i: usize = 0;
        let ghost mut done: int = 0;
        while i < self.notes.len()
            invariant
                0 <= done <= before.len(),
                i <= self.notes.len(),
                self.notes.len() - i == before.len() - done,
                self@.notes.take(i as int) == before.take(done).filter(keep),
                self@.notes.skip(i as int) == before.skip(done),
                self@.id == old(self)@.id,
                before == old(self)@.notes,
                keep == |n: NoteView| n.id != id,
            decreases self.notes.len() - i,
        {
            proof {
                assert(self@.notes[i as int] == self@.notes.skip(i as int)[0]);
                assert(before.take(done + 1) == before.take(done).push(before[done]));
                lemma_filter_push(before.take(done), before[done], keep);
            }
            if self.notes[i].id == id {
                let ghost earlier = self@.notes;
                proof {
                    lemma_views(self.notes@, i as int, self.notes@[0]);
                }
                self.notes.remove(i);
                proof {
                    assert(self@.notes.take(i as int) == earlier.take(i as int));
                    assert(self@.notes.skip(i as int) == earlier.skip(i as int).skip(1));
                    assert(before.skip(done).skip(1) == before.skip(done + 1));
                }
            } else {
                proof {
                    assert(self@.notes.take(i + 1) == self@.notes.take(i as int).push(
                        self@.notes[i as int],
                    ));
                    assert(self@.notes.skip(i as int).skip(1) == self@.notes.skip(i + 1));
                    assert(before.skip(done).skip(1) == before.skip(done + 1));
                }
                i += 1;
            }
            proof {
                done = done + 1;
            }
        }
        proof {
            assert(self@.notes.take(i as int) == self@.notes);
            assert(before.take(done) == before);
        }
    }

    /// The length of the chord in beats of `base`, scaled by the tuplet
    /// ratio where one is in force.
    pub fn get_beats(&self, base: &Duration, tuplet_ratio: Option<Fraction>) -> (r: Result<
        Fraction,
        TimingError,
    >)
        ensures
            r == self@.beats(*base, tuplet_ratio),
            r is Ok ==> r.unwrap().value() == self@.exact_beats(*base, scale(tuplet_ratio)),
    {
        proof {
            if let Some(ratio) = tuplet_ratio {
                use_type_invariant(ratio);
            }
            lemma_chord_beats_are_exact(self@, *base, tuplet_ratio);
        }
        if self.notes.len() == 0 {
            return Ok(Fraction::zero());
        }
        let first = self.notes[0].duration;
        let mut i: usize = 1;
        while i < self.notes.len()
            invariant
                1 <= i <= self.notes.len(),
                first == self@.notes[0].duration,
                forall|j: int| 0 <= j < i ==> (#[trigger] self@.notes[j]).duration == first,
            decreases self.notes.len() - i,
        {
            if self.notes[i].duration != first {
                assert(self@.notes[i as int].duration != self@.notes[0].duration);
                return Err(TimingError::NonUniformChord);
            }
            i += 1;
        }
        self.notes[0].get_beats(base, tuplet_ratio)
    }

    /// The length of the chord in beats of the tempo.
    pub fn get_duration(&self, tempo: &Tempo, tuplet_ratio: Option<Fraction>) -> (r: Result<
        Fraction,
        TimingError,
    >)
        ensures
            r == self@.beats(tempo.base_note, tuplet_ratio),
            r is Ok ==> r.unwrap().value() == self@.exact_beats(
                tempo.base_note,
                scale(tuplet_ratio),
            ),
    {
        self.get_beats(&tempo.base_note, tuplet_ratio)
    }

    /// The notes of the chord, in order.
    pub fn iter(&self) -> (r: &[Note])
        ensures
            views(r@) == self@.notes,
    {
        self.notes.as_slice()
    }
}

impl Clone for Chord {
    fn clone(&self) -> (r: Self)
        ensures
            r@ == self@,
    {
        let mut notes: Vec<Note> = Vec::new();
        let mut i: usize = 0;
        while i < self.notes.len()
            invariant
                i <= self.notes.len(),
                views(notes@) == self@.notes.take(i as int),
            decreases self.notes.len() - i,
        {
            let note = self.notes[i].clone();
            proof {
                lemma_views(notes@, 0, note);
                assert(self@.notes.take(i + 1) == self@.notes.take(i as int).push(
                    self@.notes[i as int],
                ));
            }
            notes.push(note);
            i += 1;
        }
        proof {
            assert(self@.notes.take(i as int) == self@.notes);
        }
        Chord { id: self.id, notes }
    }
}

} // verus!
