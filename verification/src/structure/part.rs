//! Parts: named groups of staves that sound together.

use crate::context::id::IdRegistry;
use crate::context::tempo::Tempo;
use crate::error::TimingError;
use crate::model::{first_some, lemma_views, pruned, total, views};
use crate::note::duration::Duration;
use crate::note::note::{Note, NoteView};
use crate::structure::chord::{Chord, ChordView};
use crate::structure::multivoice::{greater, MultiVoice, MultiVoiceView};
use crate::structure::phrase::{Phrase, PhraseView};
use crate::structure::staff::{lemma_staff_sum_is_exact, Staff, StaffView};
use crate::temporal::fraction::{Fraction, lemma_fraction_arithmetic, lemma_ratio_whole};
use vstd::prelude::*;
use vstd::string::StringExecFns;

verus! {

/// A part: a named instrument or voice of the composition. Its staves sound
/// at the same time.
#[derive(Debug)]
pub struct Part {
    pub(crate) id: usize,
    pub(crate) name: String,
    pub(crate) staves: Vec<Staff>,
}

/// What a part is, as plain data.
pub struct PartView {
    pub id: usize,
    pub name: Seq<char>,
    pub staves: Seq<StaffView>,
}

impl View for Part {
    type V = PartView;

    open(crate) spec fn view(&self) -> PartView {
        PartView { id: self.id, name: self.name@, staves: views(self.staves@) }
    }
}

/// Looks for a note in a staff.
pub open spec fn note_in_staff(id: usize) -> spec_fn(StaffView) -> Option<NoteView> {
    |staff: StaffView| staff.find_note(id)
}

/// Looks for a chord in a staff.
pub open spec fn chord_in_staff(id: usize) -> spec_fn(StaffView) -> Option<ChordView> {
    |staff: StaffView| staff.find_chord(id)
}

/// Looks for a phrase in a staff.
pub open spec fn phrase_in_staff(id: usize) -> spec_fn(StaffView) -> Option<PhraseView> {
    |staff: StaffView| staff.find_phrase(id)
}

/// Looks for a group of voices in a staff.
pub open spec fn multivoice_in_staff(id: usize) -> spec_fn(StaffView) -> Option<MultiVoiceView> {
    |staff: StaffView| staff.find_multivoice(id)
}

/// The staff itself, where it has the identifier.
pub open spec fn staff_at(id: usize) -> spec_fn(StaffView) -> Option<StaffView> {
    |staff: StaffView|
        if staff.id == id {
            Some(staff)
        } else {
            None
        }
}

/// Whether a staff has the identifier.
pub open spec fn staff_is(id: usize) -> spec_fn(StaffView) -> bool {
    |staff: StaffView| staff.id == id
}

/// Removes an identifier from a staff.
pub open spec fn staff_without(id: usize) -> spec_fn(StaffView) -> StaffView {
    |staff: StaffView| staff.without(id)
}

/// Counts the notes of a staff.
pub open spec fn notes_of_staff() -> spec_fn(StaffView) -> nat {
    |staff: StaffView| staff.note_count()
}

impl PartView {
    /// The length of the part in beats of `base`: that of its longest staff.
    pub open spec fn exact_beats(self, base: Duration) -> real {
        Self::exact_max(self.staves, base, 0)
    }

    /// The length of the longest staff from position `from` on.
    pub open spec fn exact_max(staves: Seq<StaffView>, base: Duration, from: int) -> real
        decreases staves.len() - from,
    {
        if from < 0 || from >= staves.len() {
            0real
        } else {
            greater(staves[from].exact_beats(base), Self::exact_max(staves, base, from + 1))
        }
    }

    /// Whether durations are defined throughout the part.
    pub open spec fn sound(self) -> bool {
        forall|i: int| 0 <= i < self.staves.len() ==> (#[trigger] self.staves[i]).sound()
    }

    /// The length of the part in beats as a fraction, or the first reason
    /// met, in the order of the staves, why there is none.
    pub open spec fn beats(self, base: Duration) -> Result<Fraction, TimingError> {
        Self::max_beats(self.staves, base, 0, Fraction::spec_zero())
    }

    /// The greatest of `so_far` and the lengths of the staves from position
    /// `from` on.
    pub open spec fn max_beats(
        staves: Seq<StaffView>,
        base: Duration,
        from: int,
        so_far: Fraction,
    ) -> Result<Fraction, TimingError>
        decreases staves.len() - from,
    {
        if from < 0 || from >= staves.len() {
            Ok(so_far)
        } else {
            match staves[from].beats(base) {
                Err(e) => Err(e),
                Ok(length) => Self::max_beats(staves, base, from + 1, so_far.spec_max(length)),
            }
        }
    }

    /// The first note with the given identifier, staff by staff.
    pub open spec fn find_note(self, id: usize) -> Option<NoteView> {
        first_some(self.staves, note_in_staff(id), 0)
    }

    /// The first chord with the given identifier, staff by staff.
    pub open spec fn find_chord(self, id: usize) -> Option<ChordView> {
        first_some(self.staves, chord_in_staff(id), 0)
    }

    /// The first phrase with the given identifier, staff by staff.
    pub open spec fn find_phrase(self, id: usize) -> Option<PhraseView> {
        first_some(self.staves, phrase_in_staff(id), 0)
    }

    /// The first group of voices with the given identifier, staff by staff.
    pub open spec fn find_multivoice(self, id: usize) -> Option<MultiVoiceView> {
        first_some(self.staves, multivoice_in_staff(id), 0)
    }

    /// The first staff with the given identifier.
    pub open spec fn find_staff(self, id: usize) -> Option<StaffView> {
        first_some(self.staves, staff_at(id), 0)
    }

    /// The part without the staves that have the identifier, and without
    /// what has it in the others.
    pub open spec fn without(self, id: usize) -> PartView {
        PartView {
            id: self.id,
            name: self.name,
            staves: pruned(self.staves, staff_is(id), staff_without(id), 0),
        }
    }

    /// The part with one more staff at its end.
    pub open spec fn with_staff(self, staff: StaffView) -> PartView {
        PartView { id: self.id, name: self.name, staves: self.staves.push(staff) }
    }

    /// Whether the part or anything in it has the identifier.
    pub open spec fn has_id(self, id: usize) -> bool {
        self.id == id || exists|i: int|
            0 <= i < self.staves.len() && (#[trigger] self.staves[i]).has_id(id)
    }

    /// Whether every identifier in the part lies below the bound.
    pub open spec fn below(self, bound: int) -> bool {
        forall|id: usize| #[trigger] self.has_id(id) ==> id < bound
    }

    /// The number of notes in the part.
    pub open spec fn note_count(self) -> nat {
        total(self.staves, notes_of_staff(), 0)
    }

    /// Whether a staff of the part holds a group of parallel voices.
    pub open spec fn has_multivoice(self) -> bool {
        exists|i: int| 0 <= i < self.staves.len() && (#[trigger] self.staves[i]).has_multivoice()
    }
}

/// The fraction that the engine computes for a staff is its exact length.
pub proof fn lemma_staff_beats_are_exact(staff: StaffView, base: Duration)
    ensures
        match staff.beats(base) {
            Ok(length) => {
                &&& length.well_formed()
                &&& length.value() == staff.exact_beats(base)
                &&& staff.sound()
                &&& staff.exact_beats(base) >= 0real
            },
            Err(e) => e != TimingError::Overflow ==> !staff.sound(),
        },
{
    lemma_ratio_whole(0);
    lemma_staff_sum_is_exact(staff.content, base, 0, Fraction::spec_zero());
    if let Err(e) = staff.beats(base) {
        if e != TimingError::Overflow {
            let i = choose|i: int| 0 <= i < staff.content.len()
                && !(#[trigger] staff.content[i]).sound();
            assert(!staff.content[i].sound());
        }
    }
    if let Ok(length) = staff.beats(base) {
        lemma_fraction_arithmetic(length, length);
    }
}

/// The fraction that the engine computes for parallel staves is the length
/// of the longest of them.
pub proof fn lemma_part_max_is_exact(
    staves: Seq<StaffView>,
    base: Duration,
    from: int,
    so_far: Fraction,
)
    requires
        0 <= from,
        so_far.well_formed(),
    ensures
        match PartView::max_beats(staves, base, from, so_far) {
            Ok(longest) => {
                &&& longest.well_formed()
                &&& longest.value()
                    == greater(so_far.value(), PartView::exact_max(staves, base, from))
                &&& forall|i: int| from <= i < staves.len() ==> (#[trigger] staves[i]).sound()
                &&& forall|i: int| from <= i < staves.len() ==> (#[trigger] staves[i]).beats(base) is Ok
                &&& PartView::exact_max(staves, base, from) >= 0real
            },
            Err(e) => e != TimingError::Overflow ==> exists|i: int|
                from <= i < staves.len() && !(#[trigger] staves[i]).sound(),
        },
    decreases staves.len() - from,
{
    lemma_fraction_arithmetic(so_far, so_far);
    if from < staves.len() {
        lemma_staff_beats_are_exact(staves[from], base);
        match staves[from].beats(base) {
            Ok(length) => {
                lemma_part_max_is_exact(staves, base, from + 1, so_far.spec_max(length));
                match PartView::max_beats(staves, base, from, so_far) {
                    Ok(longest) => {
                        assert forall|i: int| from <= i < staves.len()
                            implies (#[trigger] staves[i]).sound() by {
                            if i > from {
                                assert(staves[i].sound());
                            }
                        }
                        assert forall|i: int| from <= i < staves.len()
                            implies (#[trigger] staves[i]).beats(
                            base,
                        ) is Ok by {
                            if i > from {
                                assert(staves[i].beats(base) is Ok);
                            }
                        }
                    },
                    Err(e) => {
                        if e != TimingError::Overflow {
                            let i = choose|i: int|
                                from + 1 <= i < staves.len() && !(#[trigger] staves[i]).sound();
                            assert(!staves[i].sound());
                        }
                    },
                }
            },
            Err(e) => {
                if e != TimingError::Overflow {
                    assert(!staves[from].sound());
                }
            },
        }
    }
}

/// The fraction that the engine computes for a part is its exact length.
pub proof fn lemma_part_beats_are_exact(part: PartView, base: Duration)
    ensures
        match part.beats(base) {
            Ok(length) => {
                &&& length.well_formed()
                &&& length.value() == part.exact_beats(base)
                &&& part.sound()
                &&& part.exact_beats(base) >= 0real
            },
            Err(e) => e != TimingError::Overflow ==> !part.sound(),
        },
{
    lemma_ratio_whole(0);
    lemma_part_max_is_exact(part.staves, base, 0, Fraction::spec_zero());
    if let Err(e) = part.beats(base) {
        if e != TimingError::Overflow {
            let i = choose|i: int| 0 <= i < part.staves.len()
                && !(#[trigger] part.staves[i]).sound();
            assert(!part.staves[i].sound());
        }
    }
}

impl Part {
    /// A part without staves, with the given name and the next identifier
    /// of the registry.
    pub fn new(registry: &mut IdRegistry, name: &str) -> (r: Self)
        requires
            old(registry).spec_remaining() > 0,
        ensures
            r@ == (PartView { id: old(registry).next_id(), name: name@, staves: Seq::empty() }),
            *final(registry) == old(registry).after(1),
            final(registry).next_id() == old(registry).next_id() + 1,
    {
        let r = Part { id: registry.generate_id(), name: String::from_str(name), staves: Vec::new() };
        proof {
            assert(r@.staves =~= Seq::empty());
        }
        r
    }

    pub fn get_id(&self) -> (r: usize)
        ensures
            r == self@.id,
    {
        self.id
    }

    pub fn get_name(&self) -> (r: &str)
        ensures
            r@ == self@.name,
    {
        self.name.as_str()
    }

    /// The number of staves of the part.
    pub fn len(&self) -> (r: usize)
        ensures
            r == self@.staves.len(),
    {
        self.staves.len()
    }

    /// Puts a new, empty staff at the end of the part and returns its
    /// identifier.
    pub fn add_staff(&mut self, registry: &mut IdRegistry) -> (id: usize)
        requires
            old(registry).spec_remaining() > 0,
        ensures
            id == old(registry).next_id(),
            *final(registry) == old(registry).after(1),
            final(registry).next_id() == old(registry).next_id() + 1,
            final(self)@ == old(self)@.with_staff(StaffView { id, content: Seq::empty() }),
            old(self)@.below(old(registry).next_id() as int) ==> final(self)@.below(
                final(registry).next_id() as int,
            ),
    {
        proof {
            if self@.below(registry.next_id() as int) {
                crate::laws::lemma_part_stays_below(
                    self@,
                    StaffView { id: registry.next_id(), content: Seq::empty() },
                    registry.next_id() + 1,
                );
            }
        }
        let staff = Staff::new(registry);
        let id = staff.get_id();
        proof {
            lemma_views(self.staves@, 0, staff);
        }
        self.staves.push(staff);
        id
    }

    /// The first staff with the given identifier.
    pub fn get_staff(&self, id: usize) -> (r: Option<&Staff>)
        ensures
            match r {
                Some(staff) => Some(staff@) == self@.find_staff(id),
                None => self@.find_staff(id) is None,
            },
    {
        let mut i: usize = 0;
        while i < self.staves.len()
            invariant
                i <= self.staves.len(),
                self@.find_staff(id) == first_some(self@.staves, staff_at(id), i as int),
            decreases self.staves.len() - i,
        {
            if self.staves[i].get_id() == id {
                return Some(&self.staves[i]);
            }
            i += 1;
        }
        None
    }

    /// The first note with the given identifier, searching depth first.
    pub fn get_note(&self, id: usize) -> (r: Option<&Note>)
        ensures
            match r {
                Some(note) => Some(note@) == self@.find_note(id),
                None => self@.find_note(id) is None,
            },
    {
        let mut i: usize = 0;
        while i < self.staves.len()
            invariant
                i <= self.staves.len(),
                self@.find_note(id) == first_some(self@.staves, note_in_staff(id), i as int),
            decreases self.staves.len() - i,
        {
            let here = self.staves[i].get_note(id);
            if here.is_some() {
                return here;
            }
            i += 1;
        }
        None
    }

    /// The first chord with the given identifier, searching depth first.
    pub fn get_chord(&self, id: usize) -> (r: Option<&Chord>)
        ensures
            match r {
                Some(chord) => Some(chord@) == self@.find_chord(id),
                None => self@.find_chord(id) is None,
            },
    {
        let mut i: usize = 0;
        while i < self.staves.len()
            invariant
                i <= self.staves.len(),
                self@.find_chord(id) == first_some(self@.staves, chord_in_staff(id), i as int),
            decreases self.staves.len() - i,
        {
            let here = self.staves[i].get_chord(id);
            if here.is_some() {
                return here;
            }
            i += 1;
        }
        None
    }

    /// The first phrase with the given identifier, searching depth first.
    pub fn get_phrase(&self, id: usize) -> (r: Option<&Phrase>)
        ensures
            match r {
                Some(phrase) => Some(phrase@) == self@.find_phrase(id),
                None => self@.find_phrase(id) is None,
            },
    {
        let mut i: usize = 0;
        while i < self.staves.len()
            invariant
                i <= self.staves.len(),
                self@.find_phrase(id) == first_some(self@.staves, phrase_in_staff(id), i as int),
            decreases self.staves.len() - i,
        {
            let here = self.staves[i].get_phrase(id);
            if here.is_some() {
                return here;
            }
            i += 1;
        }
        None
    }

    /// The first group of voices with the given identifier.
    pub fn get_multivoice(&self, id: usize) -> (r: Option<&MultiVoice>)
        ensures
            match r {
                Some(voices) => Some(voices@) == self@.find_multivoice(id),
                None => self@.find_multivoice(id) is None,
            },
    {
        let mut i: usize = 0;
        while i < self.staves.len()
            invariant
                i <= self.staves.len(),
                self@.find_multivoice(id) == first_some(
                    self@.staves,
                    multivoice_in_staff(id),
                    i as int,
                ),
            decreases self.staves.len() - i,
        {
            let here = self.staves[i].get_multivoice(id);
            if here.is_some() {
                return here;
            }
            i += 1;
        }
        None
    }

    /// Takes out the staves with the given identifier, and everything with
    /// that identifier in the other staves.
    pub fn remove_item(&mut self, id: usize)
        ensures
            final(self)@ == old(self)@.without(id),
    {
        let ghost before = self@.staves;
        let ghost gone = staff_is(id);
        let ghost prune = staff_without(id);
        let mut i: usize = 0;
        let ghost mut done: int = 0;
        while i < self.staves.len()
            invariant
                0 <= done <= before.len(),
                i <= self.staves.len(),
                self.staves.len() - i == before.len() - done,
                self@.staves.skip(i as int) == before.skip(done),
                self@.staves.take(i as int) + pruned(before, gone, prune, done) == pruned(
                    before,
                    gone,
                    prune,
                    0,
                ),
                self@.id == old(self)@.id,
                self@.name == old(self)@.name,
                before == old(self)@.staves,
                gone == staff_is(id),
                prune == staff_without(id),
            decreases self.staves.len() - i,
        {
            let ghost current = self.staves@;
            let ghost shown = self@.staves;
            proof {
                assert(shown[i as int] == shown.skip(i as int)[0]);
                assert(shown.skip(i as int).skip(1) == shown.skip(i + 1));
                assert(before.skip(done).skip(1) == before.skip(done + 1));
            }
            if self.staves[i].get_id() == id {
                self.staves.remove(i);
                proof {
                    lemma_views(current, i as int, current[0]);
                    assert(self@.staves.skip(i as int) == shown.skip(i + 1));
                    assert(self@.staves.take(i as int) == shown.take(i as int));
                }
            } else {
                self.staves[i].remove_item(id);
                proof {
                    let changed = self.staves@[i as int];
                    assert(self.staves@ == current.update(i as int, changed));
                    lemma_views(current, i as int, changed);
                    assert(self@.staves.skip(i + 1) == shown.skip(i + 1));
                    let piece = seq![changed@];
                    assert(self@.staves.take(i + 1) == shown.take(i as int) + piece);
                    assert((shown.take(i as int) + piece) + pruned(before, gone, prune, done + 1)
                        == shown.take(i as int) + (piece + pruned(before, gone, prune, done + 1)));
                }
                i += 1;
            }
            proof {
                done = done + 1;
            }
        }
        proof {
            assert(self@.staves.take(i as int) == self@.staves);
            assert(self@.staves + Seq::<StaffView>::empty() == self@.staves);
        }
    }

    /// The length of the part in beats of `base`: that of its longest staff.
    pub fn get_beats(&self, base: &Duration) -> (r: Result<Fraction, TimingError>)
        ensures
            r == self@.beats(*base),
            r is Ok ==> r.unwrap().value() == self@.exact_beats(*base) && self@.sound(),
            r matches Err(e) && e != TimingError::Overflow ==> !self@.sound(),
    {
        proof {
            lemma_part_beats_are_exact(self@, *base);
        }
        let mut longest = Fraction::zero();
        let mut i: usize = 0;
        while i < self.staves.len()
            invariant
                i <= self.staves.len(),
                self@.beats(*base) == PartView::max_beats(self@.staves, *base, i as int, longest),
            decreases self.staves.len() - i,
        {
            match self.staves[i].get_beats(base) {
                Err(e) => {
                    return Err(e);
                },
                Ok(length) => {
                    longest = longest.max(length);
                },
            }
            i += 1;
        }
        Ok(longest)
    }

    /// The length of the part in beats of the tempo.
    pub fn get_duration(&self, tempo: &Tempo) -> (r: Result<Fraction, TimingError>)
        ensures
            r == self@.beats(tempo.base_note),
            r is Ok ==> r.unwrap().value() == self@.exact_beats(tempo.base_note) && self@.sound(),
            r matches Err(e) && e != TimingError::Overflow ==> !self@.sound(),
    {
        self.get_beats(&tempo.base_note)
    }

    /// The staves of the part, in order.
    pub fn iter(&self) -> (r: &[Staff])
        ensures
            views(r@) == self@.staves,
    {
        self.staves.as_slice()
    }
}

impl Clone for Part {
    fn clone(&self) -> (r: Self)
        ensures
            r@ == self@,
    {
        let mut staves: Vec<Staff> = Vec::new();
        let mut i: usize = 0;
        while i < self.staves.len()
            invariant
                i <= self.staves.len(),
                views(staves@) == self@.staves.take(i as int),
            decreases self.staves.len() - i,
        {
            let staff = self.staves[i].clone();
            proof {
                lemma_views(staves@, 0, staff);
                assert(self@.staves.take(i + 1) == self@.staves.take(i as int).push(
                    self@.staves[i as int],
                ));
            }
            staves.push(staff);
            i += 1;
        }
        proof {
            assert(self@.staves.take(i as int) == self@.staves);
        }
        Part { id: self.id, name: self.name.clone(), staves }
    }
}

} // verus!
