//! Phrases: notes, chords and further phrases that follow one another,
//! with the duration engine that scales them by tuplets.

use crate::context::id::IdRegistry;
use crate::context::tempo::Tempo;
use crate::error::{StructureError, TimingError};
use crate::modification::{
    discard_phrase_modification, find_phrase_modification, first_tuplet,
    lookup_phrase_modification, PhraseModification, PhraseModificationType,
};
use crate::note::accidental::Accidental;
use crate::note::duration::Duration;
use crate::note::note::{lemma_note_beats_are_exact, Note, NoteView, scale};
use crate::note::pitch::Pitch;
use crate::structure::chord::{Chord, ChordView, lemma_chord_beats_are_exact};
use crate::temporal::fraction::{
    Fraction, lemma_fraction_arithmetic, lemma_ratio_whole, lemma_reduced_value, ratio, reduced,
};
use vstd::prelude::*;

verus! {

/// A child of a phrase.
#[derive(Debug)]
pub enum PhraseContent {
    Note(Note),
    Chord(Chord),
    Phrase(Phrase),
}

/// A group of notes, chords and further phrases that follow one another,
/// with the modifications that apply to the group.
#[derive(Debug)]
pub struct Phrase {
    pub(crate) id: usize,
    pub(crate) content: Vec<PhraseContent>,
    pub(crate) modifications: Vec<PhraseModification>,
}

/// What a child of a phrase is, as plain data.
pub enum PhraseContentView {
    Note(NoteView),
    Chord(ChordView),
    Phrase(PhraseView),
}

/// What a phrase is, as plain data.
pub struct PhraseView {
    pub id: usize,
    pub content: Seq<PhraseContentView>,
    pub modifications: Seq<PhraseModification>,
}

/// The views of the children of a phrase, in order.
pub open spec fn content_views(items: Seq<PhraseContent>) -> Seq<PhraseContentView> {
    Seq::new(items.len(), |i: int| items[i]@)
}

impl PhraseContent {
    /// The child as plain data.
    pub open(crate) spec fn model(&self) -> PhraseContentView
        decreases self,
    {
        match self {
            PhraseContent::Note(note) => PhraseContentView::Note(note@),
            PhraseContent::Chord(chord) => PhraseContentView::Chord(chord@),
            PhraseContent::Phrase(phrase) => PhraseContentView::Phrase(phrase.model()),
        }
    }
}

impl Phrase {
    /// The phrase as plain data.
    pub open(crate) spec fn model(&self) -> PhraseView
        decreases self,
    {
        PhraseView {
            id: self.id,
            content: Seq::new(
                self.content@.len(),
                |i: int|
                    if 0 <= i < self.content@.len() {
                        self.content@[i].model()
                    } else {
                        arbitrary()
                    },
            ),
            modifications: self.modifications@,
        }
    }

    /// The view of a phrase is made of the views of its children.
    pub(crate) proof fn lemma_view(&self)
        ensures
            self@.id == self.id,
            self@.content == content_views(self.content@),
            self@.content.len() == self.content@.len(),
            self@.modifications == self.modifications@,
    {
        assert(self@.content.len() == self.content@.len());
        assert(self@.content =~= content_views(self.content@));
    }
}

impl View for PhraseContent {
    type V = PhraseContentView;

    open(crate) spec fn view(&self) -> PhraseContentView {
        self.model()
    }
}

impl View for Phrase {
    type V = PhraseView;

    open(crate) spec fn view(&self) -> PhraseView {
        self.model()
    }
}

/// The views of the children stand where the children stand.
pub proof fn lemma_content_view_items(items: Seq<PhraseContent>)
    ensures
        content_views(items).len() == items.len(),
        forall|i: int| 0 <= i < items.len() ==> (#[trigger] content_views(items)[i]) == items[i]@,
{
}

/// How `content_views` goes with the operations that change a vector.
pub proof fn lemma_content_views(items: Seq<PhraseContent>, at: int, item: PhraseContent)
    ensures
        content_views(items).len() == items.len(),
        forall|i: int| 0 <= i < items.len() ==> (#[trigger] content_views(items)[i]) == items[i]@,
        content_views(items.push(item)) == content_views(items).push(item@),
        0 <= at <= items.len() ==> content_views(items.insert(at, item)) == content_views(
            items,
        ).insert(at, item@),
        0 <= at < items.len() ==> content_views(items.remove(at))
            == content_views(items).remove(at),
        0 <= at < items.len() ==> content_views(items.update(at, item)) == content_views(
            items,
        ).update(at, item@),
        0 <= at <= items.len() ==> content_views(items.take(at)) == content_views(items).take(at),
        0 <= at <= items.len() ==> content_views(items.skip(at)) == content_views(items).skip(at),
        content_views(Seq::<PhraseContent>::empty()) == Seq::<PhraseContentView>::empty(),
{
    assert(content_views(items.push(item)) =~= content_views(items).push(item@));
    if 0 <= at <= items.len() {
        assert(content_views(items.insert(at, item)) =~= content_views(items).insert(at, item@));
        assert(content_views(items.take(at)) =~= content_views(items).take(at));
        assert(content_views(items.skip(at)) =~= content_views(items).skip(at));
    }
    if 0 <= at < items.len() {
        assert(content_views(items.remove(at)) =~= content_views(items).remove(at));
        assert(content_views(items.update(at, item)) =~= content_views(items).update(at, item@));
    }
    assert(content_views(Seq::<PhraseContent>::empty()) =~= Seq::<PhraseContentView>::empty());
}

impl PhraseContentView {
    /// The identifier of the child.
    pub open spec fn id(self) -> usize {
        match self {
            PhraseContentView::Note(note) => note.id,
            PhraseContentView::Chord(chord) => chord.id,
            PhraseContentView::Phrase(phrase) => phrase.id,
        }
    }
}

impl PhraseView {
    /// The beats of the tuplet that the phrase carries, if it carries one.
    pub open spec fn tuplet(self) -> Option<u8> {
        first_tuplet(self.modifications, 0)
    }

    /// The tuplet factor in force for the children of the phrase, given the
    /// factor in force for the phrase itself: a tuplet into `b` beats over `n`
    /// children multiplies it by `b / n`.
    pub open spec fn exact_inner_ratio(self, inherited: real) -> real {
        match self.tuplet() {
            None => inherited,
            Some(b) => inherited * ratio(b as int, self.content.len() as int),
        }
    }

    /// The length of the phrase in beats of `base` under the tuplet factor
    /// `ratio`: the sum of the lengths of its children under the factor in
    /// force for them.
    pub open spec fn exact_beats(self, base: Duration, ratio: real) -> real
        decreases self,
    {
        Self::exact_sum(self.content, base, self.exact_inner_ratio(ratio), 0)
    }

    /// The sum of the lengths of the children from position `from` on.
    pub open spec fn exact_sum(
        items: Seq<PhraseContentView>,
        base: Duration,
        ratio: real,
        from: int,
    ) -> real
        decreases items, items.len() - from,
    {
        if from < 0 || from >= items.len() {
            0real
        } else {
            (match items[from] {
                PhraseContentView::Note(note) => note.exact_beats(base, ratio),
                PhraseContentView::Chord(chord) => chord.exact_beats(base, ratio),
                PhraseContentView::Phrase(phrase) => phrase.exact_beats(base, ratio),
            }) + Self::exact_sum(items, base, ratio, from + 1)
        }
    }

    /// Whether durations are defined throughout the phrase: no tuplet stands
    /// over a phrase without children, and every chord is uniform.
    pub open spec fn sound(self) -> bool
        decreases self,
    {
        (self.tuplet() is Some ==> self.content.len() > 0) && Self::sound_from(self.content, 0)
    }

    /// Whether durations are defined in the children from position `from` on.
    pub open spec fn sound_from(items: Seq<PhraseContentView>, from: int) -> bool
        decreases items, items.len() - from,
    {
        if from < 0 || from >= items.len() {
            true
        } else {
            (match items[from] {
                PhraseContentView::Note(note) => true,
                PhraseContentView::Chord(chord) => chord.uniform(),
                PhraseContentView::Phrase(phrase) => phrase.sound(),
            }) && Self::sound_from(items, from + 1)
        }
    }

    /// The tuplet ratio in force for the children of the phrase as a
    /// fraction, or the reason why there is none: a tuplet over no children,
    /// or a product that cannot be held.
    pub open spec fn inner_ratio(self, inherited: Option<Fraction>) -> Result<
        Option<Fraction>,
        TimingError,
    > {
        match self.tuplet() {
            None => Ok(inherited),
            Some(b) => if self.content.len() == 0 {
                Err(TimingError::EmptyTuplet)
            } else {
                match reduced(b as nat, self.content.len()) {
                    None => Err(TimingError::Overflow),
                    Some(local) => match inherited {
                        None => Ok(Some(local)),
                        Some(outer) => match outer.spec_mul(local) {
                            None => Err(TimingError::Overflow),
                            Some(product) => Ok(Some(product)),
                        },
                    },
                }
            },
        }
    }

    /// The length of the phrase in beats as a fraction, or the first reason
    /// met, in the order of the tree, why there is none.
    pub open spec fn beats(self, base: Duration, ratio: Option<Fraction>) -> Result<
        Fraction,
        TimingError,
    >
        decreases self,
    {
        match self.inner_ratio(ratio) {
            Err(e) => Err(e),
            Ok(inner) => Self::sum_beats(self.content, base, inner, 0, Fraction::spec_zero()),
        }
    }

    /// The lengths of the children from position `from` on, added to
    /// `so_far` one after the other.
    pub open spec fn sum_beats(
        items: Seq<PhraseContentView>,
        base: Duration,
        ratio: Option<Fraction>,
        from: int,
        so_far: Fraction,
    ) -> Result<Fraction, TimingError>
        decreases items, items.len() - from,
    {
        if from < 0 || from >= items.len() {
            Ok(so_far)
        } else {
            match (match items[from] {
                PhraseContentView::Note(note) => note.beats(base, ratio),
                PhraseContentView::Chord(chord) => chord.beats(base, ratio),
                PhraseContentView::Phrase(phrase) => phrase.beats(base, ratio),
            }) {
                Err(e) => Err(e),
                Ok(length) => match so_far.spec_add(length) {
                    None => Err(TimingError::Overflow),
                    Some(sum) => Self::sum_beats(items, base, ratio, from + 1, sum),
                },
            }
        }
    }

    /// The first note with the given identifier, searching depth first.
    pub open spec fn find_note(self, id: usize) -> Option<NoteView>
        decreases self,
    {
        Self::find_note_in(self.content, id, 0)
    }

    /// The first note with the given identifier in the children from
    /// position `from` on.
    pub open spec fn find_note_in(items: Seq<PhraseContentView>, id: usize, from: int) -> Option<
        NoteView,
    >
        decreases items, items.len() - from,
    {
        if from < 0 || from >= items.len() {
            None
        } else {
            let here = match items[from] {
                PhraseContentView::Note(note) => if note.id == id {
                    Some(note)
                } else {
                    None
                },
                PhraseContentView::Chord(chord) => chord.find_note(id),
                PhraseContentView::Phrase(phrase) => phrase.find_note(id),
            };
            if here is Some {
                here
            } else {
                Self::find_note_in(items, id, from + 1)
            }
        }
    }

    /// The first chord with the given identifier, searching depth first.
    pub open spec fn find_chord(self, id: usize) -> Option<ChordView>
        decreases self,
    {
        Self::find_chord_in(self.content, id, 0)
    }

    /// The first chord with the given identifier in the children from
    /// position `from` on.
    pub open spec fn find_chord_in(items: Seq<PhraseContentView>, id: usize, from: int) -> Option<
        ChordView,
    >
        decreases items, items.len() - from,
    {
        if from < 0 || from >= items.len() {
            None
        } else {
            let here = match items[from] {
                PhraseContentView::Note(note) => None,
                PhraseContentView::Chord(chord) => if chord.id == id {
                    Some(chord)
                } else {
                    None
                },
                PhraseContentView::Phrase(phrase) => phrase.find_chord(id),
            };
            if here is Some {
                here
            } else {
                Self::find_chord_in(items, id, from + 1)
            }
        }
    }

    /// The first phrase below this one with the given identifier, searching
    /// depth first: a child is looked at before what it holds.
    pub open spec fn find_phrase(self, id: usize) -> Option<PhraseView>
        decreases self,
    {
        Self::find_phrase_in(self.content, id, 0)
    }

    /// The first phrase with the given identifier in the children from
    /// position `from` on.
    pub open spec fn find_phrase_in(items: Seq<PhraseContentView>, id: usize, from: int) -> Option<
        PhraseView,
    >
        decreases items, items.len() - from,
    {
        if from < 0 || from >= items.len() {
            None
        } else {
            let here = match items[from] {
                PhraseContentView::Phrase(phrase) => if phrase.id == id {
                    Some(phrase)
                } else {
                    phrase.find_phrase(id)
                },
                _ => None,
            };
            if here is Some {
                here
            } else {
                Self::find_phrase_in(items, id, from + 1)
            }
        }
    }

    /// The first modification of the phrase itself with the given identifier.
    pub open spec fn find_modification(self, id: usize) -> Option<PhraseModification> {
        find_phrase_modification(self.modifications, id, 0)
    }

    /// The position of the first child with the given identifier.
    pub open spec fn index_of(self, id: usize) -> Option<int> {
        Self::index_in(self.content, id, 0)
    }

    /// The position of the first child with the given identifier from
    /// position `from` on.
    pub open spec fn index_in(items: Seq<PhraseContentView>, id: usize, from: int) -> Option<int>
        decreases items.len() - from,
    {
        if from < 0 || from >= items.len() {
            None
        } else if items[from].id() == id {
            Some(from)
        } else {
            Self::index_in(items, id, from + 1)
        }
    }

    /// The phrase without the notes, chords and phrases below it that have
    /// the given identifier, and without what they hold.
    pub open spec fn without(self, id: usize) -> PhraseView
        decreases self,
    {
        PhraseView {
            id: self.id,
            content: Self::without_in(self.content, id, 0),
            modifications: self.modifications,
        }
    }

    /// The children from position `from` on without what has the given
    /// identifier.
    pub open spec fn without_in(items: Seq<PhraseContentView>, id: usize, from: int) -> Seq<
        PhraseContentView,
    >
        decreases items, items.len() - from,
    {
        if from < 0 || from >= items.len() {
            Seq::empty()
        } else {
            let rest = Self::without_in(items, id, from + 1);
            if items[from].id() == id {
                rest
            } else {
                seq![
                    match items[from] {
                        PhraseContentView::Note(note) => items[from],
                        PhraseContentView::Chord(chord) => PhraseContentView::Chord(
                            chord.without(id),
                        ),
                        PhraseContentView::Phrase(phrase) => PhraseContentView::Phrase(
                            phrase.without(id),
                        ),
                    },
                ] + rest
            }
        }
    }

    /// The phrase without its own modifications of the given identifier.
    pub open spec fn without_modification(self, id: usize) -> PhraseView {
        PhraseView {
            id: self.id,
            content: self.content,
            modifications: self.modifications.filter(|m: PhraseModification| m.spec_id() != id),
        }
    }

    /// The phrase with one more child at position `at`.
    pub open spec fn with_item(self, at: int, item: PhraseContentView) -> PhraseView {
        PhraseView {
            id: self.id,
            content: self.content.insert(at, item),
            modifications: self.modifications,
        }
    }

    /// The phrase with one more modification.
    pub open spec fn with_modification(self, modification: PhraseModification) -> PhraseView {
        PhraseView {
            id: self.id,
            content: self.content,
            modifications: self.modifications.push(modification),
        }
    }

    /// A phrase without children or modifications.
    pub open spec fn empty(id: usize) -> PhraseView {
        PhraseView { id, content: Seq::empty(), modifications: Seq::empty() }
    }

    /// Whether the phrase, one of its modifications or anything below it has
    /// the identifier.
    pub open spec fn has_id(self, id: usize) -> bool
        decreases self,
    {
        self.id == id || (exists|i: int|
            0 <= i < self.modifications.len() && (#[trigger] self.modifications[i]).spec_id() == id)
            || Self::has_id_in(self.content, id, 0)
    }

    /// Whether anything in the children from position `from` on has the
    /// identifier.
    pub open spec fn has_id_in(items: Seq<PhraseContentView>, id: usize, from: int) -> bool
        decreases items, items.len() - from,
    {
        if from < 0 || from >= items.len() {
            false
        } else {
            (match items[from] {
                PhraseContentView::Note(note) => note.has_id(id),
                PhraseContentView::Chord(chord) => chord.has_id(id),
                PhraseContentView::Phrase(phrase) => phrase.has_id(id),
            }) || Self::has_id_in(items, id, from + 1)
        }
    }

    /// Whether every identifier in the phrase lies below the bound.
    pub open spec fn below(self, bound: int) -> bool {
        forall|id: usize| #[trigger] self.has_id(id) ==> id < bound
    }

    /// The number of notes in the phrase, those in chords and in phrases
    /// below it included.
    pub open spec fn note_count(self) -> nat
        decreases self,
    {
        Self::note_count_in(self.content, 0)
    }

    /// The number of notes in the children from position `from` on.
    pub open spec fn note_count_in(items: Seq<PhraseContentView>, from: int) -> nat
        decreases items, items.len() - from,
    {
        if from < 0 || from >= items.len() {
            0
        } else {
            (match items[from] {
                PhraseContentView::Note(note) => 1,
                PhraseContentView::Chord(chord) => chord.notes.len(),
                PhraseContentView::Phrase(phrase) => phrase.note_count(),
            }) + Self::note_count_in(items, from + 1)
        }
    }
}

impl PhraseContent {
    /// The identifier of the child.
    pub fn get_id(&self) -> (r: usize)
        ensures
            r == self@.id(),
    {
        match self {
            PhraseContent::Note(note) => note.get_id(),
            PhraseContent::Chord(chord) => chord.get_id(),
            PhraseContent::Phrase(phrase) => phrase.get_id(),
        }
    }
}

impl Phrase {
    /// An empty phrase with the next identifier of the registry.
    pub fn new(registry: &mut IdRegistry) -> (r: Self)
        requires
            old(registry).spec_remaining() > 0,
        ensures
            r@ == PhraseView::empty(old(registry).next_id()),
            *final(registry) == old(registry).after(1),
            final(registry).next_id() == old(registry).next_id() + 1,
    {
        let r = Phrase { id: registry.generate_id(), content: Vec::new(), modifications: Vec::new() };
        proof {
            r.lemma_view();
            assert(r@.content =~= Seq::empty());
        }
        r
    }

    pub fn get_id(&self) -> (r: usize)
        ensures
            r == self@.id,
    {
        self.id
    }

    /// The number of children of the phrase.
    pub fn len(&self) -> (r: usize)
        ensures
            r == self@.content.len(),
    {
        proof {
            self.lemma_view();
        }
        self.content.len()
    }

    /// Puts `item` at position `index`.
    fn place(&mut self, index: usize, item: PhraseContent)
        requires
            index <= old(self)@.content.len(),
        ensures
            final(self)@ == old(self)@.with_item(index as int, item@),
    {
        proof {
            self.lemma_view();
            lemma_content_views(self.content@, index as int, item);
        }
        self.content.insert(index, item);
        proof {
            self.lemma_view();
        }
    }

    /// Puts a new note at the end of the phrase and returns its identifier.
    pub fn add_note(
        &mut self,
        registry: &mut IdRegistry,
        pitch: Pitch,
        duration: Duration,
        accidental: Option<Accidental>,
    ) -> (id: usize)
        requires
            old(registry).spec_remaining() > 0,
        ensures
            id == old(registry).next_id(),
            *final(registry) == old(registry).after(1),
            final(registry).next_id() == old(registry).next_id() + 1,
            final(self)@ == old(self)@.with_item(
                old(self)@.content.len() as int,
                PhraseContentView::Note(
                    NoteView {
                        id,
                        pitch,
                        duration,
                        accidental: match accidental {
                            Some(a) => a,
                            None => Accidental::Unmarked,
                        },
                        modifications: Seq::empty(),
                    },
                ),
            ),
            old(self)@.below(old(registry).next_id() as int) ==> final(self)@.below(
                final(registry).next_id() as int,
            ),
    {
        proof {
            let item = PhraseContentView::Note(NoteView {
                id: registry.next_id(),
                pitch,
                duration,
                accidental: match accidental {
                Some(a) => a,
                None => Accidental::Unmarked,
            },
                modifications: Seq::empty(),
            });
            if self@.below(registry.next_id() as int) {
                crate::structure::phrase_laws::lemma_phrase_stays_below(
                    self@,
                    self@.content.len() as int,
                    item,
                    registry.next_id() + 1,
                );
            }
        }
        let note = Note::new(registry, pitch, duration, accidental);
        let id = note.get_id();
        proof {
            self.lemma_view();
        }
        self.place(self.content.len(), PhraseContent::Note(note));
        id
    }

    /// Puts a new, empty chord at the end of the phrase and returns its
    /// identifier.
    pub fn add_chord(&mut self, registry: &mut IdRegistry) -> (id: usize)
        requires
            old(registry).spec_remaining() > 0,
        ensures
            id == old(registry).next_id(),
            *final(registry) == old(registry).after(1),
            final(registry).next_id() == old(registry).next_id() + 1,
            final(self)@ == old(self)@.with_item(
                old(self)@.content.len() as int,
                PhraseContentView::Chord(ChordView { id, notes: Seq::empty() }),
            ),
            old(self)@.below(old(registry).next_id() as int) ==> final(self)@.below(
                final(registry).next_id() as int,
            ),
    {
        proof {
            let item = PhraseContentView::Chord(ChordView {
                id: registry.next_id(),
                notes: Seq::empty(),
            });
            if self@.below(registry.next_id() as int) {
                crate::structure::phrase_laws::lemma_phrase_stays_below(
                    self@,
                    self@.content.len() as int,
                    item,
                    registry.next_id() + 1,
                );
            }
        }
        let chord = Chord::new(registry);
        let id = chord.get_id();
        proof {
            self.lemma_view();
        }
        self.place(self.content.len(), PhraseContent::Chord(chord));
        id
    }

    /// Puts a new, empty phrase at the end of the phrase and returns its
    /// identifier.
    pub fn add_phrase(&mut self, registry: &mut IdRegistry) -> (id: usize)
        requires
            old(registry).spec_remaining() > 0,
        ensures
            id == old(registry).next_id(),
            *final(registry) == old(registry).after(1),
            final(registry).next_id() == old(registry).next_id() + 1,
            final(self)@ == old(self)@.with_item(
                old(self)@.content.len() as int,
                PhraseContentView::Phrase(PhraseView::empty(id)),
            ),
            old(self)@.below(old(registry).next_id() as int) ==> final(self)@.below(
                final(registry).next_id() as int,
            ),
    {
        proof {
            let item = PhraseContentView::Phrase(PhraseView::empty(registry.next_id()));
            if self@.below(registry.next_id() as int) {
                crate::structure::phrase_laws::lemma_phrase_stays_below(
                    self@,
                    self@.content.len() as int,
                    item,
                    registry.next_id() + 1,
                );
            }
        }
        let phrase = Phrase::new(registry);
        let id = phrase.get_id();
        proof {
            self.lemma_view();
        }
        self.place(self.content.len(), PhraseContent::Phrase(phrase));
        id
    }

    /// Attaches a modification to the phrase and returns its identifier.
    pub fn add_modification(
        &mut self,
        registry: &mut IdRegistry,
        modification: PhraseModificationType,
    ) -> (id: usize)
        requires
            old(registry).spec_remaining() > 0,
        ensures
            id == old(registry).next_id(),
            *final(registry) == old(registry).after(1),
            final(registry).next_id() == old(registry).next_id() + 1,
            final(self)@
                == old(self)@.with_modification(PhraseModification::made(id, modification)),
            old(self)@.below(old(registry).next_id() as int) ==> final(self)@.below(
                final(registry).next_id() as int,
            ),
    {
        proof {
            if self@.below(registry.next_id() as int) {
                crate::structure::phrase_laws::lemma_modified_phrase_stays_below(
                    self@,
                    PhraseModification::made(registry.next_id(), modification),
                    registry.next_id() + 1,
                );
            }
        }
        let item = PhraseModification::new(registry, modification);
        let id = item.get_id();
        proof {
            self.lemma_view();
        }
        self.modifications.push(item);
        proof {
            self.lemma_view();
        }
        id
    }

    /// Puts a new note at position `index` and returns its identifier, or
    /// changes nothing where the position lies beyond the end.
    pub fn insert_note(
        &mut self,
        registry: &mut IdRegistry,
        index: usize,
        pitch: Pitch,
        duration: Duration,
        accidental: Option<Accidental>,
    ) -> (r: Result<usize, StructureError>)
        requires
            old(registry).spec_remaining() > 0,
        ensures
            match r {
                Ok(id) => {
                    &&& index <= old(self)@.content.len()
                    &&& id == old(registry).next_id()
                    &&& *final(registry) == old(registry).after(1)
                    &&& final(registry).next_id() == old(registry).next_id() + 1
                    &&& final(self)@ == old(self)@.with_item(
                        index as int,
                        PhraseContentView::Note(
                            NoteView {
                                id,
                                pitch,
                                duration,
                                accidental: match accidental {
                                    Some(a) => a,
                                    None => Accidental::Unmarked,
                                },
                                modifications: Seq::empty(),
                            },
                        ),
                    )
                },
                Err(e) => {
                    &&& e == StructureError::IndexOutOfRange
                    &&& index > old(self)@.content.len()
                    &&& *final(registry) == *old(registry)
                    &&& final(self)@ == old(self)@
                },
            },
            old(self)@.below(old(registry).next_id() as int) ==> final(self)@.below(
                final(registry).next_id() as int,
            ),
    {
        proof {
            let item = PhraseContentView::Note(NoteView {
                id: registry.next_id(),
                pitch,
                duration,
                accidental: match accidental {
                Some(a) => a,
                None => Accidental::Unmarked,
            },
                modifications: Seq::empty(),
            });
            if self@.below(registry.next_id() as int) && index <= self@.content.len() {
                crate::structure::phrase_laws::lemma_phrase_stays_below(
                    self@,
                    index as int,
                    item,
                    registry.next_id() + 1,
                );
            }
        }
        proof {
            self.lemma_view();
        }
        if index > self.content.len() {
            return Err(StructureError::IndexOutOfRange);
        }
        let note = Note::new(registry, pitch, duration, accidental);
        let id = note.get_id();
        self.place(index, PhraseContent::Note(note));
        Ok(id)
    }

    /// Puts a new, empty chord at position `index` and returns its
    /// identifier, or changes nothing where the position lies beyond the end.
    pub fn insert_chord(&mut self, registry: &mut IdRegistry, index: usize) -> (r: Result<
        usize,
        StructureError,
    >)
        requires
            old(registry).spec_remaining() > 0,
        ensures
            match r {
                Ok(id) => {
                    &&& index <= old(self)@.content.len()
                    &&& id == old(registry).next_id()
                    &&& *final(registry) == old(registry).after(1)
                    &&& final(registry).next_id() == old(registry).next_id() + 1
                    &&& final(self)@ == old(self)@.with_item(
                        index as int,
                        PhraseContentView::Chord(ChordView { id, notes: Seq::empty() }),
                    )
                },
                Err(e) => {
                    &&& e == StructureError::IndexOutOfRange
                    &&& index > old(self)@.content.len()
                    &&& *final(registry) == *old(registry)
                    &&& final(self)@ == old(self)@
                },
            },
            old(self)@.below(old(registry).next_id() as int) ==> final(self)@.below(
                final(registry).next_id() as int,
            ),
    {
        proof {
            let item = PhraseContentView::Chord(ChordView {
                id: registry.next_id(),
                notes: Seq::empty(),
            });
            if self@.below(registry.next_id() as int) && index <= self@.content.len() {
                crate::structure::phrase_laws::lemma_phrase_stays_below(
                    self@,
                    index as int,
                    item,
                    registry.next_id() + 1,
                );
            }
        }
        proof {
            self.lemma_view();
        }
        if index > self.content.len() {
            return Err(StructureError::IndexOutOfRange);
        }
        let chord = Chord::new(registry);
        let id = chord.get_id();
        self.place(index, PhraseContent::Chord(chord));
        Ok(id)
    }

    /// Puts a new, empty phrase at position `index` and returns its
    /// identifier, or changes nothing where the position lies beyond the end.
    pub fn insert_phrase(&mut self, registry: &mut IdRegistry, index: usize) -> (r: Result<
        usize,
        StructureError,
    >)
        requires
            old(registry).spec_remaining() > 0,
        ensures
            match r {
                Ok(id) => {
                    &&& index <= old(self)@.content.len()
                    &&& id == old(registry).next_id()
                    &&& *final(registry) == old(registry).after(1)
                    &&& final(registry).next_id() == old(registry).next_id() + 1
                    &&& final(self)@ == old(self)@.with_item(
                        index as int,
                        PhraseContentView::Phrase(PhraseView::empty(id)),
                    )
                },
                Err(e) => {
                    &&& e == StructureError::IndexOutOfRange
                    &&& index > old(self)@.content.len()
                    &&& *final(registry) == *old(registry)
                    &&& final(self)@ == old(self)@
                },
            },
            old(self)@.below(old(registry).next_id() as int) ==> final(self)@.below(
                final(registry).next_id() as int,
            ),
    {
        proof {
            let item = PhraseContentView::Phrase(PhraseView::empty(registry.next_id()));
            if self@.below(registry.next_id() as int) && index <= self@.content.len() {
                crate::structure::phrase_laws::lemma_phrase_stays_below(
                    self@,
                    index as int,
                    item,
                    registry.next_id() + 1,
                );
            }
        }
        proof {
            self.lemma_view();
        }
        if index > self.content.len() {
            return Err(StructureError::IndexOutOfRange);
        }
        let phrase = Phrase::new(registry);
        let id = phrase.get_id();
        self.place(index, PhraseContent::Phrase(phrase));
        Ok(id)
    }

    /// The first note with the given identifier, searching depth first.
    pub fn get_note(&self, id: usize) -> (r: Option<&Note>)
        ensures
            match r {
                Some(note) => Some(note@) == self@.find_note(id),
                None => self@.find_note(id) is None,
            },
            forall|at: int|
                crate::lookup_laws::only_at(self@.all_notes(), crate::editing::note_is(id), at)
                    ==> r is Some && r.unwrap()@ == (#[trigger] self@.all_notes()[at]),
        decreases self,
    {
        proof {
            assert forall|at: int|
                crate::lookup_laws::only_at(
                    self@.all_notes(),
                    crate::editing::note_is(id),
                    at,
                ) implies self@.find_note(id) == Some(#[trigger] self@.all_notes()[at]) by {
                crate::lookup_laws::lemma_phrase_finds_its_note(self@, at);
            }
        }
        let mut i: usize = 0;
        while i < self.content.len()
            invariant
                forall|at: int|
                    crate::lookup_laws::only_at(self@.all_notes(), crate::editing::note_is(id), at) ==> self@.find_note(
                        id,
                    ) == Some(#[trigger] self@.all_notes()[at]),
                i <= self.content.len(),
                self@.find_note(id) == PhraseView::find_note_in(self@.content, id, i as int),
            decreases self.content.len() - i,
        {
            proof {
                self.lemma_view();
                lemma_content_view_items(self.content@);
            }
            let here = match &self.content[i] {
                PhraseContent::Note(note) => if note.get_id() == id {
                    Some(note)
                } else {
                    None
                },
                PhraseContent::Chord(chord) => chord.get_note(id),
                PhraseContent::Phrase(phrase) => phrase.get_note(id),
            };
            if here.is_some() {
                return here;
            }
            i += 1;
        }
        proof {
            self.lemma_view();
        }
        None
    }

    /// The first chord with the given identifier, searching depth first.
    pub fn get_chord(&self, id: usize) -> (r: Option<&Chord>)
        ensures
            match r {
                Some(chord) => Some(chord@) == self@.find_chord(id),
                None => self@.find_chord(id) is None,
            },
        decreases self,
    {
        let mut i: usize = 0;
        while i < self.content.len()
            invariant
                i <= self.content.len(),
                self@.find_chord(id) == PhraseView::find_chord_in(self@.content, id, i as int),
            decreases self.content.len() - i,
        {
            proof {
                self.lemma_view();
                lemma_content_view_items(self.content@);
            }
            let here = match &self.content[i] {
                PhraseContent::Note(_) => None,
                PhraseContent::Chord(chord) => if chord.get_id() == id {
                    Some(chord)
                } else {
                    None
                },
                PhraseContent::Phrase(phrase) => phrase.get_chord(id),
            };
            if here.is_some() {
                return here;
            }
            i += 1;
        }
        proof {
            self.lemma_view();
        }
        None
    }

    /// The first phrase below this one with the given identifier, searching
    /// depth first.
    pub fn get_phrase(&self, id: usize) -> (r: Option<&Phrase>)
        ensures
            match r {
                Some(phrase) => Some(phrase@) == self@.find_phrase(id),
                None => self@.find_phrase(id) is None,
            },
            forall|at: int|
                crate::lookup_laws::only_at(
                    self@.all_phrases(),
                    crate::structure::multivoice::phrase_is(id),
                    at,
                ) ==> r is Some && r.unwrap()@ == (#[trigger] self@.all_phrases()[at]),
        decreases self,
    {
        proof {
            assert forall|at: int|
                crate::lookup_laws::only_at(
                    self@.all_phrases(),
                    crate::structure::multivoice::phrase_is(id),
                    at,
                ) implies self@.find_phrase(id) == Some(#[trigger] self@.all_phrases()[at]) by {
                crate::lookup_laws::lemma_phrase_finds_its_phrase(self@, at);
            }
        }
        let mut i: usize = 0;
        while i < self.content.len()
            invariant
                forall|at: int|
                    crate::lookup_laws::only_at(self@.all_phrases(), crate::structure::multivoice::phrase_is(id), at) ==> self@.find_phrase(
                        id,
                    ) == Some(#[trigger] self@.all_phrases()[at]),
                i <= self.content.len(),
                self@.find_phrase(id) == PhraseView::find_phrase_in(self@.content, id, i as int),
            decreases self.content.len() - i,
        {
            proof {
                self.lemma_view();
                lemma_content_view_items(self.content@);
            }
            let here = match &self.content[i] {
                PhraseContent::Phrase(phrase) => if phrase.get_id() == id {
                    Some(phrase)
                } else {
                    phrase.get_phrase(id)
                },
                _ => None,
            };
            if here.is_some() {
                return here;
            }
            i += 1;
        }
        proof {
            self.lemma_view();
        }
        None
    }

    /// The first modification of the phrase itself with the given
    /// identifier.
    pub fn get_modification(&self, id: usize) -> (r: Option<&PhraseModification>)
        ensures
            match r {
                Some(m) => Some(*m) == self@.find_modification(id),
                None => self@.find_modification(id) is None,
            },
    {
        proof {
            self.lemma_view();
        }
        lookup_phrase_modification(&self.modifications, id)
    }

    /// The position of the first child with the given identifier.
    pub fn get_index_of_item(&self, id: usize) -> (r: Option<usize>)
        ensures
            match r {
                Some(index) => Some(index as int) == self@.index_of(id),
                None => self@.index_of(id) is None,
            },
    {
        let mut i: usize = 0;
        while i < self.content.len()
            invariant
                i <= self.content.len(),
                self@.index_of(id) == PhraseView::index_in(self@.content, id, i as int),
            decreases self.content.len() - i,
        {
            proof {
                self.lemma_view();
                lemma_content_view_items(self.content@);
            }
            if self.content[i].get_id() == id {
                return Some(i);
            }
            i += 1;
        }
        proof {
            self.lemma_view();
        }
        None
    }

    /// Detaches every modification of the phrase itself that has the given
    /// identifier.
    pub fn remove_modification(&mut self, id: usize) -> (r: &mut Self)
        ensures
            r@ == old(self)@.without_modification(id),
            *final(self) == *final(r),
    {
        proof {
            self.lemma_view();
        }
        discard_phrase_modification(&mut self.modifications, id);
        proof {
            self.lemma_view();
        }
        self
    }

    /// The children of the phrase, in order.
    pub fn iter(&self) -> (r: &[PhraseContent])
        ensures
            content_views(r@) == self@.content,
    {
        proof {
            self.lemma_view();
        }
        self.content.as_slice()
    }
}

impl Phrase {
    /// Takes every note, chord and phrase with the given identifier out of
    /// the phrase, wherever below it they stand, together with what they
    /// hold. An identifier that nothing has changes nothing.
    pub fn remove_item(&mut self, id: usize) -> (r: &mut Self)
        ensures
            r@ == old(self)@.without(id),
            *final(self) == *final(r),
        decreases *old(self),
    {
        proof {
            self.lemma_view();
        }
        let ghost initial = self.content@;
        let ghost before = content_views(initial);
        let mut i: usize = 0;
        let ghost mut done: int = 0;
        while i < self.content.len()
            invariant
                0 <= done <= initial.len(),
                i <= self.content.len(),
                self.content.len() - i == initial.len() - done,
                self.content@.skip(i as int) == initial.skip(done),
                content_views(self.content@).take(i as int) + PhraseView::without_in(
                    before,
                    id,
                    done,
                ) == PhraseView::without_in(before, id, 0),
                self.id == old(self).id,
                self.modifications == old(self).modifications,
                before == content_views(initial),
                initial == old(self).content@,
            decreases self.content.len() - i,
        {
            let ghost current = self.content@;
            proof {
                lemma_content_view_items(initial);
                lemma_content_views(current, i as int, current[0]);
                assert(current[i as int] == current.skip(i as int)[0]);
                assert(current[i as int] == initial[done]);
                assert(current.skip(i as int).skip(1) == current.skip(i + 1));
                assert(initial.skip(done).skip(1) == initial.skip(done + 1));
            }
            if self.content[i].get_id() == id {
                self.content.remove(i);
                proof {
                    lemma_content_views(self.content@, i as int, current[0]);
                    assert(self.content@.skip(i as int) == current.skip(i + 1));
                    assert(content_views(self.content@).take(i as int) == content_views(
                        current,
                    ).take(i as int));
                }
            } else {
                match &mut self.content[i] {
                    PhraseContent::Note(_) => {},
                    PhraseContent::Chord(chord) => {
                        chord.remove_item(id);
                    },
                    PhraseContent::Phrase(phrase) => {
                        phrase.remove_item(id);
                    },
                }
                proof {
                    let changed = self.content@[i as int];
                    assert(self.content@ == current.update(i as int, changed));
                    lemma_content_views(current, i as int, changed);
                    lemma_content_views(self.content@, i + 1, changed);
                    assert(self.content@.skip(i + 1) == current.skip(i + 1));
                    let piece = seq![changed@];
                    assert(content_views(self.content@).take(i + 1) == content_views(current).take(
                        i as int,
                    ) + piece);
                    assert(PhraseView::without_in(before, id, done) == piece
                        + PhraseView::without_in(before, id, done + 1));
                    assert((content_views(current).take(i as int) + piece)
                        + PhraseView::without_in(before, id, done + 1) == content_views(
                        current,
                    ).take(i as int) + (piece + PhraseView::without_in(before, id, done + 1)));
                }
                i += 1;
            }
            proof {
                done = done + 1;
            }
        }
        proof {
            self.lemma_view();
            lemma_content_views(self.content@, i as int, self.content@[0]);
            assert(content_views(self.content@).take(i as int) == content_views(self.content@));
            assert(content_views(self.content@) + Seq::<PhraseContentView>::empty()
                == content_views(self.content@));
        }
        self
    }
}

/// The ratio that the engine computes for the children of a phrase is the
/// exact factor in force for them.
pub proof fn lemma_inner_ratio_is_exact(phrase: PhraseView, inherited: Option<Fraction>)
    requires
        inherited is Some ==> inherited.unwrap().well_formed(),
    ensures
        phrase.inner_ratio(inherited) is Ok ==> {
            let inner = phrase.inner_ratio(inherited).unwrap();
            &&& inner is Some ==> inner.unwrap().well_formed()
            &&& scale(inner) == phrase.exact_inner_ratio(scale(inherited))
            &&& phrase.tuplet() is Some ==> phrase.content.len() > 0
        },
        phrase.inner_ratio(inherited) == Err::<Option<Fraction>, TimingError>(
            TimingError::EmptyTuplet,
        ) <==> phrase.tuplet() is Some && phrase.content.len() == 0,
        phrase.inner_ratio(inherited) != Err::<Option<Fraction>, TimingError>(
            TimingError::NonUniformChord,
        ),
{
    if let Some(b) = phrase.tuplet() {
        if phrase.content.len() > 0 {
            lemma_reduced_value(b as nat, phrase.content.len());
            if let Some(local) = reduced(b as nat, phrase.content.len()) {
                match inherited {
                    None => {
                        let x = local.value();
                        assert(1real * x == x) by (nonlinear_arith);
                    },
                    Some(outer) => {
                        lemma_fraction_arithmetic(outer, local);
                    },
                }
            }
        }
    }
}

/// Adding up the children of a phrase gives the exact sum of their lengths,
/// and fails for a reason other than overflow only where a duration is not
/// defined.
pub proof fn lemma_sum_beats_is_exact(
    items: Seq<PhraseContentView>,
    base: Duration,
    ratio: Option<Fraction>,
    from: int,
    so_far: Fraction,
)
    requires
        ratio is Some ==> ratio.unwrap().well_formed(),
        so_far.well_formed(),
        0 <= from,
    ensures
        match PhraseView::sum_beats(items, base, ratio, from, so_far) {
            Ok(total) => {
                &&& total.well_formed()
                &&& total.value() == so_far.value() + PhraseView::exact_sum(
                    items,
                    base,
                    scale(ratio),
                    from,
                )
                &&& PhraseView::sound_from(items, from)
            },
            Err(e) => e != TimingError::Overflow ==> !PhraseView::sound_from(items, from),
        },
    decreases items, items.len() - from,
{
    if from < items.len() {
        match items[from] {
            PhraseContentView::Note(note) => {
                lemma_note_beats_are_exact(note, base, ratio);
            },
            PhraseContentView::Chord(chord) => {
                lemma_chord_beats_are_exact(chord, base, ratio);
            },
            PhraseContentView::Phrase(phrase) => {
                lemma_phrase_beats_are_exact(phrase, base, ratio);
            },
        }
        let length = match items[from] {
            PhraseContentView::Note(note) => note.beats(base, ratio),
            PhraseContentView::Chord(chord) => chord.beats(base, ratio),
            PhraseContentView::Phrase(phrase) => phrase.beats(base, ratio),
        };
        if let Ok(l) = length {
            lemma_fraction_arithmetic(so_far, l);
            if let Some(sum) = so_far.spec_add(l) {
                lemma_sum_beats_is_exact(items, base, ratio, from + 1, sum);
            }
        }
    }
}

/// The fraction that the engine computes for a phrase is its exact length:
/// the sum of the lengths of its children under the tuplet factor in force
/// for them. It fails for a reason other than overflow only where a
/// duration is not defined.
pub proof fn lemma_phrase_beats_are_exact(phrase: PhraseView, base: Duration, ratio: Option<Fraction>)
    requires
        ratio is Some ==> ratio.unwrap().well_formed(),
    ensures
        match phrase.beats(base, ratio) {
            Ok(total) => {
                &&& total.well_formed()
                &&& total.value() == phrase.exact_beats(base, scale(ratio))
                &&& phrase.sound()
            },
            Err(e) => e != TimingError::Overflow ==> !phrase.sound(),
        },
    decreases phrase,
{
    lemma_inner_ratio_is_exact(phrase, ratio);
    if let Ok(inner) = phrase.inner_ratio(ratio) {
        lemma_ratio_whole(0);
        lemma_sum_beats_is_exact(phrase.content, base, inner, 0, Fraction::spec_zero());
    }
}

impl Phrase {
    /// The beats of the first tuplet among the modifications of the phrase.
    pub(crate) fn tuplet_beats(&self) -> (r: Option<u8>)
        ensures
            r == self@.tuplet(),
    {
        proof {
            self.lemma_view();
        }
        let mut i: usize = 0;
        while i < self.modifications.len()
            invariant
                i <= self.modifications.len(),
                first_tuplet(self.modifications@, 0) == first_tuplet(self.modifications@, i as int),
            decreases self.modifications.len() - i,
        {
            match self.modifications[i].modification {
                PhraseModificationType::Tuplet { into_beats } => {
                    return Some(into_beats);
                },
                _ => {},
            }
            i += 1;
        }
        None
    }

    /// The tuplet ratio in force for the children of the phrase.
    pub(crate) fn ratio_for_children(&self, tuplet_ratio: Option<Fraction>) -> (r: Result<
        Option<Fraction>,
        TimingError,
    >)
        ensures
            r == self@.inner_ratio(tuplet_ratio),
    {
        proof {
            self.lemma_view();
        }
        match self.tuplet_beats() {
            None => Ok(tuplet_ratio),
            Some(into_beats) => {
                let local = match Fraction::new(into_beats as u64, self.content.len() as u64) {
                    None => {
                        return Err(TimingError::EmptyTuplet);
                    },
                    Some(local) => local,
                };
                match tuplet_ratio {
                    None => Ok(Some(local)),
                    Some(outer) => match outer.checked_mul(&local) {
                        None => Err(TimingError::Overflow),
                        Some(product) => Ok(Some(product)),
                    },
                }
            },
        }
    }

    /// The length of the phrase in beats of `base`: the sum of the lengths
    /// of its children. A tuplet into `b` beats over `n` children multiplies
    /// the ratio that the phrase was given by `b / n` for all of them.
    pub fn get_beats(&self, base: &Duration, tuplet_ratio: Option<Fraction>) -> (r: Result<
        Fraction,
        TimingError,
    >)
        ensures
            r == self@.beats(*base, tuplet_ratio),
            r is Ok ==> r.unwrap().value() == self@.exact_beats(*base, scale(tuplet_ratio))
                && self@.sound(),
            r matches Err(e) && e != TimingError::Overflow ==> !self@.sound(),
        decreases self,
    {
        proof {
            self.lemma_view();
            if let Some(ratio) = tuplet_ratio {
                use_type_invariant(ratio);
            }
            lemma_phrase_beats_are_exact(self@, *base, tuplet_ratio);
        }
        let inner = match self.ratio_for_children(tuplet_ratio) {
            Err(e) => {
                return Err(e);
            },
            Ok(inner) => inner,
        };
        let mut total = Fraction::zero();
        let mut i: usize = 0;
        while i < self.content.len()
            invariant
                i <= self.content.len(),
                self@.content == content_views(self.content@),
                self@.beats(*base, tuplet_ratio) == PhraseView::sum_beats(
                    self@.content,
                    *base,
                    inner,
                    i as int,
                    total,
                ),
                self@.beats(*base, tuplet_ratio) is Ok ==> self@.beats(
                    *base,
                    tuplet_ratio,
                ).unwrap().value() == self@.exact_beats(*base, scale(tuplet_ratio))
                    && self@.sound(),
                self@.beats(*base, tuplet_ratio) matches Err(e) && e != TimingError::Overflow
                    ==> !self@.sound(),
            decreases self.content.len() - i,
        {
            proof {
                lemma_content_view_items(self.content@);
            }
            let length = match &self.content[i] {
                PhraseContent::Note(note) => note.get_beats(base, inner),
                PhraseContent::Chord(chord) => chord.get_beats(base, inner),
                PhraseContent::Phrase(phrase) => phrase.get_beats(base, inner),
            };
            match length {
                Err(e) => {
                    return Err(e);
                },
                Ok(length) => match total.checked_add(&length) {
                    None => {
                        return Err(TimingError::Overflow);
                    },
                    Some(sum) => {
                        total = sum;
                    },
                },
            }
            i += 1;
        }
        Ok(total)
    }

    /// The length of the phrase in beats of the tempo.
    pub fn get_duration(&self, tempo: &Tempo, tuplet_ratio: Option<Fraction>) -> (r: Result<
        Fraction,
        TimingError,
    >)
        ensures
            r == self@.beats(tempo.base_note, tuplet_ratio),
            r is Ok ==> r.unwrap().value() == self@.exact_beats(
                tempo.base_note,
                scale(tuplet_ratio),
            ) && self@.sound(),
            r matches Err(e) && e != TimingError::Overflow ==> !self@.sound(),
    {
        self.get_beats(&tempo.base_note, tuplet_ratio)
    }
}

impl Clone for PhraseContent {
    fn clone(&self) -> (r: Self)
        ensures
            r@ == self@,
        decreases self,
    {
        match self {
            PhraseContent::Note(note) => PhraseContent::Note(note.clone()),
            PhraseContent::Chord(chord) => PhraseContent::Chord(chord.clone()),
            PhraseContent::Phrase(phrase) => PhraseContent::Phrase(phrase.clone()),
        }
    }
}

impl Clone for Phrase {
    fn clone(&self) -> (r: Self)
        ensures
            r@ == self@,
        decreases self,
    {
        let mut content: Vec<PhraseContent> = Vec::new();
        let mut i: usize = 0;
        while i < self.content.len()
            invariant
                i <= self.content.len(),
                content_views(content@) == content_views(self.content@).take(i as int),
            decreases self.content.len() - i,
        {
            let item = self.content[i].clone();
            proof {
                lemma_content_views(content@, 0, item);
                lemma_content_views(self.content@, 0, item);
                assert(content_views(self.content@).take(i + 1) == content_views(
                    self.content@,
                ).take(i as int).push(content_views(self.content@)[i as int]));
            }
            content.push(item);
            i += 1;
        }
        let mut modifications: Vec<PhraseModification> = Vec::new();
        let mut j: usize = 0;
        while j < self.modifications.len()
            invariant
                j <= self.modifications.len(),
                modifications@ == self.modifications@.take(j as int),
            decreases self.modifications.len() - j,
        {
            modifications.push(self.modifications[j]);
            proof {
                assert(self.modifications@.take(j + 1) == self.modifications@.take(j as int).push(
                    self.modifications@[j as int],
                ));
            }
            j += 1;
        }
        let r = Phrase { id: self.id, content, modifications };
        proof {
            self.lemma_view();
            r.lemma_view();
            lemma_content_view_items(self.content@);
            assert(content_views(self.content@).take(i as int) == content_views(self.content@));
            assert(self.modifications@.take(j as int) == self.modifications@);
        }
        r
    }
}

} // verus!
