//! Staves: items that follow one another without overlap.

use crate::context::id::IdRegistry;
use crate::context::tempo::Tempo;
use crate::error::{StructureError, TimingError};
use crate::model::{first_some, pruned, total};
use crate::note::duration::Duration;
use crate::note::note::{Note, NoteView};
use crate::structure::chord::{Chord, ChordView, lemma_chord_beats_are_exact};
use crate::structure::multivoice::{
    lemma_exact_max_is_not_negative, lemma_max_beats_is_exact, MultiVoice, MultiVoiceView,
};
use crate::structure::phrase::{lemma_phrase_beats_are_exact, Phrase, PhraseView};
use crate::temporal::fraction::{Fraction, lemma_fraction_arithmetic, lemma_ratio_whole};
use vstd::prelude::*;

verus! {

/// An item of a staff.
#[derive(Debug)]
pub enum StaffContent {
    Phrase(Phrase),
    Chord(Chord),
    MultiVoice(MultiVoice),
}

/// A staff: items that follow one another without overlap, each starting
/// where the one before it ends.
#[derive(Debug)]
pub struct Staff {
    pub(crate) id: usize,
    pub(crate) content: Vec<StaffContent>,
}

/// What an item of a staff is, as plain data.
pub enum StaffContentView {
    Phrase(PhraseView),
    Chord(ChordView),
    MultiVoice(MultiVoiceView),
}

/// What a staff is, as plain data.
pub struct StaffView {
    pub id: usize,
    pub content: Seq<StaffContentView>,
}

impl View for StaffContent {
    type V = StaffContentView;

    open spec fn view(&self) -> StaffContentView {
        match self {
            StaffContent::Phrase(phrase) => StaffContentView::Phrase(phrase@),
            StaffContent::Chord(chord) => StaffContentView::Chord(chord@),
            StaffContent::MultiVoice(voices) => StaffContentView::MultiVoice(voices@),
        }
    }
}

/// The views of the items of a staff, in order.
pub open spec fn item_views(items: Seq<StaffContent>) -> Seq<StaffContentView> {
    Seq::new(items.len(), |i: int| items[i]@)
}

impl View for Staff {
    type V = StaffView;

    open(crate) spec fn view(&self) -> StaffView {
        StaffView { id: self.id, content: item_views(self.content@) }
    }
}

/// How `item_views` goes with the operations that change a vector.
pub proof fn lemma_item_views(items: Seq<StaffContent>, at: int, item: StaffContent)
    ensures
        item_views(items).len() == items.len(),
        item_views(items.push(item)) == item_views(items).push(item@),
        0 <= at <= items.len() ==> item_views(items.insert(at, item)) == item_views(items).insert(
            at,
            item@,
        ),
        0 <= at < items.len() ==> item_views(items.remove(at)) == item_views(items).remove(at),
        0 <= at < items.len() ==> item_views(items.update(at, item)) == item_views(items).update(
            at,
            item@,
        ),
        item_views(Seq::<StaffContent>::empty()) == Seq::<StaffContentView>::empty(),
{
    assert(item_views(items.push(item)) =~= item_views(items).push(item@));
    if 0 <= at <= items.len() {
        assert(item_views(items.insert(at, item)) =~= item_views(items).insert(at, item@));
    }
    if 0 <= at < items.len() {
        assert(item_views(items.remove(at)) =~= item_views(items).remove(at));
        assert(item_views(items.update(at, item)) =~= item_views(items).update(at, item@));
    }
    assert(item_views(Seq::<StaffContent>::empty()) =~= Seq::<StaffContentView>::empty());
}

impl StaffContentView {
    /// The identifier of the item.
    pub open spec fn id(self) -> usize {
        match self {
            StaffContentView::Phrase(phrase) => phrase.id,
            StaffContentView::Chord(chord) => chord.id,
            StaffContentView::MultiVoice(voices) => voices.id,
        }
    }

    /// The first note in the item with the given identifier.
    pub open spec fn find_note(self, id: usize) -> Option<NoteView> {
        match self {
            StaffContentView::Phrase(phrase) => phrase.find_note(id),
            StaffContentView::Chord(chord) => chord.find_note(id),
            StaffContentView::MultiVoice(voices) => voices.find_note(id),
        }
    }

    /// The first chord with the given identifier: the item itself, or one
    /// in it.
    pub open spec fn find_chord(self, id: usize) -> Option<ChordView> {
        match self {
            StaffContentView::Phrase(phrase) => phrase.find_chord(id),
            StaffContentView::Chord(chord) => if chord.id == id {
                Some(chord)
            } else {
                None
            },
            StaffContentView::MultiVoice(voices) => voices.find_chord(id),
        }
    }

    /// The first phrase with the given identifier: the item itself, or one
    /// in it.
    pub open spec fn find_phrase(self, id: usize) -> Option<PhraseView> {
        match self {
            StaffContentView::Phrase(phrase) => if phrase.id == id {
                Some(phrase)
            } else {
                phrase.find_phrase(id)
            },
            StaffContentView::Chord(chord) => None,
            StaffContentView::MultiVoice(voices) => voices.find_phrase(id),
        }
    }

    /// The item itself, where it is a group of voices with the given
    /// identifier.
    pub open spec fn find_multivoice(self, id: usize) -> Option<MultiVoiceView> {
        match self {
            StaffContentView::MultiVoice(voices) => if voices.id == id {
                Some(voices)
            } else {
                None
            },
            _ => None,
        }
    }

    /// The item without what has the given identifier in it.
    pub open spec fn without(self, id: usize) -> StaffContentView {
        match self {
            StaffContentView::Phrase(phrase) => StaffContentView::Phrase(phrase.without(id)),
            StaffContentView::Chord(chord) => StaffContentView::Chord(chord.without(id)),
            StaffContentView::MultiVoice(voices) => StaffContentView::MultiVoice(voices.without(id)),
        }
    }

    /// Whether the item or anything in it has the identifier.
    pub open spec fn has_id(self, id: usize) -> bool {
        match self {
            StaffContentView::Phrase(phrase) => phrase.has_id(id),
            StaffContentView::Chord(chord) => chord.has_id(id),
            StaffContentView::MultiVoice(voices) => voices.has_id(id),
        }
    }

    /// The length of the item in beats of `base`.
    pub open spec fn exact_beats(self, base: Duration) -> real {
        match self {
            StaffContentView::Phrase(phrase) => phrase.exact_beats(base, 1real),
            StaffContentView::Chord(chord) => chord.exact_beats(base, 1real),
            StaffContentView::MultiVoice(voices) => voices.exact_beats(base),
        }
    }

    /// The length of the item in beats as a fraction, or the reason why
    /// there is none.
    pub open spec fn beats(self, base: Duration) -> Result<Fraction, TimingError> {
        match self {
            StaffContentView::Phrase(phrase) => phrase.beats(base, None),
            StaffContentView::Chord(chord) => chord.beats(base, None),
            StaffContentView::MultiVoice(voices) => voices.beats(base),
        }
    }

    /// Whether durations are defined throughout the item.
    pub open spec fn sound(self) -> bool {
        match self {
            StaffContentView::Phrase(phrase) => phrase.sound(),
            StaffContentView::Chord(chord) => chord.uniform(),
            StaffContentView::MultiVoice(voices) => voices.sound(),
        }
    }

    /// The number of notes in the item.
    pub open spec fn note_count(self) -> nat {
        match self {
            StaffContentView::Phrase(phrase) => phrase.note_count(),
            StaffContentView::Chord(chord) => chord.notes.len(),
            StaffContentView::MultiVoice(voices) => voices.note_count(),
        }
    }
}

/// Looks for a note in an item of a staff.
pub open spec fn note_in_item(id: usize) -> spec_fn(StaffContentView) -> Option<NoteView> {
    |item: StaffContentView| item.find_note(id)
}

/// Looks for a chord in an item of a staff.
pub open spec fn chord_in_item(id: usize) -> spec_fn(StaffContentView) -> Option<ChordView> {
    |item: StaffContentView| item.find_chord(id)
}

/// Looks for a phrase in an item of a staff.
pub open spec fn phrase_in_item(id: usize) -> spec_fn(StaffContentView) -> Option<PhraseView> {
    |item: StaffContentView| item.find_phrase(id)
}

/// Looks for a group of voices in an item of a staff.
pub open spec fn multivoice_in_item(id: usize) -> spec_fn(StaffContentView) -> Option<
    MultiVoiceView,
> {
    |item: StaffContentView| item.find_multivoice(id)
}

/// Whether an item of a staff has the identifier.
pub open spec fn item_is(id: usize) -> spec_fn(StaffContentView) -> bool {
    |item: StaffContentView| item.id() == id
}

/// Removes an identifier from an item of a staff.
pub open spec fn item_without(id: usize) -> spec_fn(StaffContentView) -> StaffContentView {
    |item: StaffContentView| item.without(id)
}

/// Counts the notes of an item of a staff.
pub open spec fn notes_of_item() -> spec_fn(StaffContentView) -> nat {
    |item: StaffContentView| item.note_count()
}

impl StaffView {
    /// The length of the staff in beats of `base`: the sum of the lengths of
    /// its items.
    pub open spec fn exact_beats(self, base: Duration) -> real {
        Self::exact_sum(self.content, base, 0)
    }

    /// The sum of the lengths of the items from position `from` on.
    pub open spec fn exact_sum(items: Seq<StaffContentView>, base: Duration, from: int) -> real
        decreases items.len() - from,
    {
        if from < 0 || from >= items.len() {
            0real
        } else {
            items[from].exact_beats(base) + Self::exact_sum(items, base, from + 1)
        }
    }

    /// The time in beats at which the item at position `at` starts: the sum
    /// of the lengths of the items before it.
    pub open spec fn exact_onset(self, base: Duration, at: int) -> real {
        Self::exact_sum(self.content.take(at), base, 0)
    }

    /// Whether durations are defined throughout the staff.
    pub open spec fn sound(self) -> bool {
        forall|i: int| 0 <= i < self.content.len() ==> (#[trigger] self.content[i]).sound()
    }

    /// The length of the staff in beats as a fraction, or the first reason
    /// met, in the order of the items, why there is none.
    pub open spec fn beats(self, base: Duration) -> Result<Fraction, TimingError> {
        Self::sum_beats(self.content, base, 0, Fraction::spec_zero())
    }

    /// The lengths of the items from position `from` on, added to `so_far`
    /// one after the other.
    pub open spec fn sum_beats(
        items: Seq<StaffContentView>,
        base: Duration,
        from: int,
        so_far: Fraction,
    ) -> Result<Fraction, TimingError>
        decreases items.len() - from,
    {
        if from < 0 || from >= items.len() {
            Ok(so_far)
        } else {
            match items[from].beats(base) {
                Err(e) => Err(e),
                Ok(length) => match so_far.spec_add(length) {
                    None => Err(TimingError::Overflow),
                    Some(sum) => Self::sum_beats(items, base, from + 1, sum),
                },
            }
        }
    }

    /// The first note with the given identifier, item by item.
    pub open spec fn find_note(self, id: usize) -> Option<NoteView> {
        first_some(self.content, note_in_item(id), 0)
    }

    /// The first chord with the given identifier, item by item.
    pub open spec fn find_chord(self, id: usize) -> Option<ChordView> {
        first_some(self.content, chord_in_item(id), 0)
    }

    /// The first phrase with the given identifier, item by item.
    pub open spec fn find_phrase(self, id: usize) -> Option<PhraseView> {
        first_some(self.content, phrase_in_item(id), 0)
    }

    /// The first group of voices with the given identifier.
    pub open spec fn find_multivoice(self, id: usize) -> Option<MultiVoiceView> {
        first_some(self.content, multivoice_in_item(id), 0)
    }

    /// The position of the first item with the given identifier.
    pub open spec fn index_of(self, id: usize) -> Option<int> {
        Self::index_in(self.content, id, 0)
    }

    /// The position of the first item with the given identifier from
    /// position `from` on.
    pub open spec fn index_in(items: Seq<StaffContentView>, id: usize, from: int) -> Option<int>
        decreases items.len() - from,
    {
        if from < 0 || from >= items.len() {
            None
        } else if items[from].id() == id {
            Some(from)
        } else {
            Self::index_in(items, id, from + 1)
        }
    }

    /// The staff without the items that have the identifier, and without
    /// what has it in the others.
    pub open spec fn without(self, id: usize) -> StaffView {
        StaffView { id: self.id, content: pruned(self.content, item_is(id), item_without(id), 0) }
    }

    /// The staff with one more item at position `at`.
    pub open spec fn with_item(self, at: int, item: StaffContentView) -> StaffView {
        StaffView { id: self.id, content: self.content.insert(at, item) }
    }

    /// Whether the staff or anything in it has the identifier.
    pub open spec fn has_id(self, id: usize) -> bool {
        self.id == id || exists|i: int|
            0 <= i < self.content.len() && (#[trigger] self.content[i]).has_id(id)
    }

    /// Whether every identifier in the staff lies below the bound.
    pub open spec fn below(self, bound: int) -> bool {
        forall|id: usize| #[trigger] self.has_id(id) ==> id < bound
    }

    /// The number of notes in the staff.
    pub open spec fn note_count(self) -> nat {
        total(self.content, notes_of_item(), 0)
    }

    /// Whether an item of the staff is a group of parallel voices.
    pub open spec fn has_multivoice(self) -> bool {
        exists|i: int| 0 <= i < self.content.len() && (#[trigger] self.content[i]) is MultiVoice
    }
}

/// The fraction that the engine computes for an item of a staff is its
/// exact length.
pub proof fn lemma_item_beats_are_exact(item: StaffContentView, base: Duration)
    ensures
        match item.beats(base) {
            Ok(length) => {
                &&& length.well_formed()
                &&& length.value() == item.exact_beats(base)
                &&& item.sound()
            },
            Err(e) => e != TimingError::Overflow ==> !item.sound(),
        },
{
    match item {
        StaffContentView::Phrase(phrase) => {
            lemma_phrase_beats_are_exact(phrase, base, None);
        },
        StaffContentView::Chord(chord) => {
            lemma_chord_beats_are_exact(chord, base, None);
        },
        StaffContentView::MultiVoice(voices) => {
            lemma_ratio_whole(0);
            lemma_max_beats_is_exact(voices.voices, base, 0, Fraction::spec_zero());
            lemma_exact_max_is_not_negative(voices.voices, base, 0);
            if let Err(e) = voices.beats(base) {
                if e != TimingError::Overflow {
                    let i = choose|i: int|
                        0 <= i < voices.voices.len() && !(#[trigger] voices.voices[i]).sound();
                    assert(!voices.voices[i].sound());
                }
            }
        },
    }
}

/// The fraction that the engine computes for a staff is the exact sum of
/// the lengths of its items.
pub proof fn lemma_staff_sum_is_exact(
    items: Seq<StaffContentView>,
    base: Duration,
    from: int,
    so_far: Fraction,
)
    requires
        0 <= from,
        so_far.well_formed(),
    ensures
        match StaffView::sum_beats(items, base, from, so_far) {
            Ok(sum) => {
                &&& sum.well_formed()
                &&& sum.value() == so_far.value() + StaffView::exact_sum(items, base, from)
                &&& forall|i: int| from <= i < items.len() ==> (#[trigger] items[i]).sound()
                &&& forall|i: int| from <= i < items.len() ==> (#[trigger] items[i]).beats(base) is Ok
            },
            Err(e) => e != TimingError::Overflow ==> exists|i: int|
                from <= i < items.len() && !(#[trigger] items[i]).sound(),
        },
    decreases items.len() - from,
{
    if from < items.len() {
        lemma_item_beats_are_exact(items[from], base);
        match items[from].beats(base) {
            Ok(length) => {
                lemma_fraction_arithmetic(so_far, length);
                match so_far.spec_add(length) {
                    Some(sum) => {
                        lemma_staff_sum_is_exact(items, base, from + 1, sum);
                        match StaffView::sum_beats(items, base, from, so_far) {
                            Ok(all) => {
                                assert forall|i: int| from <= i < items.len()
                                    implies (#[trigger] items[i]).sound() by {
                                    if i > from {
                                        assert(items[i].sound());
                                    }
                                }
                                assert forall|i: int| from <= i < items.len()
                                    implies (#[trigger] items[i]).beats(
                                    base,
                                ) is Ok by {
                                    if i > from {
                                        assert(items[i].beats(base) is Ok);
                                    }
                                }
                            },
                            Err(e) => {
                                if e != TimingError::Overflow {
                                    let i = choose|i: int|
                                        from + 1 <= i < items.len()
                                            && !(#[trigger] items[i]).sound();
                                    assert(!items[i].sound());
                                }
                            },
                        }
                    },
                    None => {},
                }
            },
            Err(e) => {
                if e != TimingError::Overflow {
                    assert(!items[from].sound());
                }
            },
        }
    }
}

impl StaffContent {
    /// The identifier of the item.
    pub fn get_id(&self) -> (r: usize)
        ensures
            r == self@.id(),
    {
        match self {
            StaffContent::Phrase(phrase) => phrase.get_id(),
            StaffContent::Chord(chord) => chord.get_id(),
            StaffContent::MultiVoice(voices) => voices.get_id(),
        }
    }

    /// The length of the item in beats of `base`.
    pub fn get_beats(&self, base: &Duration) -> (r: Result<Fraction, TimingError>)
        ensures
            r == self@.beats(*base),
            r is Ok ==> r.unwrap().value() == self@.exact_beats(*base) && self@.sound(),
            r matches Err(e) && e != TimingError::Overflow ==> !self@.sound(),
    {
        proof {
            lemma_item_beats_are_exact(self@, *base);
        }
        match self {
            StaffContent::Phrase(phrase) => phrase.get_beats(base, None),
            StaffContent::Chord(chord) => chord.get_beats(base, None),
            StaffContent::MultiVoice(voices) => voices.get_beats(base),
        }
    }
}

impl Clone for StaffContent {
    fn clone(&self) -> (r: Self)
        ensures
            r@ == self@,
    {
        match self {
            StaffContent::Phrase(phrase) => StaffContent::Phrase(phrase.clone()),
            StaffContent::Chord(chord) => StaffContent::Chord(chord.clone()),
            StaffContent::MultiVoice(voices) => StaffContent::MultiVoice(voices.clone()),
        }
    }
}

impl Staff {
    /// An empty staff with the next identifier of the registry.
    pub fn new(registry: &mut IdRegistry) -> (r: Self)
        requires
            old(registry).spec_remaining() > 0,
        ensures
            r@ == (StaffView { id: old(registry).next_id(), content: Seq::empty() }),
            *final(registry) == old(registry).after(1),
            final(registry).next_id() == old(registry).next_id() + 1,
    {
        let r = Staff { id: registry.generate_id(), content: Vec::new() };
        proof {
            assert(r@.content =~= Seq::empty());
        }
        r
    }

    pub fn get_id(&self) -> (r: usize)
        ensures
            r == self@.id,
    {
        self.id
    }

    /// The number of items of the staff.
    pub fn len(&self) -> (r: usize)
        ensures
            r == self@.content.len(),
    {
        self.content.len()
    }

    /// Puts `item` at position `index`.
    fn place(&mut self, index: usize, item: StaffContent)
        requires
            index <= old(self)@.content.len(),
        ensures
            final(self)@ == old(self)@.with_item(index as int, item@),
    {
        proof {
            lemma_item_views(self.content@, index as int, item);
        }
        self.content.insert(index, item);
    }

    /// Puts a new, empty phrase at the end of the staff and returns its
    /// identifier.
    pub fn add_phrase(&mut self, registry: &mut IdRegistry) -> (id: usize)
        requires
            old(registry).spec_remaining() > 0,
        ensures
            id == old(registry).next_id(),
            *final(registry) == old(registry).after(1),
            final(registry).next_id() == old(registry).next_id() + 1,
            final(self)@ == old(self)@.with_item(
                old(self)@.content.len() as int,
                StaffContentView::Phrase(PhraseView::empty(id)),
            ),
            old(self)@.below(old(registry).next_id() as int) ==> final(self)@.below(
                final(registry).next_id() as int,
            ),
    {
        proof {
            let item = StaffContentView::Phrase(PhraseView::empty(registry.next_id()));
            if self@.below(registry.next_id() as int) {
                crate::laws::lemma_staff_stays_below(
                    self@,
                    self@.content.len() as int,
                    item,
                    registry.next_id() + 1,
                );
            }
        }
        let phrase = Phrase::new(registry);
        let id = phrase.get_id();
        self.place(self.content.len(), StaffContent::Phrase(phrase));
        id
    }

    /// Puts a new, empty chord at the end of the staff and returns its
    /// identifier.
    pub fn add_chord(&mut self, registry: &mut IdRegistry) -> (id: usize)
        requires
            old(registry).spec_remaining() > 0,
        ensures
            id == old(registry).next_id(),
            *final(registry) == old(registry).after(1),
            final(registry).next_id() == old(registry).next_id() + 1,
            final(self)@ == old(self)@.with_item(
                old(self)@.content.len() as int,
                StaffContentView::Chord(ChordView { id, notes: Seq::empty() }),
            ),
            old(self)@.below(old(registry).next_id() as int) ==> final(self)@.below(
                final(registry).next_id() as int,
            ),
    {
        proof {
            let item = StaffContentView::Chord(ChordView {
                id: registry.next_id(),
                notes: Seq::empty(),
            });
            if self@.below(registry.next_id() as int) {
                crate::laws::lemma_staff_stays_below(
                    self@,
                    self@.content.len() as int,
                    item,
                    registry.next_id() + 1,
                );
            }
        }
        let chord = Chord::new(registry);
        let id = chord.get_id();
        self.place(self.content.len(), StaffContent::Chord(chord));
        id
    }

    /// Puts a new group of voices, still without a voice, at the end of the
    /// staff and returns its identifier.
    pub fn add_multivoice(&mut self, registry: &mut IdRegistry) -> (id: usize)
        requires
            old(registry).spec_remaining() > 0,
        ensures
            id == old(registry).next_id(),
            *final(registry) == old(registry).after(1),
            final(registry).next_id() == old(registry).next_id() + 1,
            final(self)@ == old(self)@.with_item(
                old(self)@.content.len() as int,
                StaffContentView::MultiVoice(MultiVoiceView { id, voices: Seq::empty() }),
            ),
            old(self)@.below(old(registry).next_id() as int) ==> final(self)@.below(
                final(registry).next_id() as int,
            ),
    {
        proof {
            let item = StaffContentView::MultiVoice(MultiVoiceView {
                id: registry.next_id(),
                voices: Seq::empty(),
            });
            if self@.below(registry.next_id() as int) {
                crate::laws::lemma_staff_stays_below(
                    self@,
                    self@.content.len() as int,
                    item,
                    registry.next_id() + 1,
                );
            }
        }
        let voices = MultiVoice::new(registry);
        let id = voices.get_id();
        self.place(self.content.len(), StaffContent::MultiVoice(voices));
        id
    }

    /// Puts a new, empty phrase at position `index` and returns its
    /// identifier, or changes nothing where the position lies beyond the end.
    pub fn insert_phrase(&mut self, registry: &mut IdRegistry, index: usize) -> (r: Result<
        usize,
        StructureError,
    >)
        requires
            old(registry).spec_remaining() > 0,
        ensures
            match r {
                Ok(id) => {
                    &&& index <= old(self)@.content.len()
                    &&& id == old(registry).next_id()
                    &&& *final(registry) == old(registry).after(1)
                    &&& final(registry).next_id() == old(registry).next_id() + 1
                    &&& final(self)@ == old(self)@.with_item(
                        index as int,
                        StaffContentView::Phrase(PhraseView::empty(id)),
                    )
                },
                Err(e) => {
                    &&& e == StructureError::IndexOutOfRange
                    &&& index > old(self)@.content.len()
                    &&& *final(registry) == *old(registry)
                    &&& final(self)@ == old(self)@
                },
            },
            old(self)@.below(old(registry).next_id() as int) ==> final(self)@.below(
                final(registry).next_id() as int,
            ),
    {
        proof {
            let item = StaffContentView::Phrase(PhraseView::empty(registry.next_id()));
            if self@.below(registry.next_id() as int) && index <= self@.content.len() {
                crate::laws::lemma_staff_stays_below(
                    self@,
                    index as int,
                    item,
                    registry.next_id() + 1,
                );
            }
        }
        if index > self.content.len() {
            return Err(StructureError::IndexOutOfRange);
        }
        let phrase = Phrase::new(registry);
        let id = phrase.get_id();
        self.place(index, StaffContent::Phrase(phrase));
        Ok(id)
    }

    /// Puts a new, empty chord at position `index` and returns its
    /// identifier, or changes nothing where the position lies beyond the end.
    pub fn insert_chord(&mut self, registry: &mut IdRegistry, index: usize) -> (r: Result<
        usize,
        StructureError,
    >)
        requires
            old(registry).spec_remaining() > 0,
        ensures
            match r {
                Ok(id) => {
                    &&& index <= old(self)@.content.len()
                    &&& id == old(registry).next_id()
                    &&& *final(registry) == old(registry).after(1)
                    &&& final(registry).next_id() == old(registry).next_id() + 1
                    &&& final(self)@ == old(self)@.with_item(
                        index as int,
                        StaffContentView::Chord(ChordView { id, notes: Seq::empty() }),
                    )
                },
                Err(e) => {
                    &&& e == StructureError::IndexOutOfRange
                    &&& index > old(self)@.content.len()
                    &&& *final(registry) == *old(registry)
                    &&& final(self)@ == old(self)@
                },
            },
            old(self)@.below(old(registry).next_id() as int) ==> final(self)@.below(
                final(registry).next_id() as int,
            ),
    {
        proof {
            let item = StaffContentView::Chord(ChordView {
                id: registry.next_id(),
                notes: Seq::empty(),
            });
            if self@.below(registry.next_id() as int) && index <= self@.content.len() {
                crate::laws::lemma_staff_stays_below(
                    self@,
                    index as int,
                    item,
                    registry.next_id() + 1,
                );
            }
        }
        if index > self.content.len() {
            return Err(StructureError::IndexOutOfRange);
        }
        let chord = Chord::new(registry);
        let id = chord.get_id();
        self.place(index, StaffContent::Chord(chord));
        Ok(id)
    }

    /// Puts a new group of voices at position `index` and returns its
    /// identifier, or changes nothing where the position lies beyond the end.
    pub fn insert_multivoice(&mut self, registry: &mut IdRegistry, index: usize) -> (r: Result<
        usize,
        StructureError,
    >)
        requires
            old(registry).spec_remaining() > 0,
        ensures
            match r {
                Ok(id) => {
                    &&& index <= old(self)@.content.len()
                    &&& id == old(registry).next_id()
                    &&& *final(registry) == old(registry).after(1)
                    &&& final(registry).next_id() == old(registry).next_id() + 1
                    &&& final(self)@ == old(self)@.with_item(
                        index as int,
                        StaffContentView::MultiVoice(MultiVoiceView { id, voices: Seq::empty() }),
                    )
                },
                Err(e) => {
                    &&& e == StructureError::IndexOutOfRange
                    &&& index > old(self)@.content.len()
                    &&& *final(registry) == *old(registry)
                    &&& final(self)@ == old(self)@
                },
            },
            old(self)@.below(old(registry).next_id() as int) ==> final(self)@.below(
                final(registry).next_id() as int,
            ),
    {
        proof {
            let item = StaffContentView::MultiVoice(MultiVoiceView {
                id: registry.next_id(),
                voices: Seq::empty(),
            });
            if self@.below(registry.next_id() as int) && index <= self@.content.len() {
                crate::laws::lemma_staff_stays_below(
                    self@,
                    index as int,
                    item,
                    registry.next_id() + 1,
                );
            }
        }
        if index > self.content.len() {
            return Err(StructureError::IndexOutOfRange);
        }
        let voices = MultiVoice::new(registry);
        let id = voices.get_id();
        self.place(index, StaffContent::MultiVoice(voices));
        Ok(id)
    }

    /// The first note with the given identifier, searching depth first.
    pub fn get_note(&self, id: usize) -> (r: Option<&Note>)
        ensures
            match r {
                Some(note) => Some(note@) == self@.find_note(id),
                None => self@.find_note(id) is None,
            },
    {
        let mut i: usize = 0;
        while i < self.content.len()
            invariant
                i <= self.content.len(),
                self@.find_note(id) == first_some(self@.content, note_in_item(id), i as int),
            decreases self.content.len() - i,
        {
            let here = match &self.content[i] {
                StaffContent::Phrase(phrase) => phrase.get_note(id),
                StaffContent::Chord(chord) => chord.get_note(id),
                StaffContent::MultiVoice(voices) => voices.get_note(id),
            };
            if here.is_some() {
                return here;
            }
            i += 1;
        }
        None
    }

    /// The first chord with the given identifier, searching depth first.
    pub fn get_chord(&self, id: usize) -> (r: Option<&Chord>)
        ensures
            match r {
                Some(chord) => Some(chord@) == self@.find_chord(id),
                None => self@.find_chord(id) is None,
            },
    {
        let mut i: usize = 0;
        while i < self.content.len()
            invariant
                i <= self.content.len(),
                self@.find_chord(id) == first_some(self@.content, chord_in_item(id), i as int),
            decreases self.content.len() - i,
        {
            let here = match &self.content[i] {
                StaffContent::Phrase(phrase) => phrase.get_chord(id),
                StaffContent::Chord(chord) => if chord.get_id() == id {
                    Some(chord)
                } else {
                    None
                },
                StaffContent::MultiVoice(voices) => voices.get_chord(id),
            };
            if here.is_some() {
                return here;
            }
            i += 1;
        }
        None
    }

    /// The first phrase with the given identifier, searching depth first.
    pub fn get_phrase(&self, id: usize) -> (r: Option<&Phrase>)
        ensures
            match r {
                Some(phrase) => Some(phrase@) == self@.find_phrase(id),
                None => self@.find_phrase(id) is None,
            },
    {
        let mut i: usize = 0;
        while i < self.content.len()
            invariant
                i <= self.content.len(),
                self@.find_phrase(id) == first_some(self@.content, phrase_in_item(id), i as int),
            decreases self.content.len() - i,
        {
            let here = match &self.content[i] {
                StaffContent::Phrase(phrase) => if phrase.get_id() == id {
                    Some(phrase)
                } else {
                    phrase.get_phrase(id)
                },
                StaffContent::Chord(_) => None,
                StaffContent::MultiVoice(voices) => voices.get_phrase(id),
            };
            if here.is_some() {
                return here;
            }
            i += 1;
        }
        None
    }

    /// The first group of voices with the given identifier.
    pub fn get_multivoice(&self, id: usize) -> (r: Option<&MultiVoice>)
        ensures
            match r {
                Some(voices) => Some(voices@) == self@.find_multivoice(id),
                None => self@.find_multivoice(id) is None,
            },
    {
        let mut i: usize = 0;
        while i < self.content.len()
            invariant
                i <= self.content.len(),
                self@.find_multivoice(id) == first_some(
                    self@.content,
                    multivoice_in_item(id),
                    i as int,
                ),
            decreases self.content.len() - i,
        {
            let here = match &self.content[i] {
                StaffContent::MultiVoice(voices) => if voices.get_id() == id {
                    Some(voices)
                } else {
                    None
                },
                _ => None,
            };
            if here.is_some() {
                return here;
            }
            i += 1;
        }
        None
    }

    /// The position of the first item with the given identifier.
    pub fn get_index_of_item(&self, id: usize) -> (r: Option<usize>)
        ensures
            match r {
                Some(index) => Some(index as int) == self@.index_of(id),
                None => self@.index_of(id) is None,
            },
    {
        let mut i: usize = 0;
        while i < self.content.len()
            invariant
                i <= self.content.len(),
                self@.index_of(id) == StaffView::index_in(self@.content, id, i as int),
            decreases self.content.len() - i,
        {
            if self.content[i].get_id() == id {
                return Some(i);
            }
            i += 1;
        }
        None
    }

    /// Takes out the items with the given identifier, and everything with
    /// that identifier in the other items.
    pub fn remove_item(&mut self, id: usize)
        ensures
            final(self)@ == old(self)@.without(id),
    {
        let ghost before = self@.content;
        let ghost gone = item_is(id);
        let ghost prune = item_without(id);
        let mut i: usize = 0;
        let ghost mut done: int = 0;
        while i < self.content.len()
            invariant
                0 <= done <= before.len(),
                i <= self.content.len(),
                self.content.len() - i == before.len() - done,
                self@.content.skip(i as int) == before.skip(done),
                self@.content.take(i as int) + pruned(before, gone, prune, done) == pruned(
                    before,
                    gone,
                    prune,
                    0,
                ),
                self@.id == old(self)@.id,
                before == old(self)@.content,
                gone == item_is(id),
                prune == item_without(id),
            decreases self.content.len() - i,
        {
            let ghost current = self.content@;
            let ghost shown = self@.content;
            proof {
                assert(shown[i as int] == shown.skip(i as int)[0]);
                assert(shown.skip(i as int).skip(1) == shown.skip(i + 1));
                assert(before.skip(done).skip(1) == before.skip(done + 1));
            }
            if self.content[i].get_id() == id {
                self.content.remove(i);
                proof {
                    lemma_item_views(current, i as int, current[0]);
                    assert(self@.content.skip(i as int) == shown.skip(i + 1));
                    assert(self@.content.take(i as int) == shown.take(i as int));
                }
            } else {
                match &mut self.content[i] {
                    StaffContent::Phrase(phrase) => {
                        phrase.remove_item(id);
                    },
                    StaffContent::Chord(chord) => {
                        chord.remove_item(id);
                    },
                    StaffContent::MultiVoice(voices) => {
                        voices.remove_item(id);
                    },
                }
                proof {
                    let changed = self.content@[i as int];
                    assert(self.content@ == current.update(i as int, changed));
                    lemma_item_views(current, i as int, changed);
                    assert(self@.content.skip(i + 1) == shown.skip(i + 1));
                    let piece = seq![changed@];
                    assert(self@.content.take(i + 1) == shown.take(i as int) + piece);
                    assert((shown.take(i as int) + piece) + pruned(before, gone, prune, done + 1)
                        == shown.take(i as int) + (piece + pruned(before, gone, prune, done + 1)));
                }
                i += 1;
            }
            proof {
                done = done + 1;
            }
        }
        proof {
            assert(self@.content.take(i as int) == self@.content);
            assert(self@.content + Seq::<StaffContentView>::empty() == self@.content);
        }
    }

    /// The length of the staff in beats of `base`: the sum of the lengths of
    /// its items.
    pub fn get_beats(&self, base: &Duration) -> (r: Result<Fraction, TimingError>)
        ensures
            r == self@.beats(*base),
            r is Ok ==> r.unwrap().value() == self@.exact_beats(*base) && self@.sound(),
            r matches Err(e) && e != TimingError::Overflow ==> !self@.sound(),
    {
        proof {
            lemma_ratio_whole(0);
            lemma_staff_sum_is_exact(self@.content, *base, 0, Fraction::spec_zero());
        }
        let mut sum = Fraction::zero();
        let mut i: usize = 0;
        while i < self.content.len()
            invariant
                i <= self.content.len(),
                self@.beats(*base) == StaffView::sum_beats(self@.content, *base, i as int, sum),
            decreases self.content.len() - i,
        {
            match self.content[i].get_beats(base) {
                Err(e) => {
                    return Err(e);
                },
                Ok(length) => match sum.checked_add(&length) {
                    None => {
                        return Err(TimingError::Overflow);
                    },
                    Some(longer) => {
                        sum = longer;
                    },
                },
            }
            i += 1;
        }
        Ok(sum)
    }

    /// The length of the staff in beats of the tempo.
    pub fn get_duration(&self, tempo: &Tempo) -> (r: Result<Fraction, TimingError>)
        ensures
            r == self@.beats(tempo.base_note),
            r is Ok ==> r.unwrap().value() == self@.exact_beats(tempo.base_note) && self@.sound(),
            r matches Err(e) && e != TimingError::Overflow ==> !self@.sound(),
    {
        self.get_beats(&tempo.base_note)
    }

    /// The items of the staff, in order.
    pub fn iter(&self) -> (r: &[StaffContent])
        ensures
            item_views(r@) == self@.content,
    {
        self.content.as_slice()
    }
}

impl Clone for Staff {
    fn clone(&self) -> (r: Self)
        ensures
            r@ == self@,
    {
        let mut content: Vec<StaffContent> = Vec::new();
        let mut i: usize = 0;
        while i < self.content.len()
            invariant
                i <= self.content.len(),
                item_views(content@) == self@.content.take(i as int),
            decreases self.content.len() - i,
        {
            let item = self.content[i].clone();
            proof {
                lemma_item_views(content@, 0, item);
                assert(self@.content.take(i + 1) == self@.content.take(i as int).push(
                    self@.content[i as int],
                ));
            }
            content.push(item);
            i += 1;
        }
        proof {
            assert(self@.content.take(i as int) == self@.content);
        }
        Staff { id: self.id, content }
    }
}

} // verus!
