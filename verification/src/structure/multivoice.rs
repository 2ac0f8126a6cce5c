//! Parallel voices within one staff.

use crate::context::id::IdRegistry;
use crate::context::tempo::Tempo;
use crate::error::TimingError;
use crate::model::{first_some, lemma_views, pruned, total, views};
use crate::note::duration::Duration;
use crate::note::note::{Note, NoteView};
use crate::structure::chord::{Chord, ChordView};
use crate::structure::phrase::{lemma_phrase_beats_are_exact, Phrase, PhraseView};
use crate::temporal::fraction::{Fraction, lemma_ratio_whole};
use vstd::prelude::*;

verus! {

/// Voices that sound at the same time within one staff. Each voice is a
/// phrase, and all of them start together.
#[derive(Debug)]
pub struct MultiVoice {
    pub(crate) id: usize,
    pub(crate) voices: Vec<Phrase>,
}

/// What a group of parallel voices is, as plain data.
pub struct MultiVoiceView {
    pub id: usize,
    pub voices: Seq<PhraseView>,
}

impl View for MultiVoice {
    type V = MultiVoiceView;

    open(crate) spec fn view(&self) -> MultiVoiceView {
        MultiVoiceView { id: self.id, voices: views(self.voices@) }
    }
}

/// Looks for a note in a phrase.
pub open spec fn note_in_phrase(id: usize) -> spec_fn(PhraseView) -> Option<NoteView> {
    |phrase: PhraseView| phrase.find_note(id)
}

/// Looks for a chord in a phrase.
pub open spec fn chord_in_phrase(id: usize) -> spec_fn(PhraseView) -> Option<ChordView> {
    |phrase: PhraseView| phrase.find_chord(id)
}

/// Looks for a phrase: the phrase itself, or one below it.
pub open spec fn phrase_at_or_in(id: usize) -> spec_fn(PhraseView) -> Option<PhraseView> {
    |phrase: PhraseView|
        if phrase.id == id {
            Some(phrase)
        } else {
            phrase.find_phrase(id)
        }
}

/// Whether a phrase has the identifier.
pub open spec fn phrase_is(id: usize) -> spec_fn(PhraseView) -> bool {
    |phrase: PhraseView| phrase.id == id
}

/// Removes an identifier from a phrase.
pub open spec fn phrase_without(id: usize) -> spec_fn(PhraseView) -> PhraseView {
    |phrase: PhraseView| phrase.without(id)
}

/// Counts the notes of a phrase.
pub open spec fn notes_of_phrase() -> spec_fn(PhraseView) -> nat {
    |phrase: PhraseView| phrase.note_count()
}

/// The greater of two numbers.
pub open spec fn greater(a: real, b: real) -> real {
    if a < b {
        b
    } else {
        a
    }
}

impl MultiVoiceView {
    /// The length in beats of `base`: that of the longest voice.
    pub open spec fn exact_beats(self, base: Duration) -> real {
        Self::exact_max(self.voices, base, 0)
    }

    /// The length of the longest voice from position `from` on.
    pub open spec fn exact_max(voices: Seq<PhraseView>, base: Duration, from: int) -> real
        decreases voices.len() - from,
    {
        if from < 0 || from >= voices.len() {
            0real
        } else {
            greater(voices[from].exact_beats(base, 1real), Self::exact_max(voices, base, from + 1))
        }
    }

    /// Whether durations are defined in every voice.
    pub open spec fn sound(self) -> bool {
        forall|i: int| 0 <= i < self.voices.len() ==> (#[trigger] self.voices[i]).sound()
    }

    /// The length in beats as a fraction, or the first reason met, in the
    /// order of the voices, why there is none.
    pub open spec fn beats(self, base: Duration) -> Result<Fraction, TimingError> {
        Self::max_beats(self.voices, base, 0, Fraction::spec_zero())
    }

    /// The greatest of `so_far` and the lengths of the voices from position
    /// `from` on.
    pub open spec fn max_beats(
        voices: Seq<PhraseView>,
        base: Duration,
        from: int,
        so_far: Fraction,
    ) -> Result<Fraction, TimingError>
        decreases voices.len() - from,
    {
        if from < 0 || from >= voices.len() {
            Ok(so_far)
        } else {
            match voices[from].beats(base, None) {
                Err(e) => Err(e),
                Ok(length) => Self::max_beats(voices, base, from + 1, so_far.spec_max(length)),
            }
        }
    }

    /// The first note with the given identifier, voice by voice.
    pub open spec fn find_note(self, id: usize) -> Option<NoteView> {
        first_some(self.voices, note_in_phrase(id), 0)
    }

    /// The first chord with the given identifier, voice by voice.
    pub open spec fn find_chord(self, id: usize) -> Option<ChordView> {
        first_some(self.voices, chord_in_phrase(id), 0)
    }

    /// The first phrase with the given identifier: a voice, or a phrase in
    /// one.
    pub open spec fn find_phrase(self, id: usize) -> Option<PhraseView> {
        first_some(self.voices, phrase_at_or_in(id), 0)
    }

    /// The voices without those that have the identifier, and without what
    /// has it in the others.
    pub open spec fn without(self, id: usize) -> MultiVoiceView {
        MultiVoiceView {
            id: self.id,
            voices: pruned(self.voices, phrase_is(id), phrase_without(id), 0),
        }
    }

    /// The group with one more voice at its end.
    pub open spec fn with_voice(self, voice: PhraseView) -> MultiVoiceView {
        MultiVoiceView { id: self.id, voices: self.voices.push(voice) }
    }

    /// Whether the group or anything in it has the identifier.
    pub open spec fn has_id(self, id: usize) -> bool {
        self.id == id || exists|i: int|
            0 <= i < self.voices.len() && (#[trigger] self.voices[i]).has_id(id)
    }

    /// Whether every identifier in the group lies below the bound.
    pub open spec fn below(self, bound: int) -> bool {
        forall|id: usize| #[trigger] self.has_id(id) ==> id < bound
    }

    /// The number of notes in all voices.
    pub open spec fn note_count(self) -> nat {
        total(self.voices, notes_of_phrase(), 0)
    }
}

/// The fraction that the engine computes for parallel voices is the length
/// of the longest of them.
pub proof fn lemma_max_beats_is_exact(
    voices: Seq<PhraseView>,
    base: Duration,
    from: int,
    so_far: Fraction,
)
    requires
        0 <= from,
        so_far.well_formed(),
    ensures
        match MultiVoiceView::max_beats(voices, base, from, so_far) {
            Ok(longest) => {
                &&& longest.well_formed()
                &&& longest.value() == greater(
                    so_far.value(),
                    MultiVoiceView::exact_max(voices, base, from),
                )
                &&& forall|i: int| from <= i < voices.len() ==> (#[trigger] voices[i]).sound()
                &&& forall|i: int|
                    from <= i < voices.len() ==> (#[trigger] voices[i]).beats(base, None) is Ok
                        && voices[i].beats(base, None).unwrap().value() <= longest.value()
                &&& so_far.value() <= longest.value()
            },
            Err(e) => e != TimingError::Overflow ==> exists|i: int|
                from <= i < voices.len() && !(#[trigger] voices[i]).sound(),
        },
    decreases voices.len() - from,
{
    if from < voices.len() {
        lemma_phrase_beats_are_exact(voices[from], base, None);
        match voices[from].beats(base, None) {
            Ok(length) => {
                lemma_max_beats_is_exact(voices, base, from + 1, so_far.spec_max(length));
                let rest = MultiVoiceView::exact_max(voices, base, from + 1);
                assert(so_far.value() >= 0real) by {
                    crate::temporal::fraction::lemma_fraction_arithmetic(so_far, so_far);
                }
                match MultiVoiceView::max_beats(voices, base, from, so_far) {
                    Ok(longest) => {
                        assert forall|i: int| from <= i < voices.len()
                            implies (#[trigger] voices[i]).beats(
                            base,
                            None,
                        ) is Ok && voices[i].beats(base, None).unwrap().value()
                            <= longest.value() by {
                            if i > from {
                                assert(voices[i].beats(base, None) is Ok);
                            }
                        }
                        assert forall|i: int| from <= i < voices.len()
                            implies (#[trigger] voices[i]).sound() by {
                            if i > from {
                                assert(voices[i].sound());
                            }
                        }
                    },
                    Err(e) => {
                        if e != TimingError::Overflow {
                            let i = choose|i: int|
                                from + 1 <= i < voices.len() && !(#[trigger] voices[i]).sound();
                            assert(!voices[i].sound());
                        }
                    },
                }
            },
            Err(e) => {
                if e != TimingError::Overflow {
                    assert(!voices[from].sound());
                }
            },
        }
    } else {
        assert(so_far.value() >= 0real) by {
            crate::temporal::fraction::lemma_fraction_arithmetic(so_far, so_far);
        }
    }
}

impl MultiVoice {
    /// A group without voices, with the next identifier of the registry.
    pub fn new(registry: &mut IdRegistry) -> (r: Self)
        requires
            old(registry).spec_remaining() > 0,
        ensures
            r@ == (MultiVoiceView { id: old(registry).next_id(), voices: Seq::empty() }),
            *final(registry) == old(registry).after(1),
            final(registry).next_id() == old(registry).next_id() + 1,
    {
        let r = MultiVoice { id: registry.generate_id(), voices: Vec::new() };
        proof {
            assert(r@.voices =~= Seq::empty());
        }
        r
    }

    pub fn get_id(&self) -> (r: usize)
        ensures
            r == self@.id,
    {
        self.id
    }

    /// The number of voices.
    pub fn len(&self) -> (r: usize)
        ensures
            r == self@.voices.len(),
    {
        self.voices.len()
    }

    /// Adds a new, empty voice and returns its identifier.
    pub fn add_phrase(&mut self, registry: &mut IdRegistry) -> (id: usize)
        requires
            old(registry).spec_remaining() > 0,
        ensures
            id == old(registry).next_id(),
            *final(registry) == old(registry).after(1),
            final(registry).next_id() == old(registry).next_id() + 1,
            final(self)@ == old(self)@.with_voice(PhraseView::empty(id)),
            old(self)@.below(old(registry).next_id() as int) ==> final(self)@.below(
                final(registry).next_id() as int,
            ),
    {
        proof {
            if self@.below(registry.next_id() as int) {
                crate::laws::lemma_multivoice_stays_below(
                    self@,
                    PhraseView::empty(registry.next_id()),
                    registry.next_id() + 1,
                );
            }
        }
        let phrase = Phrase::new(registry);
        let id = phrase.get_id();
        proof {
            lemma_views(self.voices@, 0, phrase);
        }
        self.voices.push(phrase);
        id
    }

    /// The first note with the given identifier, voice by voice.
    pub fn get_note(&self, id: usize) -> (r: Option<&Note>)
        ensures
            match r {
                Some(note) => Some(note@) == self@.find_note(id),
                None => self@.find_note(id) is None,
            },
    {
        let mut i: usize = 0;
        while i < self.voices.len()
            invariant
                i <= self.voices.len(),
                self@.find_note(id) == first_some(self@.voices, note_in_phrase(id), i as int),
            decreases self.voices.len() - i,
        {
            let here = self.voices[i].get_note(id);
            if here.is_some() {
                return here;
            }
            i += 1;
        }
        None
    }

    /// The first chord with the given identifier, voice by voice.
    pub fn get_chord(&self, id: usize) -> (r: Option<&Chord>)
        ensures
            match r {
                Some(chord) => Some(chord@) == self@.find_chord(id),
                None => self@.find_chord(id) is None,
            },
    {
        let mut i: usize = 0;
        while i < self.voices.len()
            invariant
                i <= self.voices.len(),
                self@.find_chord(id) == first_some(self@.voices, chord_in_phrase(id), i as int),
            decreases self.voices.len() - i,
        {
            let here = self.voices[i].get_chord(id);
            if here.is_some() {
                return here;
            }
            i += 1;
        }
        None
    }

    /// The first phrase with the given identifier: a voice, or a phrase in
    /// one.
    pub fn get_phrase(&self, id: usize) -> (r: Option<&Phrase>)
        ensures
            match r {
                Some(phrase) => Some(phrase@) == self@.find_phrase(id),
                None => self@.find_phrase(id) is None,
            },
    {
        let mut i: usize = 0;
        while i < self.voices.len()
            invariant
                i <= self.voices.len(),
                self@.find_phrase(id) == first_some(self@.voices, phrase_at_or_in(id), i as int),
            decreases self.voices.len() - i,
        {
            let here = if self.voices[i].get_id() == id {
                Some(&self.voices[i])
            } else {
                self.voices[i].get_phrase(id)
            };
            if here.is_some() {
                return here;
            }
            i += 1;
        }
        None
    }

    /// Takes out the voices with the given identifier, and everything with
    /// that identifier in the other voices.
    pub fn remove_item(&mut self, id: usize)
        ensures
            final(self)@ == old(self)@.without(id),
    {
        let ghost before = self@.voices;
        let ghost gone = phrase_is(id);
        let ghost prune = phrase_without(id);
        let mut i: usize = 0;
        let ghost mut done: int = 0;
        while i < self.voices.len()
            invariant
                0 <= done <= before.len(),
                i <= self.voices.len(),
                self.voices.len() - i == before.len() - done,
                self@.voices.skip(i as int) == before.skip(done),
                self@.voices.take(i as int) + pruned(before, gone, prune, done) == pruned(
                    before,
                    gone,
                    prune,
                    0,
                ),
                self@.id == old(self)@.id,
                before == old(self)@.voices,
                gone == phrase_is(id),
                prune == phrase_without(id),
            decreases self.voices.len() - i,
        {
            let ghost current = self.voices@;
            let ghost shown = self@.voices;
            proof {
                assert(shown[i as int] == shown.skip(i as int)[0]);
                assert(shown.skip(i as int).skip(1) == shown.skip(i + 1));
                assert(before.skip(done).skip(1) == before.skip(done + 1));
            }
            if self.voices[i].get_id() == id {
                self.voices.remove(i);
                proof {
                    lemma_views(current, i as int, current[0]);
                    assert(self@.voices.skip(i as int) == shown.skip(i + 1));
                    assert(self@.voices.take(i as int) == shown.take(i as int));
                }
            } else {
                self.voices[i].remove_item(id);
                proof {
                    let changed = self.voices@[i as int];
                    assert(self.voices@ == current.update(i as int, changed));
                    lemma_views(current, i as int, changed);
                    assert(self@.voices.skip(i + 1) == shown.skip(i + 1));
                    let piece = seq![changed@];
                    assert(self@.voices.take(i + 1) == shown.take(i as int) + piece);
                    assert((shown.take(i as int) + piece) + pruned(before, gone, prune, done + 1)
                        == shown.take(i as int) + (piece + pruned(before, gone, prune, done + 1)));
                }
                i += 1;
            }
            proof {
                done = done + 1;
            }
        }
        proof {
            assert(self@.voices.take(i as int) == self@.voices);
            assert(self@.voices + Seq::<PhraseView>::empty() == self@.voices);
        }
    }

    /// The length in beats of `base`: that of the longest voice.
    pub fn get_beats(&self, base: &Duration) -> (r: Result<Fraction, TimingError>)
        ensures
            r == self@.beats(*base),
            r is Ok ==> r.unwrap().value() == self@.exact_beats(*base) && self@.sound(),
            r matches Err(e) && e != TimingError::Overflow ==> !self@.sound(),
    {
        proof {
            lemma_ratio_whole(0);
            lemma_max_beats_is_exact(self@.voices, *base, 0, Fraction::spec_zero());
            let exact = self@.exact_beats(*base);
            assert(exact >= 0real) by {
                lemma_exact_max_is_not_negative(self@.voices, *base, 0);
            }
        }
        let mut longest = Fraction::zero();
        let mut i: usize = 0;
        while i < self.voices.len()
            invariant
                i <= self.voices.len(),
                self@.beats(*base) == MultiVoiceView::max_beats(
                    self@.voices,
                    *base,
                    i as int,
                    longest,
                ),
            decreases self.voices.len() - i,
        {
            match self.voices[i].get_beats(base, None) {
                Err(e) => {
                    return Err(e);
                },
                Ok(length) => {
                    longest = longest.max(length);
                },
            }
            i += 1;
        }
        Ok(longest)
    }

    /// The length in beats of the tempo.
    pub fn get_duration(&self, tempo: &Tempo) -> (r: Result<Fraction, TimingError>)
        ensures
            r == self@.beats(tempo.base_note),
            r is Ok ==> r.unwrap().value() == self@.exact_beats(tempo.base_note) && self@.sound(),
            r matches Err(e) && e != TimingError::Overflow ==> !self@.sound(),
    {
        self.get_beats(&tempo.base_note)
    }

    /// The voices, in order.
    pub fn iter(&self) -> (r: &[Phrase])
        ensures
            views(r@) == self@.voices,
    {
        self.voices.as_slice()
    }
}

/// No voice has a negative length.
pub proof fn lemma_exact_max_is_not_negative(voices: Seq<PhraseView>, base: Duration, from: int)
    ensures
        MultiVoiceView::exact_max(voices, base, from) >= 0real,
    decreases voices.len() - from,
{
    if 0 <= from < voices.len() {
        lemma_exact_max_is_not_negative(voices, base, from + 1);
    }
}

impl Clone for MultiVoice {
    fn clone(&self) -> (r: Self)
        ensures
            r@ == self@,
    {
        let mut voices: Vec<Phrase> = Vec::new();
        let mut i: usize = 0;
        while i < self.voices.len()
            invariant
                i <= self.voices.len(),
                views(voices@) == self@.voices.take(i as int),
            decreases self.voices.len() - i,
        {
            let voice = self.voices[i].clone();
            proof {
                lemma_views(voices@, 0, voice);
                assert(self@.voices.take(i + 1) == self@.voices.take(i as int).push(
                    self@.voices[i as int],
                ));
            }
            voices.push(voice);
            i += 1;
        }
        proof {
            assert(self@.voices.take(i as int) == self@.voices);
        }
        MultiVoice { id: self.id, voices }
    }
}

} // verus!
