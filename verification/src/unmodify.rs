//! Taking a modification out of a tree, wherever in it the modification
//! is attached.

use crate::composition::{Composition, CompositionView};
use crate::model::lemma_views;
use crate::modification::{
    find_note_modification, find_phrase_modification, NoteModification, PhraseModification,
};
use crate::note::note::{Note, NoteView};
use crate::structure::chord::{Chord, ChordView};
use crate::structure::multivoice::{MultiVoice, MultiVoiceView};
use crate::structure::part::{Part, PartView};
use crate::structure::phrase::{
    content_views, lemma_content_view_items, lemma_content_views, Phrase, PhraseContent,
    PhraseContentView, PhraseView,
};
use crate::structure::staff::{lemma_item_views, Staff, StaffContent, StaffContentView, StaffView};
use vstd::prelude::*;

verus! {

/// The items with `change` applied to the first `upto` of them.
pub open spec fn changed_upto<T>(items: Seq<T>, change: spec_fn(T) -> T, upto: int) -> Seq<T> {
    Seq::new(
        items.len(),
        |i: int|
            if i < upto {
                change(items[i])
            } else {
                items[i]
            },
    )
}

/// The items with `change` applied to each of them.
pub open spec fn changed_all<T>(items: Seq<T>, change: spec_fn(T) -> T) -> Seq<T> {
    changed_upto(items, change, items.len() as int)
}

/// Takes a modification out of a note.
pub open spec fn note_unmodified(id: usize) -> spec_fn(NoteView) -> NoteView {
    |note: NoteView| note.without_modification(id)
}

/// Takes a modification out of a phrase and of all that it holds.
pub open spec fn phrase_unmodified(id: usize) -> spec_fn(PhraseView) -> PhraseView {
    |phrase: PhraseView| phrase.without_modification_throughout(id)
}

/// Takes a modification out of an item of a staff.
pub open spec fn item_unmodified(id: usize) -> spec_fn(StaffContentView) -> StaffContentView {
    |item: StaffContentView| item.without_modification(id)
}

/// Takes a modification out of a staff.
pub open spec fn staff_unmodified(id: usize) -> spec_fn(StaffView) -> StaffView {
    |staff: StaffView| staff.without_modification(id)
}

/// Takes a modification out of a part.
pub open spec fn part_unmodified(id: usize) -> spec_fn(PartView) -> PartView {
    |part: PartView| part.without_modification(id)
}

impl NoteView {
    /// The note without its modifications of the given identifier.
    pub open spec fn without_modification(self, id: usize) -> NoteView {
        NoteView {
            modifications: self.modifications.filter(|m: NoteModification| m.spec_id() != id),
            ..self
        }
    }
}

impl ChordView {
    /// The chord without the modifications of the given identifier on its
    /// notes.
    pub open spec fn without_modification(self, id: usize) -> ChordView {
        ChordView { id: self.id, notes: changed_all(self.notes, note_unmodified(id)) }
    }
}

impl PhraseContentView {
    /// The child without the modifications of the given identifier in it.
    pub open spec fn without_modification(self, id: usize) -> PhraseContentView
        decreases self,
    {
        match self {
            PhraseContentView::Note(note) => PhraseContentView::Note(note.without_modification(id)),
            PhraseContentView::Chord(chord) => PhraseContentView::Chord(
                chord.without_modification(id),
            ),
            PhraseContentView::Phrase(phrase) => PhraseContentView::Phrase(
                phrase.without_modification_throughout(id),
            ),
        }
    }
}

impl PhraseView {
    /// The children with the modifications of the given identifier taken
    /// out of the first `upto` of them.
    pub open spec fn unmodified_upto(self, id: usize, upto: int) -> Seq<PhraseContentView>
        decreases self, 0nat,
    {
        Seq::new(
            self.content.len(),
            |i: int|
                if 0 <= i < upto && i < self.content.len() {
                    self.content[i].without_modification(id)
                } else {
                    self.content[i]
                },
        )
    }

    /// The phrase without the modifications of the given identifier: its
    /// own, and those of every phrase and note below it.
    pub open spec fn without_modification_throughout(self, id: usize) -> PhraseView
        decreases self, 1nat,
    {
        PhraseView {
            id: self.id,
            content: self.unmodified_upto(id, self.content.len() as int),
            modifications: self.modifications.filter(|m: PhraseModification| m.spec_id() != id),
        }
    }
}

impl MultiVoiceView {
    /// The group without the modifications of the given identifier in its
    /// voices.
    pub open spec fn without_modification(self, id: usize) -> MultiVoiceView {
        MultiVoiceView { id: self.id, voices: changed_all(self.voices, phrase_unmodified(id)) }
    }
}

impl StaffContentView {
    /// The item without the modifications of the given identifier in it.
    pub open spec fn without_modification(self, id: usize) -> StaffContentView {
        match self {
            StaffContentView::Phrase(phrase) => StaffContentView::Phrase(
                phrase.without_modification_throughout(id),
            ),
            StaffContentView::Chord(chord) => StaffContentView::Chord(chord.without_modification(id)),
            StaffContentView::MultiVoice(voices) => StaffContentView::MultiVoice(
                voices.without_modification(id),
            ),
        }
    }
}

impl StaffView {
    /// The staff without the modifications of the given identifier in it.
    pub open spec fn without_modification(self, id: usize) -> StaffView {
        StaffView { id: self.id, content: changed_all(self.content, item_unmodified(id)) }
    }
}

impl PartView {
    /// The part without the modifications of the given identifier in it.
    pub open spec fn without_modification(self, id: usize) -> PartView {
        PartView {
            id: self.id,
            name: self.name,
            staves: changed_all(self.staves, staff_unmodified(id)),
        }
    }
}

impl CompositionView {
    /// The composition without the modifications of the given identifier,
    /// wherever they are attached.
    pub open spec fn without_modification(self, id: usize) -> CompositionView {
        CompositionView { parts: changed_all(self.parts, part_unmodified(id)), ..self }
    }
}

/// After a modification has been taken off a note, a lookup of its
/// identifier on the note finds nothing.
pub proof fn lemma_note_forgets_modification(note: NoteView, id: usize)
    ensures
        note.without_modification(id).find_modification(id) is None,
{
    let keep = |m: NoteModification| m.spec_id() != id;
    let rest = note.modifications.filter(keep);
    assert forall|i: int| 0 <= i < rest.len() implies (#[trigger] rest[i]).spec_id() != id by {
        note.modifications.lemma_filter_pred(keep, i);
    }
    lemma_no_note_modification(rest, id, 0);
}

/// Nothing is found under an identifier that no modification has.
proof fn lemma_no_note_modification(items: Seq<NoteModification>, id: usize, from: int)
    requires
        0 <= from,
        forall|i: int| 0 <= i < items.len() ==> (#[trigger] items[i]).spec_id() != id,
    ensures
        find_note_modification(items, id, from) is None,
    decreases items.len() - from,
{
    if from < items.len() {
        lemma_no_note_modification(items, id, from + 1);
    }
}

/// After a modification has been taken off a phrase, a lookup of its
/// identifier on the phrase finds nothing.
pub proof fn lemma_phrase_forgets_modification(phrase: PhraseView, id: usize)
    ensures
        phrase.without_modification(id).find_modification(id) is None,
        phrase.without_modification_throughout(id).find_modification(id) is None,
{
    let keep = |m: PhraseModification| m.spec_id() != id;
    let rest = phrase.modifications.filter(keep);
    assert forall|i: int| 0 <= i < rest.len() implies (#[trigger] rest[i]).spec_id() != id by {
        phrase.modifications.lemma_filter_pred(keep, i);
    }
    lemma_no_phrase_modification(rest, id, 0);
}

/// Nothing is found under an identifier that no modification has.
proof fn lemma_no_phrase_modification(items: Seq<PhraseModification>, id: usize, from: int)
    requires
        0 <= from,
        forall|i: int| 0 <= i < items.len() ==> (#[trigger] items[i]).spec_id() != id,
    ensures
        find_phrase_modification(items, id, from) is None,
    decreases items.len() - from,
{
    if from < items.len() {
        lemma_no_phrase_modification(items, id, from + 1);
    }
}

impl Chord {
    /// Takes the modifications of the given identifier off the notes of the
    /// chord.
    pub fn remove_modification(&mut self, id: usize)
        ensures
            final(self)@ == old(self)@.without_modification(id),
    {
        let ghost before = self@.notes;
        let ghost change = note_unmodified(id);
        let mut i: usize = 0;
        proof {
            assert(self@.notes =~= changed_upto(before, change, 0));
        }
        while i < self.notes.len()
            invariant
                i <= self.notes.len(),
                self.notes.len() == before.len(),
                self@.id == old(self)@.id,
                before == old(self)@.notes,
                change == note_unmodified(id),
                self@.notes == changed_upto(before, change, i as int),
            decreases self.notes.len() - i,
        {
            let ghost current = self.notes@;
            self.notes[i].remove_modification(id);
            proof {
                let changed = self.notes@[i as int];
                assert(self.notes@ == current.update(i as int, changed));
                lemma_views(current, i as int, changed);
                let shown = changed_upto(before, change, i as int);
                assert(shown[i as int] == before[i as int]);
                assert(changed@ == change(before[i as int]));
                assert(self@.notes == shown.update(i as int, changed@));
                assert(self@.notes =~= changed_upto(before, change, i + 1));
            }
            i += 1;
        }
    }
}

impl Phrase {
    /// Takes the modifications of the given identifier off the phrase and
    /// off every phrase and note below it.
    pub fn remove_modification_throughout(&mut self, id: usize)
        ensures
            final(self)@ == old(self)@.without_modification_throughout(id),
        decreases *old(self),
    {
        proof {
            self.lemma_view();
        }
        let ghost before = self@;
        let ghost initial = self.content@;
        let mut i: usize = 0;
        proof {
            assert(content_views(self.content@) =~= before.unmodified_upto(id, 0));
        }
        while i < self.content.len()
            invariant
                i <= self.content.len(),
                self.content.len() == initial.len(),
                before == old(self)@,
                initial == old(self).content@,
                before.content == content_views(initial),
                self.id == old(self).id,
                self.modifications == old(self).modifications,
                forall|j: int| i <= j < initial.len() ==> self.content@[j] == initial[j],
                content_views(self.content@) == before.unmodified_upto(id, i as int),
            decreases self.content.len() - i,
        {
            let ghost current = self.content@;
            proof {
                lemma_content_view_items(initial);
                lemma_content_view_items(current);
                assert(self.content@[i as int] == old(self).content@[i as int]);
            }
            match &mut self.content[i] {
                PhraseContent::Note(note) => {
                    note.remove_modification(id);
                },
                PhraseContent::Chord(chord) => {
                    chord.remove_modification(id);
                },
                PhraseContent::Phrase(phrase) => {
                    phrase.remove_modification_throughout(id);
                },
            }
            proof {
                let changed = self.content@[i as int];
                assert(self.content@ == current.update(i as int, changed));
                lemma_content_views(current, i as int, changed);
                assert(content_views(self.content@) =~= before.unmodified_upto(id, i + 1));
            }
            i += 1;
        }
        crate::modification::discard_phrase_modification(&mut self.modifications, id);
        proof {
            self.lemma_view();
        }
    }
}

impl MultiVoice {
    /// Takes the modifications of the given identifier out of the voices.
    pub fn remove_modification(&mut self, id: usize)
        ensures
            final(self)@ == old(self)@.without_modification(id),
    {
        let ghost before = self@.voices;
        let ghost change = phrase_unmodified(id);
        let mut i: usize = 0;
        proof {
            assert(self@.voices =~= changed_upto(before, change, 0));
        }
        while i < self.voices.len()
            invariant
                i <= self.voices.len(),
                self.voices.len() == before.len(),
                self@.id == old(self)@.id,
                before == old(self)@.voices,
                change == phrase_unmodified(id),
                self@.voices == changed_upto(before, change, i as int),
            decreases self.voices.len() - i,
        {
            let ghost current = self.voices@;
            self.voices[i].remove_modification_throughout(id);
            proof {
                let changed = self.voices@[i as int];
                assert(self.voices@ == current.update(i as int, changed));
                lemma_views(current, i as int, changed);
                let shown = changed_upto(before, change, i as int);
                assert(shown[i as int] == before[i as int]);
                assert(changed@ == change(before[i as int]));
                assert(self@.voices == shown.update(i as int, changed@));
                assert(self@.voices =~= changed_upto(before, change, i + 1));
            }
            i += 1;
        }
    }
}

impl Staff {
    /// Takes the modifications of the given identifier out of the staff.
    pub fn remove_modification(&mut self, id: usize)
        ensures
            final(self)@ == old(self)@.without_modification(id),
    {
        let ghost before = self@.content;
        let ghost change = item_unmodified(id);
        let mut i: usize = 0;
        proof {
            assert(self@.content =~= changed_upto(before, change, 0));
        }
        while i < self.content.len()
            invariant
                i <= self.content.len(),
                self.content.len() == before.len(),
                self@.id == old(self)@.id,
                before == old(self)@.content,
                change == item_unmodified(id),
                self@.content == changed_upto(before, change, i as int),
            decreases self.content.len() - i,
        {
            let ghost current = self.content@;
            match &mut self.content[i] {
                StaffContent::Phrase(phrase) => {
                    phrase.remove_modification_throughout(id);
                },
                StaffContent::Chord(chord) => {
                    chord.remove_modification(id);
                },
                StaffContent::MultiVoice(voices) => {
                    voices.remove_modification(id);
                },
            }
            proof {
                let changed = self.content@[i as int];
                assert(self.content@ == current.update(i as int, changed));
                lemma_item_views(current, i as int, changed);
                let shown = changed_upto(before, change, i as int);
                assert(shown[i as int] == before[i as int]);
                assert(changed@ == change(before[i as int]));
                assert(self@.content == shown.update(i as int, changed@));
                assert(self@.content =~= changed_upto(before, change, i + 1));
            }
            i += 1;
        }
    }
}

impl Part {
    /// Takes the modifications of the given identifier out of the part.
    pub fn remove_modification(&mut self, id: usize)
        ensures
            final(self)@ == old(self)@.without_modification(id),
    {
        let ghost before = self@.staves;
        let ghost change = staff_unmodified(id);
        let mut i: usize = 0;
        proof {
            assert(self@.staves =~= changed_upto(before, change, 0));
        }
        while i < self.staves.len()
            invariant
                i <= self.staves.len(),
                self.staves.len() == before.len(),
                self@.id == old(self)@.id,
                self@.name == old(self)@.name,
                before == old(self)@.staves,
                change == staff_unmodified(id),
                self@.staves == changed_upto(before, change, i as int),
            decreases self.staves.len() - i,
        {
            let ghost current = self.staves@;
            self.staves[i].remove_modification(id);
            proof {
                let changed = self.staves@[i as int];
                assert(self.staves@ == current.update(i as int, changed));
                lemma_views(current, i as int, changed);
                let shown = changed_upto(before, change, i as int);
                assert(shown[i as int] == before[i as int]);
                assert(changed@ == change(before[i as int]));
                assert(self@.staves == shown.update(i as int, changed@));
                assert(self@.staves =~= changed_upto(before, change, i + 1));
            }
            i += 1;
        }
    }
}

impl Composition {
    /// Takes the modifications of the given identifier out of the
    /// composition, wherever they are attached. An identifier that no
    /// modification has changes nothing.
    pub fn remove_modification(&mut self, id: usize) -> (r: &mut Self)
        ensures
            r@ == old(self)@.without_modification(id),
            *final(self) == *final(r),
    {
        let ghost before = self@.parts;
        let ghost change = part_unmodified(id);
        let mut i: usize = 0;
        proof {
            assert(self@.parts =~= changed_upto(before, change, 0));
        }
        while i < self.parts.len()
            invariant
                i <= self.parts.len(),
                self.parts.len() == before.len(),
                self@ == (CompositionView { parts: self@.parts, ..old(self)@ }),
                before == old(self)@.parts,
                change == part_unmodified(id),
                self@.parts == changed_upto(before, change, i as int),
            decreases self.parts.len() - i,
        {
            let ghost current = self.parts@;
            self.parts[i].remove_modification(id);
            proof {
                let changed = self.parts@[i as int];
                assert(self.parts@ == current.update(i as int, changed));
                lemma_views(current, i as int, changed);
                let shown = changed_upto(before, change, i as int);
                assert(shown[i as int] == before[i as int]);
                assert(changed@ == change(before[i as int]));
                assert(self@.parts == shown.update(i as int, changed@));
                assert(self@.parts =~= changed_upto(before, change, i + 1));
            }
            i += 1;
        }
        self
    }
}

} // verus!
