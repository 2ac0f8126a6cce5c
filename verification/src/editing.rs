//! Editing in place: the node with a given identifier, handed out for
//! change, and what the change does to the tree around it.

use crate::composition::{
    chord_in_part, Composition, CompositionView, multivoice_in_part, note_in_part, part_at,
    part_named, phrase_in_part, staff_in_part,
};
use crate::model::{
    changed_first, found, lemma_changed_first_at, lemma_first_some_skips, lemma_views, put, views,
};
use crate::note::note::{Note, NoteView};
use crate::structure::chord::{
    Chord, ChordView, lemma_find_note_among_first, lemma_find_note_among_none,
};
use crate::structure::multivoice::{
    chord_in_phrase, MultiVoice, MultiVoiceView, note_in_phrase, phrase_at_or_in,
};
use crate::structure::part::{
    chord_in_staff, multivoice_in_staff, note_in_staff, Part, PartView, phrase_in_staff, staff_at,
};
use crate::structure::phrase::{
    content_views, lemma_content_view_items, lemma_content_views, Phrase, PhraseContent,
    PhraseContentView, PhraseView,
};
use crate::structure::staff::{
    chord_in_item, item_views, lemma_item_views, multivoice_in_item, note_in_item, phrase_in_item,
    Staff, StaffContent, StaffContentView, StaffView,
};
use vstd::prelude::*;
use vstd::string::StringExecFns;

verus! {

/// Whether a note has the identifier.
pub open spec fn note_is(id: usize) -> spec_fn(NoteView) -> bool {
    |note: NoteView| note.id == id
}

impl ChordView {
    /// The chord with `new` in the place of its first note of the given
    /// identifier.
    pub open spec fn replace_note(self, id: usize, new: NoteView) -> ChordView {
        ChordView { id: self.id, notes: changed_first(self.notes, note_is(id), put(new), 0) }
    }
}

impl Chord {
    /// The first note of the chord with the given identifier, for editing.
    pub fn get_note_mut(&mut self, id: usize) -> (r: Option<&mut Note>)
        ensures
            match r {
                Some(found) => Some(found@) == old(self)@.find_note(id) && final(self)@ == old(
                    self,
                )@.replace_note(id, final(found)@),
                None => old(self)@.find_note(id) is None && final(self)@ == old(self)@,
            },
    {
        let mut i: usize = 0;
        while i < self.notes.len()
            invariant
                i <= self.notes.len(),
                *self == *old(self),
                forall|j: int| 0 <= j < i ==> (#[trigger] self@.notes[j]).id != id,
            decreases self.notes.len() - i,
        {
            if self.notes[i].get_id() == id {
                proof {
                    lemma_find_note_among_first(self@.notes, id, 0, i as int);
                    assert forall|new: NoteView|
                        (#[trigger] self@.replace_note(id, new)).notes == self@.notes.update(
                            i as int,
                            new,
                        ) by {
                        lemma_changed_first_at(self@.notes, note_is(id), put(new), 0, i as int);
                    }
                    assert forall|changed: Note|
                        views(#[trigger] self.notes@.update(i as int, changed)) == views(
                            self.notes@,
                        ).update(i as int, changed@) by {
                        lemma_views(self.notes@, i as int, changed);
                    }
                }
                return Some(&mut self.notes[i]);
            }
            i += 1;
        }
        proof {
            lemma_find_note_among_none(self@.notes, id, 0);
        }
        None
    }
}

impl PhraseView {
    /// The phrase with `new` in the place of the first note below it that
    /// has the given identifier.
    pub open spec fn replace_note(self, id: usize, new: NoteView) -> PhraseView
        decreases self,
    {
        PhraseView {
            id: self.id,
            content: Self::replace_note_in(self.content, id, new, 0),
            modifications: self.modifications,
        }
    }

    /// The children with `new` in the place of the first note, from
    /// position `from` on, that has the given identifier.
    pub open spec fn replace_note_in(
        items: Seq<PhraseContentView>,
        id: usize,
        new: NoteView,
        from: int,
    ) -> Seq<PhraseContentView>
        decreases items, items.len() - from,
    {
        if from < 0 || from >= items.len() {
            items
        } else {
            match items[from] {
                PhraseContentView::Note(note) if note.id == id => items.update(
                    from,
                    PhraseContentView::Note(new),
                ),
                PhraseContentView::Chord(chord) if chord.find_note(id) is Some => items.update(
                    from,
                    PhraseContentView::Chord(chord.replace_note(id, new)),
                ),
                PhraseContentView::Phrase(phrase) if phrase.find_note(id) is Some => items.update(
                    from,
                    PhraseContentView::Phrase(phrase.replace_note(id, new)),
                ),
                _ => Self::replace_note_in(items, id, new, from + 1),
            }
        }
    }

    /// The phrase with `new` in the place of the first chord below it that
    /// has the given identifier.
    pub open spec fn replace_chord(self, id: usize, new: ChordView) -> PhraseView
        decreases self,
    {
        PhraseView {
            id: self.id,
            content: Self::replace_chord_in(self.content, id, new, 0),
            modifications: self.modifications,
        }
    }

    /// The children with `new` in the place of the first chord, from
    /// position `from` on, that has the given identifier.
    pub open spec fn replace_chord_in(
        items: Seq<PhraseContentView>,
        id: usize,
        new: ChordView,
        from: int,
    ) -> Seq<PhraseContentView>
        decreases items, items.len() - from,
    {
        if from < 0 || from >= items.len() {
            items
        } else {
            match items[from] {
                PhraseContentView::Chord(chord) if chord.id == id => items.update(
                    from,
                    PhraseContentView::Chord(new),
                ),
                PhraseContentView::Phrase(phrase) if phrase.find_chord(id) is Some => items.update(
                    from,
                    PhraseContentView::Phrase(phrase.replace_chord(id, new)),
                ),
                _ => Self::replace_chord_in(items, id, new, from + 1),
            }
        }
    }

    /// The phrase with `new` in the place of the first phrase below it that
    /// has the given identifier.
    pub open spec fn replace_phrase(self, id: usize, new: PhraseView) -> PhraseView
        decreases self,
    {
        PhraseView {
            id: self.id,
            content: Self::replace_phrase_in(self.content, id, new, 0),
            modifications: self.modifications,
        }
    }

    /// The children with `new` in the place of the first phrase, from
    /// position `from` on, that has the given identifier.
    pub open spec fn replace_phrase_in(
        items: Seq<PhraseContentView>,
        id: usize,
        new: PhraseView,
        from: int,
    ) -> Seq<PhraseContentView>
        decreases items, items.len() - from,
    {
        if from < 0 || from >= items.len() {
            items
        } else {
            match items[from] {
                PhraseContentView::Phrase(phrase) if phrase.id == id => items.update(
                    from,
                    PhraseContentView::Phrase(new),
                ),
                PhraseContentView::Phrase(phrase) if phrase.find_phrase(id) is Some => items.update(
                    from,
                    PhraseContentView::Phrase(phrase.replace_phrase(id, new)),
                ),
                _ => Self::replace_phrase_in(items, id, new, from + 1),
            }
        }
    }
}

impl Phrase {
    /// The first note below the phrase with the given identifier,
    /// searching depth first, for editing.
    pub fn get_note_mut(&mut self, id: usize) -> (r: Option<&mut Note>)
        ensures
            match r {
                Some(found) => Some(found@) == old(self)@.find_note(id) && final(self)@ == old(
                    self,
                )@.replace_note(id, final(found)@),
                None => old(self)@.find_note(id) is None && final(self)@ == old(self)@,
            },
        decreases *old(self),
    {
        proof {
            self.lemma_view();
        }
        let mut i: usize = 0;
        while i < self.content.len()
            invariant
                i <= self.content.len(),
                *self == *old(self),
                self@.content == content_views(self.content@),
                self@.find_note(id) == PhraseView::find_note_in(self@.content, id, i as int),
                forall|new: NoteView|
                    (#[trigger] self@.replace_note(id, new)).content == PhraseView::replace_note_in(
                        self@.content,
                        id,
                        new,
                        i as int,
                    ),
            decreases self.content.len() - i,
        {
            proof {
                lemma_content_view_items(self.content@);
            }
            let hit = match &self.content[i] {
                PhraseContent::Note(note) => note.get_id() == id,
                PhraseContent::Chord(chord) => chord.get_note(id).is_some(),
                PhraseContent::Phrase(phrase) => phrase.get_note(id).is_some(),
            };
            if hit {
                proof {
                    assert forall|changed: PhraseContent|
                        content_views(#[trigger] self.content@.update(i as int, changed))
                            == content_views(
                            self.content@,
                        ).update(i as int, changed@) by {
                        lemma_content_views(self.content@, i as int, changed);
                    }
                    assert forall|changed: Phrase|
                        (#[trigger] changed@).content == content_views(changed.content@) by {
                        changed.lemma_view();
                    }
                }
                match &mut self.content[i] {
                    PhraseContent::Note(note) => {
                        return Some(note);
                    },
                    PhraseContent::Chord(chord) => {
                        return chord.get_note_mut(id);
                    },
                    PhraseContent::Phrase(phrase) => {
                        return phrase.get_note_mut(id);
                    },
                }
            }
            i += 1;
        }
        None
    }

    /// The first chord below the phrase with the given identifier,
    /// searching depth first, for editing.
    pub fn get_chord_mut(&mut self, id: usize) -> (r: Option<&mut Chord>)
        ensures
            match r {
                Some(found) => Some(found@) == old(self)@.find_chord(id) && final(self)@ == old(
                    self,
                )@.replace_chord(id, final(found)@),
                None => old(self)@.find_chord(id) is None && final(self)@ == old(self)@,
            },
        decreases *old(self),
    {
        proof {
            self.lemma_view();
        }
        let mut i: usize = 0;
        while i < self.content.len()
            invariant
                i <= self.content.len(),
                *self == *old(self),
                self@.content == content_views(self.content@),
                self@.find_chord(id) == PhraseView::find_chord_in(self@.content, id, i as int),
                forall|new: ChordView|
                    (#[trigger] self@.replace_chord(id, new)).content
                        == PhraseView::replace_chord_in(
                        self@.content,
                        id,
                        new,
                        i as int,
                    ),
            decreases self.content.len() - i,
        {
            proof {
                lemma_content_view_items(self.content@);
            }
            let hit = match &self.content[i] {
                PhraseContent::Note(_) => false,
                PhraseContent::Chord(chord) => chord.get_id() == id,
                PhraseContent::Phrase(phrase) => phrase.get_chord(id).is_some(),
            };
            if hit {
                proof {
                    assert forall|changed: PhraseContent|
                        content_views(#[trigger] self.content@.update(i as int, changed))
                            == content_views(
                            self.content@,
                        ).update(i as int, changed@) by {
                        lemma_content_views(self.content@, i as int, changed);
                    }
                    assert forall|changed: Phrase|
                        (#[trigger] changed@).content == content_views(changed.content@) by {
                        changed.lemma_view();
                    }
                }
                match &mut self.content[i] {
                    PhraseContent::Chord(chord) => {
                        return Some(chord);
                    },
                    PhraseContent::Phrase(phrase) => {
                        return phrase.get_chord_mut(id);
                    },
                    PhraseContent::Note(_) => {
                        return None;
                    },
                }
            }
            i += 1;
        }
        None
    }

    /// The first phrase below the phrase with the given identifier,
    /// searching depth first, for editing.
    pub fn get_phrase_mut(&mut self, id: usize) -> (r: Option<&mut Phrase>)
        ensures
            match r {
                Some(found) => Some(found@) == old(self)@.find_phrase(id) && final(self)@ == old(
                    self,
                )@.replace_phrase(id, final(found)@),
                None => old(self)@.find_phrase(id) is None && final(self)@ == old(self)@,
            },
        decreases *old(self),
    {
        proof {
            self.lemma_view();
        }
        let mut i: usize = 0;
        while i < self.content.len()
            invariant
                i <= self.content.len(),
                *self == *old(self),
                self@.content == content_views(self.content@),
                self@.find_phrase(id) == PhraseView::find_phrase_in(self@.content, id, i as int),
                forall|new: PhraseView|
                    (#[trigger] self@.replace_phrase(id, new)).content
                        == PhraseView::replace_phrase_in(
                        self@.content,
                        id,
                        new,
                        i as int,
                    ),
            decreases self.content.len() - i,
        {
            proof {
                lemma_content_view_items(self.content@);
            }
            let hit = match &self.content[i] {
                PhraseContent::Phrase(phrase) => phrase.get_id() == id || phrase.get_phrase(
                    id,
                ).is_some(),
                _ => false,
            };
            if hit {
                proof {
                    assert forall|changed: PhraseContent|
                        content_views(#[trigger] self.content@.update(i as int, changed))
                            == content_views(
                            self.content@,
                        ).update(i as int, changed@) by {
                        lemma_content_views(self.content@, i as int, changed);
                    }
                    assert forall|changed: Phrase|
                        (#[trigger] changed@).content == content_views(changed.content@) by {
                        changed.lemma_view();
                    }
                }
                match &mut self.content[i] {
                    PhraseContent::Phrase(phrase) => {
                        if phrase.get_id() == id {
                            return Some(phrase);
                        }
                        return phrase.get_phrase_mut(id);
                    },
                    _ => {
                        return None;
                    },
                }
            }
            i += 1;
        }
        None
    }
}

/// Puts `new` in the place of the first note in a phrase that has the
/// identifier.
pub open spec fn note_replaced_in_phrase(id: usize, new: NoteView) -> spec_fn(
    PhraseView,
) -> PhraseView {
    |phrase: PhraseView| phrase.replace_note(id, new)
}

/// Puts `new` in the place of the first chord in a phrase that has the
/// identifier.
pub open spec fn chord_replaced_in_phrase(id: usize, new: ChordView) -> spec_fn(
    PhraseView,
) -> PhraseView {
    |phrase: PhraseView| phrase.replace_chord(id, new)
}

/// Puts `new` in the place of a phrase, or of the first phrase in it that
/// has the identifier.
pub open spec fn phrase_replaced_at_or_in(id: usize, new: PhraseView) -> spec_fn(
    PhraseView,
) -> PhraseView {
    |phrase: PhraseView|
        if phrase.id == id {
            new
        } else {
            phrase.replace_phrase(id, new)
        }
}

impl MultiVoiceView {
    /// The group of voices with `new` in the place of the first note in it that
    /// has the given identifier.
    pub open spec fn replace_note(self, id: usize, new: NoteView) -> MultiVoiceView {
        MultiVoiceView {
            id: self.id,
            voices: changed_first(
                self.voices,
                found(note_in_phrase(id)),
                note_replaced_in_phrase(id, new),
                0,
            ),
        }
    }

    /// The group of voices with `new` in the place of the first chord in it that
    /// has the given identifier.
    pub open spec fn replace_chord(self, id: usize, new: ChordView) -> MultiVoiceView {
        MultiVoiceView {
            id: self.id,
            voices: changed_first(
                self.voices,
                found(chord_in_phrase(id)),
                chord_replaced_in_phrase(id, new),
                0,
            ),
        }
    }

    /// The group of voices with `new` in the place of the first phrase in it that
    /// has the given identifier.
    pub open spec fn replace_phrase(self, id: usize, new: PhraseView) -> MultiVoiceView {
        MultiVoiceView {
            id: self.id,
            voices: changed_first(
                self.voices,
                found(phrase_at_or_in(id)),
                phrase_replaced_at_or_in(id, new),
                0,
            ),
        }
    }
}

impl MultiVoice {
    /// The first note with the given identifier, searching depth first,
    /// for editing.
    pub fn get_note_mut(&mut self, id: usize) -> (r: Option<&mut Note>)
        ensures
            match r {
                Some(found) => Some(found@) == old(self)@.find_note(id) && final(self)@ == old(
                    self,
                )@.replace_note(id, final(found)@),
                None => old(self)@.find_note(id) is None && final(self)@ == old(self)@,
            },
    {
        let mut i: usize = 0;
        while i < self.voices.len()
            invariant
                i <= self.voices.len(),
                *self == *old(self),
                forall|j: int| 0 <= j < i ==>
                    !found(note_in_phrase(id))(#[trigger] self@.voices[j]),
            decreases self.voices.len() - i,
        {
            let hit = self.voices[i].get_note(id).is_some();
            if hit {
                proof {
                    lemma_first_some_skips(self@.voices, note_in_phrase(id), 0, i as int);
                    assert forall|new: NoteView|
                        (#[trigger] self@.replace_note(id, new)).voices == self@.voices.update(
                            i as int,
                            note_replaced_in_phrase(id, new)(self@.voices[i as int]),
                        ) by {
                        lemma_changed_first_at(
                            self@.voices,
                            found(note_in_phrase(id)),
                            note_replaced_in_phrase(id, new),
                            0,
                            i as int,
                        );
                    }
                    assert forall|changed: Phrase|
                        views(#[trigger] self.voices@.update(i as int, changed)) == views(
                            self.voices@,
                        ).update(i as int, changed@) by {
                        lemma_views(self.voices@, i as int, changed);
                    }
                }
                return self.voices[i].get_note_mut(id);
            }
            i += 1;
        }
        proof {
            lemma_first_some_skips(self@.voices, note_in_phrase(id), 0, i as int);
        }
        None
    }

    /// The first chord with the given identifier, searching depth first,
    /// for editing.
    pub fn get_chord_mut(&mut self, id: usize) -> (r: Option<&mut Chord>)
        ensures
            match r {
                Some(found) => Some(found@) == old(self)@.find_chord(id) && final(self)@ == old(
                    self,
                )@.replace_chord(id, final(found)@),
                None => old(self)@.find_chord(id) is None && final(self)@ == old(self)@,
            },
    {
        let mut i: usize = 0;
        while i < self.voices.len()
            invariant
                i <= self.voices.len(),
                *self == *old(self),
                forall|j: int| 0 <= j < i ==>
                    !found(chord_in_phrase(id))(#[trigger] self@.voices[j]),
            decreases self.voices.len() - i,
        {
            let hit = self.voices[i].get_chord(id).is_some();
            if hit {
                proof {
                    lemma_first_some_skips(self@.voices, chord_in_phrase(id), 0, i as int);
                    assert forall|new: ChordView|
                        (#[trigger] self@.replace_chord(id, new)).voices == self@.voices.update(
                            i as int,
                            chord_replaced_in_phrase(id, new)(self@.voices[i as int]),
                        ) by {
                        lemma_changed_first_at(
                            self@.voices,
                            found(chord_in_phrase(id)),
                            chord_replaced_in_phrase(id, new),
                            0,
                            i as int,
                        );
                    }
                    assert forall|changed: Phrase|
                        views(#[trigger] self.voices@.update(i as int, changed)) == views(
                            self.voices@,
                        ).update(i as int, changed@) by {
                        lemma_views(self.voices@, i as int, changed);
                    }
                }
                return self.voices[i].get_chord_mut(id);
            }
            i += 1;
        }
        proof {
            lemma_first_some_skips(self@.voices, chord_in_phrase(id), 0, i as int);
        }
        None
    }

    /// The first phrase with the given identifier, searching depth first,
    /// for editing.
    pub fn get_phrase_mut(&mut self, id: usize) -> (r: Option<&mut Phrase>)
        ensures
            match r {
                Some(found) => Some(found@) == old(self)@.find_phrase(id) && final(self)@ == old(
                    self,
                )@.replace_phrase(id, final(found)@),
                None => old(self)@.find_phrase(id) is None && final(self)@ == old(self)@,
            },
    {
        let mut i: usize = 0;
        while i < self.voices.len()
            invariant
                i <= self.voices.len(),
                *self == *old(self),
                forall|j: int| 0 <= j < i ==>
                    !found(phrase_at_or_in(id))(#[trigger] self@.voices[j]),
            decreases self.voices.len() - i,
        {
            let hit = self.voices[i].get_id() == id || self.voices[i].get_phrase(id).is_some();
            if hit {
                proof {
                    lemma_first_some_skips(self@.voices, phrase_at_or_in(id), 0, i as int);
                    assert forall|new: PhraseView|
                        (#[trigger] self@.replace_phrase(id, new)).voices == self@.voices.update(
                            i as int,
                            phrase_replaced_at_or_in(id, new)(self@.voices[i as int]),
                        ) by {
                        lemma_changed_first_at(
                            self@.voices,
                            found(phrase_at_or_in(id)),
                            phrase_replaced_at_or_in(id, new),
                            0,
                            i as int,
                        );
                    }
                    assert forall|changed: Phrase|
                        views(#[trigger] self.voices@.update(i as int, changed)) == views(
                            self.voices@,
                        ).update(i as int, changed@) by {
                        lemma_views(self.voices@, i as int, changed);
                    }
                }
                if self.voices[i].get_id() == id {
                    return Some(&mut self.voices[i]);
                }
                return self.voices[i].get_phrase_mut(id);
            }
            i += 1;
        }
        proof {
            lemma_first_some_skips(self@.voices, phrase_at_or_in(id), 0, i as int);
        }
        None
    }
}

impl StaffContentView {
    /// The item with `new` in the place of the first note in it that has the
    /// given identifier.
    pub open spec fn replace_note(self, id: usize, new: NoteView) -> StaffContentView {
        match self {
            StaffContentView::Phrase(phrase) => StaffContentView::Phrase(
                phrase.replace_note(id, new),
            ),
            StaffContentView::Chord(chord) => StaffContentView::Chord(chord.replace_note(id, new)),
            StaffContentView::MultiVoice(voices) => StaffContentView::MultiVoice(
                voices.replace_note(id, new),
            ),
        }
    }

    /// The item with `new` in the place of the first chord with the given
    /// identifier: the item itself, or a chord in it.
    pub open spec fn replace_chord(self, id: usize, new: ChordView) -> StaffContentView {
        match self {
            StaffContentView::Phrase(phrase) => StaffContentView::Phrase(
                phrase.replace_chord(id, new),
            ),
            StaffContentView::Chord(chord) => StaffContentView::Chord(new),
            StaffContentView::MultiVoice(voices) => StaffContentView::MultiVoice(
                voices.replace_chord(id, new),
            ),
        }
    }

    /// The item with `new` in the place of the first phrase with the given
    /// identifier: the item itself, or a phrase in it.
    pub open spec fn replace_phrase(self, id: usize, new: PhraseView) -> StaffContentView {
        match self {
            StaffContentView::Phrase(phrase) => if phrase.id == id {
                StaffContentView::Phrase(new)
            } else {
                StaffContentView::Phrase(phrase.replace_phrase(id, new))
            },
            StaffContentView::Chord(chord) => self,
            StaffContentView::MultiVoice(voices) => StaffContentView::MultiVoice(
                voices.replace_phrase(id, new),
            ),
        }
    }

    /// The item with `new` in its place.
    pub open spec fn replace_multivoice(self, id: usize, new: MultiVoiceView) -> StaffContentView {
        StaffContentView::MultiVoice(new)
    }
}

/// Puts `new` in the place of the first note in a item of a staff that has the
/// identifier.
pub open spec fn note_replaced_in_item(id: usize, new: NoteView) -> spec_fn(
    StaffContentView,
) -> StaffContentView {
    |item: StaffContentView| item.replace_note(id, new)
}

/// Puts `new` in the place of the first chord in a item of a staff that has the
/// identifier.
pub open spec fn chord_replaced_in_item(id: usize, new: ChordView) -> spec_fn(
    StaffContentView,
) -> StaffContentView {
    |item: StaffContentView| item.replace_chord(id, new)
}

/// Puts `new` in the place of the first phrase in a item of a staff that has the
/// identifier.
pub open spec fn phrase_replaced_in_item(id: usize, new: PhraseView) -> spec_fn(
    StaffContentView,
) -> StaffContentView {
    |item: StaffContentView| item.replace_phrase(id, new)
}

/// Puts `new` in the place of the first group of voices in a item of a staff that has the
/// identifier.
pub open spec fn multivoice_replaced_in_item(id: usize, new: MultiVoiceView) -> spec_fn(
    StaffContentView,
) -> StaffContentView {
    |item: StaffContentView| item.replace_multivoice(id, new)
}

impl StaffView {
    /// The staff with `new` in the place of the first note in it that
    /// has the given identifier.
    pub open spec fn replace_note(self, id: usize, new: NoteView) -> StaffView {
        StaffView {
            id: self.id,
            content: changed_first(
                self.content,
                found(note_in_item(id)),
                note_replaced_in_item(id, new),
                0,
            ),
        }
    }

    /// The staff with `new` in the place of the first chord in it that
    /// has the given identifier.
    pub open spec fn replace_chord(self, id: usize, new: ChordView) -> StaffView {
        StaffView {
            id: self.id,
            content: changed_first(
                self.content,
                found(chord_in_item(id)),
                chord_replaced_in_item(id, new),
                0,
            ),
        }
    }

    /// The staff with `new` in the place of the first phrase in it that
    /// has the given identifier.
    pub open spec fn replace_phrase(self, id: usize, new: PhraseView) -> StaffView {
        StaffView {
            id: self.id,
            content: changed_first(
                self.content,
                found(phrase_in_item(id)),
                phrase_replaced_in_item(id, new),
                0,
            ),
        }
    }

    /// The staff with `new` in the place of the first group of voices in it that
    /// has the given identifier.
    pub open spec fn replace_multivoice(self, id: usize, new: MultiVoiceView) -> StaffView {
        StaffView {
            id: self.id,
            content: changed_first(
                self.content,
                found(multivoice_in_item(id)),
                multivoice_replaced_in_item(id, new),
                0,
            ),
        }
    }
}

impl Staff {
    /// The first note with the given identifier, searching depth first,
    /// for editing.
    pub fn get_note_mut(&mut self, id: usize) -> (r: Option<&mut Note>)
        ensures
            match r {
                Some(found) => Some(found@) == old(self)@.find_note(id) && final(self)@ == old(
                    self,
                )@.replace_note(id, final(found)@),
                None => old(self)@.find_note(id) is None && final(self)@ == old(self)@,
            },
    {
        let mut i: usize = 0;
        while i < self.content.len()
            invariant
                i <= self.content.len(),
                *self == *old(self),
                forall|j: int| 0 <= j < i ==> !found(note_in_item(id))(#[trigger] self@.content[j]),
            decreases self.content.len() - i,
        {
            let hit = match &self.content[i] {
                StaffContent::Phrase(phrase) => phrase.get_note(id).is_some(),
                StaffContent::Chord(chord) => chord.get_note(id).is_some(),
                StaffContent::MultiVoice(voices) => voices.get_note(id).is_some(),
            };
            if hit {
                proof {
                    lemma_first_some_skips(self@.content, note_in_item(id), 0, i as int);
                    assert forall|new: NoteView|
                        (#[trigger] self@.replace_note(id, new)).content == self@.content.update(
                            i as int,
                            note_replaced_in_item(id, new)(self@.content[i as int]),
                        ) by {
                        lemma_changed_first_at(
                            self@.content,
                            found(note_in_item(id)),
                            note_replaced_in_item(id, new),
                            0,
                            i as int,
                        );
                    }
                    assert forall|changed: StaffContent|
                        item_views(#[trigger] self.content@.update(i as int, changed))
                            == item_views(
                            self.content@,
                        ).update(i as int, changed@) by {
                        lemma_item_views(self.content@, i as int, changed);
                    }
                }
                match &mut self.content[i] {
                    StaffContent::Phrase(phrase) => {
                        return phrase.get_note_mut(id);
                    },
                    StaffContent::Chord(chord) => {
                        return chord.get_note_mut(id);
                    },
                    StaffContent::MultiVoice(voices) => {
                        return voices.get_note_mut(id);
                    },
                }
            }
            i += 1;
        }
        proof {
            lemma_first_some_skips(self@.content, note_in_item(id), 0, i as int);
        }
        None
    }

    /// The first chord with the given identifier, searching depth first,
    /// for editing.
    pub fn get_chord_mut(&mut self, id: usize) -> (r: Option<&mut Chord>)
        ensures
            match r {
                Some(found) => Some(found@) == old(self)@.find_chord(id) && final(self)@ == old(
                    self,
                )@.replace_chord(id, final(found)@),
                None => old(self)@.find_chord(id) is None && final(self)@ == old(self)@,
            },
    {
        let mut i: usize = 0;
        while i < self.content.len()
            invariant
                i <= self.content.len(),
                *self == *old(self),
                forall|j: int| 0 <= j < i ==>
                    !found(chord_in_item(id))(#[trigger] self@.content[j]),
            decreases self.content.len() - i,
        {
            let hit = match &self.content[i] {
                StaffContent::Phrase(phrase) => phrase.get_chord(id).is_some(),
                StaffContent::Chord(chord) => chord.get_id() == id,
                StaffContent::MultiVoice(voices) => voices.get_chord(id).is_some(),
            };
            if hit {
                proof {
                    lemma_first_some_skips(self@.content, chord_in_item(id), 0, i as int);
                    assert forall|new: ChordView|
                        (#[trigger] self@.replace_chord(id, new)).content == self@.content.update(
                            i as int,
                            chord_replaced_in_item(id, new)(self@.content[i as int]),
                        ) by {
                        lemma_changed_first_at(
                            self@.content,
                            found(chord_in_item(id)),
                            chord_replaced_in_item(id, new),
                            0,
                            i as int,
                        );
                    }
                    assert forall|changed: StaffContent|
                        item_views(#[trigger] self.content@.update(i as int, changed))
                            == item_views(
                            self.content@,
                        ).update(i as int, changed@) by {
                        lemma_item_views(self.content@, i as int, changed);
                    }
                }
                match &mut self.content[i] {
                    StaffContent::Phrase(phrase) => {
                        return phrase.get_chord_mut(id);
                    },
                    StaffContent::Chord(chord) => {
                        return Some(chord);
                    },
                    StaffContent::MultiVoice(voices) => {
                        return voices.get_chord_mut(id);
                    },
                }
            }
            i += 1;
        }
        proof {
            lemma_first_some_skips(self@.content, chord_in_item(id), 0, i as int);
        }
        None
    }

    /// The first phrase with the given identifier, searching depth first,
    /// for editing.
    pub fn get_phrase_mut(&mut self, id: usize) -> (r: Option<&mut Phrase>)
        ensures
            match r {
                Some(found) => Some(found@) == old(self)@.find_phrase(id) && final(self)@ == old(
                    self,
                )@.replace_phrase(id, final(found)@),
                None => old(self)@.find_phrase(id) is None && final(self)@ == old(self)@,
            },
    {
        let mut i: usize = 0;
        while i < self.content.len()
            invariant
                i <= self.content.len(),
                *self == *old(self),
                forall|j: int| 0 <= j < i ==>
                    !found(phrase_in_item(id))(#[trigger] self@.content[j]),
            decreases self.content.len() - i,
        {
            let hit = match &self.content[i] {
                StaffContent::Phrase(phrase) => phrase.get_id() == id || phrase.get_phrase(
                    id,
                ).is_some(),
                StaffContent::Chord(_) => false,
                StaffContent::MultiVoice(voices) => voices.get_phrase(id).is_some(),
            };
            if hit {
                proof {
                    lemma_first_some_skips(self@.content, phrase_in_item(id), 0, i as int);
                    assert forall|new: PhraseView|
                        (#[trigger] self@.replace_phrase(id, new)).content == self@.content.update(
                            i as int,
                            phrase_replaced_in_item(id, new)(self@.content[i as int]),
                        ) by {
                        lemma_changed_first_at(
                            self@.content,
                            found(phrase_in_item(id)),
                            phrase_replaced_in_item(id, new),
                            0,
                            i as int,
                        );
                    }
                    assert forall|changed: StaffContent|
                        item_views(#[trigger] self.content@.update(i as int, changed))
                            == item_views(
                            self.content@,
                        ).update(i as int, changed@) by {
                        lemma_item_views(self.content@, i as int, changed);
                    }
                }
                match &mut self.content[i] {
                    StaffContent::Phrase(phrase) => {
                        if phrase.get_id() == id {
                            return Some(phrase);
                        }
                        return phrase.get_phrase_mut(id);
                    },
                    StaffContent::MultiVoice(voices) => {
                        return voices.get_phrase_mut(id);
                    },
                    StaffContent::Chord(_) => {
                        return None;
                    },
                }
            }
            i += 1;
        }
        proof {
            lemma_first_some_skips(self@.content, phrase_in_item(id), 0, i as int);
        }
        None
    }

    /// The first group of voices with the given identifier, searching depth first,
    /// for editing.
    pub fn get_multivoice_mut(&mut self, id: usize) -> (r: Option<&mut MultiVoice>)
        ensures
            match r {
                Some(found) => Some(found@) == old(self)@.find_multivoice(id) && final(self)@
                    == old(
                    self,
                )@.replace_multivoice(id, final(found)@),
                None => old(self)@.find_multivoice(id) is None && final(self)@ == old(self)@,
            },
    {
        let mut i: usize = 0;
        while i < self.content.len()
            invariant
                i <= self.content.len(),
                *self == *old(self),
                forall|j: int| 0 <= j < i ==>
                    !found(multivoice_in_item(id))(#[trigger] self@.content[j]),
            decreases self.content.len() - i,
        {
            let hit = match &self.content[i] {
                StaffContent::MultiVoice(voices) => voices.get_id() == id,
                _ => false,
            };
            if hit {
                proof {
                    lemma_first_some_skips(self@.content, multivoice_in_item(id), 0, i as int);
                    assert forall|new: MultiVoiceView|
                        (#[trigger] self@.replace_multivoice(id, new)).content
                            == self@.content.update(
                            i as int,
                            multivoice_replaced_in_item(id, new)(self@.content[i as int]),
                        ) by {
                        lemma_changed_first_at(
                            self@.content,
                            found(multivoice_in_item(id)),
                            multivoice_replaced_in_item(id, new),
                            0,
                            i as int,
                        );
                    }
                    assert forall|changed: StaffContent|
                        item_views(#[trigger] self.content@.update(i as int, changed))
                            == item_views(
                            self.content@,
                        ).update(i as int, changed@) by {
                        lemma_item_views(self.content@, i as int, changed);
                    }
                }
                match &mut self.content[i] {
                    StaffContent::MultiVoice(voices) => {
                        return Some(voices);
                    },
                    _ => {
                        return None;
                    },
                }
            }
            i += 1;
        }
        proof {
            lemma_first_some_skips(self@.content, multivoice_in_item(id), 0, i as int);
        }
        None
    }
}

/// Puts `new` in the place of the first note in a staff that has the
/// identifier.
pub open spec fn note_replaced_in_staff(id: usize, new: NoteView) -> spec_fn(
    StaffView,
) -> StaffView {
    |staff: StaffView| staff.replace_note(id, new)
}

/// Puts `new` in the place of the first chord in a staff that has the
/// identifier.
pub open spec fn chord_replaced_in_staff(id: usize, new: ChordView) -> spec_fn(
    StaffView,
) -> StaffView {
    |staff: StaffView| staff.replace_chord(id, new)
}

/// Puts `new` in the place of the first phrase in a staff that has the
/// identifier.
pub open spec fn phrase_replaced_in_staff(id: usize, new: PhraseView) -> spec_fn(
    StaffView,
) -> StaffView {
    |staff: StaffView| staff.replace_phrase(id, new)
}

/// Puts `new` in the place of the first group of voices in a staff that has the
/// identifier.
pub open spec fn multivoice_replaced_in_staff(id: usize, new: MultiVoiceView) -> spec_fn(
    StaffView,
) -> StaffView {
    |staff: StaffView| staff.replace_multivoice(id, new)
}

impl PartView {
    /// The part with `new` in the place of the first note in it that
    /// has the given identifier.
    pub open spec fn replace_note(self, id: usize, new: NoteView) -> PartView {
        PartView {
            id: self.id,
            name: self.name,
            staves: changed_first(
                self.staves,
                found(note_in_staff(id)),
                note_replaced_in_staff(id, new),
                0,
            ),
        }
    }

    /// The part with `new` in the place of the first chord in it that
    /// has the given identifier.
    pub open spec fn replace_chord(self, id: usize, new: ChordView) -> PartView {
        PartView {
            id: self.id,
            name: self.name,
            staves: changed_first(
                self.staves,
                found(chord_in_staff(id)),
                chord_replaced_in_staff(id, new),
                0,
            ),
        }
    }

    /// The part with `new` in the place of the first phrase in it that
    /// has the given identifier.
    pub open spec fn replace_phrase(self, id: usize, new: PhraseView) -> PartView {
        PartView {
            id: self.id,
            name: self.name,
            staves: changed_first(
                self.staves,
                found(phrase_in_staff(id)),
                phrase_replaced_in_staff(id, new),
                0,
            ),
        }
    }

    /// The part with `new` in the place of the first group of voices in it that
    /// has the given identifier.
    pub open spec fn replace_multivoice(self, id: usize, new: MultiVoiceView) -> PartView {
        PartView {
            id: self.id,
            name: self.name,
            staves: changed_first(
                self.staves,
                found(multivoice_in_staff(id)),
                multivoice_replaced_in_staff(id, new),
                0,
            ),
        }
    }

    /// The part with `new` in the place of the first staff in it that
    /// has the given identifier.
    pub open spec fn replace_staff(self, id: usize, new: StaffView) -> PartView {
        PartView {
            id: self.id,
            name: self.name,
            staves: changed_first(self.staves, found(staff_at(id)), put(new), 0),
        }
    }
}

impl Part {
    /// The first note with the given identifier, searching depth first,
    /// for editing.
    pub fn get_note_mut(&mut self, id: usize) -> (r: Option<&mut Note>)
        ensures
            match r {
                Some(found) => Some(found@) == old(self)@.find_note(id) && final(self)@ == old(
                    self,
                )@.replace_note(id, final(found)@),
                None => old(self)@.find_note(id) is None && final(self)@ == old(self)@,
            },
    {
        let mut i: usize = 0;
        while i < self.staves.len()
            invariant
                i <= self.staves.len(),
                *self == *old(self),
                forall|j: int| 0 <= j < i ==> !found(note_in_staff(id))(#[trigger] self@.staves[j]),
            decreases self.staves.len() - i,
        {
            let hit = self.staves[i].get_note(id).is_some();
            if hit {
                proof {
                    lemma_first_some_skips(self@.staves, note_in_staff(id), 0, i as int);
                    assert forall|new: NoteView|
                        (#[trigger] self@.replace_note(id, new)).staves == self@.staves.update(
                            i as int,
                            note_replaced_in_staff(id, new)(self@.staves[i as int]),
                        ) by {
                        lemma_changed_first_at(
                            self@.staves,
                            found(note_in_staff(id)),
                            note_replaced_in_staff(id, new),
                            0,
                            i as int,
                        );
                    }
                    assert forall|changed: Staff|
                        views(#[trigger] self.staves@.update(i as int, changed)) == views(
                            self.staves@,
                        ).update(i as int, changed@) by {
                        lemma_views(self.staves@, i as int, changed);
                    }
                }
                return self.staves[i].get_note_mut(id);
            }
            i += 1;
        }
        proof {
            lemma_first_some_skips(self@.staves, note_in_staff(id), 0, i as int);
        }
        None
    }

    /// The first chord with the given identifier, searching depth first,
    /// for editing.
    pub fn get_chord_mut(&mut self, id: usize) -> (r: Option<&mut Chord>)
        ensures
            match r {
                Some(found) => Some(found@) == old(self)@.find_chord(id) && final(self)@ == old(
                    self,
                )@.replace_chord(id, final(found)@),
                None => old(self)@.find_chord(id) is None && final(self)@ == old(self)@,
            },
    {
        let mut i: usize = 0;
        while i < self.staves.len()
            invariant
                i <= self.staves.len(),
                *self == *old(self),
                forall|j: int| 0 <= j < i ==>
                    !found(chord_in_staff(id))(#[trigger] self@.staves[j]),
            decreases self.staves.len() - i,
        {
            let hit = self.staves[i].get_chord(id).is_some();
            if hit {
                proof {
                    lemma_first_some_skips(self@.staves, chord_in_staff(id), 0, i as int);
                    assert forall|new: ChordView|
                        (#[trigger] self@.replace_chord(id, new)).staves == self@.staves.update(
                            i as int,
                            chord_replaced_in_staff(id, new)(self@.staves[i as int]),
                        ) by {
                        lemma_changed_first_at(
                            self@.staves,
                            found(chord_in_staff(id)),
                            chord_replaced_in_staff(id, new),
                            0,
                            i as int,
                        );
                    }
                    assert forall|changed: Staff|
                        views(#[trigger] self.staves@.update(i as int, changed)) == views(
                            self.staves@,
                        ).update(i as int, changed@) by {
                        lemma_views(self.staves@, i as int, changed);
                    }
                }
                return self.staves[i].get_chord_mut(id);
            }
            i += 1;
        }
        proof {
            lemma_first_some_skips(self@.staves, chord_in_staff(id), 0, i as int);
        }
        None
    }

    /// The first phrase with the given identifier, searching depth first,
    /// for editing.
    pub fn get_phrase_mut(&mut self, id: usize) -> (r: Option<&mut Phrase>)
        ensures
            match r {
                Some(found) => Some(found@) == old(self)@.find_phrase(id) && final(self)@ == old(
                    self,
                )@.replace_phrase(id, final(found)@),
                None => old(self)@.find_phrase(id) is None && final(self)@ == old(self)@,
            },
    {
        let mut i: usize = 0;
        while i < self.staves.len()
            invariant
                i <= self.staves.len(),
                *self == *old(self),
                forall|j: int| 0 <= j < i ==>
                    !found(phrase_in_staff(id))(#[trigger] self@.staves[j]),
            decreases self.staves.len() - i,
        {
            let hit = self.staves[i].get_phrase(id).is_some();
            if hit {
                proof {
                    lemma_first_some_skips(self@.staves, phrase_in_staff(id), 0, i as int);
                    assert forall|new: PhraseView|
                        (#[trigger] self@.replace_phrase(id, new)).staves == self@.staves.update(
                            i as int,
                            phrase_replaced_in_staff(id, new)(self@.staves[i as int]),
                        ) by {
                        lemma_changed_first_at(
                            self@.staves,
                            found(phrase_in_staff(id)),
                            phrase_replaced_in_staff(id, new),
                            0,
                            i as int,
                        );
                    }
                    assert forall|changed: Staff|
                        views(#[trigger] self.staves@.update(i as int, changed)) == views(
                            self.staves@,
                        ).update(i as int, changed@) by {
                        lemma_views(self.staves@, i as int, changed);
                    }
                }
                return self.staves[i].get_phrase_mut(id);
            }
            i += 1;
        }
        proof {
            lemma_first_some_skips(self@.staves, phrase_in_staff(id), 0, i as int);
        }
        None
    }

    /// The first group of voices with the given identifier, searching depth first,
    /// for editing.
    pub fn get_multivoice_mut(&mut self, id: usize) -> (r: Option<&mut MultiVoice>)
        ensures
            match r {
                Some(found) => Some(found@) == old(self)@.find_multivoice(id) && final(self)@
                    == old(
                    self,
                )@.replace_multivoice(id, final(found)@),
                None => old(self)@.find_multivoice(id) is None && final(self)@ == old(self)@,
            },
    {
        let mut i: usize = 0;
        while i < self.staves.len()
            invariant
                i <= self.staves.len(),
                *self == *old(self),
                forall|j: int| 0 <= j < i ==>
                    !found(multivoice_in_staff(id))(#[trigger] self@.staves[j]),
            decreases self.staves.len() - i,
        {
            let hit = self.staves[i].get_multivoice(id).is_some();
            if hit {
                proof {
                    lemma_first_some_skips(self@.staves, multivoice_in_staff(id), 0, i as int);
                    assert forall|new: MultiVoiceView|
                        (#[trigger] self@.replace_multivoice(id, new)).staves
                            == self@.staves.update(
                            i as int,
                            multivoice_replaced_in_staff(id, new)(self@.staves[i as int]),
                        ) by {
                        lemma_changed_first_at(
                            self@.staves,
                            found(multivoice_in_staff(id)),
                            multivoice_replaced_in_staff(id, new),
                            0,
                            i as int,
                        );
                    }
                    assert forall|changed: Staff|
                        views(#[trigger] self.staves@.update(i as int, changed)) == views(
                            self.staves@,
                        ).update(i as int, changed@) by {
                        lemma_views(self.staves@, i as int, changed);
                    }
                }
                return self.staves[i].get_multivoice_mut(id);
            }
            i += 1;
        }
        proof {
            lemma_first_some_skips(self@.staves, multivoice_in_staff(id), 0, i as int);
        }
        None
    }

    /// The first staff with the given identifier, searching depth first,
    /// for editing.
    pub fn get_staff_mut(&mut self, id: usize) -> (r: Option<&mut Staff>)
        ensures
            match r {
                Some(found) => Some(found@) == old(self)@.find_staff(id) && final(self)@ == old(
                    self,
                )@.replace_staff(id, final(found)@),
                None => old(self)@.find_staff(id) is None && final(self)@ == old(self)@,
            },
    {
        let mut i: usize = 0;
        while i < self.staves.len()
            invariant
                i <= self.staves.len(),
                *self == *old(self),
                forall|j: int| 0 <= j < i ==> !found(staff_at(id))(#[trigger] self@.staves[j]),
            decreases self.staves.len() - i,
        {
            let hit = self.staves[i].get_id() == id;
            if hit {
                proof {
                    lemma_first_some_skips(self@.staves, staff_at(id), 0, i as int);
                    assert forall|new: StaffView|
                        (#[trigger] self@.replace_staff(id, new)).staves == self@.staves.update(
                            i as int,
                            put(new)(self@.staves[i as int]),
                        ) by {
                        lemma_changed_first_at(
                            self@.staves,
                            found(staff_at(id)),
                            put(new),
                            0,
                            i as int,
                        );
                    }
                    assert forall|changed: Staff|
                        views(#[trigger] self.staves@.update(i as int, changed)) == views(
                            self.staves@,
                        ).update(i as int, changed@) by {
                        lemma_views(self.staves@, i as int, changed);
                    }
                }
                return Some(&mut self.staves[i]);
            }
            i += 1;
        }
        proof {
            lemma_first_some_skips(self@.staves, staff_at(id), 0, i as int);
        }
        None
    }
}

/// Puts `new` in the place of the first note in a part that has the
/// identifier.
pub open spec fn note_replaced_in_part(id: usize, new: NoteView) -> spec_fn(PartView) -> PartView {
    |part: PartView| part.replace_note(id, new)
}

/// Puts `new` in the place of the first chord in a part that has the
/// identifier.
pub open spec fn chord_replaced_in_part(id: usize, new: ChordView) -> spec_fn(
    PartView,
) -> PartView {
    |part: PartView| part.replace_chord(id, new)
}

/// Puts `new` in the place of the first phrase in a part that has the
/// identifier.
pub open spec fn phrase_replaced_in_part(id: usize, new: PhraseView) -> spec_fn(
    PartView,
) -> PartView {
    |part: PartView| part.replace_phrase(id, new)
}

/// Puts `new` in the place of the first group of voices in a part that has the
/// identifier.
pub open spec fn multivoice_replaced_in_part(id: usize, new: MultiVoiceView) -> spec_fn(
    PartView,
) -> PartView {
    |part: PartView| part.replace_multivoice(id, new)
}

/// Puts `new` in the place of the first staff in a part that has the
/// identifier.
pub open spec fn staff_replaced_in_part(id: usize, new: StaffView) -> spec_fn(
    PartView,
) -> PartView {
    |part: PartView| part.replace_staff(id, new)
}

impl CompositionView {
    /// The composition with `new` in the place of the first note in it that
    /// has the given identifier.
    pub open spec fn replace_note(self, id: usize, new: NoteView) -> CompositionView {
        CompositionView {
            parts: changed_first(
                self.parts,
                found(note_in_part(id)),
                note_replaced_in_part(id, new),
                0,
            ),
            ..self
        }
    }

    /// The composition with `new` in the place of the first chord in it that
    /// has the given identifier.
    pub open spec fn replace_chord(self, id: usize, new: ChordView) -> CompositionView {
        CompositionView {
            parts: changed_first(
                self.parts,
                found(chord_in_part(id)),
                chord_replaced_in_part(id, new),
                0,
            ),
            ..self
        }
    }

    /// The composition with `new` in the place of the first phrase in it that
    /// has the given identifier.
    pub open spec fn replace_phrase(self, id: usize, new: PhraseView) -> CompositionView {
        CompositionView {
            parts: changed_first(
                self.parts,
                found(phrase_in_part(id)),
                phrase_replaced_in_part(id, new),
                0,
            ),
            ..self
        }
    }

    /// The composition with `new` in the place of the first group of voices in it that
    /// has the given identifier.
    pub open spec fn replace_multivoice(self, id: usize, new: MultiVoiceView) -> CompositionView {
        CompositionView {
            parts: changed_first(
                self.parts,
                found(multivoice_in_part(id)),
                multivoice_replaced_in_part(id, new),
                0,
            ),
            ..self
        }
    }

    /// The composition with `new` in the place of the first staff in it that
    /// has the given identifier.
    pub open spec fn replace_staff(self, id: usize, new: StaffView) -> CompositionView {
        CompositionView {
            parts: changed_first(
                self.parts,
                found(staff_in_part(id)),
                staff_replaced_in_part(id, new),
                0,
            ),
            ..self
        }
    }

    /// The composition with `new` in the place of the first part in it that
    /// has the given identifier.
    pub open spec fn replace_part(self, id: usize, new: PartView) -> CompositionView {
        CompositionView {
            parts: changed_first(self.parts, found(part_at(id)), put(new), 0),
            ..self
        }
    }
}

impl Composition {
    /// The first note with the given identifier, searching depth first,
    /// for editing.
    pub fn get_note_mut(&mut self, id: usize) -> (r: Option<&mut Note>)
        ensures
            match r {
                Some(found) => Some(found@) == old(self)@.find_note(id) && final(self)@ == old(
                    self,
                )@.replace_note(id, final(found)@),
                None => old(self)@.find_note(id) is None && final(self)@ == old(self)@,
            },
    {
        let mut i: usize = 0;
        while i < self.parts.len()
            invariant
                i <= self.parts.len(),
                *self == *old(self),
                forall|j: int| 0 <= j < i ==> !found(note_in_part(id))(#[trigger] self@.parts[j]),
            decreases self.parts.len() - i,
        {
            let hit = self.parts[i].get_note(id).is_some();
            if hit {
                proof {
                    lemma_first_some_skips(self@.parts, note_in_part(id), 0, i as int);
                    assert forall|new: NoteView|
                        (#[trigger] self@.replace_note(id, new)).parts == self@.parts.update(
                            i as int,
                            note_replaced_in_part(id, new)(self@.parts[i as int]),
                        ) by {
                        lemma_changed_first_at(
                            self@.parts,
                            found(note_in_part(id)),
                            note_replaced_in_part(id, new),
                            0,
                            i as int,
                        );
                    }
                    assert forall|changed: Part|
                        views(#[trigger] self.parts@.update(i as int, changed)) == views(
                            self.parts@,
                        ).update(i as int, changed@) by {
                        lemma_views(self.parts@, i as int, changed);
                    }
                }
                return self.parts[i].get_note_mut(id);
            }
            i += 1;
        }
        proof {
            lemma_first_some_skips(self@.parts, note_in_part(id), 0, i as int);
        }
        None
    }

    /// The first chord with the given identifier, searching depth first,
    /// for editing.
    pub fn get_chord_mut(&mut self, id: usize) -> (r: Option<&mut Chord>)
        ensures
            match r {
                Some(found) => Some(found@) == old(self)@.find_chord(id) && final(self)@ == old(
                    self,
                )@.replace_chord(id, final(found)@),
                None => old(self)@.find_chord(id) is None && final(self)@ == old(self)@,
            },
    {
        let mut i: usize = 0;
        while i < self.parts.len()
            invariant
                i <= self.parts.len(),
                *self == *old(self),
                forall|j: int| 0 <= j < i ==> !found(chord_in_part(id))(#[trigger] self@.parts[j]),
            decreases self.parts.len() - i,
        {
            let hit = self.parts[i].get_chord(id).is_some();
            if hit {
                proof {
                    lemma_first_some_skips(self@.parts, chord_in_part(id), 0, i as int);
                    assert forall|new: ChordView|
                        (#[trigger] self@.replace_chord(id, new)).parts == self@.parts.update(
                            i as int,
                            chord_replaced_in_part(id, new)(self@.parts[i as int]),
                        ) by {
                        lemma_changed_first_at(
                            self@.parts,
                            found(chord_in_part(id)),
                            chord_replaced_in_part(id, new),
                            0,
                            i as int,
                        );
                    }
                    assert forall|changed: Part|
                        views(#[trigger] self.parts@.update(i as int, changed)) == views(
                            self.parts@,
                        ).update(i as int, changed@) by {
                        lemma_views(self.parts@, i as int, changed);
                    }
                }
                return self.parts[i].get_chord_mut(id);
            }
            i += 1;
        }
        proof {
            lemma_first_some_skips(self@.parts, chord_in_part(id), 0, i as int);
        }
        None
    }

    /// The first phrase with the given identifier, searching depth first,
    /// for editing.
    pub fn get_phrase_mut(&mut self, id: usize) -> (r: Option<&mut Phrase>)
        ensures
            match r {
                Some(found) => Some(found@) == old(self)@.find_phrase(id) && final(self)@ == old(
                    self,
                )@.replace_phrase(id, final(found)@),
                None => old(self)@.find_phrase(id) is None && final(self)@ == old(self)@,
            },
    {
        let mut i: usize = 0;
        while i < self.parts.len()
            invariant
                i <= self.parts.len(),
                *self == *old(self),
                forall|j: int| 0 <= j < i ==> !found(phrase_in_part(id))(#[trigger] self@.parts[j]),
            decreases self.parts.len() - i,
        {
            let hit = self.parts[i].get_phrase(id).is_some();
            if hit {
                proof {
                    lemma_first_some_skips(self@.parts, phrase_in_part(id), 0, i as int);
                    assert forall|new: PhraseView|
                        (#[trigger] self@.replace_phrase(id, new)).parts == self@.parts.update(
                            i as int,
                            phrase_replaced_in_part(id, new)(self@.parts[i as int]),
                        ) by {
                        lemma_changed_first_at(
                            self@.parts,
                            found(phrase_in_part(id)),
                            phrase_replaced_in_part(id, new),
                            0,
                            i as int,
                        );
                    }
                    assert forall|changed: Part|
                        views(#[trigger] self.parts@.update(i as int, changed)) == views(
                            self.parts@,
                        ).update(i as int, changed@) by {
                        lemma_views(self.parts@, i as int, changed);
                    }
                }
                return self.parts[i].get_phrase_mut(id);
            }
            i += 1;
        }
        proof {
            lemma_first_some_skips(self@.parts, phrase_in_part(id), 0, i as int);
        }
        None
    }

    /// The first group of voices with the given identifier, searching depth first,
    /// for editing.
    pub fn get_multivoice_mut(&mut self, id: usize) -> (r: Option<&mut MultiVoice>)
        ensures
            match r {
                Some(found) => Some(found@) == old(self)@.find_multivoice(id) && final(self)@
                    == old(
                    self,
                )@.replace_multivoice(id, final(found)@),
                None => old(self)@.find_multivoice(id) is None && final(self)@ == old(self)@,
            },
    {
        let mut i: usize = 0;
        while i < self.parts.len()
            invariant
                i <= self.parts.len(),
                *self == *old(self),
                forall|j: int| 0 <= j < i ==>
                    !found(multivoice_in_part(id))(#[trigger] self@.parts[j]),
            decreases self.parts.len() - i,
        {
            let hit = self.parts[i].get_multivoice(id).is_some();
            if hit {
                proof {
                    lemma_first_some_skips(self@.parts, multivoice_in_part(id), 0, i as int);
                    assert forall|new: MultiVoiceView|
                        (#[trigger] self@.replace_multivoice(id, new)).parts == self@.parts.update(
                            i as int,
                            multivoice_replaced_in_part(id, new)(self@.parts[i as int]),
                        ) by {
                        lemma_changed_first_at(
                            self@.parts,
                            found(multivoice_in_part(id)),
                            multivoice_replaced_in_part(id, new),
                            0,
                            i as int,
                        );
                    }
                    assert forall|changed: Part|
                        views(#[trigger] self.parts@.update(i as int, changed)) == views(
                            self.parts@,
                        ).update(i as int, changed@) by {
                        lemma_views(self.parts@, i as int, changed);
                    }
                }
                return self.parts[i].get_multivoice_mut(id);
            }
            i += 1;
        }
        proof {
            lemma_first_some_skips(self@.parts, multivoice_in_part(id), 0, i as int);
        }
        None
    }

    /// The first staff with the given identifier, searching depth first,
    /// for editing.
    pub fn get_staff_mut(&mut self, id: usize) -> (r: Option<&mut Staff>)
        ensures
            match r {
                Some(found) => Some(found@) == old(self)@.find_staff(id) && final(self)@ == old(
                    self,
                )@.replace_staff(id, final(found)@),
                None => old(self)@.find_staff(id) is None && final(self)@ == old(self)@,
            },
    {
        let mut i: usize = 0;
        while i < self.parts.len()
            invariant
                i <= self.parts.len(),
                *self == *old(self),
                forall|j: int| 0 <= j < i ==> !found(staff_in_part(id))(#[trigger] self@.parts[j]),
            decreases self.parts.len() - i,
        {
            let hit = self.parts[i].get_staff(id).is_some();
            if hit {
                proof {
                    lemma_first_some_skips(self@.parts, staff_in_part(id), 0, i as int);
                    assert forall|new: StaffView|
                        (#[trigger] self@.replace_staff(id, new)).parts == self@.parts.update(
                            i as int,
                            staff_replaced_in_part(id, new)(self@.parts[i as int]),
                        ) by {
                        lemma_changed_first_at(
                            self@.parts,
                            found(staff_in_part(id)),
                            staff_replaced_in_part(id, new),
                            0,
                            i as int,
                        );
                    }
                    assert forall|changed: Part|
                        views(#[trigger] self.parts@.update(i as int, changed)) == views(
                            self.parts@,
                        ).update(i as int, changed@) by {
                        lemma_views(self.parts@, i as int, changed);
                    }
                }
                return self.parts[i].get_staff_mut(id);
            }
            i += 1;
        }
        proof {
            lemma_first_some_skips(self@.parts, staff_in_part(id), 0, i as int);
        }
        None
    }

    /// The first part with the given identifier, searching depth first,
    /// for editing.
    pub fn get_part_mut(&mut self, id: usize) -> (r: Option<&mut Part>)
        ensures
            match r {
                Some(found) => Some(found@) == old(self)@.find_part(id) && final(self)@ == old(
                    self,
                )@.replace_part(id, final(found)@),
                None => old(self)@.find_part(id) is None && final(self)@ == old(self)@,
            },
    {
        let mut i: usize = 0;
        while i < self.parts.len()
            invariant
                i <= self.parts.len(),
                *self == *old(self),
                forall|j: int| 0 <= j < i ==> !found(part_at(id))(#[trigger] self@.parts[j]),
            decreases self.parts.len() - i,
        {
            let hit = self.parts[i].get_id() == id;
            if hit {
                proof {
                    lemma_first_some_skips(self@.parts, part_at(id), 0, i as int);
                    assert forall|new: PartView|
                        (#[trigger] self@.replace_part(id, new)).parts == self@.parts.update(
                            i as int,
                            put(new)(self@.parts[i as int]),
                        ) by {
                        lemma_changed_first_at(
                            self@.parts,
                            found(part_at(id)),
                            put(new),
                            0,
                            i as int,
                        );
                    }
                    assert forall|changed: Part|
                        views(#[trigger] self.parts@.update(i as int, changed)) == views(
                            self.parts@,
                        ).update(i as int, changed@) by {
                        lemma_views(self.parts@, i as int, changed);
                    }
                }
                return Some(&mut self.parts[i]);
            }
            i += 1;
        }
        proof {
            lemma_first_some_skips(self@.parts, part_at(id), 0, i as int);
        }
        None
    }
}

impl CompositionView {
    /// The composition with `new` in the place of its first part of the
    /// given name.
    pub open spec fn replace_part_named(self, name: Seq<char>, new: PartView) -> CompositionView {
        CompositionView {
            parts: changed_first(self.parts, found(part_named(name)), put(new), 0),
            ..self
        }
    }
}

impl Composition {
    /// The first part with the given name, for editing.
    pub fn get_part_mut_by_name(&mut self, name: &str) -> (r: Option<&mut Part>)
        ensures
            match r {
                Some(found) => Some(found@) == old(self)@.find_part_by_name(name@) && final(self)@
                    == old(self)@.replace_part_named(name@, final(found)@),
                None => old(self)@.find_part_by_name(name@) is None && final(self)@ == old(self)@,
            },
    {
        let target = String::from_str(name);
        let mut i: usize = 0;
        while i < self.parts.len()
            invariant
                i <= self.parts.len(),
                *self == *old(self),
                target@ == name@,
                forall|j: int| 0 <= j < i ==> !found(part_named(name@))(#[trigger] self@.parts[j]),
            decreases self.parts.len() - i,
        {
            let hit = self.parts[i].name == target;
            if hit {
                proof {
                    lemma_first_some_skips(self@.parts, part_named(name@), 0, i as int);
                    assert forall|new: PartView|
                        (#[trigger] self@.replace_part_named(name@, new)).parts
                            == self@.parts.update(i as int, put(new)(self@.parts[i as int])) by {
                        lemma_changed_first_at(
                            self@.parts,
                            found(part_named(name@)),
                            put(new),
                            0,
                            i as int,
                        );
                    }
                    assert forall|changed: Part|
                        views(#[trigger] self.parts@.update(i as int, changed)) == views(
                            self.parts@,
                        ).update(i as int, changed@) by {
                        lemma_views(self.parts@, i as int, changed);
                    }
                }
                return Some(&mut self.parts[i]);
            }
            i += 1;
        }
        proof {
            lemma_first_some_skips(self@.parts, part_named(name@), 0, i as int);
        }
        None
    }

    /// The parts of the composition, in order, for editing.
    pub fn iter_mut(&mut self) -> (r: &mut [Part])
        ensures
            views(r@) == old(self)@.parts,
            final(self)@ == (CompositionView { parts: views(final(r)@), ..old(self)@ }),
    {
        self.parts.as_mut_slice()
    }
}

} // verus!
