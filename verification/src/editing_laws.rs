//! What holds of editing in place: the node that was handed out for change
//! is the node that a lookup of its identifier returns afterwards, as long
//! as the change leaves the identifier as it is.

use crate::composition::{
    chord_in_part, CompositionView, multivoice_in_part, note_in_part, part_at, phrase_in_part,
    staff_in_part,
};
use crate::editing::{
    chord_replaced_in_item, chord_replaced_in_part, chord_replaced_in_phrase,
    chord_replaced_in_staff, multivoice_replaced_in_item, multivoice_replaced_in_part,
    multivoice_replaced_in_staff, note_is, note_replaced_in_item, note_replaced_in_part,
    note_replaced_in_phrase, note_replaced_in_staff, phrase_replaced_at_or_in,
    phrase_replaced_in_item, phrase_replaced_in_part, phrase_replaced_in_staff,
    staff_replaced_in_part,
};
use crate::model::{lemma_changed_first_at, lemma_changed_first_is_found, put};
use crate::note::note::NoteView;
use crate::structure::chord::{ChordView, find_note_among};
use crate::structure::multivoice::{
    chord_in_phrase, MultiVoiceView, note_in_phrase, phrase_at_or_in,
};
use crate::structure::part::{
    chord_in_staff, multivoice_in_staff, note_in_staff, PartView, phrase_in_staff, staff_at,
};
use crate::structure::phrase::{PhraseContentView, PhraseView};
use crate::structure::staff::{
    chord_in_item, multivoice_in_item, note_in_item, phrase_in_item, StaffContentView, StaffView,
};
use vstd::prelude::*;

verus! {

/// The first note with an identifier, from a position on, stands at a
/// position before which no note has the identifier.
proof fn lemma_first_note_position(notes: Seq<NoteView>, id: usize, from: int) -> (at: int)
    requires
        0 <= from,
        find_note_among(notes, id, from) is Some,
    ensures
        from <= at < notes.len(),
        notes[at].id == id,
        forall|i: int| from <= i < at ==> (#[trigger] notes[i]).id != id,
    decreases notes.len() - from,
{
    if notes[from].id == id {
        from
    } else {
        lemma_first_note_position(notes, id, from + 1)
    }
}

/// After the first note of an identifier in a chord has been replaced by a
/// note of the same identifier, a lookup of the identifier returns the new
/// note.
pub proof fn lemma_chord_finds_replaced_note(chord: ChordView, id: usize, new: NoteView)
    requires
        chord.find_note(id) is Some,
        new.id == id,
    ensures
        chord.replace_note(id, new).find_note(id) == Some(new),
{
    let at = lemma_first_note_position(chord.notes, id, 0);
    lemma_changed_first_at(chord.notes, note_is(id), put(new), 0, at);
    let after = chord.notes.update(at, new);
    assert forall|i: int| 0 <= i < at implies (#[trigger] after[i]).id != id by {
        assert(chord.notes[i].id != id);
    }
    crate::structure::chord::lemma_find_note_among_first(after, id, 0, at);
}

/// After the first note of an identifier below a phrase has been replaced
/// by a note of the same identifier, a lookup of the identifier returns
/// the new note.
pub proof fn lemma_phrase_finds_replaced_note(phrase: PhraseView, id: usize, new: NoteView)
    requires
        phrase.find_note(id) is Some,
        new.id == id,
    ensures
        phrase.replace_note(id, new).find_note(id) == Some(new),
    decreases phrase,
{
    lemma_children_find_replaced_note(phrase.content, id, new, 0);
}

/// The same of the children of a phrase from position `from` on.
pub proof fn lemma_children_find_replaced_note(
    items: Seq<PhraseContentView>,
    id: usize,
    new: NoteView,
    from: int,
)
    requires
        0 <= from,
        PhraseView::find_note_in(items, id, from) is Some,
        new.id == id,
    ensures
        PhraseView::find_note_in(PhraseView::replace_note_in(items, id, new, from), id, from)
            == Some(
            new,
        ),
        PhraseView::replace_note_in(items, id, new, from).len() == items.len(),
        forall|j: int|
            0 <= j < from
                && j < items.len() ==> PhraseView::replace_note_in(items, id, new, from)[j]
                == items[j],
    decreases items, items.len() - from,
{
    if from < items.len() {
        let after = PhraseView::replace_note_in(items, id, new, from);
        match items[from] {
            PhraseContentView::Note(note) if note.id == id => {},
            PhraseContentView::Chord(chord) if chord.find_note(id) is Some => {
                lemma_chord_finds_replaced_note(chord, id, new);
            },
            PhraseContentView::Phrase(inner) if inner.find_note(id) is Some => {
                lemma_phrase_finds_replaced_note(inner, id, new);
            },
            _ => {
                lemma_children_find_replaced_note(items, id, new, from + 1);
                assert(after[from] == items[from]);
            },
        }
    }
}

/// After the first chord of an identifier below a phrase has been replaced
/// by a chord of the same identifier, a lookup of the identifier returns
/// the new chord.
pub proof fn lemma_phrase_finds_replaced_chord(phrase: PhraseView, id: usize, new: ChordView)
    requires
        phrase.find_chord(id) is Some,
        new.id == id,
    ensures
        phrase.replace_chord(id, new).find_chord(id) == Some(new),
    decreases phrase,
{
    lemma_children_find_replaced_chord(phrase.content, id, new, 0);
}

/// The same of the children of a phrase from position `from` on.
pub proof fn lemma_children_find_replaced_chord(
    items: Seq<PhraseContentView>,
    id: usize,
    new: ChordView,
    from: int,
)
    requires
        0 <= from,
        PhraseView::find_chord_in(items, id, from) is Some,
        new.id == id,
    ensures
        PhraseView::find_chord_in(PhraseView::replace_chord_in(items, id, new, from), id, from)
            == Some(
            new,
        ),
        PhraseView::replace_chord_in(items, id, new, from).len() == items.len(),
        forall|j: int|
            0 <= j < from
                && j < items.len() ==> PhraseView::replace_chord_in(items, id, new, from)[j]
                == items[j],
    decreases items, items.len() - from,
{
    if from < items.len() {
        let after = PhraseView::replace_chord_in(items, id, new, from);
        match items[from] {
            PhraseContentView::Chord(chord) if chord.id == id => {},
            PhraseContentView::Phrase(inner) if inner.find_chord(id) is Some => {
                lemma_phrase_finds_replaced_chord(inner, id, new);
            },
            _ => {
                lemma_children_find_replaced_chord(items, id, new, from + 1);
                assert(after[from] == items[from]);
            },
        }
    }
}

/// After the first phrase of an identifier below a phrase has been replaced
/// by a phrase of the same identifier, a lookup of the identifier returns
/// the new phrase.
pub proof fn lemma_phrase_finds_replaced_phrase(phrase: PhraseView, id: usize, new: PhraseView)
    requires
        phrase.find_phrase(id) is Some,
        new.id == id,
    ensures
        phrase.replace_phrase(id, new).find_phrase(id) == Some(new),
    decreases phrase,
{
    lemma_children_find_replaced_phrase(phrase.content, id, new, 0);
}

/// The same of the children of a phrase from position `from` on.
pub proof fn lemma_children_find_replaced_phrase(
    items: Seq<PhraseContentView>,
    id: usize,
    new: PhraseView,
    from: int,
)
    requires
        0 <= from,
        PhraseView::find_phrase_in(items, id, from) is Some,
        new.id == id,
    ensures
        PhraseView::find_phrase_in(PhraseView::replace_phrase_in(items, id, new, from), id, from)
            == Some(
            new,
        ),
        PhraseView::replace_phrase_in(items, id, new, from).len() == items.len(),
        forall|j: int|
            0 <= j < from
                && j < items.len() ==> PhraseView::replace_phrase_in(items, id, new, from)[j]
                == items[j],
    decreases items, items.len() - from,
{
    if from < items.len() {
        let after = PhraseView::replace_phrase_in(items, id, new, from);
        match items[from] {
            PhraseContentView::Phrase(inner) if inner.id == id => {},
            PhraseContentView::Phrase(inner) if inner.find_phrase(id) is Some => {
                lemma_phrase_finds_replaced_phrase(inner, id, new);
                assert(inner.replace_phrase(id, new).id == inner.id);
            },
            _ => {
                lemma_children_find_replaced_phrase(items, id, new, from + 1);
                assert(after[from] == items[from]);
            },
        }
    }
}

/// After the first note of an identifier in a group of voices has been
/// replaced by a note of the same identifier, a lookup of the
/// identifier returns the new note.
pub proof fn lemma_multivoice_finds_replaced_note(multivoice: MultiVoiceView, id: usize, new: NoteView)
    requires
        multivoice.find_note(id) is Some,
        new.id == id,
    ensures
        multivoice.replace_note(id, new).find_note(id) == Some(new),
{
    assert forall|i: int|
        0 <= i < multivoice.voices.len() && note_in_phrase(id)(#[trigger] multivoice.voices[i]) is Some implies note_in_phrase(
        id,
    )(note_replaced_in_phrase(id, new)(multivoice.voices[i])) == Some(new) by {
        lemma_phrase_finds_replaced_note(multivoice.voices[i], id, new);
    }
    lemma_changed_first_is_found(
        multivoice.voices,
        note_in_phrase(id),
        note_replaced_in_phrase(id, new),
        new,
        0,
    );
}

/// After the first chord of an identifier in a group of voices has been
/// replaced by a chord of the same identifier, a lookup of the
/// identifier returns the new chord.
pub proof fn lemma_multivoice_finds_replaced_chord(multivoice: MultiVoiceView, id: usize, new: ChordView)
    requires
        multivoice.find_chord(id) is Some,
        new.id == id,
    ensures
        multivoice.replace_chord(id, new).find_chord(id) == Some(new),
{
    assert forall|i: int|
        0 <= i < multivoice.voices.len() && chord_in_phrase(id)(#[trigger] multivoice.voices[i]) is Some implies chord_in_phrase(
        id,
    )(chord_replaced_in_phrase(id, new)(multivoice.voices[i])) == Some(new) by {
        lemma_phrase_finds_replaced_chord(multivoice.voices[i], id, new);
    }
    lemma_changed_first_is_found(
        multivoice.voices,
        chord_in_phrase(id),
        chord_replaced_in_phrase(id, new),
        new,
        0,
    );
}

/// After the first phrase of an identifier in a group of voices has been
/// replaced by a phrase of the same identifier, a lookup of the
/// identifier returns the new phrase.
pub proof fn lemma_multivoice_finds_replaced_phrase(multivoice: MultiVoiceView, id: usize, new: PhraseView)
    requires
        multivoice.find_phrase(id) is Some,
        new.id == id,
    ensures
        multivoice.replace_phrase(id, new).find_phrase(id) == Some(new),
{
    assert forall|i: int|
        0 <= i < multivoice.voices.len() && phrase_at_or_in(id)(#[trigger] multivoice.voices[i]) is Some implies phrase_at_or_in(
        id,
    )(phrase_replaced_at_or_in(id, new)(multivoice.voices[i])) == Some(new) by {
        if multivoice.voices[i].id != id {
            lemma_phrase_finds_replaced_phrase(multivoice.voices[i], id, new);
        }
    }
    lemma_changed_first_is_found(
        multivoice.voices,
        phrase_at_or_in(id),
        phrase_replaced_at_or_in(id, new),
        new,
        0,
    );
}

/// After the first note of an identifier in an item of a staff has been
/// replaced by a note of the same identifier, a lookup of the identifier
/// returns the new note.
pub proof fn lemma_item_finds_replaced_note(item: StaffContentView, id: usize, new: NoteView)
    requires
        item.find_note(id) is Some,
        new.id == id,
    ensures
        item.replace_note(id, new).find_note(id) == Some(new),
{
    match item {
        StaffContentView::Phrase(phrase) => {
            lemma_phrase_finds_replaced_note(phrase, id, new);
        },
        StaffContentView::Chord(chord) => {
            lemma_chord_finds_replaced_note(chord, id, new);
        },
        StaffContentView::MultiVoice(voices) => {
            lemma_multivoice_finds_replaced_note(voices, id, new);
        },
    }
}

/// The same of the first chord of an identifier in an item of a staff.
pub proof fn lemma_item_finds_replaced_chord(item: StaffContentView, id: usize, new: ChordView)
    requires
        item.find_chord(id) is Some,
        new.id == id,
    ensures
        item.replace_chord(id, new).find_chord(id) == Some(new),
{
    match item {
        StaffContentView::Phrase(phrase) => {
            lemma_phrase_finds_replaced_chord(phrase, id, new);
        },
        StaffContentView::Chord(chord) => {},
        StaffContentView::MultiVoice(voices) => {
            lemma_multivoice_finds_replaced_chord(voices, id, new);
        },
    }
}

/// The same of the first phrase of an identifier in an item of a staff.
pub proof fn lemma_item_finds_replaced_phrase(item: StaffContentView, id: usize, new: PhraseView)
    requires
        item.find_phrase(id) is Some,
        new.id == id,
    ensures
        item.replace_phrase(id, new).find_phrase(id) == Some(new),
{
    match item {
        StaffContentView::Phrase(phrase) => {
            if phrase.id != id {
                lemma_phrase_finds_replaced_phrase(phrase, id, new);
            }
        },
        StaffContentView::Chord(chord) => {},
        StaffContentView::MultiVoice(voices) => {
            lemma_multivoice_finds_replaced_phrase(voices, id, new);
        },
    }
}

/// The same of an item of a staff that is a group of voices.
pub proof fn lemma_item_finds_replaced_multivoice(
    item: StaffContentView,
    id: usize,
    new: MultiVoiceView,
)
    requires
        item.find_multivoice(id) is Some,
        new.id == id,
    ensures
        item.replace_multivoice(id, new).find_multivoice(id) == Some(new),
{
}

/// After the first note of an identifier in a staff has been
/// replaced by a note of the same identifier, a lookup of the
/// identifier returns the new note.
pub proof fn lemma_staff_finds_replaced_note(staff: StaffView, id: usize, new: NoteView)
    requires
        staff.find_note(id) is Some,
        new.id == id,
    ensures
        staff.replace_note(id, new).find_note(id) == Some(new),
{
    assert forall|i: int|
        0 <= i < staff.content.len() && note_in_item(id)(#[trigger] staff.content[i]) is Some
            implies note_in_item(
        id,
    )(note_replaced_in_item(id, new)(staff.content[i])) == Some(new) by {
        lemma_item_finds_replaced_note(staff.content[i], id, new);
    }
    lemma_changed_first_is_found(
        staff.content,
        note_in_item(id),
        note_replaced_in_item(id, new),
        new,
        0,
    );
}

/// After the first chord of an identifier in a staff has been
/// replaced by a chord of the same identifier, a lookup of the
/// identifier returns the new chord.
pub proof fn lemma_staff_finds_replaced_chord(staff: StaffView, id: usize, new: ChordView)
    requires
        staff.find_chord(id) is Some,
        new.id == id,
    ensures
        staff.replace_chord(id, new).find_chord(id) == Some(new),
{
    assert forall|i: int|
        0 <= i < staff.content.len() && chord_in_item(id)(#[trigger] staff.content[i]) is Some
            implies chord_in_item(
        id,
    )(chord_replaced_in_item(id, new)(staff.content[i])) == Some(new) by {
        lemma_item_finds_replaced_chord(staff.content[i], id, new);
    }
    lemma_changed_first_is_found(
        staff.content,
        chord_in_item(id),
        chord_replaced_in_item(id, new),
        new,
        0,
    );
}

/// After the first phrase of an identifier in a staff has been
/// replaced by a phrase of the same identifier, a lookup of the
/// identifier returns the new phrase.
pub proof fn lemma_staff_finds_replaced_phrase(staff: StaffView, id: usize, new: PhraseView)
    requires
        staff.find_phrase(id) is Some,
        new.id == id,
    ensures
        staff.replace_phrase(id, new).find_phrase(id) == Some(new),
{
    assert forall|i: int|
        0 <= i < staff.content.len() && phrase_in_item(id)(#[trigger] staff.content[i]) is Some
            implies phrase_in_item(
        id,
    )(phrase_replaced_in_item(id, new)(staff.content[i])) == Some(new) by {
        lemma_item_finds_replaced_phrase(staff.content[i], id, new);
    }
    lemma_changed_first_is_found(
        staff.content,
        phrase_in_item(id),
        phrase_replaced_in_item(id, new),
        new,
        0,
    );
}

/// After the first group of voices of an identifier in a staff has been
/// replaced by a group of voices of the same identifier, a lookup of the
/// identifier returns the new group of voices.
pub proof fn lemma_staff_finds_replaced_multivoice(staff: StaffView, id: usize, new: MultiVoiceView)
    requires
        staff.find_multivoice(id) is Some,
        new.id == id,
    ensures
        staff.replace_multivoice(id, new).find_multivoice(id) == Some(new),
{
    assert forall|i: int|
        0 <= i < staff.content.len() && multivoice_in_item(id)(#[trigger] staff.content[i]) is Some implies multivoice_in_item(
        id,
    )(multivoice_replaced_in_item(id, new)(staff.content[i])) == Some(new) by {
        lemma_item_finds_replaced_multivoice(staff.content[i], id, new);
    }
    lemma_changed_first_is_found(
        staff.content,
        multivoice_in_item(id),
        multivoice_replaced_in_item(id, new),
        new,
        0,
    );
}

/// After the first note of an identifier in a part has been
/// replaced by a note of the same identifier, a lookup of the
/// identifier returns the new note.
pub proof fn lemma_part_finds_replaced_note(part: PartView, id: usize, new: NoteView)
    requires
        part.find_note(id) is Some,
        new.id == id,
    ensures
        part.replace_note(id, new).find_note(id) == Some(new),
{
    assert forall|i: int|
        0 <= i < part.staves.len() && note_in_staff(id)(#[trigger] part.staves[i]) is Some
            implies note_in_staff(
        id,
    )(note_replaced_in_staff(id, new)(part.staves[i])) == Some(new) by {
        lemma_staff_finds_replaced_note(part.staves[i], id, new);
    }
    lemma_changed_first_is_found(
        part.staves,
        note_in_staff(id),
        note_replaced_in_staff(id, new),
        new,
        0,
    );
}

/// After the first chord of an identifier in a part has been
/// replaced by a chord of the same identifier, a lookup of the
/// identifier returns the new chord.
pub proof fn lemma_part_finds_replaced_chord(part: PartView, id: usize, new: ChordView)
    requires
        part.find_chord(id) is Some,
        new.id == id,
    ensures
        part.replace_chord(id, new).find_chord(id) == Some(new),
{
    assert forall|i: int|
        0 <= i < part.staves.len() && chord_in_staff(id)(#[trigger] part.staves[i]) is Some
            implies chord_in_staff(
        id,
    )(chord_replaced_in_staff(id, new)(part.staves[i])) == Some(new) by {
        lemma_staff_finds_replaced_chord(part.staves[i], id, new);
    }
    lemma_changed_first_is_found(
        part.staves,
        chord_in_staff(id),
        chord_replaced_in_staff(id, new),
        new,
        0,
    );
}

/// After the first phrase of an identifier in a part has been
/// replaced by a phrase of the same identifier, a lookup of the
/// identifier returns the new phrase.
pub proof fn lemma_part_finds_replaced_phrase(part: PartView, id: usize, new: PhraseView)
    requires
        part.find_phrase(id) is Some,
        new.id == id,
    ensures
        part.replace_phrase(id, new).find_phrase(id) == Some(new),
{
    assert forall|i: int|
        0 <= i < part.staves.len() && phrase_in_staff(id)(#[trigger] part.staves[i]) is Some
            implies phrase_in_staff(
        id,
    )(phrase_replaced_in_staff(id, new)(part.staves[i])) == Some(new) by {
        lemma_staff_finds_replaced_phrase(part.staves[i], id, new);
    }
    lemma_changed_first_is_found(
        part.staves,
        phrase_in_staff(id),
        phrase_replaced_in_staff(id, new),
        new,
        0,
    );
}

/// After the first group of voices of an identifier in a part has been
/// replaced by a group of voices of the same identifier, a lookup of the
/// identifier returns the new group of voices.
pub proof fn lemma_part_finds_replaced_multivoice(part: PartView, id: usize, new: MultiVoiceView)
    requires
        part.find_multivoice(id) is Some,
        new.id == id,
    ensures
        part.replace_multivoice(id, new).find_multivoice(id) == Some(new),
{
    assert forall|i: int|
        0 <= i < part.staves.len() && multivoice_in_staff(id)(#[trigger] part.staves[i]) is Some
            implies multivoice_in_staff(
        id,
    )(multivoice_replaced_in_staff(id, new)(part.staves[i])) == Some(new) by {
        lemma_staff_finds_replaced_multivoice(part.staves[i], id, new);
    }
    lemma_changed_first_is_found(
        part.staves,
        multivoice_in_staff(id),
        multivoice_replaced_in_staff(id, new),
        new,
        0,
    );
}

/// After the first staff of an identifier in a part has been
/// replaced by a staff of the same identifier, a lookup of the
/// identifier returns the new staff.
pub proof fn lemma_part_finds_replaced_staff(part: PartView, id: usize, new: StaffView)
    requires
        part.find_staff(id) is Some,
        new.id == id,
    ensures
        part.replace_staff(id, new).find_staff(id) == Some(new),
{
    assert forall|i: int|
        0 <= i < part.staves.len() && staff_at(id)(#[trigger] part.staves[i]) is Some
            implies staff_at(
        id,
    )(put(new)(part.staves[i])) == Some(new) by {
    }
    lemma_changed_first_is_found(part.staves, staff_at(id), put(new), new, 0);
}

/// After the first note of an identifier in a composition has been
/// replaced by a note of the same identifier, a lookup of the
/// identifier returns the new note.
pub proof fn lemma_composition_finds_replaced_note(composition: CompositionView, id: usize, new: NoteView)
    requires
        composition.find_note(id) is Some,
        new.id == id,
    ensures
        composition.replace_note(id, new).find_note(id) == Some(new),
{
    assert forall|i: int|
        0 <= i < composition.parts.len() && note_in_part(id)(#[trigger] composition.parts[i]) is Some implies note_in_part(
        id,
    )(note_replaced_in_part(id, new)(composition.parts[i])) == Some(new) by {
        lemma_part_finds_replaced_note(composition.parts[i], id, new);
    }
    lemma_changed_first_is_found(
        composition.parts,
        note_in_part(id),
        note_replaced_in_part(id, new),
        new,
        0,
    );
}

/// After the first chord of an identifier in a composition has been
/// replaced by a chord of the same identifier, a lookup of the
/// identifier returns the new chord.
pub proof fn lemma_composition_finds_replaced_chord(composition: CompositionView, id: usize, new: ChordView)
    requires
        composition.find_chord(id) is Some,
        new.id == id,
    ensures
        composition.replace_chord(id, new).find_chord(id) == Some(new),
{
    assert forall|i: int|
        0 <= i < composition.parts.len() && chord_in_part(id)(#[trigger] composition.parts[i]) is Some implies chord_in_part(
        id,
    )(chord_replaced_in_part(id, new)(composition.parts[i])) == Some(new) by {
        lemma_part_finds_replaced_chord(composition.parts[i], id, new);
    }
    lemma_changed_first_is_found(
        composition.parts,
        chord_in_part(id),
        chord_replaced_in_part(id, new),
        new,
        0,
    );
}

/// After the first phrase of an identifier in a composition has been
/// replaced by a phrase of the same identifier, a lookup of the
/// identifier returns the new phrase.
pub proof fn lemma_composition_finds_replaced_phrase(composition: CompositionView, id: usize, new: PhraseView)
    requires
        composition.find_phrase(id) is Some,
        new.id == id,
    ensures
        composition.replace_phrase(id, new).find_phrase(id) == Some(new),
{
    assert forall|i: int|
        0 <= i < composition.parts.len() && phrase_in_part(id)(#[trigger] composition.parts[i]) is Some implies phrase_in_part(
        id,
    )(phrase_replaced_in_part(id, new)(composition.parts[i])) == Some(new) by {
        lemma_part_finds_replaced_phrase(composition.parts[i], id, new);
    }
    lemma_changed_first_is_found(
        composition.parts,
        phrase_in_part(id),
        phrase_replaced_in_part(id, new),
        new,
        0,
    );
}

/// After the first group of voices of an identifier in a composition has been
/// replaced by a group of voices of the same identifier, a lookup of the
/// identifier returns the new group of voices.
pub proof fn lemma_composition_finds_replaced_multivoice(composition: CompositionView, id: usize, new: MultiVoiceView)
    requires
        composition.find_multivoice(id) is Some,
        new.id == id,
    ensures
        composition.replace_multivoice(id, new).find_multivoice(id) == Some(new),
{
    assert forall|i: int|
        0 <= i < composition.parts.len() && multivoice_in_part(id)(#[trigger] composition.parts[i]) is Some implies multivoice_in_part(
        id,
    )(multivoice_replaced_in_part(id, new)(composition.parts[i])) == Some(new) by {
        lemma_part_finds_replaced_multivoice(composition.parts[i], id, new);
    }
    lemma_changed_first_is_found(
        composition.parts,
        multivoice_in_part(id),
        multivoice_replaced_in_part(id, new),
        new,
        0,
    );
}

/// After the first staff of an identifier in a composition has been
/// replaced by a staff of the same identifier, a lookup of the
/// identifier returns the new staff.
pub proof fn lemma_composition_finds_replaced_staff(composition: CompositionView, id: usize, new: StaffView)
    requires
        composition.find_staff(id) is Some,
        new.id == id,
    ensures
        composition.replace_staff(id, new).find_staff(id) == Some(new),
{
    assert forall|i: int|
        0 <= i < composition.parts.len() && staff_in_part(id)(#[trigger] composition.parts[i]) is Some implies staff_in_part(
        id,
    )(staff_replaced_in_part(id, new)(composition.parts[i])) == Some(new) by {
        lemma_part_finds_replaced_staff(composition.parts[i], id, new);
    }
    lemma_changed_first_is_found(
        composition.parts,
        staff_in_part(id),
        staff_replaced_in_part(id, new),
        new,
        0,
    );
}

/// After the first part of an identifier in a composition has been
/// replaced by a part of the same identifier, a lookup of the
/// identifier returns the new part.
pub proof fn lemma_composition_finds_replaced_part(composition: CompositionView, id: usize, new: PartView)
    requires
        composition.find_part(id) is Some,
        new.id == id,
    ensures
        composition.replace_part(id, new).find_part(id) == Some(new),
{
    assert forall|i: int|
        0 <= i < composition.parts.len() && part_at(id)(#[trigger] composition.parts[i]) is Some
            implies part_at(
        id,
    )(put(new)(composition.parts[i])) == Some(new) by {
    }
    lemma_changed_first_is_found(composition.parts, part_at(id), put(new), new, 0);
}

} // verus!
