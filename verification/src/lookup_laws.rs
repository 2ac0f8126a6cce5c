//! What a lookup returns in a tree whose identifiers are all different: the
//! very node that has the identifier, wherever in the tree it stands.

use crate::composition::{CompositionView, note_in_part};
use crate::editing::note_is;
use crate::model::{
    first_where, gathered, lemma_first_some_gathered, lemma_first_where_of_both,
    lemma_only_one_is_first,
};
use crate::note::note::NoteView;
use crate::structure::chord::{ChordView, find_note_among};
use crate::structure::multivoice::{MultiVoiceView, note_in_phrase, phrase_is};
use crate::structure::part::{note_in_staff, PartView};
use crate::structure::chord::lemma_chord_finds_new_note;
use crate::structure::phrase::{PhraseContentView, PhraseView};
use crate::structure::phrase_laws::{
    lemma_phrase_finds_new_note, lemma_phrase_finds_new_phrase, lemma_unknown_children_are_silent,
    silent,
};
use crate::structure::staff::{note_in_item, StaffContentView, StaffView};
use vstd::prelude::*;

verus! {

/// All notes of a phrase.
pub open spec fn notes_of_voice() -> spec_fn(PhraseView) -> Seq<NoteView> {
    |phrase: PhraseView| phrase.all_notes()
}

/// All notes of an item of a staff.
pub open spec fn notes_in_item() -> spec_fn(StaffContentView) -> Seq<NoteView> {
    |item: StaffContentView| item.all_notes()
}

/// All notes of a staff.
pub open spec fn notes_in_staff() -> spec_fn(StaffView) -> Seq<NoteView> {
    |staff: StaffView| staff.all_notes()
}

/// All notes of a part.
pub open spec fn notes_in_part() -> spec_fn(PartView) -> Seq<NoteView> {
    |part: PartView| part.all_notes()
}

/// Whether the items hold one item of the kind only, at position `at`.
pub open spec fn only_at<E>(items: Seq<E>, fits: spec_fn(E) -> bool, at: int) -> bool {
    0 <= at < items.len() && fits(items[at]) && forall|i: int|
        0 <= i < items.len() && i != at ==> !fits(#[trigger] items[i])
}

impl PhraseView {
    /// All notes in the phrase, those of its chords and of the phrases in it
    /// included, in the order of the tree.
    pub open spec fn all_notes(self) -> Seq<NoteView>
        decreases self,
    {
        Self::notes_in(self.content, 0)
    }

    /// All notes in the children from position `from` on.
    pub open spec fn notes_in(items: Seq<PhraseContentView>, from: int) -> Seq<NoteView>
        decreases items, items.len() - from,
    {
        if from < 0 || from >= items.len() {
            Seq::empty()
        } else {
            (match items[from] {
                PhraseContentView::Note(note) => seq![note],
                PhraseContentView::Chord(chord) => chord.notes,
                PhraseContentView::Phrase(phrase) => phrase.all_notes(),
            }) + Self::notes_in(items, from + 1)
        }
    }

    /// All phrases below the phrase, each before the phrases in it, in the
    /// order of the tree.
    pub open spec fn all_phrases(self) -> Seq<PhraseView>
        decreases self,
    {
        Self::phrases_in(self.content, 0)
    }

    /// All phrases in the children from position `from` on.
    pub open spec fn phrases_in(items: Seq<PhraseContentView>, from: int) -> Seq<PhraseView>
        decreases items, items.len() - from,
    {
        if from < 0 || from >= items.len() {
            Seq::empty()
        } else {
            (match items[from] {
                PhraseContentView::Phrase(phrase) => seq![phrase] + phrase.all_phrases(),
                _ => Seq::empty(),
            }) + Self::phrases_in(items, from + 1)
        }
    }
}

impl MultiVoiceView {
    /// All notes of the voices, voice by voice.
    pub open spec fn all_notes(self) -> Seq<NoteView> {
        gathered(self.voices, notes_of_voice(), 0)
    }
}

impl StaffContentView {
    /// All notes of the item.
    pub open spec fn all_notes(self) -> Seq<NoteView> {
        match self {
            StaffContentView::Phrase(phrase) => phrase.all_notes(),
            StaffContentView::Chord(chord) => chord.notes,
            StaffContentView::MultiVoice(voices) => voices.all_notes(),
        }
    }
}

impl StaffView {
    /// All notes of the staff, item by item.
    pub open spec fn all_notes(self) -> Seq<NoteView> {
        gathered(self.content, notes_in_item(), 0)
    }
}

impl PartView {
    /// All notes of the part, staff by staff.
    pub open spec fn all_notes(self) -> Seq<NoteView> {
        gathered(self.staves, notes_in_staff(), 0)
    }
}

impl CompositionView {
    /// All notes of the composition, part by part.
    pub open spec fn all_notes(self) -> Seq<NoteView> {
        gathered(self.parts, notes_in_part(), 0)
    }
}

/// The search among the notes of a chord finds the first note that has the
/// identifier.
pub proof fn lemma_chord_finds_first(notes: Seq<NoteView>, id: usize, from: int)
    ensures
        find_note_among(notes, id, from) == first_where(notes, note_is(id), from),
    decreases notes.len() - from,
{
    if 0 <= from < notes.len() {
        lemma_chord_finds_first(notes, id, from + 1);
    }
}

/// The lookup of a note in a phrase finds the first of all its notes that
/// has the identifier.
pub proof fn lemma_phrase_finds_first_note(phrase: PhraseView, id: usize)
    ensures
        phrase.find_note(id) == first_where(phrase.all_notes(), note_is(id), 0),
    decreases phrase,
{
    lemma_children_find_first_note(phrase.content, id, 0);
}

/// The same of the children of a phrase from position `from` on.
pub proof fn lemma_children_find_first_note(items: Seq<PhraseContentView>, id: usize, from: int)
    requires
        0 <= from,
    ensures
        PhraseView::find_note_in(items, id, from) == first_where(
            PhraseView::notes_in(items, from),
            note_is(id),
            0,
        ),
    decreases items, items.len() - from,
{
    if from < items.len() {
        lemma_children_find_first_note(items, id, from + 1);
        let here = match items[from] {
            PhraseContentView::Note(note) => seq![note],
            PhraseContentView::Chord(chord) => chord.notes,
            PhraseContentView::Phrase(phrase) => phrase.all_notes(),
        };
        match items[from] {
            PhraseContentView::Note(note) => {
                assert(first_where(here, note_is(id), 1) is None);
            },
            PhraseContentView::Chord(chord) => {
                lemma_chord_finds_first(chord.notes, id, 0);
            },
            PhraseContentView::Phrase(phrase) => {
                lemma_phrase_finds_first_note(phrase, id);
            },
        }
        lemma_first_where_of_both(here, PhraseView::notes_in(items, from + 1), note_is(id), 0);
    }
}

/// The lookup of a phrase in a phrase finds the first of all phrases below
/// it that has the identifier.
pub proof fn lemma_phrase_finds_first_phrase(phrase: PhraseView, id: usize)
    ensures
        phrase.find_phrase(id) == first_where(phrase.all_phrases(), phrase_is(id), 0),
    decreases phrase,
{
    lemma_children_find_first_phrase(phrase.content, id, 0);
}

/// The same of the children of a phrase from position `from` on.
pub proof fn lemma_children_find_first_phrase(items: Seq<PhraseContentView>, id: usize, from: int)
    requires
        0 <= from,
    ensures
        PhraseView::find_phrase_in(items, id, from) == first_where(
            PhraseView::phrases_in(items, from),
            phrase_is(id),
            0,
        ),
    decreases items, items.len() - from,
{
    if from < items.len() {
        lemma_children_find_first_phrase(items, id, from + 1);
        let rest = PhraseView::phrases_in(items, from + 1);
        match items[from] {
            PhraseContentView::Phrase(phrase) => {
                lemma_phrase_finds_first_phrase(phrase, id);
                let own = seq![phrase];
                lemma_first_where_of_both(own, phrase.all_phrases(), phrase_is(id), 0);
                assert(first_where(own, phrase_is(id), 1) is None);
                lemma_first_where_of_both(own + phrase.all_phrases(), rest, phrase_is(id), 0);
            },
            _ => {
                assert(Seq::<PhraseView>::empty() + rest =~= rest);
            },
        }
    }
}

/// The lookup of a note in a group of voices finds the first of all its
/// notes that has the identifier.
pub proof fn lemma_multivoice_finds_first_note(voices: MultiVoiceView, id: usize)
    ensures
        voices.find_note(id) == first_where(voices.all_notes(), note_is(id), 0),
{
    assert forall|i: int| 0 <= i < voices.voices.len() implies note_in_phrase(id)(
        #[trigger] voices.voices[i],
    ) == first_where(notes_of_voice()(voices.voices[i]), note_is(id), 0) by {
        lemma_phrase_finds_first_note(voices.voices[i], id);
    }
    lemma_first_some_gathered(voices.voices, note_in_phrase(id), notes_of_voice(), note_is(id), 0);
}

/// The lookup of a note in a staff finds the first of all its notes that
/// has the identifier.
pub proof fn lemma_staff_finds_first_note(staff: StaffView, id: usize)
    ensures
        staff.find_note(id) == first_where(staff.all_notes(), note_is(id), 0),
{
    assert forall|i: int| 0 <= i < staff.content.len() implies note_in_item(id)(
        #[trigger] staff.content[i],
    ) == first_where(notes_in_item()(staff.content[i]), note_is(id), 0) by {
        match staff.content[i] {
            StaffContentView::Phrase(phrase) => {
                lemma_phrase_finds_first_note(phrase, id);
            },
            StaffContentView::Chord(chord) => {
                lemma_chord_finds_first(chord.notes, id, 0);
            },
            StaffContentView::MultiVoice(voices) => {
                lemma_multivoice_finds_first_note(voices, id);
            },
        }
    }
    lemma_first_some_gathered(staff.content, note_in_item(id), notes_in_item(), note_is(id), 0);
}

/// The lookup of a note in a part finds the first of all its notes that has
/// the identifier.
pub proof fn lemma_part_finds_first_note(part: PartView, id: usize)
    ensures
        part.find_note(id) == first_where(part.all_notes(), note_is(id), 0),
{
    assert forall|i: int| 0 <= i < part.staves.len() implies note_in_staff(id)(
        #[trigger] part.staves[i],
    ) == first_where(notes_in_staff()(part.staves[i]), note_is(id), 0) by {
        lemma_staff_finds_first_note(part.staves[i], id);
    }
    lemma_first_some_gathered(part.staves, note_in_staff(id), notes_in_staff(), note_is(id), 0);
}

/// The lookup of a note in a composition finds the first of all its notes
/// that has the identifier.
pub proof fn lemma_composition_finds_first_note(composition: CompositionView, id: usize)
    ensures
        composition.find_note(id) == first_where(composition.all_notes(), note_is(id), 0),
{
    assert forall|i: int| 0 <= i < composition.parts.len() implies note_in_part(id)(
        #[trigger] composition.parts[i],
    ) == first_where(notes_in_part()(composition.parts[i]), note_is(id), 0) by {
        lemma_part_finds_first_note(composition.parts[i], id);
    }
    lemma_first_some_gathered(composition.parts, note_in_part(id), notes_in_part(), note_is(id), 0);
}

/// A note that a phrase holds, at whatever depth, in a chord or in a phrase
/// below it, is the note that a lookup of its identifier returns, where no
/// other note of the phrase has that identifier.
pub proof fn lemma_phrase_finds_its_note(phrase: PhraseView, at: int)
    requires
        0 <= at < phrase.all_notes().len(),
        only_at(phrase.all_notes(), note_is(phrase.all_notes()[at].id), at),
    ensures
        phrase.find_note(phrase.all_notes()[at].id) == Some(phrase.all_notes()[at]),
{
    let id = phrase.all_notes()[at].id;
    lemma_phrase_finds_first_note(phrase, id);
    lemma_only_one_is_first(phrase.all_notes(), note_is(id), 0, at);
}

/// A phrase that stands below a phrase, at whatever depth, is the phrase
/// that a lookup of its identifier returns, where no other phrase below has
/// that identifier.
pub proof fn lemma_phrase_finds_its_phrase(phrase: PhraseView, at: int)
    requires
        0 <= at < phrase.all_phrases().len(),
        only_at(phrase.all_phrases(), phrase_is(phrase.all_phrases()[at].id), at),
    ensures
        phrase.find_phrase(phrase.all_phrases()[at].id) == Some(phrase.all_phrases()[at]),
{
    let id = phrase.all_phrases()[at].id;
    lemma_phrase_finds_first_phrase(phrase, id);
    lemma_only_one_is_first(phrase.all_phrases(), phrase_is(id), 0, at);
}

/// A note that a staff holds, at whatever depth, is the note that a lookup
/// of its identifier returns, where no other note of the staff has that
/// identifier.
pub proof fn lemma_staff_finds_its_note(staff: StaffView, at: int)
    requires
        0 <= at < staff.all_notes().len(),
        only_at(staff.all_notes(), note_is(staff.all_notes()[at].id), at),
    ensures
        staff.find_note(staff.all_notes()[at].id) == Some(staff.all_notes()[at]),
{
    let id = staff.all_notes()[at].id;
    lemma_staff_finds_first_note(staff, id);
    lemma_only_one_is_first(staff.all_notes(), note_is(id), 0, at);
}

/// A note that a part holds, at whatever depth, is the note that a lookup
/// of its identifier returns, where no other note of the part has that
/// identifier.
pub proof fn lemma_part_finds_its_note(part: PartView, at: int)
    requires
        0 <= at < part.all_notes().len(),
        only_at(part.all_notes(), note_is(part.all_notes()[at].id), at),
    ensures
        part.find_note(part.all_notes()[at].id) == Some(part.all_notes()[at]),
{
    let id = part.all_notes()[at].id;
    lemma_part_finds_first_note(part, id);
    lemma_only_one_is_first(part.all_notes(), note_is(id), 0, at);
}

/// A note that a composition holds, at whatever depth, in a staff, a chord,
/// a phrase or a voice of whatever part, is the note that a lookup of its
/// identifier returns, where no other note of the composition has that
/// identifier.
pub proof fn lemma_composition_finds_its_note(composition: CompositionView, at: int)
    requires
        0 <= at < composition.all_notes().len(),
        only_at(composition.all_notes(), note_is(composition.all_notes()[at].id), at),
    ensures
        composition.find_note(composition.all_notes()[at].id) == Some(composition.all_notes()[at]),
{
    let id = composition.all_notes()[at].id;
    lemma_composition_finds_first_note(composition, id);
    lemma_only_one_is_first(composition.all_notes(), note_is(id), 0, at);
}

/// Putting a phrase in the place of another leaves the children before the
/// place as they are.
proof fn lemma_replaced_phrase_keeps_earlier(
    items: Seq<PhraseContentView>,
    id: usize,
    new: PhraseView,
    from: int,
)
    requires
        0 <= from,
    ensures
        PhraseView::replace_phrase_in(items, id, new, from).len() == items.len(),
        forall|j: int|
            0 <= j < from && j < items.len() ==> PhraseView::replace_phrase_in(items, id, new, from)[j]
                == items[j],
    decreases items.len() - from,
{
    if from < items.len() {
        lemma_replaced_phrase_keeps_earlier(items, id, new, from + 1);
    }
}

/// Putting a chord in the place of another leaves the children before the
/// place as they are.
proof fn lemma_replaced_chord_keeps_earlier(
    items: Seq<PhraseContentView>,
    id: usize,
    new: ChordView,
    from: int,
)
    requires
        0 <= from,
    ensures
        PhraseView::replace_chord_in(items, id, new, from).len() == items.len(),
        forall|j: int|
            0 <= j < from && j < items.len() ==> PhraseView::replace_chord_in(items, id, new, from)[j]
                == items[j],
    decreases items.len() - from,
{
    if from < items.len() {
        lemma_replaced_chord_keeps_earlier(items, id, new, from + 1);
    }
}

/// What a phrase that is found below a phrase has under an identifier, the
/// phrase above has under it too.
pub proof fn lemma_found_phrase_shares_ids(phrase: PhraseView, target: usize, id: usize)
    requires
        phrase.find_phrase(target) is Some,
        phrase.find_phrase(target).unwrap().has_id(id),
    ensures
        phrase.has_id(id),
        phrase.find_phrase(target).unwrap().id == target,
    decreases phrase,
{
    lemma_found_phrase_shares_ids_in(phrase.content, target, id, 0);
}

/// The same of the children of a phrase from position `from` on.
pub proof fn lemma_found_phrase_shares_ids_in(
    items: Seq<PhraseContentView>,
    target: usize,
    id: usize,
    from: int,
)
    requires
        0 <= from,
        PhraseView::find_phrase_in(items, target, from) is Some,
        PhraseView::find_phrase_in(items, target, from).unwrap().has_id(id),
    ensures
        PhraseView::has_id_in(items, id, from),
        PhraseView::find_phrase_in(items, target, from).unwrap().id == target,
    decreases items, items.len() - from,
{
    match items[from] {
        PhraseContentView::Phrase(inner) if inner.id == target => {},
        PhraseContentView::Phrase(inner) if inner.find_phrase(target) is Some => {
            lemma_found_phrase_shares_ids(inner, target, id);
        },
        _ => {
            lemma_found_phrase_shares_ids_in(items, target, id, from + 1);
        },
    }
}

/// What a chord that is found below a phrase has under an identifier, the
/// phrase has under it too.
pub proof fn lemma_found_chord_shares_ids(phrase: PhraseView, target: usize, id: usize)
    requires
        phrase.find_chord(target) is Some,
        phrase.find_chord(target).unwrap().has_id(id),
    ensures
        phrase.has_id(id),
        phrase.find_chord(target).unwrap().id == target,
    decreases phrase,
{
    lemma_found_chord_shares_ids_in(phrase.content, target, id, 0);
}

/// The same of the children of a phrase from position `from` on.
pub proof fn lemma_found_chord_shares_ids_in(
    items: Seq<PhraseContentView>,
    target: usize,
    id: usize,
    from: int,
)
    requires
        0 <= from,
        PhraseView::find_chord_in(items, target, from) is Some,
        PhraseView::find_chord_in(items, target, from).unwrap().has_id(id),
    ensures
        PhraseView::has_id_in(items, id, from),
        PhraseView::find_chord_in(items, target, from).unwrap().id == target,
    decreases items, items.len() - from,
{
    match items[from] {
        PhraseContentView::Chord(chord) if chord.id == target => {},
        PhraseContentView::Phrase(inner) if inner.find_chord(target) is Some => {
            lemma_found_chord_shares_ids(inner, target, id);
        },
        _ => {
            lemma_found_chord_shares_ids_in(items, target, id, from + 1);
        },
    }
}

/// Where a phrase below a phrase gives way to a phrase that holds a note
/// under an identifier that was new to the phrase above, the lookup of that
/// identifier from above finds that note.
pub proof fn lemma_replaced_phrase_finds_note(
    phrase: PhraseView,
    target: usize,
    new: PhraseView,
    id: usize,
)
    requires
        phrase.find_phrase(target) is Some,
        !phrase.has_id(id),
        new.find_note(id) is Some,
    ensures
        phrase.replace_phrase(target, new).find_note(id) == new.find_note(id),
    decreases phrase,
{
    lemma_replaced_phrase_finds_note_in(phrase.content, target, new, id, 0);
}

/// The same of the children of a phrase from position `from` on.
pub proof fn lemma_replaced_phrase_finds_note_in(
    items: Seq<PhraseContentView>,
    target: usize,
    new: PhraseView,
    id: usize,
    from: int,
)
    requires
        0 <= from,
        PhraseView::find_phrase_in(items, target, from) is Some,
        !PhraseView::has_id_in(items, id, from),
        new.find_note(id) is Some,
    ensures
        PhraseView::find_note_in(PhraseView::replace_phrase_in(items, target, new, from), id, from)
            == new.find_note(id),
    decreases items, items.len() - from,
{
    let after = PhraseView::replace_phrase_in(items, target, new, from);
    match items[from] {
        PhraseContentView::Phrase(inner) if inner.id == target => {},
        PhraseContentView::Phrase(inner) if inner.find_phrase(target) is Some => {
            lemma_replaced_phrase_finds_note(inner, target, new, id);
        },
        _ => {
            lemma_replaced_phrase_finds_note_in(items, target, new, id, from + 1);
            lemma_replaced_phrase_keeps_earlier(items, target, new, from + 1);
            lemma_unknown_children_are_silent(items, id, from);
            assert(silent(items[from], id));
            assert(after[from] == items[from]);
        },
    }
}

/// Where a phrase below a phrase gives way to a phrase that holds a phrase
/// under an identifier that was new to the phrase above, the lookup of that
/// identifier from above finds that phrase.
pub proof fn lemma_replaced_phrase_finds_phrase(
    phrase: PhraseView,
    target: usize,
    new: PhraseView,
    id: usize,
)
    requires
        phrase.find_phrase(target) is Some,
        !phrase.has_id(id),
        new.id == target,
        new.find_phrase(id) is Some,
    ensures
        phrase.replace_phrase(target, new).find_phrase(id) == new.find_phrase(id),
    decreases phrase,
{
    lemma_replaced_phrase_finds_phrase_in(phrase.content, target, new, id, 0);
}

/// The same of the children of a phrase from position `from` on.
pub proof fn lemma_replaced_phrase_finds_phrase_in(
    items: Seq<PhraseContentView>,
    target: usize,
    new: PhraseView,
    id: usize,
    from: int,
)
    requires
        0 <= from,
        PhraseView::find_phrase_in(items, target, from) is Some,
        !PhraseView::has_id_in(items, id, from),
        new.id == target,
        new.find_phrase(id) is Some,
    ensures
        PhraseView::find_phrase_in(PhraseView::replace_phrase_in(items, target, new, from), id, from)
            == new.find_phrase(id),
    decreases items, items.len() - from,
{
    let after = PhraseView::replace_phrase_in(items, target, new, from);
    match items[from] {
        PhraseContentView::Phrase(inner) if inner.id == target => {
            assert(inner.has_id(target));
        },
        PhraseContentView::Phrase(inner) if inner.find_phrase(target) is Some => {
            lemma_replaced_phrase_finds_phrase(inner, target, new, id);
            assert(inner.has_id(inner.id));
            assert(inner.replace_phrase(target, new).id == inner.id);
        },
        _ => {
            lemma_replaced_phrase_finds_phrase_in(items, target, new, id, from + 1);
            lemma_replaced_phrase_keeps_earlier(items, target, new, from + 1);
            lemma_unknown_children_are_silent(items, id, from);
            assert(silent(items[from], id));
            assert(after[from] == items[from]);
        },
    }
}

/// Where a chord below a phrase gives way to a chord that holds a note
/// under an identifier that was new to the phrase, the lookup of that
/// identifier in the phrase finds that note.
pub proof fn lemma_replaced_chord_finds_note(
    phrase: PhraseView,
    target: usize,
    new: ChordView,
    id: usize,
)
    requires
        phrase.find_chord(target) is Some,
        !phrase.has_id(id),
        new.find_note(id) is Some,
    ensures
        phrase.replace_chord(target, new).find_note(id) == new.find_note(id),
    decreases phrase,
{
    lemma_replaced_chord_finds_note_in(phrase.content, target, new, id, 0);
}

/// The same of the children of a phrase from position `from` on.
pub proof fn lemma_replaced_chord_finds_note_in(
    items: Seq<PhraseContentView>,
    target: usize,
    new: ChordView,
    id: usize,
    from: int,
)
    requires
        0 <= from,
        PhraseView::find_chord_in(items, target, from) is Some,
        !PhraseView::has_id_in(items, id, from),
        new.find_note(id) is Some,
    ensures
        PhraseView::find_note_in(PhraseView::replace_chord_in(items, target, new, from), id, from)
            == new.find_note(id),
    decreases items, items.len() - from,
{
    let after = PhraseView::replace_chord_in(items, target, new, from);
    match items[from] {
        PhraseContentView::Chord(chord) if chord.id == target => {},
        PhraseContentView::Phrase(inner) if inner.find_chord(target) is Some => {
            lemma_replaced_chord_finds_note(inner, target, new, id);
        },
        _ => {
            lemma_replaced_chord_finds_note_in(items, target, new, id, from + 1);
            lemma_replaced_chord_keeps_earlier(items, target, new, from + 1);
            lemma_unknown_children_are_silent(items, id, from);
            assert(silent(items[from], id));
            assert(after[from] == items[from]);
        },
    }
}

/// A note that is added to a phrase at any depth below a phrase, under an
/// identifier that nothing in the phrase above has yet, is the note that a
/// lookup of that identifier from above returns.
pub proof fn lemma_phrase_finds_note_added_below(
    phrase: PhraseView,
    target: usize,
    at: int,
    note: NoteView,
)
    requires
        phrase.find_phrase(target) is Some,
        0 <= at <= phrase.find_phrase(target).unwrap().content.len(),
        !phrase.has_id(note.id),
    ensures
        phrase.replace_phrase(
            target,
            phrase.find_phrase(target).unwrap().with_item(at, PhraseContentView::Note(note)),
        ).find_note(note.id) == Some(note),
{
    let found = phrase.find_phrase(target).unwrap();
    if found.has_id(note.id) {
        lemma_found_phrase_shares_ids(phrase, target, note.id);
    }
    lemma_phrase_finds_new_note(found, at, note);
    lemma_replaced_phrase_finds_note(
        phrase,
        target,
        found.with_item(at, PhraseContentView::Note(note)),
        note.id,
    );
}

/// A note that is added to a chord at any depth below a phrase, under an
/// identifier that nothing in the phrase has yet, is the note that a lookup
/// of that identifier in the phrase returns.
pub proof fn lemma_phrase_finds_note_added_to_chord(
    phrase: PhraseView,
    target: usize,
    at: int,
    note: NoteView,
)
    requires
        phrase.find_chord(target) is Some,
        0 <= at <= phrase.find_chord(target).unwrap().notes.len(),
        !phrase.has_id(note.id),
    ensures
        phrase.replace_chord(
            target,
            phrase.find_chord(target).unwrap().with_note(at, note),
        ).find_note(note.id) == Some(note),
{
    let found = phrase.find_chord(target).unwrap();
    if found.has_id(note.id) {
        lemma_found_chord_shares_ids(phrase, target, note.id);
    }
    lemma_chord_finds_new_note(found, at, note);
    lemma_replaced_chord_finds_note(phrase, target, found.with_note(at, note), note.id);
}

/// A phrase that is added to a phrase at any depth below a phrase, under an
/// identifier that nothing in the phrase above has yet, is the phrase that
/// a lookup of that identifier from above returns.
pub proof fn lemma_phrase_finds_phrase_added_below(
    phrase: PhraseView,
    target: usize,
    at: int,
    inner: PhraseView,
)
    requires
        phrase.find_phrase(target) is Some,
        0 <= at <= phrase.find_phrase(target).unwrap().content.len(),
        !phrase.has_id(inner.id),
    ensures
        phrase.replace_phrase(
            target,
            phrase.find_phrase(target).unwrap().with_item(at, PhraseContentView::Phrase(inner)),
        ).find_phrase(inner.id) == Some(inner),
{
    let found = phrase.find_phrase(target).unwrap();
    assert(found.has_id(found.id));
    lemma_found_phrase_shares_ids(phrase, target, found.id);
    if found.has_id(inner.id) {
        lemma_found_phrase_shares_ids(phrase, target, inner.id);
    }
    lemma_phrase_finds_new_phrase(found, at, inner);
    lemma_replaced_phrase_finds_phrase(
        phrase,
        target,
        found.with_item(at, PhraseContentView::Phrase(inner)),
        inner.id,
    );
}

} // verus!
