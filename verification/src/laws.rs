//! What holds of every tree above the phrase: what a lookup finds after an
//! insertion, and what it no longer finds after a removal.

use crate::composition::{
    chord_in_part, CompositionView, multivoice_in_part, note_in_part, part_at, part_is,
    part_without, phrase_in_part, staff_in_part,
};
use crate::model::{
    lemma_filter_keeps_all, lemma_first_some_skips, lemma_pruned_holds, lemma_pruned_keeps,
};
use crate::note::note::NoteView;
use crate::structure::chord::{ChordView, lemma_chord_without_forgets, lemma_find_note_among_none};
use crate::structure::multivoice::{
    chord_in_phrase, MultiVoiceView, note_in_phrase, phrase_at_or_in, phrase_is, phrase_without,
};
use crate::structure::part::{
    chord_in_staff, multivoice_in_staff, note_in_staff, PartView, phrase_in_staff, staff_at,
    staff_is, staff_without,
};
use crate::structure::phrase::PhraseView;
use crate::structure::phrase_laws::{
    lemma_phrase_without_forgets, lemma_removing_unknown_id_changes_nothing,
    lemma_unknown_id_finds_nothing,
};
use crate::structure::staff::{
    chord_in_item, item_is, item_without, multivoice_in_item, note_in_item, phrase_in_item,
    StaffContentView, StaffView,
};
use vstd::prelude::*;

verus! {

/// Whether no lookup of the identifier finds the phrase or anything in it.
pub open spec fn quiet_phrase(id: usize) -> spec_fn(PhraseView) -> bool {
    |phrase: PhraseView|
        phrase.id != id && phrase.find_note(id) is None && phrase.find_chord(id) is None
            && phrase.find_phrase(id) is None
}

/// Whether no lookup of the identifier finds the item or anything in it.
pub open spec fn quiet_item(id: usize) -> spec_fn(StaffContentView) -> bool {
    |item: StaffContentView|
        item.id() != id && item.find_note(id) is None && item.find_chord(id) is None
            && item.find_phrase(id) is None && item.find_multivoice(id) is None
}

/// Whether no lookup of the identifier finds the staff or anything in it.
pub open spec fn quiet_staff(id: usize) -> spec_fn(StaffView) -> bool {
    |staff: StaffView|
        staff.id != id && staff.find_note(id) is None && staff.find_chord(id) is None
            && staff.find_phrase(id) is None && staff.find_multivoice(id) is None
}

/// Whether no lookup of the identifier finds the part or anything in it.
pub open spec fn quiet_part(id: usize) -> spec_fn(PartView) -> bool {
    |part: PartView|
        part.id != id && part.find_note(id) is None && part.find_chord(id) is None
            && part.find_phrase(id) is None && part.find_multivoice(id) is None && part.find_staff(
            id,
        ) is None
}

/// Among quiet voices nothing is found.
pub proof fn lemma_quiet_voices(voices: MultiVoiceView, id: usize)
    requires
        forall|i: int| 0 <= i < voices.voices.len() ==>
            quiet_phrase(id)(#[trigger] voices.voices[i]),
    ensures
        voices.find_note(id) is None,
        voices.find_chord(id) is None,
        voices.find_phrase(id) is None,
{
    let n = voices.voices.len() as int;
    assert forall|i: int| 0 <= i < n implies note_in_phrase(id)(#[trigger] voices.voices[i]) is None
        && chord_in_phrase(id)(voices.voices[i]) is None && phrase_at_or_in(id)(voices.voices[i])
        is None by {
        assert(quiet_phrase(id)(voices.voices[i]));
    }
    lemma_first_some_skips(voices.voices, note_in_phrase(id), 0, n);
    lemma_first_some_skips(voices.voices, chord_in_phrase(id), 0, n);
    lemma_first_some_skips(voices.voices, phrase_at_or_in(id), 0, n);
}

/// Among quiet items nothing is found.
pub proof fn lemma_quiet_items(staff: StaffView, id: usize)
    requires
        forall|i: int| 0 <= i < staff.content.len() ==> quiet_item(id)(#[trigger] staff.content[i]),
    ensures
        staff.find_note(id) is None,
        staff.find_chord(id) is None,
        staff.find_phrase(id) is None,
        staff.find_multivoice(id) is None,
        staff.index_of(id) is None,
{
    let n = staff.content.len() as int;
    assert forall|i: int| 0 <= i < n implies note_in_item(id)(#[trigger] staff.content[i]) is None
        && chord_in_item(id)(staff.content[i]) is None && phrase_in_item(id)(staff.content[i])
        is None && multivoice_in_item(id)(staff.content[i]) is None by {
        assert(quiet_item(id)(staff.content[i]));
    }
    lemma_first_some_skips(staff.content, note_in_item(id), 0, n);
    lemma_first_some_skips(staff.content, chord_in_item(id), 0, n);
    lemma_first_some_skips(staff.content, phrase_in_item(id), 0, n);
    lemma_first_some_skips(staff.content, multivoice_in_item(id), 0, n);
    lemma_no_item_at(staff.content, id, 0);
}

/// No position is found for an identifier that no item has.
proof fn lemma_no_item_at(items: Seq<StaffContentView>, id: usize, from: int)
    requires
        0 <= from,
        forall|i: int| 0 <= i < items.len() ==> quiet_item(id)(#[trigger] items[i]),
    ensures
        StaffView::index_in(items, id, from) is None,
    decreases items.len() - from,
{
    if from < items.len() {
        assert(quiet_item(id)(items[from]));
        lemma_no_item_at(items, id, from + 1);
    }
}

/// Among quiet staves nothing is found.
pub proof fn lemma_quiet_staves(part: PartView, id: usize)
    requires
        forall|i: int| 0 <= i < part.staves.len() ==> quiet_staff(id)(#[trigger] part.staves[i]),
    ensures
        part.find_note(id) is None,
        part.find_chord(id) is None,
        part.find_phrase(id) is None,
        part.find_multivoice(id) is None,
        part.find_staff(id) is None,
{
    let n = part.staves.len() as int;
    assert forall|i: int| 0 <= i < n implies note_in_staff(id)(#[trigger] part.staves[i]) is None
        && chord_in_staff(id)(part.staves[i]) is None && phrase_in_staff(id)(part.staves[i])
        is None && multivoice_in_staff(id)(part.staves[i]) is None && staff_at(id)(part.staves[i])
        is None by {
        assert(quiet_staff(id)(part.staves[i]));
    }
    lemma_first_some_skips(part.staves, note_in_staff(id), 0, n);
    lemma_first_some_skips(part.staves, chord_in_staff(id), 0, n);
    lemma_first_some_skips(part.staves, phrase_in_staff(id), 0, n);
    lemma_first_some_skips(part.staves, multivoice_in_staff(id), 0, n);
    lemma_first_some_skips(part.staves, staff_at(id), 0, n);
}

/// Among quiet parts nothing is found.
pub proof fn lemma_quiet_parts(composition: CompositionView, id: usize)
    requires
        forall|i: int|
            0 <= i < composition.parts.len() ==> quiet_part(id)(#[trigger] composition.parts[i]),
    ensures
        composition.find_note(id) is None,
        composition.find_chord(id) is None,
        composition.find_phrase(id) is None,
        composition.find_multivoice(id) is None,
        composition.find_staff(id) is None,
        composition.find_part(id) is None,
{
    let n = composition.parts.len() as int;
    assert forall|i: int| 0 <= i < n implies note_in_part(id)(#[trigger] composition.parts[i])
        is None && chord_in_part(id)(composition.parts[i]) is None && phrase_in_part(id)(
        composition.parts[i],
    ) is None && multivoice_in_part(id)(composition.parts[i]) is None && staff_in_part(id)(
        composition.parts[i],
    ) is None && part_at(id)(composition.parts[i]) is None by {
        assert(quiet_part(id)(composition.parts[i]));
    }
    lemma_first_some_skips(composition.parts, note_in_part(id), 0, n);
    lemma_first_some_skips(composition.parts, chord_in_part(id), 0, n);
    lemma_first_some_skips(composition.parts, phrase_in_part(id), 0, n);
    lemma_first_some_skips(composition.parts, multivoice_in_part(id), 0, n);
    lemma_first_some_skips(composition.parts, staff_in_part(id), 0, n);
    lemma_first_some_skips(composition.parts, part_at(id), 0, n);
}

/// After an identifier has been removed from a group of voices, no lookup
/// finds it there.
pub proof fn lemma_multivoice_without_forgets(voices: MultiVoiceView, id: usize)
    ensures
        voices.without(id).find_note(id) is None,
        voices.without(id).find_chord(id) is None,
        voices.without(id).find_phrase(id) is None,
{
    assert forall|i: int|
        0 <= i < voices.voices.len() && !phrase_is(id)(#[trigger] voices.voices[i])
            implies quiet_phrase(
        id,
    )(phrase_without(id)(voices.voices[i])) by {
        lemma_phrase_without_forgets(voices.voices[i], id);
    }
    lemma_pruned_holds(voices.voices, phrase_is(id), phrase_without(id), 0, quiet_phrase(id));
    lemma_quiet_voices(voices.without(id), id);
}

/// After an identifier has been removed from a staff, no lookup finds it
/// there.
pub proof fn lemma_staff_without_forgets(staff: StaffView, id: usize)
    ensures
        staff.without(id).find_note(id) is None,
        staff.without(id).find_chord(id) is None,
        staff.without(id).find_phrase(id) is None,
        staff.without(id).find_multivoice(id) is None,
        staff.without(id).index_of(id) is None,
{
    assert forall|i: int|
        0 <= i < staff.content.len() && !item_is(id)(#[trigger] staff.content[i])
            implies quiet_item(
        id,
    )(item_without(id)(staff.content[i])) by {
        match staff.content[i] {
            StaffContentView::Phrase(phrase) => {
                lemma_phrase_without_forgets(phrase, id);
            },
            StaffContentView::Chord(chord) => {
                lemma_chord_without_forgets(chord, id);
            },
            StaffContentView::MultiVoice(voices) => {
                lemma_multivoice_without_forgets(voices, id);
            },
        }
    }
    lemma_pruned_holds(staff.content, item_is(id), item_without(id), 0, quiet_item(id));
    lemma_quiet_items(staff.without(id), id);
}

/// After an identifier has been removed from a part, no lookup finds it
/// there.
pub proof fn lemma_part_without_forgets(part: PartView, id: usize)
    ensures
        part.without(id).find_note(id) is None,
        part.without(id).find_chord(id) is None,
        part.without(id).find_phrase(id) is None,
        part.without(id).find_multivoice(id) is None,
        part.without(id).find_staff(id) is None,
{
    assert forall|i: int|
        0 <= i < part.staves.len() && !staff_is(id)(#[trigger] part.staves[i]) implies quiet_staff(
        id,
    )(staff_without(id)(part.staves[i])) by {
        lemma_staff_without_forgets(part.staves[i], id);
    }
    lemma_pruned_holds(part.staves, staff_is(id), staff_without(id), 0, quiet_staff(id));
    lemma_quiet_staves(part.without(id), id);
}

/// After an identifier has been removed from a composition, a lookup of it
/// finds nothing, whatever kind of node is looked for: no note, no chord,
/// no phrase, no group of voices, no staff and no part.
pub proof fn lemma_composition_without_forgets(composition: CompositionView, id: usize)
    ensures
        composition.without(id).find_note(id) is None,
        composition.without(id).find_chord(id) is None,
        composition.without(id).find_phrase(id) is None,
        composition.without(id).find_multivoice(id) is None,
        composition.without(id).find_staff(id) is None,
        composition.without(id).find_part(id) is None,
{
    assert forall|i: int|
        0 <= i < composition.parts.len() && !part_is(id)(
            #[trigger] composition.parts[i],
        ) implies quiet_part(id)(part_without(id)(composition.parts[i])) by {
        lemma_part_without_forgets(composition.parts[i], id);
    }
    lemma_pruned_holds(composition.parts, part_is(id), part_without(id), 0, quiet_part(id));
    lemma_quiet_parts(composition.without(id), id);
}

/// A phrase that has nothing under an identifier is quiet under it.
pub proof fn lemma_unknown_phrase_is_quiet(phrase: PhraseView, id: usize)
    requires
        !phrase.has_id(id),
    ensures
        quiet_phrase(id)(phrase),
{
    lemma_unknown_id_finds_nothing(phrase, id);
}

/// An item of a staff that has nothing under an identifier is quiet under
/// it.
pub proof fn lemma_unknown_item_is_quiet(item: StaffContentView, id: usize)
    requires
        !item.has_id(id),
    ensures
        quiet_item(id)(item),
{
    match item {
        StaffContentView::Phrase(phrase) => {
            lemma_unknown_id_finds_nothing(phrase, id);
        },
        StaffContentView::Chord(chord) => {
            assert forall|i: int| 0 <= i < chord.notes.len() implies (#[trigger] chord.notes[i]).id
                != id by {
                assert(chord.notes[i].has_id(chord.notes[i].id));
            }
            lemma_find_note_among_none(chord.notes, id, 0);
        },
        StaffContentView::MultiVoice(voices) => {
            assert forall|i: int| 0 <= i < voices.voices.len() implies quiet_phrase(id)(
                #[trigger] voices.voices[i],
            ) by {
                lemma_unknown_phrase_is_quiet(voices.voices[i], id);
            }
            lemma_quiet_voices(voices, id);
        },
    }
}

/// A staff that has nothing under an identifier is quiet under it.
pub proof fn lemma_unknown_staff_is_quiet(staff: StaffView, id: usize)
    requires
        !staff.has_id(id),
    ensures
        quiet_staff(id)(staff),
{
    assert forall|i: int| 0 <= i < staff.content.len() implies quiet_item(id)(
        #[trigger] staff.content[i],
    ) by {
        lemma_unknown_item_is_quiet(staff.content[i], id);
    }
    lemma_quiet_items(staff, id);
}

/// A part that has nothing under an identifier is quiet under it.
pub proof fn lemma_unknown_part_is_quiet(part: PartView, id: usize)
    requires
        !part.has_id(id),
    ensures
        quiet_part(id)(part),
{
    assert forall|i: int| 0 <= i < part.staves.len() implies quiet_staff(id)(
        #[trigger] part.staves[i],
    ) by {
        lemma_unknown_staff_is_quiet(part.staves[i], id);
    }
    lemma_quiet_staves(part, id);
}

/// A voice that is added to a group under an identifier that nothing in
/// the group has yet is the phrase that a lookup of that identifier
/// returns.
pub proof fn lemma_multivoice_finds_new_voice(voices: MultiVoiceView, voice: PhraseView)
    requires
        !voices.has_id(voice.id),
    ensures
        voices.with_voice(voice).find_phrase(voice.id) == Some(voice),
{
    let after = voices.with_voice(voice).voices;
    let n = voices.voices.len() as int;
    assert forall|i: int| 0 <= i < n implies phrase_at_or_in(voice.id)(#[trigger] after[i])
        is None by {
        lemma_unknown_phrase_is_quiet(voices.voices[i], voice.id);
    }
    lemma_first_some_skips(after, phrase_at_or_in(voice.id), 0, n);
}

/// An item that is put into a staff under an identifier that nothing in the
/// staff has yet stands where it was put, and a lookup of that identifier
/// returns it as the phrase, the chord or the group of voices that it is.
pub proof fn lemma_staff_finds_new_item(staff: StaffView, at: int, item: StaffContentView)
    requires
        0 <= at <= staff.content.len(),
        !staff.has_id(item.id()),
    ensures
        staff.with_item(at, item).index_of(item.id()) == Some(at),
        item matches StaffContentView::Phrase(phrase) ==> staff.with_item(at, item).find_phrase(
            item.id(),
        ) == Some(phrase),
        item matches StaffContentView::Chord(chord) ==> staff.with_item(at, item).find_chord(
            item.id(),
        ) == Some(chord),
        item matches StaffContentView::MultiVoice(voices) ==> staff.with_item(
            at,
            item,
        ).find_multivoice(item.id()) == Some(voices),
{
    let id = item.id();
    let after = staff.with_item(at, item).content;
    assert forall|i: int| 0 <= i < at implies quiet_item(id)(#[trigger] after[i]) by {
        lemma_unknown_item_is_quiet(staff.content[i], id);
    }
    assert forall|i: int| 0 <= i < at implies phrase_in_item(id)(#[trigger] after[i]) is None
        && chord_in_item(id)(after[i]) is None && multivoice_in_item(id)(after[i]) is None by {
        assert(quiet_item(id)(after[i]));
    }
    lemma_first_some_skips(after, phrase_in_item(id), 0, at);
    lemma_first_some_skips(after, chord_in_item(id), 0, at);
    lemma_first_some_skips(after, multivoice_in_item(id), 0, at);
    lemma_index_skips_quiet(after, id, 0, at);
}

/// The search for the position of an identifier passes over quiet items.
proof fn lemma_index_skips_quiet(items: Seq<StaffContentView>, id: usize, from: int, at: int)
    requires
        0 <= from <= at <= items.len(),
        forall|i: int| from <= i < at ==> quiet_item(id)(#[trigger] items[i]),
    ensures
        StaffView::index_in(items, id, from) == StaffView::index_in(items, id, at),
    decreases at - from,
{
    if from < at {
        assert(quiet_item(id)(items[from]));
        lemma_index_skips_quiet(items, id, from + 1, at);
    }
}

/// A staff that is added to a part under an identifier that nothing in the
/// part has yet is the staff that a lookup of that identifier returns.
pub proof fn lemma_part_finds_new_staff(part: PartView, staff: StaffView)
    requires
        !part.has_id(staff.id),
    ensures
        part.with_staff(staff).find_staff(staff.id) == Some(staff),
{
    let after = part.with_staff(staff).staves;
    let n = part.staves.len() as int;
    assert forall|i: int| 0 <= i < n implies staff_at(staff.id)(#[trigger] after[i]) is None by {
        assert(part.staves[i].has_id(part.staves[i].id));
    }
    lemma_first_some_skips(after, staff_at(staff.id), 0, n);
}

/// A part that is added to a composition under an identifier that nothing
/// in the composition has yet is the part that a lookup of that identifier
/// returns.
pub proof fn lemma_composition_finds_new_part(composition: CompositionView, part: PartView)
    requires
        !composition.has_id(part.id),
    ensures
        (CompositionView { parts: composition.parts.push(part), ..composition }).find_part(part.id)
            == Some(part),
{
    let after = composition.parts.push(part);
    let n = composition.parts.len() as int;
    assert forall|i: int| 0 <= i < n implies part_at(part.id)(#[trigger] after[i]) is None by {
        assert(composition.parts[i].has_id(composition.parts[i].id));
    }
    lemma_first_some_skips(after, part_at(part.id), 0, n);
}

/// Removing an identifier that nothing in a group of voices has changes
/// nothing.
pub proof fn lemma_multivoice_keeps_without_unknown(voices: MultiVoiceView, id: usize)
    requires
        !voices.has_id(id),
    ensures
        voices.without(id) == voices,
{
    assert forall|i: int| 0 <= i < voices.voices.len() implies !phrase_is(id)(
        #[trigger] voices.voices[i],
    ) && phrase_without(id)(voices.voices[i]) == voices.voices[i] by {
        let voice = voices.voices[i];
        assert(!voice.has_id(id));
        if voice.holds(id) {
            crate::structure::phrase_laws::lemma_held_identifier_is_had(voice, id);
        }
        lemma_removing_unknown_id_changes_nothing(voice, id);
    }
    lemma_pruned_keeps(voices.voices, phrase_is(id), phrase_without(id), 0);
    assert(voices.voices.skip(0) =~= voices.voices);
}

/// Removing an identifier that nothing in a staff has changes nothing.
pub proof fn lemma_staff_keeps_without_unknown(staff: StaffView, id: usize)
    requires
        !staff.has_id(id),
    ensures
        staff.without(id) == staff,
{
    assert forall|i: int| 0 <= i < staff.content.len() implies !item_is(id)(
        #[trigger] staff.content[i],
    ) && item_without(id)(staff.content[i]) == staff.content[i] by {
        let item = staff.content[i];
        assert(!item.has_id(id));
        match item {
            StaffContentView::Phrase(phrase) => {
                if phrase.holds(id) {
                    crate::structure::phrase_laws::lemma_held_identifier_is_had(phrase, id);
                }
                lemma_removing_unknown_id_changes_nothing(phrase, id);
            },
            StaffContentView::Chord(chord) => {
                let keep = |n: NoteView| n.id != id;
                assert forall|k: int| 0 <= k < chord.notes.len() implies keep(
                    #[trigger] chord.notes[k],
                ) by {
                    assert(chord.notes[k].has_id(chord.notes[k].id));
                }
                lemma_filter_keeps_all(chord.notes, keep);
                assert(chord.without(id) == chord);
            },
            StaffContentView::MultiVoice(voices) => {
                lemma_multivoice_keeps_without_unknown(voices, id);
            },
        }
    }
    lemma_pruned_keeps(staff.content, item_is(id), item_without(id), 0);
    assert(staff.content.skip(0) =~= staff.content);
}

/// Removing an identifier that nothing in a part has changes nothing.
pub proof fn lemma_part_keeps_without_unknown(part: PartView, id: usize)
    requires
        !part.has_id(id),
    ensures
        part.without(id) == part,
{
    assert forall|i: int| 0 <= i < part.staves.len() implies !staff_is(id)(
        #[trigger] part.staves[i],
    ) && staff_without(id)(part.staves[i]) == part.staves[i] by {
        let staff = part.staves[i];
        assert(!staff.has_id(id));
        lemma_staff_keeps_without_unknown(staff, id);
    }
    lemma_pruned_keeps(part.staves, staff_is(id), staff_without(id), 0);
    assert(part.staves.skip(0) =~= part.staves);
}

/// Removing an identifier that nothing in a composition has changes
/// nothing.
pub proof fn lemma_composition_keeps_without_unknown(composition: CompositionView, id: usize)
    requires
        !composition.has_id(id),
    ensures
        composition.without(id) == composition,
{
    assert forall|i: int| 0 <= i < composition.parts.len() implies !part_is(id)(
        #[trigger] composition.parts[i],
    ) && part_without(id)(composition.parts[i]) == composition.parts[i] by {
        let part = composition.parts[i];
        assert(!part.has_id(id));
        lemma_part_keeps_without_unknown(part, id);
    }
    lemma_pruned_keeps(composition.parts, part_is(id), part_without(id), 0);
    assert(composition.parts.skip(0) =~= composition.parts);
}

/// A composition of which nothing has an identifier finds nothing under
/// it.
pub proof fn lemma_composition_finds_nothing_unknown(composition: CompositionView, id: usize)
    requires
        !composition.has_id(id),
    ensures
        composition.find_note(id) is None,
        composition.find_chord(id) is None,
        composition.find_phrase(id) is None,
        composition.find_multivoice(id) is None,
        composition.find_staff(id) is None,
        composition.find_part(id) is None,
{
    assert forall|i: int| 0 <= i < composition.parts.len() implies quiet_part(id)(
        #[trigger] composition.parts[i],
    ) by {
        lemma_unknown_part_is_quiet(composition.parts[i], id);
    }
    lemma_quiet_parts(composition, id);
}

/// A chord whose identifiers lie below a bound still has them below it
/// after a note has been put into it whose identifiers lie below the bound
/// too.
pub proof fn lemma_chord_stays_below(chord: ChordView, at: int, note: NoteView, bound: int)
    requires
        0 <= at <= chord.notes.len(),
        chord.below(bound),
        note.below(bound),
    ensures
        chord.with_note(at, note).below(bound),
{
    let after = chord.with_note(at, note);
    assert forall|id: usize| #[trigger] after.has_id(id) implies id < bound by {
        if after.id != id {
            let i = choose|i: int| 0 <= i < after.notes.len()
                && (#[trigger] after.notes[i]).has_id(id);
            if i < at {
                assert(chord.notes[i].has_id(id));
                assert(chord.has_id(id));
            } else if i > at {
                assert(chord.notes[i - 1].has_id(id));
                assert(chord.has_id(id));
            } else {
                assert(note.has_id(id));
            }
        } else {
            assert(chord.has_id(id));
        }
    }
}

/// A group of voices whose identifiers lie below a bound still has them
/// below it after a voice has been added whose identifiers lie below the
/// bound too.
pub proof fn lemma_multivoice_stays_below(voices: MultiVoiceView, voice: PhraseView, bound: int)
    requires
        voices.below(bound),
        voice.below(bound),
    ensures
        voices.with_voice(voice).below(bound),
{
    let after = voices.with_voice(voice);
    assert forall|id: usize| #[trigger] after.has_id(id) implies id < bound by {
        if after.id != id {
            let i = choose|i: int| 0 <= i < after.voices.len()
                && (#[trigger] after.voices[i]).has_id(id);
            if i < voices.voices.len() {
                assert(voices.voices[i].has_id(id));
                assert(voices.has_id(id));
            } else {
                assert(voice.has_id(id));
            }
        } else {
            assert(voices.has_id(id));
        }
    }
}

/// A staff whose identifiers lie below a bound still has them below it
/// after an item has been put into it whose identifiers lie below the bound
/// too.
pub proof fn lemma_staff_stays_below(staff: StaffView, at: int, item: StaffContentView, bound: int)
    requires
        0 <= at <= staff.content.len(),
        staff.below(bound),
        forall|id: usize| item.has_id(id) ==> id < bound,
    ensures
        staff.with_item(at, item).below(bound),
{
    let after = staff.with_item(at, item);
    assert forall|id: usize| #[trigger] after.has_id(id) implies id < bound by {
        if after.id != id {
            let i = choose|i: int| 0 <= i < after.content.len()
                && (#[trigger] after.content[i]).has_id(id);
            if i < at {
                assert(staff.content[i].has_id(id));
                assert(staff.has_id(id));
            } else if i > at {
                assert(staff.content[i - 1].has_id(id));
                assert(staff.has_id(id));
            }
        } else {
            assert(staff.has_id(id));
        }
    }
}

/// A part whose identifiers lie below a bound still has them below it
/// after a staff has been added whose identifiers lie below the bound too.
pub proof fn lemma_part_stays_below(part: PartView, staff: StaffView, bound: int)
    requires
        part.below(bound),
        staff.below(bound),
    ensures
        part.with_staff(staff).below(bound),
{
    let after = part.with_staff(staff);
    assert forall|id: usize| #[trigger] after.has_id(id) implies id < bound by {
        if after.id != id {
            let i = choose|i: int| 0 <= i < after.staves.len()
                && (#[trigger] after.staves[i]).has_id(id);
            if i < part.staves.len() {
                assert(part.staves[i].has_id(id));
                assert(part.has_id(id));
            } else {
                assert(staff.has_id(id));
            }
        } else {
            assert(part.has_id(id));
        }
    }
}

/// What a registry hands out next is new to every composition whose
/// identifiers lie below it, and stays so for the identifiers that follow.
pub proof fn lemma_next_identifier_is_new_to_composition(composition: CompositionView, bound: usize)
    requires
        composition.below(bound as int),
    ensures
        !composition.has_id(bound),
        composition.below(bound + 1),
{
}

/// A note whose identifiers lie below a bound still has them below it
/// after a modification has been attached whose identifier lies below the
/// bound too.
pub proof fn lemma_note_stays_below(
    note: NoteView,
    modification: crate::modification::NoteModification,
    bound: int,
)
    requires
        note.below(bound),
        modification.spec_id() < bound,
    ensures
        (NoteView { modifications: note.modifications.push(modification), ..note }).below(bound),
{
    let after = NoteView { modifications: note.modifications.push(modification), ..note };
    assert forall|id: usize| #[trigger] after.has_id(id) implies id < bound by {
        if after.id != id {
            let i = choose|i: int|
                0 <= i < after.modifications.len() && (#[trigger] after.modifications[i]).spec_id()
                    == id;
            if i < note.modifications.len() {
                assert(note.modifications[i].spec_id() == id);
                assert(note.has_id(id));
            }
        } else {
            assert(note.has_id(id));
        }
    }
}

/// A composition whose identifiers lie below a bound still has them below
/// it after the parts of a name have been taken out.
pub proof fn lemma_composition_without_part_stays_below(
    composition: CompositionView,
    name: Seq<char>,
    bound: int,
)
    requires
        composition.below(bound),
    ensures
        composition.without_part_named(name).below(bound),
{
    let after = composition.without_part_named(name);
    assert forall|id: usize| #[trigger] after.has_id(id) implies id < bound by {
        let i = choose|i: int| 0 <= i < after.parts.len() && (#[trigger] after.parts[i]).has_id(id);
        crate::model::lemma_filter_members(
            composition.parts,
            crate::composition::part_not_named(name),
            i,
        );
        let p = choose|p: int|
            0 <= p < composition.parts.len() && #[trigger] composition.parts[p] == after.parts[i];
        assert(composition.parts[p].has_id(id));
        assert(composition.has_id(id));
    }
}

/// A composition whose identifiers lie below a bound still has them below
/// it after a part has been added whose identifiers lie below the bound
/// too.
pub proof fn lemma_composition_stays_below(composition: CompositionView, part: PartView, bound: int)
    requires
        composition.below(bound),
        part.below(bound),
    ensures
        (CompositionView { parts: composition.parts.push(part), ..composition }).below(bound),
{
    let after = CompositionView { parts: composition.parts.push(part), ..composition };
    assert forall|id: usize| #[trigger] after.has_id(id) implies id < bound by {
        let i = choose|i: int| 0 <= i < after.parts.len() && (#[trigger] after.parts[i]).has_id(id);
        if i < composition.parts.len() {
            assert(composition.parts[i].has_id(id));
            assert(composition.has_id(id));
        } else {
            assert(part.has_id(id));
        }
    }
}

} // verus!
