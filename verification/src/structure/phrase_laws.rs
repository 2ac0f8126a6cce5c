//! What holds of every phrase: how tuplets scale, what a lookup finds after
//! an insertion and what it no longer finds after a removal.

use crate::model::lemma_filter_keeps_all;
use crate::note::duration::Duration;
use crate::note::note::NoteView;
use crate::structure::chord::{ChordView, lemma_chord_without_forgets, lemma_find_note_among_none};
use crate::structure::phrase::{PhraseContentView, PhraseView};
use crate::temporal::fraction::ratio;
use vstd::prelude::*;

verus! {

/// Whether no lookup of the identifier finds the child or anything in it.
pub open spec fn silent(item: PhraseContentView, id: usize) -> bool {
    item.id() != id && match item {
        PhraseContentView::Note(note) => true,
        PhraseContentView::Chord(chord) => chord.find_note(id) is None,
        PhraseContentView::Phrase(phrase) => phrase.find_note(id) is None && phrase.find_chord(id)
            is None && phrase.find_phrase(id) is None,
    }
}

/// Where every child from `from` on is silent, the searches find nothing.
pub proof fn lemma_silent_children_find_nothing(items: Seq<PhraseContentView>, id: usize, from: int)
    requires
        0 <= from,
        forall|i: int| from <= i < items.len() ==> silent(#[trigger] items[i], id),
    ensures
        PhraseView::find_note_in(items, id, from) is None,
        PhraseView::find_chord_in(items, id, from) is None,
        PhraseView::find_phrase_in(items, id, from) is None,
        PhraseView::index_in(items, id, from) is None,
    decreases items.len() - from,
{
    if from < items.len() {
        assert(silent(items[from], id));
        lemma_silent_children_find_nothing(items, id, from + 1);
    }
}

/// Where the children before `at` are silent, a search from `from` goes on
/// at `at`.
pub proof fn lemma_search_skips_silent(items: Seq<PhraseContentView>, id: usize, from: int, at: int)
    requires
        0 <= from <= at <= items.len(),
        forall|i: int| from <= i < at ==> silent(#[trigger] items[i], id),
    ensures
        PhraseView::find_note_in(items, id, from) == PhraseView::find_note_in(items, id, at),
        PhraseView::find_chord_in(items, id, from) == PhraseView::find_chord_in(items, id, at),
        PhraseView::find_phrase_in(items, id, from) == PhraseView::find_phrase_in(items, id, at),
        PhraseView::index_in(items, id, from) == PhraseView::index_in(items, id, at),
    decreases at - from,
{
    if from < at {
        assert(silent(items[from], id));
        lemma_search_skips_silent(items, id, from + 1, at);
    }
}

/// Nothing is found in a phrase under an identifier that nothing in it has.
pub proof fn lemma_unknown_id_finds_nothing(phrase: PhraseView, id: usize)
    requires
        !phrase.has_id(id),
    ensures
        phrase.find_note(id) is None,
        phrase.find_chord(id) is None,
        phrase.find_phrase(id) is None,
        phrase.index_of(id) is None,
    decreases phrase,
{
    lemma_unknown_children_are_silent(phrase.content, id, 0);
    lemma_silent_children_find_nothing(phrase.content, id, 0);
}

/// Children that do not have an identifier are silent under it.
pub proof fn lemma_unknown_children_are_silent(
    items: Seq<PhraseContentView>,
    id: usize,
    from: int,
)
    requires
        0 <= from,
        !PhraseView::has_id_in(items, id, from),
    ensures
        forall|i: int| from <= i < items.len() ==> silent(#[trigger] items[i], id),
    decreases items, items.len() - from,
{
    if from < items.len() {
        lemma_unknown_children_are_silent(items, id, from + 1);
        match items[from] {
            PhraseContentView::Note(note) => {},
            PhraseContentView::Chord(chord) => {
                assert forall|i: int| 0 <= i < chord.notes.len()
                    implies (#[trigger] chord.notes[i]).id
                    != id by {
                    assert(chord.notes[i].has_id(chord.notes[i].id));
                }
                lemma_find_note_among_none(chord.notes, id, 0);
            },
            PhraseContentView::Phrase(phrase) => {
                lemma_unknown_id_finds_nothing(phrase, id);
            },
        }
    }
}

/// A note that is put into a phrase under an identifier that nothing in the
/// phrase has yet is the one that a lookup of that identifier returns, and
/// it stands where it was put.
pub proof fn lemma_phrase_finds_new_note(phrase: PhraseView, at: int, note: NoteView)
    requires
        0 <= at <= phrase.content.len(),
        !phrase.has_id(note.id),
    ensures
        phrase.with_item(at, PhraseContentView::Note(note)).find_note(note.id) == Some(note),
        phrase.with_item(at, PhraseContentView::Note(note)).index_of(note.id) == Some(at),
{
    let items = phrase.with_item(at, PhraseContentView::Note(note)).content;
    lemma_unknown_children_are_silent(phrase.content, note.id, 0);
    lemma_search_skips_silent(items, note.id, 0, at);
}

/// A chord that is put into a phrase under an identifier that nothing in
/// the phrase has yet is the one that a lookup of that identifier returns,
/// and it stands where it was put.
pub proof fn lemma_phrase_finds_new_chord(phrase: PhraseView, at: int, chord: ChordView)
    requires
        0 <= at <= phrase.content.len(),
        !phrase.has_id(chord.id),
    ensures
        phrase.with_item(at, PhraseContentView::Chord(chord)).find_chord(chord.id) == Some(chord),
        phrase.with_item(at, PhraseContentView::Chord(chord)).index_of(chord.id) == Some(at),
{
    let items = phrase.with_item(at, PhraseContentView::Chord(chord)).content;
    lemma_unknown_children_are_silent(phrase.content, chord.id, 0);
    lemma_search_skips_silent(items, chord.id, 0, at);
}

/// A phrase that is put into a phrase under an identifier that nothing in
/// the outer phrase has yet is the one that a lookup of that identifier
/// returns, and it stands where it was put.
pub proof fn lemma_phrase_finds_new_phrase(phrase: PhraseView, at: int, inner: PhraseView)
    requires
        0 <= at <= phrase.content.len(),
        !phrase.has_id(inner.id),
    ensures
        phrase.with_item(at, PhraseContentView::Phrase(inner)).find_phrase(inner.id) == Some(inner),
        phrase.with_item(at, PhraseContentView::Phrase(inner)).index_of(inner.id) == Some(at),
{
    let items = phrase.with_item(at, PhraseContentView::Phrase(inner)).content;
    lemma_unknown_children_are_silent(phrase.content, inner.id, 0);
    lemma_search_skips_silent(items, inner.id, 0, at);
}

/// A phrase whose identifiers all lie below a bound has nothing under the
/// bound itself: what a registry hands out next is new to every tree that
/// was built from it.
pub proof fn lemma_next_identifier_is_new(phrase: PhraseView, bound: usize)
    requires
        phrase.below(bound as int),
    ensures
        !phrase.has_id(bound),
{
}

/// After an identifier has been removed from a phrase, a lookup of it finds
/// no note, no chord and no phrase, and no child stands under it.
pub proof fn lemma_phrase_without_forgets(phrase: PhraseView, id: usize)
    ensures
        phrase.without(id).find_note(id) is None,
        phrase.without(id).find_chord(id) is None,
        phrase.without(id).find_phrase(id) is None,
        phrase.without(id).index_of(id) is None,
    decreases phrase,
{
    lemma_remaining_children_are_silent(phrase.content, id, 0);
    let rest = PhraseView::without_in(phrase.content, id, 0);
    assert(phrase.without(id).content == rest);
    assert forall|i: int| 0 <= i < rest.len() implies silent(#[trigger] rest[i], id) by {
        assert(silent(PhraseView::without_in(phrase.content, id, 0)[i], id));
    }
    lemma_silent_children_find_nothing(rest, id, 0);
}

/// What is left of the children after a removal is silent under the
/// identifier that was removed.
pub proof fn lemma_remaining_children_are_silent(
    items: Seq<PhraseContentView>,
    id: usize,
    from: int,
)
    requires
        0 <= from,
    ensures
        forall|i: int|
            0 <= i < PhraseView::without_in(items, id, from).len() ==> silent(
                #[trigger] PhraseView::without_in(items, id, from)[i],
                id,
            ),
    decreases items, items.len() - from,
{
    let all = PhraseView::without_in(items, id, from);
    if from < items.len() {
        lemma_remaining_children_are_silent(items, id, from + 1);
        let rest = PhraseView::without_in(items, id, from + 1);
        if items[from].id() != id {
            match items[from] {
                PhraseContentView::Note(note) => {},
                PhraseContentView::Chord(chord) => {
                    lemma_chord_without_forgets(chord, id);
                },
                PhraseContentView::Phrase(inner) => {
                    lemma_phrase_without_forgets(inner, id);
                },
            }
            assert forall|i: int| 0 <= i < all.len() implies silent(#[trigger] all[i], id) by {
                if i > 0 {
                    assert(all[i] == rest[i - 1]);
                    assert(silent(rest[i - 1], id));
                }
            }
        } else {
            assert(all == rest);
            assert forall|i: int| 0 <= i < all.len() implies silent(#[trigger] all[i], id) by {
                assert(silent(rest[i], id));
            }
        }
    } else {
        assert(all.len() == 0);
    }
}

impl PhraseView {
    /// Whether a note, a chord or a phrase below the phrase has the
    /// identifier. The phrase itself and the modifications are not looked
    /// at.
    pub open spec fn holds(self, id: usize) -> bool
        decreases self,
    {
        Self::holds_in(self.content, id, 0)
    }

    /// Whether a note, a chord or a phrase in the children from position
    /// `from` on has the identifier.
    pub open spec fn holds_in(items: Seq<PhraseContentView>, id: usize, from: int) -> bool
        decreases items, items.len() - from,
    {
        if from < 0 || from >= items.len() {
            false
        } else {
            items[from].id() == id || (match items[from] {
                PhraseContentView::Note(note) => false,
                PhraseContentView::Chord(chord) => exists|i: int|
                    0 <= i < chord.notes.len() && (#[trigger] chord.notes[i]).id == id,
                PhraseContentView::Phrase(phrase) => phrase.holds(id),
            }) || Self::holds_in(items, id, from + 1)
        }
    }
}

/// What a note, a chord or a phrase below a phrase has as its identifier,
/// the phrase has under it.
pub proof fn lemma_held_identifier_is_had(phrase: PhraseView, id: usize)
    requires
        phrase.holds(id),
    ensures
        phrase.has_id(id),
    decreases phrase,
{
    lemma_held_identifier_is_had_in(phrase.content, id, 0);
}

/// The same of the children of a phrase from position `from` on.
pub proof fn lemma_held_identifier_is_had_in(items: Seq<PhraseContentView>, id: usize, from: int)
    requires
        PhraseView::holds_in(items, id, from),
    ensures
        PhraseView::has_id_in(items, id, from),
    decreases items, items.len() - from,
{
    if 0 <= from < items.len() {
        match items[from] {
            PhraseContentView::Note(note) => {
                if note.id != id {
                    lemma_held_identifier_is_had_in(items, id, from + 1);
                } else {
                    assert(note.has_id(id));
                }
            },
            PhraseContentView::Chord(chord) => {
                if chord.id == id {
                    assert(chord.has_id(id));
                } else if exists|i: int| 0 <= i < chord.notes.len() && (#[trigger] chord.notes[i]).id == id {
                    let i = choose|i: int| 0 <= i < chord.notes.len() && (#[trigger] chord.notes[i]).id == id;
                    assert(chord.notes[i].has_id(id));
                    assert(chord.has_id(id));
                } else {
                    lemma_held_identifier_is_had_in(items, id, from + 1);
                }
            },
            PhraseContentView::Phrase(inner) => {
                if inner.id == id {
                    assert(inner.has_id(id));
                } else if inner.holds(id) {
                    lemma_held_identifier_is_had(inner, id);
                } else {
                    lemma_held_identifier_is_had_in(items, id, from + 1);
                }
            },
        }
    }
}

/// Removing an identifier changes nothing where no note, no chord and no
/// phrase below the phrase has it: the phrase's own identifier and those of
/// modifications do not count.
pub proof fn lemma_removing_unknown_id_changes_nothing(phrase: PhraseView, id: usize)
    requires
        !phrase.holds(id),
    ensures
        phrase.without(id) == phrase,
    decreases phrase,
{
    lemma_removing_unknown_id_keeps_children(phrase.content, id, 0);
    assert(phrase.content.skip(0) =~= phrase.content);
}

/// Removing an identifier that no note, chord or phrase among the children
/// has leaves them as they are.
pub proof fn lemma_removing_unknown_id_keeps_children(
    items: Seq<PhraseContentView>,
    id: usize,
    from: int,
)
    requires
        0 <= from <= items.len(),
        !PhraseView::holds_in(items, id, from),
    ensures
        PhraseView::without_in(items, id, from) == items.skip(from),
    decreases items, items.len() - from,
{
    if from < items.len() {
        lemma_removing_unknown_id_keeps_children(items, id, from + 1);
        match items[from] {
            PhraseContentView::Note(note) => {},
            PhraseContentView::Chord(chord) => {
                let keep = |n: NoteView| n.id != id;
                assert forall|i: int| 0 <= i < chord.notes.len() implies keep(
                    #[trigger] chord.notes[i],
                ) by {
                    assert(chord.notes[i].id != id);
                }
                lemma_filter_keeps_all(chord.notes, keep);
                assert(chord.without(id) == chord);
            },
            PhraseContentView::Phrase(inner) => {
                assert(!inner.holds(id));
                lemma_removing_unknown_id_changes_nothing(inner, id);
            },
        }
        assert(items[from].id() != id);
        let kept = match items[from] {
            PhraseContentView::Note(note) => items[from],
            PhraseContentView::Chord(chord) => PhraseContentView::Chord(chord.without(id)),
            PhraseContentView::Phrase(inner) => PhraseContentView::Phrase(inner.without(id)),
        };
        assert(kept == items[from]);
        assert(PhraseView::without_in(items, id, from) == seq![kept] + PhraseView::without_in(
            items,
            id,
            from + 1,
        ));
        assert(seq![items[from]] + items.skip(from + 1) =~= items.skip(from));
    } else {
        assert(PhraseView::without_in(items, id, from) =~= items.skip(from));
    }
}

/// The length of a phrase is proportional to the tuplet factor that it
/// is given.
pub proof fn lemma_exact_beats_scale(phrase: PhraseView, base: Duration, factor: real)
    ensures
        phrase.exact_beats(base, factor) == factor * phrase.exact_beats(base, 1real),
    decreases phrase,
{
    let inner = phrase.exact_inner_ratio(factor);
    let unit = phrase.exact_inner_ratio(1real);
    let plain = PhraseView::exact_sum(phrase.content, base, 1real, 0);
    lemma_exact_sum_scales(phrase.content, base, inner, 0);
    lemma_exact_sum_scales(phrase.content, base, unit, 0);
    match phrase.tuplet() {
        None => {
            assert(factor * (1real * plain) == factor * plain) by (nonlinear_arith);
        },
        Some(b) => {
            let local = ratio(b as int, phrase.content.len() as int);
            assert((factor * local) * plain == factor * ((1real * local) * plain))
                by (nonlinear_arith);
        },
    }
}

/// The sum of the lengths of the children of a phrase is proportional to
/// the tuplet factor in force for them.
pub proof fn lemma_exact_sum_scales(
    items: Seq<PhraseContentView>,
    base: Duration,
    factor: real,
    from: int,
)
    ensures
        PhraseView::exact_sum(items, base, factor, from) == factor * PhraseView::exact_sum(
            items,
            base,
            1real,
            from,
        ),
    decreases items, items.len() - from,
{
    if from < 0 || from >= items.len() {
        assert(factor * 0real == 0real) by (nonlinear_arith);
    } else {
        lemma_exact_sum_scales(items, base, factor, from + 1);
        let rest = PhraseView::exact_sum(items, base, 1real, from + 1);
        match items[from] {
            PhraseContentView::Note(note) => {
                let nominal = note.duration.exact_beats(base);
                assert(nominal * factor + factor * rest == factor * (nominal * 1real + rest))
                    by (nonlinear_arith);
            },
            PhraseContentView::Chord(chord) => {
                if chord.notes.len() == 0 {
                    assert(0real + factor * rest == factor * (0real + rest)) by (nonlinear_arith);
                } else {
                    let nominal = chord.notes[0].duration.exact_beats(base);
                    assert(nominal * factor + factor * rest == factor * (nominal * 1real + rest))
                        by (nonlinear_arith);
                }
            },
            PhraseContentView::Phrase(inner) => {
                lemma_exact_beats_scale(inner, base, factor);
                let unit = inner.exact_beats(base, 1real);
                assert(factor * unit + factor * rest == factor * (unit + rest))
                    by (nonlinear_arith);
            },
        }
    }
}

/// A tuplet into `b` beats over `n` children multiplies the length that the
/// children have without it by `b / n`.
pub proof fn lemma_tuplet_scales_children(phrase: PhraseView, base: Duration, factor: real)
    requires
        phrase.tuplet() is Some,
    ensures
        phrase.exact_beats(base, factor) == factor * ratio(
            phrase.tuplet().unwrap() as int,
            phrase.content.len() as int,
        ) * PhraseView::exact_sum(phrase.content, base, 1real, 0),
{
    lemma_exact_sum_scales(phrase.content, base, phrase.exact_inner_ratio(factor), 0);
}

/// Where the `n` children of a phrase would take up `n` beats by
/// themselves, as `n` notes of one beat do, a tuplet into `b` beats makes
/// them take up `b` beats together.
pub proof fn lemma_tuplet_fills_its_beats(phrase: PhraseView, base: Duration)
    requires
        phrase.tuplet() is Some,
        phrase.content.len() > 0,
        PhraseView::exact_sum(phrase.content, base, 1real, 0) == phrase.content.len() as real,
    ensures
        phrase.exact_beats(base, 1real) == phrase.tuplet().unwrap() as real,
{
    lemma_tuplet_scales_children(phrase, base, 1real);
    let b = phrase.tuplet().unwrap() as int as real;
    let n = phrase.content.len() as int as real;
    assert(1real * (b / n) * n == b) by (nonlinear_arith)
        requires
            n > 0real,
    ;
}

/// Whether a child of a phrase, or anything in it, has the identifier.
pub open spec fn child_has_id(item: PhraseContentView, id: usize) -> bool {
    match item {
        PhraseContentView::Note(note) => note.has_id(id),
        PhraseContentView::Chord(chord) => chord.has_id(id),
        PhraseContentView::Phrase(phrase) => phrase.has_id(id),
    }
}

/// Something among the children has an identifier where one of them has
/// it.
pub proof fn lemma_has_id_in_some_child(items: Seq<PhraseContentView>, id: usize, from: int)
    requires
        0 <= from,
    ensures
        PhraseView::has_id_in(items, id, from) <==> exists|i: int|
            from <= i < items.len() && child_has_id(#[trigger] items[i], id),
    decreases items.len() - from,
{
    if from < items.len() {
        lemma_has_id_in_some_child(items, id, from + 1);
        if PhraseView::has_id_in(items, id, from) {
            if child_has_id(items[from], id) {
            } else {
                let i = choose|i: int| from + 1 <= i < items.len()
                    && child_has_id(#[trigger] items[i], id);
                assert(child_has_id(items[i], id));
            }
        }
        if exists|i: int| from <= i < items.len() && child_has_id(#[trigger] items[i], id) {
            let i = choose|i: int| from <= i < items.len() && child_has_id(#[trigger] items[i], id);
            if i > from {
                assert(child_has_id(items[i], id));
            }
        }
    }
}

/// A phrase whose identifiers lie below a bound still has them below it
/// after a child has been put into it whose identifiers lie below the
/// bound too.
pub proof fn lemma_phrase_stays_below(phrase: PhraseView, at: int, item: PhraseContentView, bound: int)
    requires
        0 <= at <= phrase.content.len(),
        phrase.below(bound),
        forall|id: usize| child_has_id(item, id) ==> id < bound,
    ensures
        phrase.with_item(at, item).below(bound),
{
    let after = phrase.with_item(at, item);
    assert forall|id: usize| #[trigger] after.has_id(id) implies id < bound by {
        lemma_has_id_in_some_child(after.content, id, 0);
        lemma_has_id_in_some_child(phrase.content, id, 0);
        if PhraseView::has_id_in(after.content, id, 0) {
            let i = choose|i: int| 0 <= i < after.content.len()
                && child_has_id(#[trigger] after.content[i], id);
            if i < at {
                assert(child_has_id(phrase.content[i], id));
                assert(phrase.has_id(id));
            } else if i > at {
                assert(child_has_id(phrase.content[i - 1], id));
                assert(phrase.has_id(id));
            }
        } else {
            assert(phrase.has_id(id));
        }
    }
}

/// A phrase whose identifiers lie below a bound still has them below it
/// after a modification has been attached whose identifier lies below the
/// bound too.
pub proof fn lemma_modified_phrase_stays_below(
    phrase: PhraseView,
    modification: crate::modification::PhraseModification,
    bound: int,
)
    requires
        phrase.below(bound),
        modification.spec_id() < bound,
    ensures
        phrase.with_modification(modification).below(bound),
{
    let after = phrase.with_modification(modification);
    assert forall|id: usize| #[trigger] after.has_id(id) implies id < bound by {
        if exists|i: int|
            0 <= i < after.modifications.len() && (#[trigger] after.modifications[i]).spec_id()
                == id {
            let i = choose|i: int|
                0 <= i < after.modifications.len() && (#[trigger] after.modifications[i]).spec_id()
                    == id;
            if i < phrase.modifications.len() {
                assert(phrase.modifications[i].spec_id() == id);
                assert(phrase.has_id(id));
            }
        } else {
            assert(phrase.has_id(id));
        }
    }
}

} // verus!
