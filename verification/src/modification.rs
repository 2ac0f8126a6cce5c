//! Modifications: what is attached to a note or to a phrase.

use crate::context::id::IdRegistry;
use crate::model::lemma_filter_push;
use vstd::prelude::*;

verus! {

/// What can be attached to a single note.
#[derive(Copy, Clone, Debug, PartialEq, Eq, Structural, Hash)]
pub enum NoteModificationType {
    Accent,
    Fermata,
    Grace,
    Staccato,
    Tenuto,
    Tie,
    Trill,
    Turn,
}

/// What can be attached to a phrase. A tuplet says how many beats the direct
/// children of the phrase take up together.
#[derive(Copy, Clone, Debug, PartialEq, Eq, Structural, Hash)]
pub enum PhraseModificationType {
    Crescendo,
    Decrescendo,
    Glissando,
    Legato,
    Pedal,
    Slur,
    Tremolo { relative_speed: u8 },
    Tuplet { into_beats: u8 },
}

/// A modification of a note, with an identity of its own.
#[derive(Copy, Clone, Debug, PartialEq, Eq, Structural, Hash)]
pub struct NoteModification {
    pub(crate) id: usize,
    pub(crate) modification: NoteModificationType,
}

/// A modification of a phrase, with an identity of its own.
#[derive(Copy, Clone, Debug, PartialEq, Eq, Structural, Hash)]
pub struct PhraseModification {
    pub(crate) id: usize,
    pub(crate) modification: PhraseModificationType,
}

impl NoteModification {
    /// The modification with the given identifier and content.
    pub open(crate) spec fn made(id: usize, modification: NoteModificationType) -> Self {
        NoteModification { id, modification }
    }

    pub open(crate) spec fn spec_id(self) -> usize {
        self.id
    }

    pub open(crate) spec fn spec_modification(self) -> NoteModificationType {
        self.modification
    }

    /// A modification with the next identifier of the registry.
    pub fn new(registry: &mut IdRegistry, modification: NoteModificationType) -> (r: Self)
        requires
            old(registry).spec_remaining() > 0,
        ensures
            r == NoteModification::made(old(registry).next_id(), modification),
            *final(registry) == old(registry).after(1),
            final(registry).next_id() == old(registry).next_id() + 1,
    {
        NoteModification { id: registry.generate_id(), modification }
    }

    pub fn get_id(&self) -> (r: usize)
        ensures
            r == self.spec_id(),
    {
        self.id
    }

    pub fn get_modification(&self) -> (r: &NoteModificationType)
        ensures
            *r == self.spec_modification(),
    {
        &self.modification
    }
}

impl PhraseModification {
    /// The modification with the given identifier and content.
    pub open(crate) spec fn made(id: usize, modification: PhraseModificationType) -> Self {
        PhraseModification { id, modification }
    }

    pub open(crate) spec fn spec_id(self) -> usize {
        self.id
    }

    pub open(crate) spec fn spec_modification(self) -> PhraseModificationType {
        self.modification
    }

    /// A modification with the next identifier of the registry.
    pub fn new(registry: &mut IdRegistry, modification: PhraseModificationType) -> (r: Self)
        requires
            old(registry).spec_remaining() > 0,
        ensures
            r == PhraseModification::made(old(registry).next_id(), modification),
            *final(registry) == old(registry).after(1),
            final(registry).next_id() == old(registry).next_id() + 1,
    {
        PhraseModification { id: registry.generate_id(), modification }
    }

    pub fn get_id(&self) -> (r: usize)
        ensures
            r == self.spec_id(),
    {
        self.id
    }

    pub fn get_modification(&self) -> (r: &PhraseModificationType)
        ensures
            *r == self.spec_modification(),
    {
        &self.modification
    }
}

/// The first modification of a note with the given identifier, from
/// position `from` on.
pub open spec fn find_note_modification(
    items: Seq<NoteModification>,
    id: usize,
    from: int,
) -> Option<NoteModification>
    decreases items.len() - from,
{
    if from < 0 || from >= items.len() {
        None
    } else if items[from].spec_id() == id {
        Some(items[from])
    } else {
        find_note_modification(items, id, from + 1)
    }
}

/// The first modification of a phrase with the given identifier, from
/// position `from` on.
pub open spec fn find_phrase_modification(
    items: Seq<PhraseModification>,
    id: usize,
    from: int,
) -> Option<PhraseModification>
    decreases items.len() - from,
{
    if from < 0 || from >= items.len() {
        None
    } else if items[from].spec_id() == id {
        Some(items[from])
    } else {
        find_phrase_modification(items, id, from + 1)
    }
}

/// The beats of the first tuplet among the modifications of a phrase, from
/// position `from` on.
pub open spec fn first_tuplet(items: Seq<PhraseModification>, from: int) -> Option<u8>
    decreases items.len() - from,
{
    if from < 0 || from >= items.len() {
        None
    } else {
        match items[from].spec_modification() {
            PhraseModificationType::Tuplet { into_beats } => Some(into_beats),
            _ => first_tuplet(items, from + 1),
        }
    }
}

/// Looks a note's modification up by its identifier.
pub(crate) fn lookup_note_modification(items: &Vec<NoteModification>, id: usize) -> (r: Option<
    &NoteModification,
>)
    ensures
        match r {
            Some(m) => Some(*m) == find_note_modification(items@, id, 0),
            None => find_note_modification(items@, id, 0) is None,
        },
{
    let mut i: usize = 0;
    while i < items.len()
        invariant
            i <= items.len(),
            find_note_modification(items@, id, 0) == find_note_modification(items@, id, i as int),
        decreases items.len() - i,
    {
        if items[i].id == id {
            return Some(&items[i]);
        }
        i += 1;
    }
    None
}

/// Looks a phrase's modification up by its identifier.
pub(crate) fn lookup_phrase_modification(items: &Vec<PhraseModification>, id: usize) -> (r: Option<
    &PhraseModification,
>)
    ensures
        match r {
            Some(m) => Some(*m) == find_phrase_modification(items@, id, 0),
            None => find_phrase_modification(items@, id, 0) is None,
        },
{
    let mut i: usize = 0;
    while i < items.len()
        invariant
            i <= items.len(),
            find_phrase_modification(items@, id, 0) == find_phrase_modification(
                items@,
                id,
                i as int,
            ),
        decreases items.len() - i,
    {
        if items[i].id == id {
            return Some(&items[i]);
        }
        i += 1;
    }
    None
}

/// Takes every modification with the given identifier out of the list.
pub(crate) fn discard_note_modification(items: &mut Vec<NoteModification>, id: usize)
    ensures
        final(items)@ == old(items)@.filter(|m: NoteModification| m.spec_id() != id),
{
    let ghost keep = |m: NoteModification| m.spec_id() != id;
    let mut i: usize = 0;
    let ghost mut done: int = 0;
    while i < items.len()
        invariant
            0 <= done <= old(items)@.len(),
            i <= items.len(),
            items.len() - i == old(items)@.len() - done,
            items@.take(i as int) == old(items)@.take(done).filter(keep),
            items@.skip(i as int) == old(items)@.skip(done),
            keep == |m: NoteModification| m.spec_id() != id,
        decreases items.len() - i,
    {
        proof {
            assert(items@[i as int] == items@.skip(i as int)[0]);
            assert(old(items)@.take(done + 1) == old(items)@.take(done).push(old(items)@[done]));
            lemma_filter_push(old(items)@.take(done), old(items)@[done], keep);
        }
        if items[i].id == id {
            let ghost before = items@;
            items.remove(i);
            proof {
                assert(items@.take(i as int) == before.take(i as int));
                assert(items@.skip(i as int) == before.skip(i as int).skip(1));
                assert(old(items)@.skip(done).skip(1) == old(items)@.skip(done + 1));
            }
        } else {
            proof {
                assert(items@.take(i + 1) == items@.take(i as int).push(items@[i as int]));
                assert(items@.skip(i as int).skip(1) == items@.skip(i + 1));
                assert(old(items)@.skip(done).skip(1) == old(items)@.skip(done + 1));
            }
            i += 1;
        }
        proof {
            done = done + 1;
        }
    }
    proof {
        assert(items@.take(i as int) == items@);
        assert(old(items)@.take(done) == old(items)@);
    }
}

/// Takes every modification with the given identifier out of the list.
pub(crate) fn discard_phrase_modification(items: &mut Vec<PhraseModification>, id: usize)
    ensures
        final(items)@ == old(items)@.filter(|m: PhraseModification| m.spec_id() != id),
{
    let ghost keep = |m: PhraseModification| m.spec_id() != id;
    let mut i: usize = 0;
    let ghost mut done: int = 0;
    while i < items.len()
        invariant
            0 <= done <= old(items)@.len(),
            i <= items.len(),
            items.len() - i == old(items)@.len() - done,
            items@.take(i as int) == old(items)@.take(done).filter(keep),
            items@.skip(i as int) == old(items)@.skip(done),
            keep == |m: PhraseModification| m.spec_id() != id,
        decreases items.len() - i,
    {
        proof {
            assert(items@[i as int] == items@.skip(i as int)[0]);
            assert(old(items)@.take(done + 1) == old(items)@.take(done).push(old(items)@[done]));
            lemma_filter_push(old(items)@.take(done), old(items)@[done], keep);
        }
        if items[i].id == id {
            let ghost before = items@;
            items.remove(i);
            proof {
                assert(items@.take(i as int) == before.take(i as int));
                assert(items@.skip(i as int) == before.skip(i as int).skip(1));
                assert(old(items)@.skip(done).skip(1) == old(items)@.skip(done + 1));
            }
        } else {
            proof {
                assert(items@.take(i + 1) == items@.take(i as int).push(items@[i as int]));
                assert(items@.skip(i as int).skip(1) == items@.skip(i + 1));
                assert(old(items)@.skip(done).skip(1) == old(items)@.skip(done + 1));
            }
            i += 1;
        }
        proof {
            done = done + 1;
        }
    }
    proof {
        assert(items@.take(i as int) == items@);
        assert(old(items)@.take(done) == old(items)@);
    }
}

} // verus!
