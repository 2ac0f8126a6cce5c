//! The composition: the root of the tree, with its parts and what is known
//! about the piece.

use crate::context::id::IdRegistry;
use crate::context::key::Key;
use crate::context::tempo::{Tempo, TimeSignature};
use crate::error::TimingError;
use crate::model::{
    first_some, lemma_filter_members, lemma_filter_push, lemma_views, pruned, total, views,
};
use crate::note::duration::Duration;
use crate::note::note::{Note, NoteView};
use crate::structure::chord::{Chord, ChordView};
use crate::structure::multivoice::{greater, MultiVoice, MultiVoiceView};
use crate::structure::part::{lemma_part_beats_are_exact, Part, PartView};
use crate::structure::phrase::{Phrase, PhraseView};
use crate::structure::staff::{Staff, StaffView};
use crate::temporal::fraction::{
    Fraction, lemma_fraction_arithmetic, lemma_ratio_whole, lemma_reduced_value, ratio, reduced,
};
use vstd::prelude::*;
use vstd::string::StringExecFns;

verus! {

/// A composition: the root of the document tree, with its parts, its tempo,
/// key and time signature, and what is known about its authors.
#[derive(Debug)]
pub struct Composition {
    pub(crate) title: String,
    pub(crate) copyright: Option<String>,
    pub(crate) publisher: Option<String>,
    pub(crate) composers: Vec<String>,
    pub(crate) lyricists: Vec<String>,
    pub(crate) arrangers: Vec<String>,
    pub(crate) metadata: Vec<(String, String)>,
    pub(crate) parts: Vec<Part>,
    pub(crate) tempo: Tempo,
    pub(crate) starting_key: Key,
    pub(crate) starting_time_signature: TimeSignature,
}

/// What a composition is, as plain data.
pub struct CompositionView {
    pub title: Seq<char>,
    pub copyright: Option<Seq<char>>,
    pub publisher: Option<Seq<char>>,
    pub composers: Seq<Seq<char>>,
    pub lyricists: Seq<Seq<char>>,
    pub arrangers: Seq<Seq<char>>,
    pub metadata: Seq<(Seq<char>, Seq<char>)>,
    pub parts: Seq<PartView>,
    pub tempo: Tempo,
    pub starting_key: Key,
    pub starting_time_signature: TimeSignature,
}

/// The view of a text that may be missing.
pub open spec fn text_view(text: Option<String>) -> Option<Seq<char>> {
    match text {
        Some(t) => Some(t@),
        None => None,
    }
}

impl View for Composition {
    type V = CompositionView;

    open(crate) spec fn view(&self) -> CompositionView {
        CompositionView {
            title: self.title@,
            copyright: text_view(self.copyright),
            publisher: text_view(self.publisher),
            composers: views(self.composers@),
            lyricists: views(self.lyricists@),
            arrangers: views(self.arrangers@),
            metadata: views(self.metadata@),
            parts: views(self.parts@),
            tempo: self.tempo,
            starting_key: self.starting_key,
            starting_time_signature: self.starting_time_signature,
        }
    }
}

/// Looks for a note in a part.
pub open spec fn note_in_part(id: usize) -> spec_fn(PartView) -> Option<NoteView> {
    |part: PartView| part.find_note(id)
}

/// Looks for a chord in a part.
pub open spec fn chord_in_part(id: usize) -> spec_fn(PartView) -> Option<ChordView> {
    |part: PartView| part.find_chord(id)
}

/// Looks for a phrase in a part.
pub open spec fn phrase_in_part(id: usize) -> spec_fn(PartView) -> Option<PhraseView> {
    |part: PartView| part.find_phrase(id)
}

/// Looks for a group of voices in a part.
pub open spec fn multivoice_in_part(id: usize) -> spec_fn(PartView) -> Option<MultiVoiceView> {
    |part: PartView| part.find_multivoice(id)
}

/// Looks for a staff in a part.
pub open spec fn staff_in_part(id: usize) -> spec_fn(PartView) -> Option<StaffView> {
    |part: PartView| part.find_staff(id)
}

/// The part itself, where it has the identifier.
pub open spec fn part_at(id: usize) -> spec_fn(PartView) -> Option<PartView> {
    |part: PartView|
        if part.id == id {
            Some(part)
        } else {
            None
        }
}

/// The part itself, where it has the name.
pub open spec fn part_named(name: Seq<char>) -> spec_fn(PartView) -> Option<PartView> {
    |part: PartView|
        if part.name == name {
            Some(part)
        } else {
            None
        }
}

/// Whether a part has the identifier.
pub open spec fn part_is(id: usize) -> spec_fn(PartView) -> bool {
    |part: PartView| part.id == id
}

/// Removes an identifier from a part.
pub open spec fn part_without(id: usize) -> spec_fn(PartView) -> PartView {
    |part: PartView| part.without(id)
}

/// Whether a part has another name than the given one.
pub open spec fn part_not_named(name: Seq<char>) -> spec_fn(PartView) -> bool {
    |part: PartView| part.name != name
}

/// Whether a text differs from the given one.
pub open spec fn text_differs(text: Seq<char>) -> spec_fn(Seq<char>) -> bool {
    |other: Seq<char>| other != text
}

/// Whether an entry of the metadata stands under another key.
pub open spec fn key_differs(key: Seq<char>) -> spec_fn((Seq<char>, Seq<char>)) -> bool {
    |entry: (Seq<char>, Seq<char>)| entry.0 != key
}

/// Counts the notes of a part.
pub open spec fn notes_of_part() -> spec_fn(PartView) -> nat {
    |part: PartView| part.note_count()
}

/// The position of the first entry under the key, from position `from` on.
pub open spec fn key_index(entries: Seq<(Seq<char>, Seq<char>)>, key: Seq<char>, from: int) -> Option<
    int,
>
    decreases entries.len() - from,
{
    if from < 0 || from >= entries.len() {
        None
    } else if entries[from].0 == key {
        Some(from)
    } else {
        key_index(entries, key, from + 1)
    }
}

/// The entries with `value` under `key`: in the place of the first entry
/// under that key, or at the end where there is none.
pub open spec fn with_entry(
    entries: Seq<(Seq<char>, Seq<char>)>,
    key: Seq<char>,
    value: Seq<char>,
) -> Seq<(Seq<char>, Seq<char>)> {
    match key_index(entries, key, 0) {
        Some(at) => entries.update(at, (key, value)),
        None => entries.push((key, value)),
    }
}

/// Whether no key stands over two entries.
pub open spec fn keys_unique(entries: Seq<(Seq<char>, Seq<char>)>) -> bool {
    forall|i: int, j: int|
        0 <= i < j < entries.len() ==> (#[trigger] entries[i]).0 != (#[trigger] entries[j]).0
}

/// Where the search for a key ends.
pub proof fn lemma_key_index(entries: Seq<(Seq<char>, Seq<char>)>, key: Seq<char>, from: int)
    requires
        0 <= from,
    ensures
        match key_index(entries, key, from) {
            Some(at) => from <= at < entries.len() && entries[at].0 == key,
            None => forall|i: int| from <= i < entries.len() ==> (#[trigger] entries[i]).0 != key,
        },
    decreases entries.len() - from,
{
    if from < entries.len() && entries[from].0 != key {
        lemma_key_index(entries, key, from + 1);
    }
}

/// Entries of which no two stand under one key stay so when a value is put
/// under a key, and the value then stands under that key.
pub proof fn lemma_with_entry_keeps_keys(
    entries: Seq<(Seq<char>, Seq<char>)>,
    key: Seq<char>,
    value: Seq<char>,
)
    requires
        keys_unique(entries),
    ensures
        keys_unique(with_entry(entries, key, value)),
        exists|i: int|
            0 <= i < with_entry(entries, key, value).len() && (#[trigger] with_entry(
                entries,
                key,
                value,
            )[i]) == (key, value),
{
    lemma_key_index(entries, key, 0);
    let after = with_entry(entries, key, value);
    match key_index(entries, key, 0) {
        Some(at) => {
            assert forall|i: int, j: int| 0 <= i < j < after.len() implies (#[trigger] after[i]).0 != (
            #[trigger] after[j]).0 by {
                assert(after[i].0 == entries[i].0);
                assert(after[j].0 == entries[j].0);
            }
            assert(after[at] == (key, value));
        },
        None => {
            assert forall|i: int, j: int| 0 <= i < j < after.len() implies (#[trigger] after[i]).0 != (
            #[trigger] after[j]).0 by {
                if j < entries.len() {
                    assert(after[i] == entries[i] && after[j] == entries[j]);
                } else {
                    assert(after[i] == entries[i]);
                }
            }
            assert(after[entries.len() as int] == (key, value));
        },
    }
}

/// Entries of which no two stand under one key stay so when some of them
/// are taken out.
pub proof fn lemma_filter_keeps_keys(
    entries: Seq<(Seq<char>, Seq<char>)>,
    keep: spec_fn((Seq<char>, Seq<char>)) -> bool,
)
    requires
        keys_unique(entries),
    ensures
        keys_unique(entries.filter(keep)),
    decreases entries.len(),
{
    reveal(Seq::filter);
    if entries.len() > 0 {
        let shorter = entries.drop_last();
        assert forall|i: int, j: int| 0 <= i < j < shorter.len() implies (#[trigger] shorter[i]).0 != (
        #[trigger] shorter[j]).0 by {
            assert(shorter[i] == entries[i] && shorter[j] == entries[j]);
        }
        lemma_filter_keeps_keys(shorter, keep);
        let left = shorter.filter(keep);
        let all = entries.filter(keep);
        assert forall|i: int, j: int| 0 <= i < j < all.len() implies (#[trigger] all[i]).0 != (
        #[trigger] all[j]).0 by {
            if j < left.len() {
                assert(all[i] == left[i] && all[j] == left[j]);
            } else {
                lemma_filter_members(shorter, keep, i);
                let p = choose|p: int| 0 <= p < shorter.len() && #[trigger] shorter[p] == left[i];
                assert(entries[p] == all[i]);
                assert(all[j] == entries[entries.len() - 1]);
            }
        }
    }
}

impl CompositionView {
    /// Whether every key of the metadata stands over one entry only. It is
    /// so of a new composition, and every change of a composition keeps it
    /// so.
    pub open spec fn keys_unique(self) -> bool {
        keys_unique(self.metadata)
    }

    /// The length of the composition in beats of its tempo: that of its
    /// longest part.
    pub open spec fn exact_beats(self) -> real {
        Self::exact_max(self.parts, self.tempo.base_note, 0)
    }

    /// The length of the longest part from position `from` on.
    pub open spec fn exact_max(parts: Seq<PartView>, base: Duration, from: int) -> real
        decreases parts.len() - from,
    {
        if from < 0 || from >= parts.len() {
            0real
        } else {
            greater(parts[from].exact_beats(base), Self::exact_max(parts, base, from + 1))
        }
    }

    /// The length of the composition in seconds: its beats, sixty to the
    /// minute, over the beats per minute of its tempo.
    pub open spec fn exact_seconds(self) -> real {
        self.exact_beats() * ratio(60, self.tempo.beats_per_minute as int)
    }

    /// Whether durations are defined throughout the composition.
    pub open spec fn sound(self) -> bool {
        forall|i: int| 0 <= i < self.parts.len() ==> (#[trigger] self.parts[i]).sound()
    }

    /// The length of the composition in beats as a fraction, or the first
    /// reason met, in the order of the parts, why there is none.
    pub open spec fn beats(self) -> Result<Fraction, TimingError> {
        Self::max_beats(self.parts, self.tempo.base_note, 0, Fraction::spec_zero())
    }

    /// The greatest of `so_far` and the lengths of the parts from position
    /// `from` on.
    pub open spec fn max_beats(
        parts: Seq<PartView>,
        base: Duration,
        from: int,
        so_far: Fraction,
    ) -> Result<Fraction, TimingError>
        decreases parts.len() - from,
    {
        if from < 0 || from >= parts.len() {
            Ok(so_far)
        } else {
            match parts[from].beats(base) {
                Err(e) => Err(e),
                Ok(length) => Self::max_beats(parts, base, from + 1, so_far.spec_max(length)),
            }
        }
    }

    /// The length of the composition in seconds as a fraction, or the
    /// reason why there is none: that of the beats, or a tempo of zero beats
    /// per minute.
    pub open spec fn seconds(self) -> Result<Fraction, TimingError> {
        match self.beats() {
            Err(e) => Err(e),
            Ok(beats) => match reduced(60, self.tempo.beats_per_minute as nat) {
                None => Err(TimingError::ZeroTempo),
                Some(per_beat) => match beats.spec_mul(per_beat) {
                    None => Err(TimingError::Overflow),
                    Some(seconds) => Ok(seconds),
                },
            },
        }
    }

    /// The first note with the given identifier, part by part.
    pub open spec fn find_note(self, id: usize) -> Option<NoteView> {
        first_some(self.parts, note_in_part(id), 0)
    }

    /// The first chord with the given identifier, part by part.
    pub open spec fn find_chord(self, id: usize) -> Option<ChordView> {
        first_some(self.parts, chord_in_part(id), 0)
    }

    /// The first phrase with the given identifier, part by part.
    pub open spec fn find_phrase(self, id: usize) -> Option<PhraseView> {
        first_some(self.parts, phrase_in_part(id), 0)
    }

    /// The first group of voices with the given identifier, part by part.
    pub open spec fn find_multivoice(self, id: usize) -> Option<MultiVoiceView> {
        first_some(self.parts, multivoice_in_part(id), 0)
    }

    /// The first staff with the given identifier, part by part.
    pub open spec fn find_staff(self, id: usize) -> Option<StaffView> {
        first_some(self.parts, staff_in_part(id), 0)
    }

    /// The first part with the given identifier.
    pub open spec fn find_part(self, id: usize) -> Option<PartView> {
        first_some(self.parts, part_at(id), 0)
    }

    /// The first part with the given name.
    pub open spec fn find_part_by_name(self, name: Seq<char>) -> Option<PartView> {
        first_some(self.parts, part_named(name), 0)
    }

    /// The names of the parts, in order.
    pub open spec fn part_names(self) -> Seq<Seq<char>> {
        Seq::new(self.parts.len(), |i: int| self.parts[i].name)
    }

    /// The composition without the parts that have the identifier, and
    /// without what has it in the others.
    pub open spec fn without(self, id: usize) -> CompositionView {
        CompositionView { parts: pruned(self.parts, part_is(id), part_without(id), 0), ..self }
    }

    /// The composition without the parts of the given name.
    pub open spec fn without_part_named(self, name: Seq<char>) -> CompositionView {
        CompositionView { parts: self.parts.filter(part_not_named(name)), ..self }
    }

    /// Whether anything in the composition has the identifier.
    pub open spec fn has_id(self, id: usize) -> bool {
        exists|i: int| 0 <= i < self.parts.len() && (#[trigger] self.parts[i]).has_id(id)
    }

    /// Whether every identifier in the composition lies below the bound.
    pub open spec fn below(self, bound: int) -> bool {
        forall|id: usize| #[trigger] self.has_id(id) ==> id < bound
    }

    /// The number of notes in the composition.
    pub open spec fn note_count(self) -> nat {
        total(self.parts, notes_of_part(), 0)
    }

    /// Whether a staff of the composition holds a group of parallel voices.
    pub open spec fn has_multivoice(self) -> bool {
        exists|i: int| 0 <= i < self.parts.len() && (#[trigger] self.parts[i]).has_multivoice()
    }
}

/// The fraction that the engine computes for parallel parts is the length
/// of the longest of them.
pub proof fn lemma_composition_max_is_exact(
    parts: Seq<PartView>,
    base: Duration,
    from: int,
    so_far: Fraction,
)
    requires
        0 <= from,
        so_far.well_formed(),
    ensures
        match CompositionView::max_beats(parts, base, from, so_far) {
            Ok(longest) => {
                &&& longest.well_formed()
                &&& longest.value() == greater(
                    so_far.value(),
                    CompositionView::exact_max(parts, base, from),
                )
                &&& forall|i: int| from <= i < parts.len() ==> (#[trigger] parts[i]).sound()
                &&& forall|i: int| from <= i < parts.len() ==> (#[trigger] parts[i]).beats(base) is Ok
                &&& CompositionView::exact_max(parts, base, from) >= 0real
            },
            Err(e) => e != TimingError::Overflow ==> exists|i: int|
                from <= i < parts.len() && !(#[trigger] parts[i]).sound(),
        },
    decreases parts.len() - from,
{
    lemma_fraction_arithmetic(so_far, so_far);
    if from < parts.len() {
        lemma_part_beats_are_exact(parts[from], base);
        match parts[from].beats(base) {
            Ok(length) => {
                lemma_composition_max_is_exact(parts, base, from + 1, so_far.spec_max(length));
                match CompositionView::max_beats(parts, base, from, so_far) {
                    Ok(longest) => {
                        assert forall|i: int| from <= i < parts.len()
                            implies (#[trigger] parts[i]).sound() by {
                            if i > from {
                                assert(parts[i].sound());
                            }
                        }
                        assert forall|i: int| from <= i < parts.len()
                            implies (#[trigger] parts[i]).beats(
                            base,
                        ) is Ok by {
                            if i > from {
                                assert(parts[i].beats(base) is Ok);
                            }
                        }
                    },
                    Err(e) => {
                        if e != TimingError::Overflow {
                            let i = choose|i: int|
                                from + 1 <= i < parts.len() && !(#[trigger] parts[i]).sound();
                            assert(!parts[i].sound());
                        }
                    },
                }
            },
            Err(e) => {
                if e != TimingError::Overflow {
                    assert(!parts[from].sound());
                }
            },
        }
    }
}

/// The fractions that the engine computes for a composition are its exact
/// length in beats and in seconds.
pub proof fn lemma_composition_timing_is_exact(composition: CompositionView)
    ensures
        match composition.beats() {
            Ok(length) => {
                &&& length.well_formed()
                &&& length.value() == composition.exact_beats()
                &&& composition.sound()
            },
            Err(e) => e != TimingError::Overflow ==> !composition.sound(),
        },
        match composition.seconds() {
            Ok(length) => {
                &&& length.well_formed()
                &&& length.value() == composition.exact_seconds()
                &&& composition.sound()
                &&& composition.tempo.beats_per_minute > 0
            },
            Err(e) => e != TimingError::Overflow && e != TimingError::ZeroTempo
                ==> !composition.sound(),
        },
{
    lemma_ratio_whole(0);
    lemma_composition_max_is_exact(
        composition.parts,
        composition.tempo.base_note,
        0,
        Fraction::spec_zero(),
    );
    if let Err(e) = composition.beats() {
        if e != TimingError::Overflow {
            let i = choose|i: int|
                0 <= i < composition.parts.len() && !(#[trigger] composition.parts[i]).sound();
            assert(!composition.parts[i].sound());
        }
    }
    if let Ok(beats) = composition.beats() {
        lemma_reduced_value(60, composition.tempo.beats_per_minute as nat);
        if let Some(per_beat) = reduced(60, composition.tempo.beats_per_minute as nat) {
            lemma_fraction_arithmetic(beats, per_beat);
        }
    }
}

impl Composition {
    /// A composition without parts. Tempo, key and time signature are the
    /// usual ones where none is given: 120 quarter notes to the minute, C
    /// major, four quarters to the bar.
    #[must_use]
    pub fn new(
        title: &str,
        tempo: Option<Tempo>,
        key: Option<Key>,
        time_signature: Option<TimeSignature>,
    ) -> (r: Self)
        ensures
            r@ == (CompositionView {
                title: title@,
                copyright: None,
                publisher: None,
                composers: Seq::empty(),
                lyricists: Seq::empty(),
                arrangers: Seq::empty(),
                metadata: Seq::empty(),
                parts: Seq::empty(),
                tempo: match tempo {
                    Some(t) => t,
                    None => Tempo::usual(),
                },
                starting_key: match key {
                    Some(k) => k,
                    None => Key::usual(),
                },
                starting_time_signature: match time_signature {
                    Some(t) => t,
                    None => TimeSignature::usual(),
                },
            }),
            r@.keys_unique(),
    {
        let r = Self {
            title: String::from_str(title),
            copyright: None,
            publisher: None,
            composers: Vec::new(),
            lyricists: Vec::new(),
            arrangers: Vec::new(),
            metadata: Vec::new(),
            parts: Vec::new(),
            tempo: match tempo {
                Some(t) => t,
                None => Tempo::default(),
            },
            starting_key: match key {
                Some(k) => k,
                None => Key::default(),
            },
            starting_time_signature: match time_signature {
                Some(t) => t,
                None => TimeSignature::default(),
            },
        };
        proof {
            assert(r@.composers =~= Seq::empty());
            assert(r@.lyricists =~= Seq::empty());
            assert(r@.arrangers =~= Seq::empty());
            assert(r@.metadata =~= Seq::empty());
            assert(r@.parts =~= Seq::empty());
        }
        r
    }

    pub fn set_title(&mut self, title: &str) -> (r: &mut Self)
        ensures
            r@ == (CompositionView { title: title@, ..old(self)@ }),
            *final(self) == *final(r),
    {
        self.title = String::from_str(title);
        self
    }
}

/// Takes every text equal to `text` out of the list.
fn discard_text(items: &mut Vec<String>, text: &str)
    ensures
        views(final(items)@) == views(old(items)@).filter(text_differs(text@)),
{
    let target = String::from_str(text);
    let ghost keep = text_differs(text@);
    let ghost before = views(old(items)@);
    let mut i: usize = 0;
    let ghost mut done: int = 0;
    while i < items.len()
        invariant
            0 <= done <= before.len(),
            i <= items.len(),
            items.len() - i == before.len() - done,
            views(items@).take(i as int) == before.take(done).filter(keep),
            views(items@).skip(i as int) == before.skip(done),
            keep == text_differs(text@),
            target@ == text@,
        decreases items.len() - i,
    {
        let ghost shown = views(items@);
        let ghost current = items@;
        proof {
            assert(shown[i as int] == shown.skip(i as int)[0]);
            assert(before.take(done + 1) == before.take(done).push(before[done]));
            lemma_filter_push(before.take(done), before[done], keep);
            assert(shown.skip(i as int).skip(1) == shown.skip(i + 1));
            assert(before.skip(done).skip(1) == before.skip(done + 1));
        }
        if items[i] == target {
            items.remove(i);
            proof {
                lemma_views(current, i as int, current[0]);
                assert(views(items@).take(i as int) == shown.take(i as int));
                assert(views(items@).skip(i as int) == shown.skip(i + 1));
            }
        } else {
            proof {
                assert(shown.take(i + 1) == shown.take(i as int).push(shown[i as int]));
            }
            i += 1;
        }
        proof {
            done = done + 1;
        }
    }
    proof {
        assert(views(items@).take(i as int) == views(items@));
        assert(before.take(done) == before);
    }
}

/// Takes every entry under `key` out of the list.
fn discard_key(entries: &mut Vec<(String, String)>, key: &str)
    ensures
        views(final(entries)@) == views(old(entries)@).filter(key_differs(key@)),
{
    let target = String::from_str(key);
    let ghost keep = key_differs(key@);
    let ghost before = views(old(entries)@);
    let mut i: usize = 0;
    let ghost mut done: int = 0;
    while i < entries.len()
        invariant
            0 <= done <= before.len(),
            i <= entries.len(),
            entries.len() - i == before.len() - done,
            views(entries@).take(i as int) == before.take(done).filter(keep),
            views(entries@).skip(i as int) == before.skip(done),
            keep == key_differs(key@),
            target@ == key@,
        decreases entries.len() - i,
    {
        let ghost shown = views(entries@);
        let ghost current = entries@;
        proof {
            assert(shown[i as int] == shown.skip(i as int)[0]);
            assert(before.take(done + 1) == before.take(done).push(before[done]));
            lemma_filter_push(before.take(done), before[done], keep);
            assert(shown.skip(i as int).skip(1) == shown.skip(i + 1));
            assert(before.skip(done).skip(1) == before.skip(done + 1));
        }
        if entries[i].0 == target {
            entries.remove(i);
            proof {
                lemma_views(current, i as int, current[0]);
                assert(views(entries@).take(i as int) == shown.take(i as int));
                assert(views(entries@).skip(i as int) == shown.skip(i + 1));
            }
        } else {
            proof {
                assert(shown.take(i + 1) == shown.take(i as int).push(shown[i as int]));
            }
            i += 1;
        }
        proof {
            done = done + 1;
        }
    }
    proof {
        assert(views(entries@).take(i as int) == views(entries@));
        assert(before.take(done) == before);
    }
}

/// A copy of each text, in the same order.
fn copy_texts(items: &Vec<String>) -> (r: Vec<String>)
    ensures
        views(r@) == views(items@),
{
    let mut r: Vec<String> = Vec::new();
    let mut i: usize = 0;
    while i < items.len()
        invariant
            i <= items.len(),
            views(r@) == views(items@).take(i as int),
        decreases items.len() - i,
    {
        let text = items[i].clone();
        proof {
            lemma_views(r@, 0, text);
            assert(views(items@).take(i + 1) == views(items@).take(i as int).push(
                views(items@)[i as int],
            ));
        }
        r.push(text);
        i += 1;
    }
    proof {
        assert(views(items@).take(i as int) == views(items@));
    }
    r
}

/// A copy of a text that may be missing.
fn copy_text(text: &Option<String>) -> (r: Option<String>)
    ensures
        text_view(r) == text_view(*text),
{
    match text {
        Some(t) => Some(t.clone()),
        None => None,
    }
}

impl Composition {
    pub fn set_copyright(&mut self, copyright: &str) -> (r: &mut Self)
        ensures
            r@ == (CompositionView { copyright: Some(copyright@), ..old(self)@ }),
            *final(self) == *final(r),
    {
        self.copyright = Some(String::from_str(copyright));
        self
    }

    pub fn set_publisher(&mut self, publisher: &str) -> (r: &mut Self)
        ensures
            r@ == (CompositionView { publisher: Some(publisher@), ..old(self)@ }),
            *final(self) == *final(r),
    {
        self.publisher = Some(String::from_str(publisher));
        self
    }

    pub fn set_tempo(&mut self, tempo: Tempo) -> (r: &mut Self)
        ensures
            r@ == (CompositionView { tempo, ..old(self)@ }),
            *final(self) == *final(r),
    {
        self.tempo = tempo;
        self
    }

    pub fn set_starting_key(&mut self, key: Key) -> (r: &mut Self)
        ensures
            r@ == (CompositionView { starting_key: key, ..old(self)@ }),
            *final(self) == *final(r),
    {
        self.starting_key = key;
        self
    }

    pub fn set_starting_time_signature(&mut self, time_signature: TimeSignature) -> (r: &mut Self)
        ensures
            r@ == (CompositionView { starting_time_signature: time_signature, ..old(self)@ }),
            *final(self) == *final(r),
    {
        self.starting_time_signature = time_signature;
        self
    }

    pub fn add_composer(&mut self, name: &str) -> (r: &mut Self)
        ensures
            r@ == (CompositionView { composers: old(self)@.composers.push(name@), ..old(self)@ }),
            *final(self) == *final(r),
    {
        let text = String::from_str(name);
        proof {
            lemma_views(self.composers@, 0, text);
        }
        self.composers.push(text);
        self
    }

    pub fn add_lyricist(&mut self, name: &str) -> (r: &mut Self)
        ensures
            r@ == (CompositionView { lyricists: old(self)@.lyricists.push(name@), ..old(self)@ }),
            *final(self) == *final(r),
    {
        let text = String::from_str(name);
        proof {
            lemma_views(self.lyricists@, 0, text);
        }
        self.lyricists.push(text);
        self
    }

    pub fn add_arranger(&mut self, name: &str) -> (r: &mut Self)
        ensures
            r@ == (CompositionView { arrangers: old(self)@.arrangers.push(name@), ..old(self)@ }),
            *final(self) == *final(r),
    {
        let text = String::from_str(name);
        proof {
            lemma_views(self.arrangers@, 0, text);
        }
        self.arrangers.push(text);
        self
    }

    /// Puts `value` under `key`: in the place of the entry that stands under
    /// that key, or as a new entry where there is none.
    pub fn add_metadata(&mut self, key: &str, value: &str) -> (r: &mut Self)
        ensures
            r@ == (CompositionView {
                metadata: with_entry(old(self)@.metadata, key@, value@),
                ..old(self)@
            }),
            *final(self) == *final(r),
            old(self)@.keys_unique() ==> r@.keys_unique(),
    {
        proof {
            if self@.keys_unique() {
                lemma_with_entry_keeps_keys(self@.metadata, key@, value@);
            }
        }
        let entry = (String::from_str(key), String::from_str(value));
        let ghost before = self@.metadata;
        let mut i: usize = 0;
        while i < self.metadata.len()
            invariant
                i <= self.metadata.len(),
                *self == *old(self),
                before == self@.metadata,
                entry@ == (key@, value@),
                key_index(before, key@, 0) == key_index(before, key@, i as int),
            decreases self.metadata.len() - i,
        {
            if self.metadata[i].0 == entry.0 {
                proof {
                    lemma_views(self.metadata@, i as int, entry);
                    lemma_views(self.metadata@.remove(i as int), i as int, entry);
                    assert(before.remove(i as int).insert(i as int, entry@) =~= before.update(
                        i as int,
                        entry@,
                    ));
                }
                self.metadata.remove(i);
                self.metadata.insert(i, entry);
                return self;
            }
            i += 1;
        }
        proof {
            lemma_views(self.metadata@, 0, entry);
        }
        self.metadata.push(entry);
        self
    }

    /// Puts a new part of the given name at the end of the composition,
    /// in the place of any part that had that name, and returns it.
    pub fn add_part(&mut self, registry: &mut IdRegistry, name: &str) -> (r: &mut Part)
        requires
            old(registry).spec_remaining() > 0,
        ensures
            r@ == (PartView { id: old(registry).next_id(), name: name@, staves: Seq::empty() }),
            *final(registry) == old(registry).after(1),
            final(registry).next_id() == old(registry).next_id() + 1,
            final(self)@ == (CompositionView {
                parts: old(self)@.parts.filter(part_not_named(name@)).push(final(r)@),
                ..old(self)@
            }),
            old(self)@.below(old(registry).next_id() as int) ==> r@.below(
                final(registry).next_id() as int,
            ) && old(self)@.without_part_named(name@).below(final(registry).next_id() as int),
    {
        proof {
            if self@.below(registry.next_id() as int) {
                crate::laws::lemma_composition_without_part_stays_below(
                    self@,
                    name@,
                    registry.next_id() + 1,
                );
            }
        }
        self.discard_parts_named(name);
        let part = Part::new(registry, name);
        proof {
            lemma_views(self.parts@, 0, part);
        }
        self.parts.push(part);
        let last = self.parts.len() - 1;
        proof {
            lemma_views(self.parts@, last as int, self.parts@[0]);
            assert forall|changed: Part| #![auto]
                views(self.parts@.update(last as int, changed))
                    == views(self.parts@).drop_last().push(
                    changed@,
                ) by {
                assert(views(self.parts@.update(last as int, changed)) =~= views(
                    self.parts@,
                ).drop_last().push(changed@));
            }
            assert(views(self.parts@).drop_last() =~= old(self)@.parts.filter(part_not_named(name@)));
        }
        &mut self.parts[last]
    }

    /// Takes out the parts of the given name.
    fn discard_parts_named(&mut self, name: &str)
        ensures
            final(self)@ == old(self)@.without_part_named(name@),
    {
        let target = String::from_str(name);
        let ghost keep = part_not_named(name@);
        let ghost before = self@.parts;
        let mut i: usize = 0;
        let ghost mut done: int = 0;
        while i < self.parts.len()
            invariant
                0 <= done <= before.len(),
                i <= self.parts.len(),
                self.parts.len() - i == before.len() - done,
                self@.parts.take(i as int) == before.take(done).filter(keep),
                self@.parts.skip(i as int) == before.skip(done),
                self@ == (CompositionView { parts: self@.parts, ..old(self)@ }),
                before == old(self)@.parts,
                keep == part_not_named(name@),
                target@ == name@,
            decreases self.parts.len() - i,
        {
            let ghost shown = self@.parts;
            let ghost current = self.parts@;
            proof {
                assert(shown[i as int] == shown.skip(i as int)[0]);
                assert(before.take(done + 1) == before.take(done).push(before[done]));
                lemma_filter_push(before.take(done), before[done], keep);
                assert(shown.skip(i as int).skip(1) == shown.skip(i + 1));
                assert(before.skip(done).skip(1) == before.skip(done + 1));
            }
            if self.parts[i].name == target {
                self.parts.remove(i);
                proof {
                    lemma_views(current, i as int, current[0]);
                    assert(self@.parts.take(i as int) == shown.take(i as int));
                    assert(self@.parts.skip(i as int) == shown.skip(i + 1));
                }
            } else {
                proof {
                    assert(shown.take(i + 1) == shown.take(i as int).push(shown[i as int]));
                }
                i += 1;
            }
            proof {
                done = done + 1;
            }
        }
        proof {
            assert(self@.parts.take(i as int) == self@.parts);
            assert(before.take(done) == before);
        }
    }

    #[must_use]
    pub fn get_title(&self) -> (r: &str)
        ensures
            r@ == self@.title,
    {
        self.title.as_str()
    }

    #[must_use]
    pub fn get_copyright(&self) -> (r: &Option<String>)
        ensures
            text_view(*r) == self@.copyright,
    {
        &self.copyright
    }

    #[must_use]
    pub fn get_publisher(&self) -> (r: &Option<String>)
        ensures
            text_view(*r) == self@.publisher,
    {
        &self.publisher
    }

    #[must_use]
    pub fn get_tempo(&self) -> (r: &Tempo)
        ensures
            *r == self@.tempo,
    {
        &self.tempo
    }

    #[must_use]
    pub fn get_starting_key(&self) -> (r: &Key)
        ensures
            *r == self@.starting_key,
    {
        &self.starting_key
    }

    #[must_use]
    pub fn get_starting_time_signature(&self) -> (r: &TimeSignature)
        ensures
            *r == self@.starting_time_signature,
    {
        &self.starting_time_signature
    }

    #[must_use]
    pub fn get_composers(&self) -> (r: &[String])
        ensures
            views(r@) == self@.composers,
    {
        self.composers.as_slice()
    }

    #[must_use]
    pub fn get_lyricists(&self) -> (r: &[String])
        ensures
            views(r@) == self@.lyricists,
    {
        self.lyricists.as_slice()
    }

    #[must_use]
    pub fn get_arrangers(&self) -> (r: &[String])
        ensures
            views(r@) == self@.arrangers,
    {
        self.arrangers.as_slice()
    }

    /// The entries of the metadata, each a key and its value, in the order
    /// in which their keys were first set.
    #[must_use]
    pub fn get_metadata(&self) -> (r: &[(String, String)])
        ensures
            views(r@) == self@.metadata,
    {
        self.metadata.as_slice()
    }

    #[must_use]
    pub fn get_part_names(&self) -> (r: Vec<String>)
        ensures
            views(r@) == self@.part_names(),
    {
        let mut names: Vec<String> = Vec::new();
        let mut i: usize = 0;
        while i < self.parts.len()
            invariant
                i <= self.parts.len(),
                views(names@) == self@.part_names().take(i as int),
            decreases self.parts.len() - i,
        {
            let name = String::from_str(self.parts[i].get_name());
            proof {
                lemma_views(names@, 0, name);
                assert(self@.part_names().take(i + 1) == self@.part_names().take(i as int).push(
                    self@.part_names()[i as int],
                ));
            }
            names.push(name);
            i += 1;
        }
        proof {
            assert(self@.part_names().take(i as int) == self@.part_names());
        }
        names
    }

    /// The first part with the given name.
    #[must_use]
    pub fn get_part_by_name(&self, name: &str) -> (r: Option<&Part>)
        ensures
            match r {
                Some(part) => Some(part@) == self@.find_part_by_name(name@),
                None => self@.find_part_by_name(name@) is None,
            },
    {
        let target = String::from_str(name);
        let mut i: usize = 0;
        while i < self.parts.len()
            invariant
                i <= self.parts.len(),
                target@ == name@,
                self@.find_part_by_name(name@) == first_some(
                    self@.parts,
                    part_named(name@),
                    i as int,
                ),
            decreases self.parts.len() - i,
        {
            if self.parts[i].name == target {
                return Some(&self.parts[i]);
            }
            i += 1;
        }
        None
    }

    /// The first part with the given identifier.
    #[must_use]
    pub fn get_part(&self, id: usize) -> (r: Option<&Part>)
        ensures
            match r {
                Some(part) => Some(part@) == self@.find_part(id),
                None => self@.find_part(id) is None,
            },
    {
        let mut i: usize = 0;
        while i < self.parts.len()
            invariant
                i <= self.parts.len(),
                self@.find_part(id) == first_some(self@.parts, part_at(id), i as int),
            decreases self.parts.len() - i,
        {
            if self.parts[i].get_id() == id {
                return Some(&self.parts[i]);
            }
            i += 1;
        }
        None
    }

    /// The first chord with the given identifier, searching depth first.
    #[must_use]
    pub fn get_chord(&self, id: usize) -> (r: Option<&Chord>)
        ensures
            match r {
                Some(chord) => Some(chord@) == self@.find_chord(id),
                None => self@.find_chord(id) is None,
            },
    {
        let mut i: usize = 0;
        while i < self.parts.len()
            invariant
                i <= self.parts.len(),
                self@.find_chord(id) == first_some(self@.parts, chord_in_part(id), i as int),
            decreases self.parts.len() - i,
        {
            let here = self.parts[i].get_chord(id);
            if here.is_some() {
                return here;
            }
            i += 1;
        }
        None
    }

    /// The first group of voices with the given identifier.
    #[must_use]
    pub fn get_multivoice(&self, id: usize) -> (r: Option<&MultiVoice>)
        ensures
            match r {
                Some(voices) => Some(voices@) == self@.find_multivoice(id),
                None => self@.find_multivoice(id) is None,
            },
    {
        let mut i: usize = 0;
        while i < self.parts.len()
            invariant
                i <= self.parts.len(),
                self@.find_multivoice(id) == first_some(
                    self@.parts,
                    multivoice_in_part(id),
                    i as int,
                ),
            decreases self.parts.len() - i,
        {
            let here = self.parts[i].get_multivoice(id);
            if here.is_some() {
                return here;
            }
            i += 1;
        }
        None
    }

    /// The first note with the given identifier, searching depth first.
    #[must_use]
    pub fn get_note(&self, id: usize) -> (r: Option<&Note>)
        ensures
            match r {
                Some(note) => Some(note@) == self@.find_note(id),
                None => self@.find_note(id) is None,
            },
            forall|at: int|
                crate::lookup_laws::only_at(self@.all_notes(), crate::editing::note_is(id), at)
                    ==> r is Some && r.unwrap()@ == (#[trigger] self@.all_notes()[at]),
    {
        proof {
            assert forall|at: int|
                crate::lookup_laws::only_at(
                    self@.all_notes(),
                    crate::editing::note_is(id),
                    at,
                ) implies self@.find_note(id) == Some(#[trigger] self@.all_notes()[at]) by {
                crate::lookup_laws::lemma_composition_finds_its_note(self@, at);
            }
        }
        let mut i: usize = 0;
        while i < self.parts.len()
            invariant
                forall|at: int|
                    crate::lookup_laws::only_at(self@.all_notes(), crate::editing::note_is(id), at) ==> self@.find_note(
                        id,
                    ) == Some(#[trigger] self@.all_notes()[at]),
                i <= self.parts.len(),
                self@.find_note(id) == first_some(self@.parts, note_in_part(id), i as int),
            decreases self.parts.len() - i,
        {
            let here = self.parts[i].get_note(id);
            if here.is_some() {
                return here;
            }
            i += 1;
        }
        None
    }

    /// The first phrase with the given identifier, searching depth first.
    #[must_use]
    pub fn get_phrase(&self, id: usize) -> (r: Option<&Phrase>)
        ensures
            match r {
                Some(phrase) => Some(phrase@) == self@.find_phrase(id),
                None => self@.find_phrase(id) is None,
            },
    {
        let mut i: usize = 0;
        while i < self.parts.len()
            invariant
                i <= self.parts.len(),
                self@.find_phrase(id) == first_some(self@.parts, phrase_in_part(id), i as int),
            decreases self.parts.len() - i,
        {
            let here = self.parts[i].get_phrase(id);
            if here.is_some() {
                return here;
            }
            i += 1;
        }
        None
    }

    /// The first staff with the given identifier.
    #[must_use]
    pub fn get_staff(&self, id: usize) -> (r: Option<&Staff>)
        ensures
            match r {
                Some(staff) => Some(staff@) == self@.find_staff(id),
                None => self@.find_staff(id) is None,
            },
    {
        let mut i: usize = 0;
        while i < self.parts.len()
            invariant
                i <= self.parts.len(),
                self@.find_staff(id) == first_some(self@.parts, staff_in_part(id), i as int),
            decreases self.parts.len() - i,
        {
            let here = self.parts[i].get_staff(id);
            if here.is_some() {
                return here;
            }
            i += 1;
        }
        None
    }

    /// The length of the composition in beats of its tempo: that of its
    /// longest part.
    pub fn get_beats(&self) -> (r: Result<Fraction, TimingError>)
        ensures
            r == self@.beats(),
            r is Ok ==> r.unwrap().value() == self@.exact_beats() && self@.sound(),
            r matches Err(e) && e != TimingError::Overflow ==> !self@.sound(),
    {
        proof {
            lemma_composition_timing_is_exact(self@);
        }
        let mut longest = Fraction::zero();
        let mut i: usize = 0;
        while i < self.parts.len()
            invariant
                i <= self.parts.len(),
                self@.beats() == CompositionView::max_beats(
                    self@.parts,
                    self@.tempo.base_note,
                    i as int,
                    longest,
                ),
            decreases self.parts.len() - i,
        {
            match self.parts[i].get_beats(&self.tempo.base_note) {
                Err(e) => {
                    return Err(e);
                },
                Ok(length) => {
                    longest = longest.max(length);
                },
            }
            i += 1;
        }
        Ok(longest)
    }

    /// The length of the composition in seconds. Fermatas and gradual
    /// changes of tempo are left out of account: how long they last is a
    /// matter of style.
    pub fn get_duration(&self) -> (r: Result<Fraction, TimingError>)
        ensures
            r == self@.seconds(),
            r is Ok ==> r.unwrap().value() == self@.exact_seconds() && self@.sound(),
            r matches Err(e) && e != TimingError::Overflow && e != TimingError::ZeroTempo
                ==> !self@.sound(),
    {
        proof {
            lemma_composition_timing_is_exact(self@);
        }
        let beats = match self.get_beats() {
            Err(e) => {
                return Err(e);
            },
            Ok(beats) => beats,
        };
        let per_beat = match Fraction::new(60, self.tempo.beats_per_minute as u64) {
            None => {
                return Err(TimingError::ZeroTempo);
            },
            Some(per_beat) => per_beat,
        };
        match beats.checked_mul(&per_beat) {
            None => Err(TimingError::Overflow),
            Some(seconds) => Ok(seconds),
        }
    }

    pub fn remove_copyright(&mut self) -> (r: &mut Self)
        ensures
            r@ == (CompositionView { copyright: None, ..old(self)@ }),
            *final(self) == *final(r),
    {
        self.copyright = None;
        self
    }

    pub fn remove_publisher(&mut self) -> (r: &mut Self)
        ensures
            r@ == (CompositionView { publisher: None, ..old(self)@ }),
            *final(self) == *final(r),
    {
        self.publisher = None;
        self
    }

    pub fn remove_composer(&mut self, name: &str) -> (r: &mut Self)
        ensures
            r@ == (CompositionView {
                composers: old(self)@.composers.filter(text_differs(name@)),
                ..old(self)@
            }),
            *final(self) == *final(r),
    {
        discard_text(&mut self.composers, name);
        self
    }

    pub fn remove_lyricist(&mut self, name: &str) -> (r: &mut Self)
        ensures
            r@ == (CompositionView {
                lyricists: old(self)@.lyricists.filter(text_differs(name@)),
                ..old(self)@
            }),
            *final(self) == *final(r),
    {
        discard_text(&mut self.lyricists, name);
        self
    }

    pub fn remove_arranger(&mut self, name: &str) -> (r: &mut Self)
        ensures
            r@ == (CompositionView {
                arrangers: old(self)@.arrangers.filter(text_differs(name@)),
                ..old(self)@
            }),
            *final(self) == *final(r),
    {
        discard_text(&mut self.arrangers, name);
        self
    }

    pub fn remove_metadata(&mut self, key: &str) -> (r: &mut Self)
        ensures
            r@ == (CompositionView {
                metadata: old(self)@.metadata.filter(key_differs(key@)),
                ..old(self)@
            }),
            *final(self) == *final(r),
            old(self)@.keys_unique() ==> r@.keys_unique(),
    {
        proof {
            if self@.keys_unique() {
                lemma_filter_keeps_keys(self@.metadata, key_differs(key@));
            }
        }
        discard_key(&mut self.metadata, key);
        self
    }

    pub fn remove_part_by_name(&mut self, name: &str) -> (r: &mut Self)
        ensures
            r@ == old(self)@.without_part_named(name@),
            *final(self) == *final(r),
    {
        self.discard_parts_named(name);
        self
    }

    /// Takes out every part, staff, group of voices, phrase, chord and note
    /// with the given identifier, together with what they hold. An
    /// identifier that nothing has changes nothing.
    pub fn remove_item(&mut self, id: usize) -> (r: &mut Self)
        ensures
            r@ == old(self)@.without(id),
            *final(self) == *final(r),
    {
        let ghost before = self@.parts;
        let ghost gone = part_is(id);
        let ghost prune = part_without(id);
        let mut i: usize = 0;
        let ghost mut done: int = 0;
        while i < self.parts.len()
            invariant
                0 <= done <= before.len(),
                i <= self.parts.len(),
                self.parts.len() - i == before.len() - done,
                self@.parts.skip(i as int) == before.skip(done),
                self@.parts.take(i as int) + pruned(before, gone, prune, done) == pruned(
                    before,
                    gone,
                    prune,
                    0,
                ),
                self@ == (CompositionView { parts: self@.parts, ..old(self)@ }),
                before == old(self)@.parts,
                gone == part_is(id),
                prune == part_without(id),
            decreases self.parts.len() - i,
        {
            let ghost current = self.parts@;
            let ghost shown = self@.parts;
            proof {
                assert(shown[i as int] == shown.skip(i as int)[0]);
                assert(shown.skip(i as int).skip(1) == shown.skip(i + 1));
                assert(before.skip(done).skip(1) == before.skip(done + 1));
            }
            if self.parts[i].get_id() == id {
                self.parts.remove(i);
                proof {
                    lemma_views(current, i as int, current[0]);
                    assert(self@.parts.skip(i as int) == shown.skip(i + 1));
                    assert(self@.parts.take(i as int) == shown.take(i as int));
                }
            } else {
                self.parts[i].remove_item(id);
                proof {
                    let changed = self.parts@[i as int];
                    assert(self.parts@ == current.update(i as int, changed));
                    lemma_views(current, i as int, changed);
                    assert(self@.parts.skip(i + 1) == shown.skip(i + 1));
                    let piece = seq![changed@];
                    assert(self@.parts.take(i + 1) == shown.take(i as int) + piece);
                    assert((shown.take(i as int) + piece) + pruned(before, gone, prune, done + 1)
                        == shown.take(i as int) + (piece + pruned(before, gone, prune, done + 1)));
                }
                i += 1;
            }
            proof {
                done = done + 1;
            }
        }
        proof {
            assert(self@.parts.take(i as int) == self@.parts);
            assert(self@.parts + Seq::<PartView>::empty() == self@.parts);
        }
        self
    }

    /// The parts of the composition, in order.
    pub fn iter(&self) -> (r: &[Part])
        ensures
            views(r@) == self@.parts,
    {
        self.parts.as_slice()
    }
}

impl Clone for Composition {
    fn clone(&self) -> (r: Self)
        ensures
            r@ == self@,
    {
        let mut parts: Vec<Part> = Vec::new();
        let mut i: usize = 0;
        while i < self.parts.len()
            invariant
                i <= self.parts.len(),
                views(parts@) == self@.parts.take(i as int),
            decreases self.parts.len() - i,
        {
            let part = self.parts[i].clone();
            proof {
                lemma_views(parts@, 0, part);
                assert(self@.parts.take(i + 1) == self@.parts.take(i as int).push(
                    self@.parts[i as int],
                ));
            }
            parts.push(part);
            i += 1;
        }
        let mut metadata: Vec<(String, String)> = Vec::new();
        let mut j: usize = 0;
        while j < self.metadata.len()
            invariant
                j <= self.metadata.len(),
                views(metadata@) == self@.metadata.take(j as int),
            decreases self.metadata.len() - j,
        {
            let entry = (self.metadata[j].0.clone(), self.metadata[j].1.clone());
            proof {
                lemma_views(metadata@, 0, entry);
                assert(self@.metadata.take(j + 1) == self@.metadata.take(j as int).push(
                    self@.metadata[j as int],
                ));
            }
            metadata.push(entry);
            j += 1;
        }
        proof {
            assert(self@.parts.take(i as int) == self@.parts);
            assert(self@.metadata.take(j as int) == self@.metadata);
        }
        Composition {
            title: self.title.clone(),
            copyright: copy_text(&self.copyright),
            publisher: copy_text(&self.publisher),
            composers: copy_texts(&self.composers),
            lyricists: copy_texts(&self.lyricists),
            arrangers: copy_texts(&self.arrangers),
            metadata,
            parts,
            tempo: self.tempo,
            starting_key: self.starting_key,
            starting_time_signature: self.starting_time_signature,
        }
    }
}

} // verus!
