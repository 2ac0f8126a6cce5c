//! Flattening: a tree without parallel voices. The tree that is flattened
//! stays as it is.
//!
//! A group of several voices gives way to a single phrase of chords. A
//! group of one voice gives way to that voice, and a group without voices to
//! an empty phrase.
//!
//! Where the voices stand in line, each a run of notes and chords that
//! agree in duration position by position, there is one chord for each
//! position: it holds every note that any voice has there, so that every
//! note stays, with its pitch and nominal duration, and begins when it did
//! before. A voice that ends before the others is silent from then on, and
//! the chords that follow hold the notes of the voices that go on.
//!
//! Other voices are cut at every instant at which a note begins or ends in
//! any of them, and there is one chord for each span between two cuts. It
//! holds a piece of every note that sounds through the span; a note that
//! sounds across a cut is tied from piece to piece, and a span in which
//! nothing sounds is filled with a rest. A piece lasts as long as its span,
//! as an exact duration; the first piece of a note is the note itself, with
//! its identifier and what is attached to it, and stands where the note
//! began.
//!
//! Flattening fails only where the durations in a group that must be cut
//! are not defined, or where the exact arithmetic of the cuts cannot be
//! held.

use crate::composition::{Composition, CompositionView};
use crate::context::id::IdRegistry;
use crate::cutting::{
    cut_phrase, lemma_cut_is_as_long, lemma_cut_stays_below, lemma_voice_marks_come_of_voices,
    lemma_voice_marks_hold_no_tuplet, lemma_voice_soundings_below, plan_ids, voice_marks, Run,
};
use crate::error::TimingError;
use crate::model::{
    first_some, lemma_first_some_is_found, lemma_first_some_is_none, lemma_views, views,
};
use crate::modification::{first_tuplet, PhraseModification};
use crate::note::duration::{Duration, lemma_beats_are_exact};
use crate::note::note::{Note, NoteView};
use crate::structure::chord::{Chord, ChordView};
use crate::structure::multivoice::{lemma_max_beats_is_exact, MultiVoice, MultiVoiceView};
use crate::structure::part::{Part, PartView};
use crate::structure::phrase_laws::child_has_id;
use crate::structure::phrase::{
    content_views, lemma_content_view_items, lemma_content_views, lemma_phrase_beats_are_exact,
    lemma_sum_beats_is_exact, Phrase, PhraseContent, PhraseContentView, PhraseView,
};
use crate::structure::staff::{
    item_views, lemma_item_beats_are_exact, lemma_item_views, lemma_staff_sum_is_exact, Staff,
    StaffContent, StaffContentView, StaffView,
};
use crate::temporal::fraction::{
    Fraction, gcd, lemma_fraction_arithmetic, lemma_ratio_order, lemma_ratio_whole,
    lemma_reduced_value, reduced,
};
use vstd::prelude::*;

verus! {

/// Whether a fraction that stands for zero is written as zero over one.
pub open spec fn plain_zero(f: Fraction) -> bool {
    f.value() == 0real ==> f == Fraction::spec_zero()
}

/// A reduced fraction that stands for zero is written as zero over one.
pub proof fn lemma_reduced_zero_is_plain(n: nat, d: nat)
    ensures
        reduced(n, d) is Some ==> plain_zero(reduced(n, d).unwrap()),
{
    if reduced(n, d) is Some {
        let f = reduced(n, d).unwrap();
        lemma_reduced_value(n, d);
        lemma_ratio_whole(0);
        if f.value() == 0real {
            lemma_ratio_order(f.numer() as int, f.denom() as int, 0, 1);
            assert(f.numer() == 0);
            lemma_ratio_order(n as int, d as int, 0, 1);
            assert(n == 0);
            assert(gcd(0, d) == d) by {
                assert(0nat % d == 0);
                assert(gcd(d, 0) == d);
            }
            assert(d / d == 1) by (nonlinear_arith)
                requires
                    d > 0,
            ;
            assert(0nat / d == 0) by (nonlinear_arith)
                requires
                    d > 0,
            ;
        }
    }
}

/// What the arithmetic of fractions hands out is written as zero over one
/// where it stands for zero.
pub proof fn lemma_results_are_plain(a: Fraction, b: Fraction)
    ensures
        a.spec_add(b) is Some ==> plain_zero(a.spec_add(b).unwrap()),
        a.spec_mul(b) is Some ==> plain_zero(a.spec_mul(b).unwrap()),
        a.spec_div(b) is Some ==> plain_zero(a.spec_div(b).unwrap()),
{
    lemma_reduced_zero_is_plain(
        a.numer() * b.denom() + b.numer() * a.denom(),
        a.denom() * b.denom(),
    );
    lemma_reduced_zero_is_plain(a.numer() * b.numer(), a.denom() * b.denom());
    lemma_reduced_zero_is_plain(a.numer() * b.denom(), a.denom() * b.numer());
}

/// The length of a phrase is written as zero over one where it is zero.
pub proof fn lemma_phrase_beats_are_plain(phrase: PhraseView, base: Duration, ratio: Option<Fraction>)
    ensures
        phrase.beats(base, ratio) is Ok ==> plain_zero(phrase.beats(base, ratio).unwrap()),
    decreases phrase,
{
    if let Ok(inner) = phrase.inner_ratio(ratio) {
        lemma_sum_is_plain(phrase.content, base, inner, 0, Fraction::spec_zero());
    }
}

/// The sum of the lengths of the children of a phrase is written as zero
/// over one where it is zero, if what it starts from is.
pub proof fn lemma_sum_is_plain(
    items: Seq<PhraseContentView>,
    base: Duration,
    ratio: Option<Fraction>,
    from: int,
    so_far: Fraction,
)
    requires
        plain_zero(so_far),
    ensures
        PhraseView::sum_beats(items, base, ratio, from, so_far) is Ok ==> plain_zero(
            PhraseView::sum_beats(items, base, ratio, from, so_far).unwrap(),
        ),
    decreases items, items.len() - from,
{
    if 0 <= from < items.len() {
        let length = match items[from] {
            PhraseContentView::Note(note) => note.beats(base, ratio),
            PhraseContentView::Chord(chord) => chord.beats(base, ratio),
            PhraseContentView::Phrase(phrase) => phrase.beats(base, ratio),
        };
        if let Ok(l) = length {
            lemma_results_are_plain(so_far, l);
            if let Some(sum) = so_far.spec_add(l) {
                lemma_sum_is_plain(items, base, ratio, from + 1, sum);
            }
        }
    }
}

/// The length of parallel voices is that of `so_far` or that of one of the
/// voices, as it is written.
pub proof fn lemma_longest_is_one_of_them(
    voices: Seq<PhraseView>,
    base: Duration,
    from: int,
    so_far: Fraction,
)
    requires
        0 <= from,
    ensures
        MultiVoiceView::max_beats(voices, base, from, so_far) matches Ok(longest) ==> longest
            == so_far || exists|i: int|
            from <= i < voices.len() && (#[trigger] voices[i]).beats(base, None) == Ok::<
                Fraction,
                TimingError,
            >(longest),
    decreases voices.len() - from,
{
    if from < voices.len() {
        if let Ok(length) = voices[from].beats(base, None) {
            lemma_longest_is_one_of_them(voices, base, from + 1, so_far.spec_max(length));
            if let Ok(longest) = MultiVoiceView::max_beats(voices, base, from, so_far) {
                if longest == so_far.spec_max(length) {
                    if longest != so_far {
                        assert(voices[from].beats(base, None)
                            == Ok::<Fraction, TimingError>(longest));
                    }
                } else {
                    let i = choose|i: int|
                        from + 1 <= i < voices.len() && (#[trigger] voices[i]).beats(base, None)
                            == Ok::<Fraction, TimingError>(longest);
                    assert(voices[i].beats(base, None) == Ok::<Fraction, TimingError>(longest));
                }
            }
        }
    }
}

/// The length of a child of a phrase.
pub open spec fn child_beats(item: PhraseContentView, base: Duration, ratio: Option<Fraction>) -> Result<
    Fraction,
    TimingError,
> {
    match item {
        PhraseContentView::Note(note) => note.beats(base, ratio),
        PhraseContentView::Chord(chord) => chord.beats(base, ratio),
        PhraseContentView::Phrase(phrase) => phrase.beats(base, ratio),
    }
}

/// Children that are as long, one by one, add up to the same length.
pub proof fn lemma_equal_children_sum_alike(
    first: Seq<PhraseContentView>,
    second: Seq<PhraseContentView>,
    base: Duration,
    ratio: Option<Fraction>,
    from: int,
    so_far: Fraction,
)
    requires
        first.len() == second.len(),
        forall|j: int|
            0 <= j < first.len() ==> child_beats(#[trigger] first[j], base, ratio) == child_beats(
                second[j],
                base,
                ratio,
            ),
    ensures
        PhraseView::sum_beats(first, base, ratio, from, so_far) == PhraseView::sum_beats(
            second,
            base,
            ratio,
            from,
            so_far,
        ),
    decreases first.len() - from,
{
    if 0 <= from < first.len() {
        assert(child_beats(first[from], base, ratio) == child_beats(second[from], base, ratio));
        if let Ok(length) = child_beats(first[from], base, ratio) {
            if let Some(sum) = so_far.spec_add(length) {
                lemma_equal_children_sum_alike(first, second, base, ratio, from + 1, sum);
            }
        }
    }
}

/// Voices that are all of one length are together of that length.
pub proof fn lemma_longest_of_equals(
    voices: Seq<PhraseView>,
    base: Duration,
    from: int,
    so_far: Fraction,
    length: Fraction,
)
    requires
        0 <= from,
        forall|v: int|
            0 <= v < voices.len() ==> (#[trigger] voices[v]).beats(base, None) == Ok::<
                Fraction,
                TimingError,
            >(length),
        so_far.spec_max(length) == length,
    ensures
        MultiVoiceView::max_beats(voices, base, from, so_far) == Ok::<Fraction, TimingError>(
            if from < voices.len() {
                length
            } else {
                so_far
            },
        ),
    decreases voices.len() - from,
{
    if from < voices.len() {
        assert(voices[from].beats(base, None) == Ok::<Fraction, TimingError>(length));
        lemma_longest_of_equals(voices, base, from + 1, length, length);
    }
}


/// The one nominal duration of a note or of a chord: a chord has one where
/// it holds a note and all its notes have the same. A phrase has none.
pub open spec fn leaf_duration(item: PhraseContentView) -> Option<Duration> {
    match item {
        PhraseContentView::Note(note) => Some(note.duration),
        PhraseContentView::Chord(chord) => if chord.notes.len() > 0 && chord.uniform() {
            Some(chord.notes[0].duration)
        } else {
            None
        },
        PhraseContentView::Phrase(phrase) => None,
    }
}

/// The notes of a note or of a chord.
pub open spec fn leaf_notes(item: PhraseContentView) -> Seq<NoteView> {
    match item {
        PhraseContentView::Note(note) => seq![note],
        PhraseContentView::Chord(chord) => chord.notes,
        PhraseContentView::Phrase(phrase) => Seq::empty(),
    }
}

/// The length in beats of a note of the given nominal duration.
pub open spec fn duration_beats(duration: Duration, base: Duration) -> Result<Fraction, TimingError> {
    match duration.spec_beats(base) {
        None => Err(TimingError::Overflow),
        Some(length) => Ok(length),
    }
}

/// The child at position `j` of voice `v`.
pub open spec fn item_at(voices: Seq<PhraseView>, v: int, j: int) -> PhraseContentView {
    voices[v].content[j]
}

impl PhraseView {
    /// Whether the phrase is a run of notes and chords: it carries no
    /// tuplet and holds no phrase.
    pub open spec fn simple(self) -> bool {
        self.tuplet() is None && forall|j: int|
            0 <= j < self.content.len() ==> !((#[trigger] self.content[j]) is Phrase)
    }
}

impl MultiVoiceView {
    /// The number of children of the longest of the first `upto` voices.
    pub open spec fn longest(voices: Seq<PhraseView>, upto: int) -> nat
        decreases upto,
    {
        if upto <= 0 {
            0
        } else if voices[upto - 1].content.len() > Self::longest(voices, upto - 1) {
            voices[upto - 1].content.len()
        } else {
            Self::longest(voices, upto - 1)
        }
    }

    /// Whether the voices agree at every position: what any two of them
    /// have at one position has one and the same nominal duration.
    pub open spec fn columns_agree(self) -> bool {
        forall|v: int, w: int, j: int|
            0 <= v < self.voices.len() && 0 <= w < self.voices.len() && 0 <= j
                < self.voices[v].content.len() && j < self.voices[w].content.len()
                ==> leaf_duration(#[trigger] item_at(self.voices, v, j)) is Some && leaf_duration(
                item_at(self.voices, v, j),
            ) == leaf_duration(#[trigger] item_at(self.voices, w, j))
    }

    /// Whether the voices stand in line: there are several, each is a run of
    /// notes and chords, and they agree at every position. Such voices are
    /// put together position by position.
    pub open spec fn aligned(self) -> bool {
        self.voices.len() >= 2 && (forall|v: int|
            0 <= v < self.voices.len() ==> (#[trigger] self.voices[v]).simple())
            && self.columns_agree()
    }

    /// Why the voices cannot be put together, if they cannot. A group of
    /// fewer than two voices always can, and so can voices that stand in
    /// line. Other voices are cut, and cannot be put together where there is
    /// no plan for it.
    pub open spec fn flatten_defect(self, base: Duration) -> Option<TimingError> {
        if self.voices.len() < 2 || self.aligned() {
            None
        } else {
            match self.cut_plan(base) {
                Err(e) => Some(e),
                Ok(_) => None,
            }
        }
    }

    /// How many identifiers are made when the group is flattened: for
    /// voices in line one for each position of the longest voice, for other
    /// voices those that the chords of their plan take.
    pub open spec fn flat_ids(self, base: Duration) -> nat {
        if self.voices.len() < 2 {
            0
        } else if self.aligned() {
            Self::longest(self.voices, self.voices.len() as int)
        } else {
            match self.cut_plan(base) {
                Ok(plan) => plan_ids(plan, plan.segments.len() as int),
                Err(_) => 0,
            }
        }
    }

    /// The notes that the first `upto` voices have at position `j`, voice by
    /// voice.
    pub open spec fn column_notes(voices: Seq<PhraseView>, j: int, upto: int) -> Seq<NoteView>
        decreases upto,
    {
        if upto <= 0 {
            Seq::empty()
        } else if 0 <= j < voices[upto - 1].content.len() {
            Self::column_notes(voices, j, upto - 1) + leaf_notes(item_at(voices, upto - 1, j))
        } else {
            Self::column_notes(voices, j, upto - 1)
        }
    }

    /// The modifications of the first `upto` voices, voice by voice.
    pub open spec fn all_modifications(voices: Seq<PhraseView>, upto: int) -> Seq<PhraseModification>
        decreases upto,
    {
        if upto <= 0 {
            Seq::empty()
        } else {
            Self::all_modifications(voices, upto - 1) + voices[upto - 1].modifications
        }
    }

    /// The chord of the notes that the voices have at position `j`.
    pub open spec fn merged_chord(self, j: int, id: usize) -> ChordView {
        ChordView { id, notes: Self::column_notes(self.voices, j, self.voices.len() as int) }
    }

    /// The phrase that several voices give: one chord for each position of
    /// the longest voice, the chords with identifiers from `first` on. The
    /// phrase takes the identifier of the group and the modifications of
    /// all voices.
    pub open spec fn merged(self, first: int) -> PhraseView {
        PhraseView {
            id: self.id,
            content: Seq::new(
                Self::longest(self.voices, self.voices.len() as int),
                |j: int| PhraseContentView::Chord(self.merged_chord(j, (first + j) as usize)),
            ),
            modifications: Self::all_modifications(self.voices, self.voices.len() as int),
        }
    }

    /// The phrase that the voices give where they do not stand in line: one
    /// chord for each span between two instants at which a note begins or
    /// ends in any voice. The chord holds a piece of every note that sounds
    /// through the span, a piece that is not the last of its note tied to
    /// the next, and a rest where nothing sounds. Every piece lasts as long
    /// as the span, exactly. The phrase takes the identifier of the group
    /// and the modifications of the voices but for their tuplets, which have
    /// gone into the spans. What was attached to a phrase within a voice has
    /// no place in it. Where there is no plan, the phrase is empty.
    pub open spec fn cut(self, base: Duration, first: int) -> PhraseView {
        match self.cut_plan(base) {
            Ok(plan) => PhraseView {
                modifications: voice_marks(self.voices, self.voices.len() as int),
                ..cut_phrase(self.id, plan, first)
            },
            Err(_) => PhraseView::empty(self.id),
        }
    }

    /// The phrase that the group gives way to: an empty phrase where it has
    /// no voice, its voice where it has one, the chords of its positions
    /// where its voices stand in line, and else the chords of its cuts.
    pub open spec fn flat(self, base: Duration, first: int) -> PhraseView {
        if self.voices.len() == 0 {
            PhraseView::empty(self.id)
        } else if self.voices.len() == 1 {
            self.voices[0]
        } else if self.aligned() {
            self.merged(first)
        } else {
            self.cut(base, first)
        }
    }
}

impl StaffContentView {
    /// Why the item cannot be flattened, if it cannot.
    pub open spec fn flatten_defect(self, base: Duration) -> Option<TimingError> {
        match self {
            StaffContentView::MultiVoice(voices) => voices.flatten_defect(base),
            _ => None,
        }
    }

    /// How many identifiers are made when the item is flattened.
    pub open spec fn flat_ids(self, base: Duration) -> nat {
        match self {
            StaffContentView::MultiVoice(voices) => voices.flat_ids(base),
            _ => 0,
        }
    }

    /// The item without parallel voices, what is new with identifiers from
    /// `first` on.
    pub open spec fn flat(self, base: Duration, first: int) -> StaffContentView {
        match self {
            StaffContentView::MultiVoice(voices) => StaffContentView::Phrase(voices.flat(base, first)),
            _ => self,
        }
    }
}

/// Why an item of a staff cannot be flattened.
pub open spec fn defect_of_item(base: Duration) -> spec_fn(StaffContentView) -> Option<TimingError> {
    |item: StaffContentView| item.flatten_defect(base)
}

/// Why a staff cannot be flattened.
pub open spec fn defect_of_staff(base: Duration) -> spec_fn(StaffView) -> Option<TimingError> {
    |staff: StaffView| staff.flatten_defect(base)
}

/// Why a part cannot be flattened.
pub open spec fn defect_of_part(base: Duration) -> spec_fn(PartView) -> Option<TimingError> {
    |part: PartView| part.flatten_defect(base)
}

impl StaffView {
    /// Why the staff cannot be flattened, if it cannot: the reason that its
    /// first item that cannot be flattened gives.
    pub open spec fn flatten_defect(self, base: Duration) -> Option<TimingError> {
        first_some(self.content, defect_of_item(base), 0)
    }

    /// How many identifiers are made when the first `upto` items are flattened.
    pub open spec fn flat_ids_before(items: Seq<StaffContentView>, base: Duration, upto: int) -> nat
        decreases upto,
    {
        if upto <= 0 {
            0
        } else {
            Self::flat_ids_before(items, base, upto - 1) + items[upto - 1].flat_ids(base)
        }
    }

    /// How many identifiers are made when the staff is flattened.
    pub open spec fn flat_ids(self, base: Duration) -> nat {
        Self::flat_ids_before(self.content, base, self.content.len() as int)
    }

    /// The staff without parallel voices, what is new with identifiers from
    /// `first` on.
    pub open spec fn flattened(self, base: Duration, first: int) -> StaffView {
        StaffView {
            id: self.id,
            content: Seq::new(
                self.content.len(),
                |i: int| self.content[i].flat(base, first + Self::flat_ids_before(self.content, base, i)),
            ),
        }
    }
}

impl PartView {
    /// Why the part cannot be flattened, if it cannot.
    pub open spec fn flatten_defect(self, base: Duration) -> Option<TimingError> {
        first_some(self.staves, defect_of_staff(base), 0)
    }

    /// How many identifiers are made when the first `upto` staves are
    /// flattened.
    pub open spec fn flat_ids_before(staves: Seq<StaffView>, base: Duration, upto: int) -> nat
        decreases upto,
    {
        if upto <= 0 {
            0
        } else {
            Self::flat_ids_before(staves, base, upto - 1) + staves[upto - 1].flat_ids(base)
        }
    }

    /// How many identifiers are made when the part is flattened.
    pub open spec fn flat_ids(self, base: Duration) -> nat {
        Self::flat_ids_before(self.staves, base, self.staves.len() as int)
    }

    /// The part without parallel voices, what is new with identifiers from
    /// `first` on.
    pub open spec fn flattened(self, base: Duration, first: int) -> PartView {
        PartView {
            id: self.id,
            name: self.name,
            staves: Seq::new(
                self.staves.len(),
                |i: int| self.staves[i].flattened(base, first + Self::flat_ids_before(self.staves, base, i)),
            ),
        }
    }
}

impl CompositionView {
    /// Why the composition cannot be flattened, if it cannot.
    pub open spec fn flatten_defect(self) -> Option<TimingError> {
        first_some(self.parts, defect_of_part(self.tempo.base_note), 0)
    }

    /// How many identifiers are made when the first `upto` parts are flattened.
    pub open spec fn flat_ids_before(parts: Seq<PartView>, base: Duration, upto: int) -> nat
        decreases upto,
    {
        if upto <= 0 {
            0
        } else {
            Self::flat_ids_before(parts, base, upto - 1) + parts[upto - 1].flat_ids(base)
        }
    }

    /// How many identifiers are made when the composition is flattened.
    pub open spec fn flat_ids(self) -> nat {
        Self::flat_ids_before(self.parts, self.tempo.base_note, self.parts.len() as int)
    }

    /// The composition without parallel voices, new chords with identifiers
    /// from `first` on.
    pub open spec fn flattened(self, first: int) -> CompositionView {
        CompositionView {
            parts: Seq::new(
                self.parts.len(),
                |i: int|
                    self.parts[i].flattened(
                        self.tempo.base_note,
                        first + Self::flat_ids_before(self.parts, self.tempo.base_note, i),
                    ),
            ),
            ..self
        }
    }
}

/// No voice is longer than the longest, and one of them is as long.
pub proof fn lemma_longest(voices: Seq<PhraseView>, upto: int)
    requires
        0 <= upto <= voices.len(),
    ensures
        forall|v: int|
            0 <= v < upto ==> (#[trigger] voices[v]).content.len() <= MultiVoiceView::longest(
                voices,
                upto,
            ),
        upto > 0 ==> exists|w: int|
            0 <= w < upto && (#[trigger] voices[w]).content.len() == MultiVoiceView::longest(
                voices,
                upto,
            ),
    decreases upto,
{
    if upto > 0 {
        lemma_longest(voices, upto - 1);
        if voices[upto - 1].content.len() > MultiVoiceView::longest(voices, upto - 1) || upto == 1 {
            assert(voices[upto - 1].content.len() == MultiVoiceView::longest(voices, upto));
        } else {
            let w = choose|w: int|
                0 <= w < upto - 1 && (#[trigger] voices[w]).content.len() == MultiVoiceView::longest(
                    voices,
                    upto - 1,
                );
            assert(voices[w].content.len() == MultiVoiceView::longest(voices, upto));
        }
    }
}

/// A note or chord that has one nominal duration is as long as a note of
/// that duration, and all its notes have that duration.
pub proof fn lemma_leaf(item: PhraseContentView, base: Duration)
    requires
        leaf_duration(item) is Some,
    ensures
        child_beats(item, base, None) == duration_beats(leaf_duration(item).unwrap(), base),
        leaf_notes(item).len() > 0,
        forall|k: int|
            0 <= k < leaf_notes(item).len() ==> (#[trigger] leaf_notes(item)[k]).duration
                == leaf_duration(item).unwrap(),
{
}

/// Where the voices agree, the notes at a position all have the nominal
/// duration that any voice has there.
pub proof fn lemma_column_notes(voices: MultiVoiceView, base: Duration, r: int, j: int, upto: int)
    requires
        voices.columns_agree(),
        0 <= r < voices.voices.len(),
        0 <= j < voices.voices[r].content.len(),
        0 <= upto <= voices.voices.len(),
    ensures
        forall|k: int|
            0 <= k < MultiVoiceView::column_notes(voices.voices, j, upto).len() ==> (
            #[trigger] MultiVoiceView::column_notes(voices.voices, j, upto)[k]).duration
                == leaf_duration(item_at(voices.voices, r, j)).unwrap(),
        upto > r ==> MultiVoiceView::column_notes(voices.voices, j, upto).len() > 0,
    decreases upto,
{
    if upto > 0 {
        lemma_column_notes(voices, base, r, j, upto - 1);
        let before = MultiVoiceView::column_notes(voices.voices, j, upto - 1);
        let all = MultiVoiceView::column_notes(voices.voices, j, upto);
        if j < voices.voices[upto - 1].content.len() {
            let here = item_at(voices.voices, upto - 1, j);
            assert(leaf_duration(here) == leaf_duration(item_at(voices.voices, r, j)));
            assert(leaf_duration(item_at(voices.voices, r, j)) is Some);
            lemma_leaf(here, base);
            assert forall|k: int| 0 <= k < all.len() implies (#[trigger] all[k]).duration
                == leaf_duration(item_at(voices.voices, r, j)).unwrap() by {
                if k < before.len() {
                    assert(all[k] == before[k]);
                } else {
                    assert(all[k] == leaf_notes(here)[k - before.len()]);
                }
            }
        } else {
            assert(all == before);
        }
    }
}

/// Where the voices agree, the chord at a position is a chord of notes of
/// one nominal duration: that which every voice has there. It is as long
/// as what any voice has there.
pub proof fn lemma_merged_column(voices: MultiVoiceView, base: Duration, first: int, v: int, j: int)
    requires
        voices.columns_agree(),
        0 <= v < voices.voices.len(),
        0 <= j < voices.voices[v].content.len(),
    ensures
        j < voices.merged(first).content.len(),
        voices.merged(first).content[j] == PhraseContentView::Chord(
            voices.merged_chord(j, (first + j) as usize),
        ),
        leaf_duration(voices.merged(first).content[j]) == leaf_duration(
            item_at(voices.voices, v, j),
        ),
        leaf_duration(item_at(voices.voices, v, j)) is Some,
        child_beats(voices.merged(first).content[j], base, None) == child_beats(
            item_at(voices.voices, v, j),
            base,
            None,
        ),
{
    let n = voices.voices.len() as int;
    lemma_longest(voices.voices, n);
    lemma_column_notes(voices, base, v, j, n);
    let chord = voices.merged_chord(j, (first + j) as usize);
    assert(leaf_duration(item_at(voices.voices, v, j)) is Some);
    let d = leaf_duration(item_at(voices.voices, v, j)).unwrap();
    assert forall|k: int| 0 <= k < chord.notes.len() implies (#[trigger] chord.notes[k]).duration
        == chord.notes[0].duration by {
        assert(chord.notes[k].duration == d);
        assert(chord.notes[0].duration == d);
    }
    assert(chord.uniform());
    assert(chord.notes[0].duration == d);
    lemma_leaf(item_at(voices.voices, v, j), base);
    lemma_leaf(PhraseContentView::Chord(chord), base);
}

/// The first tuplet among modifications that follow others.
pub proof fn lemma_first_tuplet_later(
    first: Seq<PhraseModification>,
    second: Seq<PhraseModification>,
    from: int,
)
    requires
        0 <= from <= second.len(),
    ensures
        first_tuplet(first + second, first.len() + from) == first_tuplet(second, from),
    decreases second.len() - from,
{
    if from < second.len() {
        assert((first + second)[first.len() + from] == second[from]);
        lemma_first_tuplet_later(first, second, from + 1);
    }
}

/// Two runs of modifications without a tuplet hold none together.
pub proof fn lemma_no_tuplet_together(
    first: Seq<PhraseModification>,
    second: Seq<PhraseModification>,
    from: int,
)
    requires
        0 <= from <= first.len(),
        first_tuplet(first, from) is None,
        first_tuplet(second, 0) is None,
    ensures
        first_tuplet(first + second, from) is None,
    decreases first.len() - from,
{
    if from < first.len() {
        assert((first + second)[from] == first[from]);
        lemma_no_tuplet_together(first, second, from + 1);
    } else {
        lemma_first_tuplet_later(first, second, 0);
    }
}

/// Voices without a tuplet carry none together.
pub proof fn lemma_merged_has_no_tuplet(voices: Seq<PhraseView>, upto: int)
    requires
        0 <= upto <= voices.len(),
        forall|v: int| 0 <= v < voices.len() ==> (#[trigger] voices[v]).tuplet() is None,
    ensures
        first_tuplet(MultiVoiceView::all_modifications(voices, upto), 0) is None,
    decreases upto,
{
    if upto > 0 {
        lemma_merged_has_no_tuplet(voices, upto - 1);
        assert(voices[upto - 1].tuplet() is None);
        lemma_no_tuplet_together(
            MultiVoiceView::all_modifications(voices, upto - 1),
            voices[upto - 1].modifications,
            0,
        );
    }
}

/// Adding up the first children and then the rest is adding up them all.
pub proof fn lemma_sum_of_first_children(
    items: Seq<PhraseContentView>,
    base: Duration,
    ratio: Option<Fraction>,
    from: int,
    upto: int,
    so_far: Fraction,
)
    requires
        0 <= from <= upto <= items.len(),
    ensures
        match PhraseView::sum_beats(items.take(upto), base, ratio, from, so_far) {
            Ok(first) => PhraseView::sum_beats(items, base, ratio, from, so_far)
                == PhraseView::sum_beats(items, base, ratio, upto, first),
            Err(e) => PhraseView::sum_beats(items, base, ratio, from, so_far) == Err::<
                Fraction,
                TimingError,
            >(e),
        },
    decreases upto - from,
{
    if from < upto {
        assert(items.take(upto)[from] == items[from]);
        if let Ok(length) = child_beats(items[from], base, ratio) {
            if let Some(sum) = so_far.spec_add(length) {
                lemma_sum_of_first_children(items, base, ratio, from + 1, upto, sum);
            }
        }
    }
}

/// Chords that hold a note last, and the more of them the longer.
proof fn lemma_chords_last(items: Seq<PhraseContentView>, base: Duration, from: int)
    requires
        0 <= from,
        forall|j: int|
            0 <= j < items.len() ==> (#[trigger] items[j]) is Chord && items[j]->Chord_0.notes.len()
                > 0,
    ensures
        PhraseView::exact_sum(items, base, 1real, from) >= 0real,
        from < items.len() ==> PhraseView::exact_sum(items, base, 1real, from) > 0real,
    decreases items.len() - from,
{
    if from < items.len() {
        lemma_chords_last(items, base, from + 1);
        assert(items[from] is Chord && items[from]->Chord_0.notes.len() > 0);
        let chord = items[from]->Chord_0;
        lemma_beats_are_exact(chord.notes[0].duration, base);
        let nominal = chord.notes[0].duration.exact_beats(base);
        assert(nominal * 1real > 0real) by (nonlinear_arith)
            requires
                nominal > 0real,
        ;
    }
}

/// What a voice has up to a position is as long as the chords up to that
/// position, to the letter: the chord at a position begins when what the
/// voice has there began.
pub proof fn lemma_merged_keeps_onsets(
    voices: MultiVoiceView,
    base: Duration,
    first: int,
    v: int,
    upto: int,
)
    requires
        voices.columns_agree(),
        0 <= v < voices.voices.len(),
        0 <= upto <= voices.voices[v].content.len(),
    ensures
        upto <= voices.merged(first).content.len(),
        PhraseView::sum_beats(
            voices.merged(first).content.take(upto),
            base,
            None,
            0,
            Fraction::spec_zero(),
        ) == PhraseView::sum_beats(
            voices.voices[v].content.take(upto),
            base,
            None,
            0,
            Fraction::spec_zero(),
        ),
{
    let chords = voices.merged(first).content;
    let own = voices.voices[v].content;
    lemma_longest(voices.voices, voices.voices.len() as int);
    assert forall|j: int| 0 <= j < upto implies child_beats(
        #[trigger] chords.take(upto)[j],
        base,
        None,
    ) == child_beats(own.take(upto)[j], base, None) by {
        lemma_merged_column(voices, base, first, v, j);
        assert(own.take(upto)[j] == item_at(voices.voices, v, j));
    }
    lemma_equal_children_sum_alike(
        chords.take(upto),
        own.take(upto),
        base,
        None,
        0,
        Fraction::spec_zero(),
    );
}

/// Every note stays: the chord at a position holds each note that a voice
/// has there, it has the nominal duration that the voice has there, and it
/// begins when what the voice has there began.
pub proof fn lemma_merged_keeps_every_note(
    voices: MultiVoiceView,
    base: Duration,
    first: int,
    v: int,
    j: int,
    k: int,
)
    requires
        voices.columns_agree(),
        0 <= v < voices.voices.len(),
        0 <= j < voices.voices[v].content.len(),
        0 <= k < leaf_notes(item_at(voices.voices, v, j)).len(),
    ensures
        j < voices.merged(first).content.len(),
        leaf_notes(voices.merged(first).content[j]).contains(
            leaf_notes(item_at(voices.voices, v, j))[k],
        ),
        leaf_duration(voices.merged(first).content[j]) == leaf_duration(
            item_at(voices.voices, v, j),
        ),
        PhraseView::sum_beats(
            voices.merged(first).content.take(j),
            base,
            None,
            0,
            Fraction::spec_zero(),
        ) == PhraseView::sum_beats(
            voices.voices[v].content.take(j),
            base,
            None,
            0,
            Fraction::spec_zero(),
        ),
{
    lemma_merged_column(voices, base, first, v, j);
    lemma_merged_keeps_onsets(voices, base, first, v, j);
    lemma_column_holds(voices.voices, v, j, k, voices.voices.len() as int);
}

/// The notes at a position hold each note that one of the voices has
/// there.
proof fn lemma_column_holds(voices: Seq<PhraseView>, v: int, j: int, k: int, upto: int)
    requires
        0 <= v < upto <= voices.len(),
        0 <= j < voices[v].content.len(),
        0 <= k < leaf_notes(item_at(voices, v, j)).len(),
    ensures
        MultiVoiceView::column_notes(voices, j, upto).contains(leaf_notes(item_at(voices, v, j))[k]),
    decreases upto,
{
    let all = MultiVoiceView::column_notes(voices, j, upto);
    let before = MultiVoiceView::column_notes(voices, j, upto - 1);
    let wanted = leaf_notes(item_at(voices, v, j))[k];
    if v == upto - 1 {
        assert(all[before.len() + k] == wanted);
    } else {
        lemma_column_holds(voices, v, j, k, upto - 1);
        let i = choose|i: int| 0 <= i < before.len() && before[i] == wanted;
        if j < voices[upto - 1].content.len() {
            assert(all[i] == wanted);
        } else {
            assert(all == before);
        }
    }
}

/// The phrase of chords that several voices give is as long as the group
/// of voices was, to the letter.
pub proof fn lemma_merged_is_as_long(voices: MultiVoiceView, base: Duration, first: int)
    requires
        voices.aligned(),
        voices.beats(base) is Ok,
    ensures
        voices.merged(first).beats(base, None) == voices.beats(base),
{
    let vs = voices.voices;
    let n = vs.len() as int;
    let merged = voices.merged(first);
    let chords = merged.content;
    let zero = Fraction::spec_zero();
    let total = voices.beats(base).unwrap();
    lemma_ratio_whole(0);
    lemma_longest(vs, n);
    assert forall|v: int| 0 <= v < n implies (#[trigger] vs[v]).tuplet() is None by {
        assert(vs[v].simple());
    }
    lemma_merged_has_no_tuplet(vs, n);
    assert(merged.tuplet() is None);
    lemma_max_beats_is_exact(vs, base, 0, zero);
    lemma_longest_is_one_of_them(vs, base, 0, zero);
    let w = choose|w: int|
        0 <= w < n && (#[trigger] vs[w]).content.len() == MultiVoiceView::longest(vs, n);
    lemma_merged_keeps_onsets(voices, base, first, w, vs[w].content.len() as int);
    assert(chords.take(chords.len() as int) =~= chords);
    assert(vs[w].content.take(vs[w].content.len() as int) =~= vs[w].content);
    assert(vs[w].beats(base, None) is Ok);
    assert(merged.beats(base, None) == vs[w].beats(base, None));
    let whole = merged.beats(base, None).unwrap();
    lemma_phrase_beats_are_exact(vs[w], base, None);
    lemma_phrase_beats_are_plain(vs[w], base, None);
    lemma_fraction_arithmetic(whole, whole);
    assert forall|j: int| 0 <= j < chords.len() implies (#[trigger] chords[j]) is Chord
        && chords[j]->Chord_0.notes.len() > 0 by {
        lemma_column_notes(voices, base, w, j, n);
    }
    assert forall|v: int| 0 <= v < n implies (#[trigger] vs[v]).beats(base, None).unwrap().value()
        <= whole.value() && (vs[v].beats(base, None).unwrap().value() == whole.value()
        ==> vs[v].beats(base, None) == merged.beats(base, None)) by {
        let size = vs[v].content.len() as int;
        assert(vs[v].beats(base, None) is Ok);
        let own = vs[v].beats(base, None).unwrap();
        lemma_phrase_beats_are_exact(vs[v], base, None);
        lemma_merged_keeps_onsets(voices, base, first, v, size);
        assert(vs[v].content.take(size) =~= vs[v].content);
        lemma_sum_of_first_children(chords, base, None, 0, size, zero);
        lemma_sum_beats_is_exact(chords, base, None, size, own);
        lemma_chords_last(chords, base, size);
    }
    if total != zero {
        let i = choose|i: int|
            0 <= i < n && (#[trigger] vs[i]).beats(base, None) == Ok::<Fraction, TimingError>(total);
        assert(vs[i].beats(base, None).unwrap().value() <= whole.value());
        assert(vs[w].beats(base, None).unwrap().value() <= total.value());
    } else {
        assert(vs[w].beats(base, None).unwrap().value() <= total.value());
    }
}

/// An item without parallel voices is as long as the item was, to the
/// letter, and is no group of voices; an item that is no group of voices
/// stays as it is.
pub proof fn lemma_flat_item_keeps_beats(item: StaffContentView, base: Duration, first: int)
    requires
        item.flatten_defect(base) is None,
    ensures
        item.beats(base) is Ok ==> item.flat(base, first).beats(base) == item.beats(base),
        !(item.flat(base, first) is MultiVoice),
        item.flat(base, first).flatten_defect(base) is None,
        !(item is MultiVoice) ==> item.flat(base, first) == item && item.flat_ids(base) == 0,
{
    if let StaffContentView::MultiVoice(voices) = item {
        if voices.beats(base) is Ok {
            if voices.aligned() {
                lemma_merged_is_as_long(voices, base, first);
            } else if voices.voices.len() >= 2 {
                let plan = voices.cut_plan(base).unwrap();
                lemma_cut_is_as_long(voices.id, plan, base, first, voices.beats(base).unwrap());
                lemma_voice_marks_hold_no_tuplet(voices.voices, voices.voices.len() as int);
                assert(voices.cut(base, first).tuplet() is None);
                assert(voices.cut(base, first).content == cut_phrase(
                    voices.id,
                    plan,
                    first,
                ).content);
            } else if voices.voices.len() == 1 {
                let only = voices.voices[0];
                let length = only.beats(base, None).unwrap();
                lemma_ratio_whole(0);
                lemma_phrase_beats_are_exact(only, base, None);
                lemma_phrase_beats_are_plain(only, base, None);
                lemma_fraction_arithmetic(length, length);
                assert(Fraction::spec_zero().spec_max(length) == length);
                lemma_longest_of_equals(voices.voices, base, 0, Fraction::spec_zero(), length);
            } else {
                let empty = PhraseView::empty(voices.id);
                assert(empty.tuplet() is None);
                let nothing: Result<Fraction, TimingError> = Ok(Fraction::spec_zero());
                assert(empty.beats(base, None) == nothing);
            }
        }
    }
}

/// The sum of the lengths of the items of a staff stays as it is when the
/// parallel voices are taken out.
pub proof fn lemma_flat_sum_keeps_beats(
    staff: StaffView,
    base: Duration,
    first: int,
    from: int,
    so_far: Fraction,
)
    requires
        0 <= from,
        staff.flatten_defect(base) is None,
    ensures
        StaffView::sum_beats(staff.content, base, from, so_far) is Ok ==> StaffView::sum_beats(
            staff.flattened(base, first).content,
            base,
            from,
            so_far,
        ) == StaffView::sum_beats(staff.content, base, from, so_far),
    decreases staff.content.len() - from,
{
    if from < staff.content.len() {
        lemma_first_some_is_none(staff.content, defect_of_item(base), 0, from);
        lemma_flat_item_keeps_beats(
            staff.content[from],
            base,
            first + StaffView::flat_ids_before(staff.content, base, from),
        );
        if let Ok(length) = staff.content[from].beats(base) {
            if let Some(sum) = so_far.spec_add(length) {
                lemma_flat_sum_keeps_beats(staff, base, first, from + 1, sum);
            }
        }
    }
}

/// The length of the longest staff stays as it is when the parallel voices
/// are taken out.
pub proof fn lemma_flat_staves_keep_beats(
    part: PartView,
    base: Duration,
    first: int,
    from: int,
    so_far: Fraction,
)
    requires
        0 <= from,
        part.flatten_defect(base) is None,
    ensures
        PartView::max_beats(part.staves, base, from, so_far) is Ok ==> PartView::max_beats(
            part.flattened(base, first).staves,
            base,
            from,
            so_far,
        ) == PartView::max_beats(part.staves, base, from, so_far),
    decreases part.staves.len() - from,
{
    if from < part.staves.len() {
        lemma_first_some_is_none(part.staves, defect_of_staff(base), 0, from);
        lemma_flat_sum_keeps_beats(
            part.staves[from],
            base,
            first + PartView::flat_ids_before(part.staves, base, from),
            0,
            Fraction::spec_zero(),
        );
        if let Ok(length) = part.staves[from].beats(base) {
            lemma_flat_staves_keep_beats(part, base, first, from + 1, so_far.spec_max(length));
        }
    }
}

/// The length of the longest part stays as it is when the parallel voices
/// are taken out.
pub proof fn lemma_flat_parts_keep_beats(
    composition: CompositionView,
    first: int,
    from: int,
    so_far: Fraction,
)
    requires
        0 <= from,
        composition.flatten_defect() is None,
    ensures
        CompositionView::max_beats(composition.parts, composition.tempo.base_note, from, so_far)
            is Ok ==> CompositionView::max_beats(
            composition.flattened(first).parts,
            composition.tempo.base_note,
            from,
            so_far,
        ) == CompositionView::max_beats(
            composition.parts,
            composition.tempo.base_note,
            from,
            so_far,
        ),
    decreases composition.parts.len() - from,
{
    let base = composition.tempo.base_note;
    let base = composition.tempo.base_note;
    if from < composition.parts.len() {
        lemma_first_some_is_none(composition.parts, defect_of_part(base), 0, from);
        lemma_flat_staves_keep_beats(
            composition.parts[from],
            base,
            first + CompositionView::flat_ids_before(composition.parts, base, from),
            0,
            Fraction::spec_zero(),
        );
        if let Ok(length) = composition.parts[from].beats(base) {
            lemma_flat_parts_keep_beats(composition, first, from + 1, so_far.spec_max(length));
        }
    }
}

/// A flattened composition holds no parallel voices, and where the length
/// of the composition can be computed the flattened composition has the
/// same length, in beats and in seconds.
pub proof fn lemma_flatten_keeps_duration(composition: CompositionView, first: int)
    requires
        composition.flatten_defect() is None,
    ensures
        !composition.flattened(first).has_multivoice(),
        composition.beats() is Ok ==> composition.flattened(first).beats() == composition.beats(),
        composition.beats() is Ok ==> composition.flattened(first).exact_beats()
            == composition.exact_beats(),
        composition.seconds() is Ok ==> composition.flattened(first).seconds()
            == composition.seconds(),
        composition.seconds() is Ok ==> composition.flattened(first).exact_seconds()
            == composition.exact_seconds(),
{
    let base = composition.tempo.base_note;
    let flat = composition.flattened(first);
    if flat.has_multivoice() {
        let p = choose|p: int| 0 <= p < flat.parts.len() && (#[trigger] flat.parts[p]).has_multivoice();
        let part = flat.parts[p];
        let s = choose|s: int| 0 <= s < part.staves.len() && (#[trigger] part.staves[s]).has_multivoice();
        let staff = part.staves[s];
        let i = choose|i: int| 0 <= i < staff.content.len() && (#[trigger] staff.content[i]) is MultiVoice;
        assert(false);
    }
    lemma_flat_parts_keep_beats(composition, first, 0, Fraction::spec_zero());
    crate::composition::lemma_composition_timing_is_exact(composition);
    crate::composition::lemma_composition_timing_is_exact(flat);
}

/// Nothing is made of a staff that holds no parallel voices: it can be
/// flattened, and flattening leaves it as it is.
pub proof fn lemma_flat_staff_stays(staff: StaffView, base: Duration, first: int, upto: int)
    requires
        !staff.has_multivoice(),
        0 <= upto <= staff.content.len(),
    ensures
        StaffView::flat_ids_before(staff.content, base, upto) == 0,
        staff.flattened(base, first) == staff,
        staff.flatten_defect(base) is None,
    decreases upto,
{
    if upto > 0 {
        lemma_flat_staff_stays(staff, base, first, upto - 1);
        assert(!(staff.content[upto - 1] is MultiVoice));
    }
    assert forall|i: int| 0 <= i < staff.content.len() implies (#[trigger] staff.content[i]).flat(
        base, first + StaffView::flat_ids_before(staff.content, base, i),
    ) == staff.content[i] && defect_of_item(base)(staff.content[i]) is None by {
        assert(!(staff.content[i] is MultiVoice));
    }
    assert(staff.flattened(base, first).content =~= staff.content);
    crate::model::lemma_first_some_skips(
        staff.content,
        defect_of_item(base),
        0,
        staff.content.len() as int,
    );
}

/// Nothing is made of a part that holds no parallel voices: it can be
/// flattened, and flattening leaves it as it is.
pub proof fn lemma_flat_part_stays(part: PartView, base: Duration, first: int, upto: int)
    requires
        !part.has_multivoice(),
        0 <= upto <= part.staves.len(),
    ensures
        PartView::flat_ids_before(part.staves, base, upto) == 0,
        part.flattened(base, first) == part,
        part.flatten_defect(base) is None,
    decreases upto,
{
    if upto > 0 {
        lemma_flat_part_stays(part, base, first, upto - 1);
        assert(!part.staves[upto - 1].has_multivoice());
        lemma_flat_staff_stays(
            part.staves[upto - 1], base,
            first,
            part.staves[upto - 1].content.len() as int,
        );
    }
    assert forall|i: int| 0 <= i < part.staves.len() implies (#[trigger] part.staves[i]).flattened(
        base, first + PartView::flat_ids_before(part.staves, base, i),
    ) == part.staves[i] && defect_of_staff(base)(part.staves[i]) is None by {
        assert(!part.staves[i].has_multivoice());
        lemma_flat_staff_stays(part.staves[i], base, first + PartView::flat_ids_before(part.staves, base, i), 0);
    }
    assert(part.flattened(base, first).staves =~= part.staves);
    crate::model::lemma_first_some_skips(
        part.staves,
        defect_of_staff(base),
        0,
        part.staves.len() as int,
    );
}

/// Nothing is made of a composition that holds no parallel voices: it can
/// be flattened, and flattening leaves it as it is.
pub proof fn lemma_flat_composition_stays(composition: CompositionView, first: int, upto: int)
    requires
        !composition.has_multivoice(),
        0 <= upto <= composition.parts.len(),
    ensures
        CompositionView::flat_ids_before(composition.parts, composition.tempo.base_note, upto) == 0,
        composition.flattened(first) == composition,
        composition.flatten_defect() is None,
    decreases upto,
{
    let base = composition.tempo.base_note;
    if upto > 0 {
        lemma_flat_composition_stays(composition, first, upto - 1);
        assert(!composition.parts[upto - 1].has_multivoice());
        lemma_flat_part_stays(
            composition.parts[upto - 1], base,
            first,
            composition.parts[upto - 1].staves.len() as int,
        );
    }
    assert forall|i: int| 0 <= i < composition.parts.len() implies (
    #[trigger] composition.parts[i]).flattened(
        base, first + CompositionView::flat_ids_before(composition.parts, base, i),
    ) == composition.parts[i] && defect_of_part(base)(composition.parts[i]) is None by {
        assert(!composition.parts[i].has_multivoice());
        lemma_flat_part_stays(
            composition.parts[i], base,
            first + CompositionView::flat_ids_before(composition.parts, base, i),
            0,
        );
    }
    assert(composition.flattened(first).parts =~= composition.parts);
    crate::model::lemma_first_some_skips(
        composition.parts,
        defect_of_part(base),
        0,
        composition.parts.len() as int,
    );
}

/// Flattening a composition that holds no parallel voices changes nothing
/// and makes nothing, and so does flattening a second time.
pub proof fn lemma_flatten_is_idempotent(composition: CompositionView, first: int, second: int)
    requires
        composition.flatten_defect() is None,
    ensures
        !composition.has_multivoice() ==> composition.flattened(first) == composition
            && composition.flat_ids() == 0,
        composition.flattened(first).flatten_defect() is None,
        composition.flattened(first).flattened(second) == composition.flattened(first),
        composition.flattened(first).flat_ids() == 0,
{
    let base = composition.tempo.base_note;
    lemma_flatten_keeps_duration(composition, first);
    let flat = composition.flattened(first);
    lemma_flat_composition_stays(flat, second, flat.parts.len() as int);
    if !composition.has_multivoice() {
        lemma_flat_composition_stays(composition, first, composition.parts.len() as int);
    }
}

/// Staves whose items are as long, one by one, are as long together.
pub proof fn lemma_equal_items_sum_alike(
    first: Seq<StaffContentView>,
    second: Seq<StaffContentView>,
    base: Duration,
    from: int,
)
    requires
        first.len() == second.len(),
        forall|i: int|
            0 <= i < first.len() ==> (#[trigger] first[i]).exact_beats(base)
                == second[i].exact_beats(
                base,
            ),
    ensures
        StaffView::exact_sum(first, base, from) == StaffView::exact_sum(second, base, from),
    decreases first.len() - from,
{
    if 0 <= from < first.len() {
        assert(first[from].exact_beats(base) == second[from].exact_beats(base));
        lemma_equal_items_sum_alike(first, second, base, from + 1);
    }
}

/// In a flattened staff every item begins when it began before: after the
/// exact sum of the lengths of the items before it. The length of the staff
/// must be one that can be computed.
pub proof fn lemma_flatten_keeps_onsets(staff: StaffView, base: Duration, first: int, at: int)
    requires
        staff.flatten_defect(base) is None,
        staff.beats(base) is Ok,
        0 <= at <= staff.content.len(),
    ensures
        staff.flattened(base, first).content.len() == staff.content.len(),
        staff.flattened(base, first).exact_onset(base, at) == staff.exact_onset(base, at),
        staff.flattened(base, first).exact_beats(base) == staff.exact_beats(base),
{
    let flat = staff.flattened(base, first);
    lemma_ratio_whole(0);
    lemma_staff_sum_is_exact(staff.content, base, 0, Fraction::spec_zero());
    assert forall|i: int| 0 <= i < staff.content.len() implies (#[trigger] staff.content[i]).exact_beats(
        base,
    ) == flat.content[i].exact_beats(base) by {
        let item = staff.content[i];
        let made = first + StaffView::flat_ids_before(staff.content, base, i);
        assert(item.beats(base) is Ok);
        lemma_first_some_is_none(staff.content, defect_of_item(base), 0, i);
        lemma_flat_item_keeps_beats(item, base, made);
        lemma_item_beats_are_exact(item, base);
        lemma_item_beats_are_exact(item.flat(base, made), base);
    }
    lemma_equal_items_sum_alike(staff.content, flat.content, base, 0);
    let before = staff.content.take(at);
    let after = flat.content.take(at);
    assert forall|i: int| 0 <= i < before.len() implies (#[trigger] before[i]).exact_beats(base)
        == after[i].exact_beats(base) by {
        assert(before[i] == staff.content[i]);
        assert(after[i] == flat.content[i]);
    }
    lemma_equal_items_sum_alike(before, after, base, 0);
}

/// What is made of the first items is among what is made of them all.
pub proof fn lemma_item_chords_add_up(items: Seq<StaffContentView>, base: Duration, upto: int, all: int)
    requires
        0 <= upto <= all,
    ensures
        StaffView::flat_ids_before(items, base, upto) <= StaffView::flat_ids_before(items, base, all),
    decreases all - upto,
{
    if upto < all {
        lemma_item_chords_add_up(items, base, upto, all - 1);
    }
}

/// What is made of the first staves is among what is made of them all.
pub proof fn lemma_staff_chords_add_up(staves: Seq<StaffView>, base: Duration, upto: int, all: int)
    requires
        0 <= upto <= all,
    ensures
        PartView::flat_ids_before(staves, base, upto) <= PartView::flat_ids_before(staves, base, all),
    decreases all - upto,
{
    if upto < all {
        lemma_staff_chords_add_up(staves, base, upto, all - 1);
    }
}

/// What is made of the first parts is among what is made of them all.
pub proof fn lemma_part_chords_add_up(parts: Seq<PartView>, base: Duration, upto: int, all: int)
    requires
        0 <= upto <= all,
    ensures
        CompositionView::flat_ids_before(parts, base, upto) <= CompositionView::flat_ids_before(parts, base, all),
    decreases all - upto,
{
    if upto < all {
        lemma_part_chords_add_up(parts, base, upto, all - 1);
    }
}


impl PhraseContent {
    /// The one nominal duration of a note or of a chord, if it has one.
    pub fn leaf_duration(&self) -> (r: Option<Duration>)
        ensures
            r == leaf_duration(self@),
    {
        match self {
            PhraseContent::Note(note) => Some(note.duration),
            PhraseContent::Chord(chord) => {
                assert(self@ == PhraseContentView::Chord(chord@));
                if chord.notes.len() == 0 {
                    return None;
                }
                let first = chord.notes[0].duration;
                let mut i: usize = 1;
                while i < chord.notes.len()
                    invariant
                        1 <= i <= chord.notes.len(),
                        self@ == PhraseContentView::Chord(chord@),
                        first == chord@.notes[0].duration,
                        forall|k: int| 0 <= k < i ==> (#[trigger] chord@.notes[k]).duration == first,
                    decreases chord.notes.len() - i,
                {
                    if chord.notes[i].duration != first {
                        assert(chord@.notes[i as int].duration != chord@.notes[0].duration);
                        return None;
                    }
                    i += 1;
                }
                Some(first)
            },
            PhraseContent::Phrase(_) => None,
        }
    }
}

impl Phrase {
    /// The child at position `j`.
    pub(crate) fn child(&self, j: usize) -> (r: &PhraseContent)
        requires
            j < self@.content.len(),
        ensures
            r@ == self@.content[j as int],
    {
        proof {
            self.lemma_view();
            lemma_content_view_items(self.content@);
        }
        &self.content[j]
    }

    /// Whether the phrase is a run of notes and chords: it carries no
    /// tuplet and holds no phrase.
    pub fn is_simple(&self) -> (r: bool)
        ensures
            r == self@.simple(),
    {
        if self.tuplet_beats().is_some() {
            return false;
        }
        let mut j: usize = 0;
        while j < self.len()
            invariant
                j <= self@.content.len(),
                forall|i: int| 0 <= i < j ==> !((#[trigger] self@.content[i]) is Phrase),
            decreases self@.content.len() - j,
        {
            match self.child(j) {
                PhraseContent::Phrase(_) => {
                    assert(self@.content[j as int] is Phrase);
                    return false;
                },
                _ => {},
            }
            j += 1;
        }
        true
    }
}

impl MultiVoice {
    /// The number of children of the longest voice.
    fn longest_voice(&self) -> (r: usize)
        ensures
            r == MultiVoiceView::longest(self@.voices, self@.voices.len() as int),
    {
        let mut most: usize = 0;
        let mut v: usize = 0;
        while v < self.voices.len()
            invariant
                v <= self.voices.len(),
                most == MultiVoiceView::longest(self@.voices, v as int),
            decreases self.voices.len() - v,
        {
            let here = self.voices[v].len();
            if here > most {
                most = here;
            }
            v += 1;
        }
        most
    }

    /// Whether the voices stand in line.
    pub fn is_aligned(&self) -> (r: bool)
        ensures
            r == self@.aligned(),
    {
        let count = self.voices.len();
        if count < 2 {
            return false;
        }
        let mut v: usize = 0;
        while v < count
            invariant
                v <= count,
                count >= 2,
                count == self.voices.len(),
                forall|i: int| 0 <= i < v ==> (#[trigger] self@.voices[i]).simple(),
            decreases count - v,
        {
            if !self.voices[v].is_simple() {
                assert(!self@.voices[v as int].simple());
                return false;
            }
            v += 1;
        }
        let length = self.longest_voice();
        proof {
            lemma_longest(self@.voices, count as int);
        }
        let mut j: usize = 0;
        while j < length
            invariant
                j <= length,
                count == self.voices.len(),
                count >= 2,
                length == MultiVoiceView::longest(self@.voices, count as int),
                forall|i: int| 0 <= i < count ==> (#[trigger] self@.voices[i]).simple(),
                forall|a: int, b: int, k: int|
                    0 <= a < count && 0 <= b < count && 0 <= k < j && k
                        < self@.voices[a].content.len() && k < self@.voices[b].content.len()
                        ==> leaf_duration(#[trigger] item_at(self@.voices, a, k)) is Some
                        && leaf_duration(item_at(self@.voices, a, k)) == leaf_duration(
                        #[trigger] item_at(self@.voices, b, k),
                    ),
            decreases length - j,
        {
            let mut reference: Option<Duration> = None;
            let ghost mut holder: int = 0;
            let mut w: usize = 0;
            while w < count
                invariant
                    w <= count,
                    j < length,
                    count >= 2,
                    count == self.voices.len(),
                    forall|i: int| 0 <= i < count ==> (#[trigger] self@.voices[i]).simple(),
                    reference is Some ==> 0 <= holder < w && j < self@.voices[holder].content.len()
                        && leaf_duration(item_at(self@.voices, holder, j as int)) == reference,
                    forall|a: int|
                        0 <= a < w && j < self@.voices[a].content.len() ==> reference is Some
                            && leaf_duration(#[trigger] item_at(self@.voices, a, j as int))
                            == reference,
                decreases count - w,
            {
                if j < self.voices[w].len() {
                    let here = self.voices[w].child(j).leaf_duration();
                    match here {
                        None => {
                            assert(leaf_duration(item_at(self@.voices, w as int, j as int)) is None);
                            assert(!self@.columns_agree());
                            return false;
                        },
                        Some(duration) => match reference {
                            None => {
                                reference = Some(duration);
                                proof {
                                    holder = w as int;
                                }
                            },
                            Some(other) => {
                                if other != duration {
                                    assert(leaf_duration(item_at(self@.voices, holder, j as int))
                                        != leaf_duration(item_at(self@.voices, w as int, j as int)));
                                    assert(!self@.columns_agree());
                                    return false;
                                }
                            },
                        },
                    }
                }
                w += 1;
            }
            proof {
                assert forall|a: int, b: int, k: int|
                    0 <= a < count && 0 <= b < count && 0 <= k < j + 1 && k
                        < self@.voices[a].content.len() && k
                        < self@.voices[b].content.len() implies leaf_duration(
                    #[trigger] item_at(self@.voices, a, k),
                ) is Some && leaf_duration(item_at(self@.voices, a, k)) == leaf_duration(
                    #[trigger] item_at(self@.voices, b, k),
                ) by {
                    if k == j {
                        assert(leaf_duration(item_at(self@.voices, a, j as int)) == reference);
                        assert(leaf_duration(item_at(self@.voices, b, j as int)) == reference);
                    }
                }
            }
            j += 1;
        }
        proof {
            assert forall|a: int, b: int, k: int|
                0 <= a < count && 0 <= b < count && 0 <= k < self@.voices[a].content.len() && k
                    < self@.voices[b].content.len() implies leaf_duration(
                #[trigger] item_at(self@.voices, a, k),
            ) is Some && leaf_duration(item_at(self@.voices, a, k)) == leaf_duration(
                #[trigger] item_at(self@.voices, b, k),
            ) by {
                assert(self@.voices[a].content.len() <= length);
            }
            assert(self@.columns_agree());
        }
        true
    }

    /// The phrase that several voices give: one chord for each position,
    /// with a copy of every note that a voice has there.
    fn merge(&self, registry: &mut IdRegistry) -> (r: Phrase)
        requires
            old(registry).spec_remaining() >= MultiVoiceView::longest(
                self@.voices,
                self@.voices.len() as int,
            ),
        ensures
            r@ == self@.merged(old(registry).next_id() as int),
            *final(registry) == old(registry).after(
                MultiVoiceView::longest(self@.voices, self@.voices.len() as int),
            ),
    {
        let ghost first = registry.next_id() as int;
        let ghost wanted = self@.merged(first);
        let count = self.voices.len();
        let length = self.longest_voice();
        let mut content: Vec<PhraseContent> = Vec::new();
        let mut j: usize = 0;
        proof {
            assert(content_views(content@) =~= wanted.content.take(0));
        }
        while j < length
            invariant
                j <= length,
                count == self.voices.len(),
                length == MultiVoiceView::longest(self@.voices, count as int),
                first == old(registry).next_id(),
                wanted == self@.merged(first),
                old(registry).spec_remaining() >= length,
                *registry == old(registry).after(j as nat),
                content_views(content@) == wanted.content.take(j as int),
            decreases length - j,
        {
            let id = registry.generate_id();
            let mut notes: Vec<Note> = Vec::new();
            let mut v: usize = 0;
            proof {
                assert(views(notes@) =~= MultiVoiceView::column_notes(self@.voices, j as int, 0));
            }
            while v < count
                invariant
                    v <= count,
                    count == self.voices.len(),
                    views(notes@) == MultiVoiceView::column_notes(self@.voices, j as int, v as int),
                decreases count - v,
            {
                if j < self.voices[v].len() {
                    let ghost before = views(notes@);
                    match self.voices[v].child(j) {
                        PhraseContent::Note(note) => {
                            let copy = note.clone();
                            proof {
                                lemma_views(notes@, 0, copy);
                                assert(before.push(copy@) =~= before + seq![note@]);
                            }
                            notes.push(copy);
                        },
                        PhraseContent::Chord(chord) => {
                            let mut k: usize = 0;
                            proof {
                                assert(views(notes@) =~= before + chord@.notes.take(0));
                            }
                            while k < chord.notes.len()
                                invariant
                                    k <= chord.notes.len(),
                                    views(notes@) == before + chord@.notes.take(k as int),
                                decreases chord.notes.len() - k,
                            {
                                let copy = chord.notes[k].clone();
                                proof {
                                    lemma_views(notes@, 0, copy);
                                    assert((before + chord@.notes.take(k as int)).push(copy@)
                                        =~= before + chord@.notes.take(k + 1));
                                }
                                notes.push(copy);
                                k += 1;
                            }
                            proof {
                                assert(chord@.notes.take(k as int) =~= chord@.notes);
                            }
                        },
                        PhraseContent::Phrase(_) => {
                            proof {
                                assert(before + Seq::<NoteView>::empty() =~= before);
                            }
                        },
                    }
                }
                v += 1;
            }
            let chord = Chord { id, notes };
            let item = PhraseContent::Chord(chord);
            proof {
                assert(chord@ == self@.merged_chord(j as int, id));
                lemma_content_views(content@, 0, item);
                assert(wanted.content.take(j + 1) == wanted.content.take(j as int).push(
                    wanted.content[j as int],
                ));
            }
            content.push(item);
            j += 1;
        }
        let mut modifications: Vec<PhraseModification> = Vec::new();
        let mut v: usize = 0;
        proof {
            assert(modifications@ =~= MultiVoiceView::all_modifications(self@.voices, 0));
        }
        while v < count
            invariant
                v <= count,
                count == self.voices.len(),
                modifications@ == MultiVoiceView::all_modifications(self@.voices, v as int),
            decreases count - v,
        {
            let ghost before = modifications@;
            let voice = &self.voices[v];
            let mut k: usize = 0;
            proof {
                voice.lemma_view();
                assert(modifications@ =~= before + voice@.modifications.take(0));
            }
            while k < voice.modifications.len()
                invariant
                    k <= voice.modifications.len(),
                    voice@.modifications == voice.modifications@,
                    modifications@ == before + voice@.modifications.take(k as int),
                decreases voice.modifications.len() - k,
            {
                proof {
                    assert((before + voice@.modifications.take(k as int)).push(
                        voice.modifications@[k as int],
                    ) =~= before + voice@.modifications.take(k + 1));
                }
                modifications.push(voice.modifications[k]);
                k += 1;
            }
            proof {
                assert(voice@.modifications.take(k as int) =~= voice@.modifications);
            }
            v += 1;
        }
        let r = Phrase { id: self.id, content, modifications };
        proof {
            r.lemma_view();
            assert(wanted.content.take(j as int) == wanted.content);
        }
        r
    }

    /// Why the voices cannot be put together, if they cannot.
    pub fn flatten_defect(&self, base: &Duration) -> (r: Option<TimingError>)
        ensures
            r == self@.flatten_defect(*base),
    {
        if self.voices.len() < 2 || self.is_aligned() {
            None
        } else {
            match self.cut_plan(base) {
                Err(e) => Some(e),
                Ok(_) => None,
            }
        }
    }

    /// The phrase that the group gives way to: an empty phrase where it has
    /// no voice, a copy of its voice where it has one, one chord for each
    /// position where its voices stand in line, and else one chord for each
    /// span between two cuts. Where the voices cannot be put together
    /// nothing is made, and the reason is returned.
    pub fn flatten(&self, base: &Duration, registry: &mut IdRegistry) -> (r: Result<
        Phrase,
        TimingError,
    >)
        requires
            old(registry).spec_remaining() >= self@.flat_ids(*base),
        ensures
            match self@.flatten_defect(*base) {
                Some(e) => r matches Err(x) && x == e && *final(registry) == *old(registry),
                None => r matches Ok(phrase) && phrase@ == self@.flat(
                    *base,
                    old(registry).next_id() as int,
                ) && *final(registry) == old(registry).after(self@.flat_ids(*base)),
            },
            final(registry).next_id() >= old(registry).next_id(),
            r is Ok ==> final(registry).next_id() == old(registry).next_id() + self@.flat_ids(
                *base,
            ),
            r matches Err(e) ==> e == TimingError::Overflow || !self@.sound(),
            self@.voices.len() < 2 || self@.aligned() ==> r is Ok,
    {
        proof {
            self@.lemma_cut_fails_for_time(*base);
        }
        if self.voices.len() == 0 {
            let r = Phrase { id: self.id, content: Vec::new(), modifications: Vec::new() };
            proof {
                r.lemma_view();
                assert(r@.content =~= Seq::empty());
            }
            Ok(r)
        } else if self.voices.len() == 1 {
            Ok(self.voices[0].clone())
        } else if self.is_aligned() {
            Ok(self.merge(registry))
        } else {
            match self.cut_plan(base) {
                Err(e) => Err(e),
                Ok(plan) => {
                    let mut phrase = plan.make_phrase(self.id, registry);
                    proof {
                        phrase.lemma_view();
                    }
                    phrase.modifications = self.marks();
                    proof {
                        phrase.lemma_view();
                    }
                    Ok(phrase)
                },
            }
        }
    }

    /// How many identifiers are made when the group is flattened, or the
    /// greatest number that the machine holds.
    pub fn count_flat_ids(&self, base: &Duration) -> (r: usize)
        ensures
            r == capped(self@.flat_ids(*base)),
    {
        if self.voices.len() < 2 {
            0
        } else if self.is_aligned() {
            self.longest_voice()
        } else {
            match self.cut_plan(base) {
                Err(_) => 0,
                Ok(plan) => plan.count_ids(),
            }
        }
    }
}

impl Staff {
    /// Why the staff cannot be flattened, if it cannot.
    pub fn flatten_defect(&self, base: &Duration) -> (r: Option<TimingError>)
        ensures
            r == self@.flatten_defect(*base),
    {
        let mut i: usize = 0;
        while i < self.content.len()
            invariant
                i <= self.content.len(),
                self@.flatten_defect(*base) == first_some(self@.content, defect_of_item(*base), i as int),
            decreases self.content.len() - i,
        {
            let here = match &self.content[i] {
                StaffContent::MultiVoice(voices) => voices.flatten_defect(base),
                _ => None,
            };
            if here.is_some() {
                return here;
            }
            i += 1;
        }
        None
    }

    /// A copy of the staff without parallel voices: each group of voices
    /// gives way to a phrase. Where a group cannot be flattened nothing is
    /// made, and the reason is returned.
    pub fn flatten(&self, base: &Duration, registry: &mut IdRegistry) -> (r: Result<Staff, TimingError>)
        requires
            old(registry).spec_remaining() >= self@.flat_ids(*base),
        ensures
            match self@.flatten_defect(*base) {
                Some(e) => r matches Err(x) && x == e && *final(registry) == *old(registry),
                None => r matches Ok(staff) && staff@ == self@.flattened(
                    *base, old(registry).next_id() as int,
                ) && *final(registry) == old(registry).after(self@.flat_ids(*base)),
            },
            final(registry).next_id() >= old(registry).next_id(),
            r is Ok ==> final(registry).next_id() == old(registry).next_id() + self@.flat_ids(*base),
            r matches Err(e) ==> e == TimingError::Overflow || !self@.sound(),
    {
        proof {
            lemma_flat_staff_fails_for_time(self@, *base);
        }
        if let Some(e) = self.flatten_defect(base) {
            return Err(e);
        }
        let ghost first = registry.next_id() as int;
        let ghost wanted = self@.flattened(*base, first).content;
        let mut content: Vec<StaffContent> = Vec::new();
        let mut i: usize = 0;
        proof {
            assert(item_views(content@) =~= wanted.take(0));
        }
        while i < self.content.len()
            invariant
                i <= self.content.len(),
                self@.flatten_defect(*base) is None,
                first == old(registry).next_id(),
                wanted == self@.flattened(*base, first).content,
                old(registry).spec_remaining() >= self@.flat_ids(*base),
                *registry == old(registry).after(StaffView::flat_ids_before(self@.content, *base, i as int)),
                item_views(content@) == wanted.take(i as int),
            decreases self.content.len() - i,
        {
            proof {
                lemma_item_chords_add_up(self@.content, *base, i + 1, self@.content.len() as int);
                lemma_first_some_is_none(self@.content, defect_of_item(*base), 0, i as int);
            }
            let item = match &self.content[i] {
                StaffContent::MultiVoice(voices) => match voices.flatten(base, registry) {
                    Ok(phrase) => StaffContent::Phrase(phrase),
                    Err(e) => {
                        return Err(e);
                    },
                },
                other => other.clone(),
            };
            proof {
                lemma_item_views(content@, 0, item);
                assert(wanted.take(i + 1) == wanted.take(i as int).push(wanted[i as int]));
            }
            content.push(item);
            i += 1;
        }
        proof {
            assert(wanted.take(i as int) == wanted);
        }
        Ok(Staff { id: self.id, content })
    }
}

impl Part {
    /// Why the part cannot be flattened, if it cannot.
    pub fn flatten_defect(&self, base: &Duration) -> (r: Option<TimingError>)
        ensures
            r == self@.flatten_defect(*base),
    {
        let mut i: usize = 0;
        while i < self.staves.len()
            invariant
                i <= self.staves.len(),
                self@.flatten_defect(*base) == first_some(self@.staves, defect_of_staff(*base), i as int),
            decreases self.staves.len() - i,
        {
            let here = self.staves[i].flatten_defect(base);
            if here.is_some() {
                return here;
            }
            i += 1;
        }
        None
    }

    /// A copy of the part without parallel voices. Where a group of voices
    /// cannot be flattened nothing is made, and the reason is returned.
    pub fn flatten(&self, base: &Duration, registry: &mut IdRegistry) -> (r: Result<Part, TimingError>)
        requires
            old(registry).spec_remaining() >= self@.flat_ids(*base),
        ensures
            match self@.flatten_defect(*base) {
                Some(e) => r matches Err(x) && x == e && *final(registry) == *old(registry),
                None => r matches Ok(part) && part@ == self@.flattened(
                    *base, old(registry).next_id() as int,
                ) && *final(registry) == old(registry).after(self@.flat_ids(*base)),
            },
            final(registry).next_id() >= old(registry).next_id(),
            r is Ok ==> final(registry).next_id() == old(registry).next_id() + self@.flat_ids(*base),
            r matches Err(e) ==> e == TimingError::Overflow || !self@.sound(),
    {
        proof {
            lemma_flat_part_fails_for_time(self@, *base);
        }
        if let Some(e) = self.flatten_defect(base) {
            return Err(e);
        }
        let ghost first = registry.next_id() as int;
        let ghost wanted = self@.flattened(*base, first).staves;
        let mut staves: Vec<Staff> = Vec::new();
        let mut i: usize = 0;
        proof {
            assert(views(staves@) =~= wanted.take(0));
        }
        while i < self.staves.len()
            invariant
                i <= self.staves.len(),
                self@.flatten_defect(*base) is None,
                first == old(registry).next_id(),
                wanted == self@.flattened(*base, first).staves,
                old(registry).spec_remaining() >= self@.flat_ids(*base),
                *registry == old(registry).after(PartView::flat_ids_before(self@.staves, *base, i as int)),
                views(staves@) == wanted.take(i as int),
            decreases self.staves.len() - i,
        {
            proof {
                lemma_staff_chords_add_up(self@.staves, *base, i + 1, self@.staves.len() as int);
                lemma_first_some_is_none(self@.staves, defect_of_staff(*base), 0, i as int);
            }
            let staff = match self.staves[i].flatten(base, registry) {
                Ok(staff) => staff,
                Err(e) => {
                    return Err(e);
                },
            };
            proof {
                lemma_views(staves@, 0, staff);
                assert(wanted.take(i + 1) == wanted.take(i as int).push(wanted[i as int]));
            }
            staves.push(staff);
            i += 1;
        }
        proof {
            assert(wanted.take(i as int) == wanted);
        }
        Ok(Part { id: self.id, name: self.name.clone(), staves })
    }
}

impl Composition {
    /// Why the composition cannot be flattened, if it cannot: the reason
    /// that the first group of voices that cannot be flattened gives.
    pub fn flatten_defect(&self) -> (r: Option<TimingError>)
        ensures
            r == self@.flatten_defect(),
    {
        let mut i: usize = 0;
        while i < self.parts.len()
            invariant
                i <= self.parts.len(),
                self@.flatten_defect() == first_some(self@.parts, defect_of_part(self@.tempo.base_note), i as int),
            decreases self.parts.len() - i,
        {
            let here = self.parts[i].flatten_defect(&self.tempo.base_note);
            if here.is_some() {
                return here;
            }
            i += 1;
        }
        None
    }

    /// A copy of the composition without parallel voices. Each group of
    /// several voices gives way to one phrase of chords: one for each
    /// position where the voices stand in line, and else one for each span
    /// between two instants at which a note begins or ends in any voice,
    /// with a piece of every note that sounds through it. The composition
    /// keeps its length. Nothing is made, and the reason is returned, only
    /// where a group must be cut whose durations are not defined or whose
    /// cuts exact arithmetic cannot hold.
    pub fn flatten(&self, registry: &mut IdRegistry) -> (r: Result<Self, TimingError>)
        requires
            old(registry).spec_remaining() >= self@.flat_ids(),
        ensures
            match self@.flatten_defect() {
                Some(e) => r matches Err(x) && x == e && *final(registry) == *old(registry),
                None => r matches Ok(flat) && flat@ == self@.flattened(old(registry).next_id() as int,
                ) && *final(registry) == old(registry).after(self@.flat_ids())
                    && !flat@.has_multivoice() && (self@.beats() is Ok ==> flat@.beats()
                    == self@.beats()) && (self@.seconds() is Ok ==> flat@.seconds()
                    == self@.seconds()),
            },
            final(registry).next_id() >= old(registry).next_id(),
            r is Ok ==> final(registry).next_id() == old(registry).next_id() + self@.flat_ids(),
            r is Ok && self@.below(old(registry).next_id() as int) ==> r.unwrap()@.below(
                final(registry).next_id() as int,
            ),
            r matches Err(e) ==> e == TimingError::Overflow || !self@.sound(),
            !self@.has_multivoice() ==> r is Ok,
    {
        proof {
            lemma_flatten_fails_for_time(self@);
            if !self@.has_multivoice() {
                lemma_flat_composition_stays(
                    self@,
                    old(registry).next_id() as int,
                    self@.parts.len() as int,
                );
            }
        }
        if let Some(e) = self.flatten_defect() {
            return Err(e);
        }
        let ghost first = registry.next_id() as int;
        let ghost wanted = self@.flattened(first).parts;
        proof {
            lemma_flatten_keeps_duration(self@, first);
            if self@.below(first) {
                lemma_flatten_stays_below(self@, first);
            }
        }
        let mut r = self.clone();
        let mut parts: Vec<Part> = Vec::new();
        let mut i: usize = 0;
        proof {
            assert(views(parts@) =~= wanted.take(0));
        }
        while i < self.parts.len()
            invariant
                i <= self.parts.len(),
                self@.flatten_defect() is None,
                first == old(registry).next_id(),
                wanted == self@.flattened(first).parts,
                old(registry).spec_remaining() >= self@.flat_ids(),
                *registry == old(registry).after(
                    CompositionView::flat_ids_before(self@.parts, self@.tempo.base_note, i as int),
                ),
                views(parts@) == wanted.take(i as int),
            decreases self.parts.len() - i,
        {
            proof {
                lemma_part_chords_add_up(self@.parts, self@.tempo.base_note, i + 1, self@.parts.len() as int);
                lemma_first_some_is_none(self@.parts, defect_of_part(self@.tempo.base_note), 0, i as int);
            }
            let part = match self.parts[i].flatten(&self.tempo.base_note, registry) {
                Ok(part) => part,
                Err(e) => {
                    return Err(e);
                },
            };
            proof {
                lemma_views(parts@, 0, part);
                assert(wanted.take(i + 1) == wanted.take(i as int).push(wanted[i as int]));
            }
            parts.push(part);
            i += 1;
        }
        proof {
            assert(wanted.take(i as int) == wanted);
        }
        r.parts = parts;
        Ok(r)
    }
}

/// The lesser of a count and the greatest number that a machine holds.
pub open spec fn capped(count: nat) -> nat {
    if count <= usize::MAX {
        count
    } else {
        usize::MAX as nat
    }
}

/// Adds two counts, and stops at the greatest number that the machine
/// holds.
pub(crate) fn add_capped(a: usize, b: usize, Ghost(x): Ghost<nat>, Ghost(y): Ghost<nat>) -> (r: usize)
    requires
        a == capped(x),
        b == capped(y),
    ensures
        r == capped(x + y),
{
    if b > usize::MAX - a {
        usize::MAX
    } else {
        a + b
    }
}

impl Staff {
    /// How many identifiers are made when the staff is flattened, or the
    /// greatest number that the machine holds where they are more.
    pub fn count_flat_ids(&self, base: &Duration) -> (r: usize)
        ensures
            r == capped(self@.flat_ids(*base)),
    {
        let mut made: usize = 0;
        let mut i: usize = 0;
        while i < self.content.len()
            invariant
                i <= self.content.len(),
                made == capped(StaffView::flat_ids_before(self@.content, *base, i as int)),
            decreases self.content.len() - i,
        {
            let here = match &self.content[i] {
                StaffContent::MultiVoice(voices) => voices.count_flat_ids(base),
                _ => 0,
            };
            made = add_capped(
                made,
                here,
                Ghost(StaffView::flat_ids_before(self@.content, *base, i as int)),
                Ghost(self@.content[i as int].flat_ids(*base)),
            );
            i += 1;
        }
        made
    }
}

impl Part {
    /// How many identifiers are made when the part is flattened, or the greatest
    /// number that the machine holds where they are more.
    pub fn count_flat_ids(&self, base: &Duration) -> (r: usize)
        ensures
            r == capped(self@.flat_ids(*base)),
    {
        let mut made: usize = 0;
        let mut i: usize = 0;
        while i < self.staves.len()
            invariant
                i <= self.staves.len(),
                made == capped(PartView::flat_ids_before(self@.staves, *base, i as int)),
            decreases self.staves.len() - i,
        {
            let here = self.staves[i].count_flat_ids(base);
            made = add_capped(
                made,
                here,
                Ghost(PartView::flat_ids_before(self@.staves, *base, i as int)),
                Ghost(self@.staves[i as int].flat_ids(*base)),
            );
            i += 1;
        }
        made
    }
}

impl Composition {
    /// How many identifiers flattening takes, or the greatest number that
    /// the machine holds where they are more.
    pub fn count_flat_ids(&self) -> (r: usize)
        ensures
            r == capped(self@.flat_ids()),
    {
        let mut made: usize = 0;
        let mut i: usize = 0;
        while i < self.parts.len()
            invariant
                i <= self.parts.len(),
                made == capped(CompositionView::flat_ids_before(self@.parts, self@.tempo.base_note, i as int)),
            decreases self.parts.len() - i,
        {
            let here = self.parts[i].count_flat_ids(&self.tempo.base_note);
            made = add_capped(
                made,
                here,
                Ghost(CompositionView::flat_ids_before(self@.parts, self@.tempo.base_note, i as int)),
                Ghost(self@.parts[i as int].flat_ids(self@.tempo.base_note)),
            );
            i += 1;
        }
        made
    }
}


/// Each note at a position is a note of what one of the voices has there.
proof fn lemma_column_notes_come_of_voices(voices: Seq<PhraseView>, j: int, upto: int, k: int)
    requires
        0 <= upto <= voices.len(),
        0 <= k < MultiVoiceView::column_notes(voices, j, upto).len(),
    ensures
        exists|v: int, n: int|
            0 <= v < upto && 0 <= j < voices[v].content.len() && 0 <= n < leaf_notes(
                item_at(voices, v, j),
            ).len() && #[trigger] leaf_notes(item_at(voices, v, j))[n]
                == MultiVoiceView::column_notes(voices, j, upto)[k],
    decreases upto,
{
    let all = MultiVoiceView::column_notes(voices, j, upto);
    if upto > 0 {
        let before = MultiVoiceView::column_notes(voices, j, upto - 1);
        if k < before.len() {
            lemma_column_notes_come_of_voices(voices, j, upto - 1, k);
            let (v, n) = choose|v: int, n: int|
                0 <= v < upto - 1 && 0 <= j < voices[v].content.len() && 0 <= n < leaf_notes(
                    item_at(voices, v, j),
                ).len() && #[trigger] leaf_notes(item_at(voices, v, j))[n] == before[k];
            assert(all[k] == before[k]);
            assert(leaf_notes(item_at(voices, v, j))[n] == all[k]);
        } else {
            let here = leaf_notes(item_at(voices, upto - 1, j));
            assert(here[k - before.len()] == all[k]);
        }
    }
}

/// Each modification of the merged voices is a modification of one voice.
proof fn lemma_modifications_come_of_voices(voices: Seq<PhraseView>, upto: int, k: int)
    requires
        0 <= upto <= voices.len(),
        0 <= k < MultiVoiceView::all_modifications(voices, upto).len(),
    ensures
        exists|v: int, n: int|
            0 <= v < upto && 0 <= n < voices[v].modifications.len()
                && #[trigger] voices[v].modifications[n] == MultiVoiceView::all_modifications(
                voices,
                upto,
            )[k],
    decreases upto,
{
    let all = MultiVoiceView::all_modifications(voices, upto);
    if upto > 0 {
        let before = MultiVoiceView::all_modifications(voices, upto - 1);
        if k < before.len() {
            lemma_modifications_come_of_voices(voices, upto - 1, k);
            let (v, n) = choose|v: int, n: int|
                0 <= v < upto - 1 && 0 <= n < voices[v].modifications.len()
                    && #[trigger] voices[v].modifications[n] == before[k];
            assert(voices[v].modifications[n] == all[k]);
        } else {
            assert(voices[upto - 1].modifications[k - before.len()] == all[k]);
        }
    }
}

/// What a group of voices gives way to has its identifiers below what the
/// registry hands out next, where the group had them below what it handed
/// out before.
pub proof fn lemma_flat_voices_stay_below(voices: MultiVoiceView, base: Duration, first: int)
    requires
        0 <= first,
        first + voices.flat_ids(base) <= usize::MAX,
        voices.below(first),
    ensures
        voices.flat(base, first).below(first + voices.flat_ids(base)),
{
    let flat = voices.flat(base, first);
    let vs = voices.voices;
    let n = vs.len() as int;
    if n >= 2 && !voices.aligned() {
        assert(voices.has_id(voices.id));
        match voices.cut_plan(base) {
            Err(_) => {
                assert forall|id: usize| #[trigger] flat.has_id(id) implies id < first by {
                    assert(!PhraseView::has_id_in(flat.content, id, 0));
                }
            },
            Ok(plan) => {
                assert forall|v: int| 0 <= v < n implies (#[trigger] vs[v]).below(first) by {
                    assert forall|id: usize| #[trigger] vs[v].has_id(id) implies id < first by {
                        assert(voices.has_id(id));
                    }
                }
                lemma_voice_soundings_below(
                    vs,
                    base,
                    0,
                    Run { soundings: Seq::empty(), end: Fraction::spec_zero() },
                    first,
                );
                lemma_cut_stays_below(voices.id, plan, first);
                let made = cut_phrase(voices.id, plan, first);
                assert forall|id: usize| #[trigger] flat.has_id(id) implies id < first
                    + voices.flat_ids(base) by {
                    if exists|i: int|
                        0 <= i < flat.modifications.len() && (
                        #[trigger] flat.modifications[i]).spec_id() == id {
                        let i = choose|i: int|
                            0 <= i < flat.modifications.len() && (
                            #[trigger] flat.modifications[i]).spec_id() == id;
                        lemma_voice_marks_come_of_voices(vs, n, i);
                        let (v, m) = choose|v: int, m: int|
                            0 <= v < n && 0 <= m < vs[v].modifications.len()
                                && #[trigger] vs[v].modifications[m] == flat.modifications[i];
                        assert(vs[v].modifications[m].spec_id() == id);
                        assert(vs[v].has_id(id));
                        assert(voices.has_id(id));
                    } else {
                        assert(made.has_id(id));
                    }
                }
            },
        }
    } else {
    assert forall|id: usize| #[trigger] flat.has_id(id) implies id < first + voices.flat_ids(base) by {
        if n == 0 {
            assert(!PhraseView::has_id_in(flat.content, id, 0));
            assert(voices.has_id(id));
        } else if n == 1 {
            assert(vs[0].has_id(id));
            assert(voices.has_id(id));
        } else if flat.id == id {
            assert(voices.has_id(id));
        } else if exists|i: int|
            0 <= i < flat.modifications.len() && (#[trigger] flat.modifications[i]).spec_id() == id {
            let i = choose|i: int|
                0 <= i < flat.modifications.len() && (#[trigger] flat.modifications[i]).spec_id()
                    == id;
            lemma_modifications_come_of_voices(vs, n, i);
            let (v, m) = choose|v: int, m: int|
                0 <= v < n && 0 <= m < vs[v].modifications.len() && #[trigger] vs[v].modifications[m]
                    == flat.modifications[i];
            assert(vs[v].modifications[m].spec_id() == id);
            assert(vs[v].has_id(id));
            assert(voices.has_id(id));
        } else {
            crate::structure::phrase_laws::lemma_has_id_in_some_child(flat.content, id, 0);
            let j = choose|j: int|
                0 <= j < flat.content.len() && child_has_id(#[trigger] flat.content[j], id);
            let chord = voices.merged_chord(j, (first + j) as usize);
            assert(flat.content[j] == PhraseContentView::Chord(chord));
            if chord.id != id {
                let k = choose|k: int| 0 <= k < chord.notes.len() && (#[trigger] chord.notes[k]).has_id(id);
                lemma_column_notes_come_of_voices(vs, j, n, k);
                let (v, m) = choose|v: int, m: int|
                    0 <= v < n && 0 <= j < vs[v].content.len() && 0 <= m < leaf_notes(
                        item_at(vs, v, j),
                    ).len() && #[trigger] leaf_notes(item_at(vs, v, j))[m] == chord.notes[k];
                let item = item_at(vs, v, j);
                match item {
                    PhraseContentView::Note(note) => {
                        assert(note.has_id(id));
                    },
                    PhraseContentView::Chord(inner) => {
                        assert(inner.notes[m].has_id(id));
                        assert(inner.has_id(id));
                    },
                    PhraseContentView::Phrase(inner) => {},
                }
                assert(child_has_id(vs[v].content[j], id));
                crate::structure::phrase_laws::lemma_has_id_in_some_child(vs[v].content, id, 0);
                assert(vs[v].has_id(id));
                assert(voices.has_id(id));
            }
        }
    }
}
}

/// A flattened staff has its identifiers below what the registry hands out
/// next, where the staff had them below what it handed out before.
pub proof fn lemma_flat_staff_stays_below(staff: StaffView, base: Duration, first: int)
    requires
        0 <= first,
        first + staff.flat_ids(base) <= usize::MAX,
        staff.below(first),
    ensures
        staff.flattened(base, first).below(first + staff.flat_ids(base)),
{
    let flat = staff.flattened(base, first);
    assert forall|id: usize| #[trigger] flat.has_id(id) implies id < first + staff.flat_ids(base) by {
        if flat.id != id {
            let i = choose|i: int| 0 <= i < flat.content.len() && (#[trigger] flat.content[i]).has_id(id);
            let before = StaffView::flat_ids_before(staff.content, base, i);
            lemma_item_chords_add_up(staff.content, base, i + 1, staff.content.len() as int);
            match staff.content[i] {
                StaffContentView::MultiVoice(voices) => {
                    assert forall|other: usize| #[trigger] voices.has_id(other) implies other < first
                        + before by {
                        assert(staff.content[i].has_id(other));
                        assert(staff.has_id(other));
                    }
                    lemma_flat_voices_stay_below(voices, base, first + before);
                    assert(voices.flat(base, first + before).has_id(id));
                },
                _ => {
                    assert(staff.content[i].has_id(id));
                    assert(staff.has_id(id));
                },
            }
        } else {
            assert(staff.has_id(id));
        }
    }
}

/// A flattened part has its identifiers below what the registry hands out
/// next, where the part had them below what it handed out before.
pub proof fn lemma_flat_part_stays_below(part: PartView, base: Duration, first: int)
    requires
        0 <= first,
        first + part.flat_ids(base) <= usize::MAX,
        part.below(first),
    ensures
        part.flattened(base, first).below(first + part.flat_ids(base)),
{
    let flat = part.flattened(base, first);
    assert forall|id: usize| #[trigger] flat.has_id(id) implies id < first + part.flat_ids(base) by {
        if flat.id != id {
            let i = choose|i: int| 0 <= i < flat.staves.len() && (#[trigger] flat.staves[i]).has_id(id);
            let before = PartView::flat_ids_before(part.staves, base, i);
            lemma_staff_chords_add_up(part.staves, base, i + 1, part.staves.len() as int);
            let staff = part.staves[i];
            assert forall|other: usize| #[trigger] staff.has_id(other) implies other < first
                + before by {
                assert(part.has_id(other));
            }
            lemma_flat_staff_stays_below(staff, base, first + before);
            assert(staff.flattened(base, first + before).has_id(id));
        } else {
            assert(part.has_id(id));
        }
    }
}

/// A flattened composition has its identifiers below what the registry
/// hands out next, where the composition had them below what it handed out
/// before.
pub proof fn lemma_flatten_stays_below(composition: CompositionView, first: int)
    requires
        0 <= first,
        first + composition.flat_ids() <= usize::MAX,
        composition.below(first),
    ensures
        composition.flattened(first).below(first + composition.flat_ids()),
{
    let base = composition.tempo.base_note;
    let flat = composition.flattened(first);
    assert forall|id: usize| #[trigger] flat.has_id(id) implies id < first
        + composition.flat_ids() by {
        let i = choose|i: int| 0 <= i < flat.parts.len() && (#[trigger] flat.parts[i]).has_id(id);
        let before = CompositionView::flat_ids_before(composition.parts, base, i);
        lemma_part_chords_add_up(composition.parts, base, i + 1, composition.parts.len() as int);
        let part = composition.parts[i];
        assert forall|other: usize| #[trigger] part.has_id(other) implies other < first + before by {
            assert(composition.has_id(other));
        }
        lemma_flat_part_stays_below(part, base, first + before);
        assert(part.flattened(base, first + before).has_id(id));
    }
}


/// A staff can be flattened unless a duration in it is not defined or
/// exact arithmetic cannot be held.
pub proof fn lemma_flat_staff_fails_for_time(staff: StaffView, base: Duration)
    ensures
        staff.flatten_defect(base) matches Some(e) ==> e == TimingError::Overflow || !staff.sound(),
{
    if let Some(e) = staff.flatten_defect(base) {
        lemma_first_some_is_found(staff.content, defect_of_item(base), 0);
        let i = choose|i: int|
            0 <= i < staff.content.len() && defect_of_item(base)(#[trigger] staff.content[i])
                == staff.flatten_defect(base);
        if let StaffContentView::MultiVoice(voices) = staff.content[i] {
            voices.lemma_cut_fails_for_time(base);
            if e != TimingError::Overflow {
                assert(!staff.content[i].sound());
            }
        }
    }
}

/// A part can be flattened unless a duration in it is not defined or exact
/// arithmetic cannot be held.
pub proof fn lemma_flat_part_fails_for_time(part: PartView, base: Duration)
    ensures
        part.flatten_defect(base) matches Some(e) ==> e == TimingError::Overflow || !part.sound(),
{
    if let Some(e) = part.flatten_defect(base) {
        lemma_first_some_is_found(part.staves, defect_of_staff(base), 0);
        let i = choose|i: int|
            0 <= i < part.staves.len() && defect_of_staff(base)(#[trigger] part.staves[i])
                == part.flatten_defect(base);
        lemma_flat_staff_fails_for_time(part.staves[i], base);
        if e != TimingError::Overflow {
            assert(!part.staves[i].sound());
        }
    }
}

/// Flattening fails only for time: where a duration in the composition is
/// not defined, because a chord has no single duration or a tuplet stands
/// over nothing, or where exact arithmetic cannot be held.
pub proof fn lemma_flatten_fails_for_time(composition: CompositionView)
    ensures
        composition.flatten_defect() matches Some(e) ==> e == TimingError::Overflow
            || !composition.sound(),
{
    let base = composition.tempo.base_note;
    if let Some(e) = composition.flatten_defect() {
        lemma_first_some_is_found(composition.parts, defect_of_part(base), 0);
        let i = choose|i: int|
            0 <= i < composition.parts.len() && defect_of_part(base)(#[trigger] composition.parts[i])
                == composition.flatten_defect();
        lemma_flat_part_fails_for_time(composition.parts[i], base);
        if e != TimingError::Overflow {
            assert(!composition.parts[i].sound());
        }
    }
}

} // verus!
