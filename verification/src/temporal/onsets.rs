//! Onsets: when each note and chord of a tree begins.
//!
//! A staff is walked from its first item to its last. Items of a staff and
//! children of a phrase follow one another; the voices of a group all begin
//! where the group begins, and the group ends where its longest voice ends.

use crate::error::TimingError;

use crate::note::duration::Duration;
use crate::note::note::{lemma_note_beats_are_exact, Note, NoteView, scale};
use crate::structure::chord::{Chord, ChordView, lemma_chord_beats_are_exact};
use crate::structure::multivoice::{
    greater, lemma_exact_max_is_not_negative, MultiVoice, MultiVoiceView,
};
use crate::structure::part::{Part, PartView};
use crate::structure::phrase::{
    content_views, lemma_content_view_items, lemma_inner_ratio_is_exact, Phrase, PhraseContent,
    PhraseContentView, PhraseView,
};
use crate::structure::staff::{Staff, StaffContent, StaffContentView, StaffView};
use crate::temporal::fraction::{Fraction, lemma_fraction_arithmetic, lemma_ratio_whole};
use crate::temporal::timeline::{all_shown, Moment, place_and_merge, placed, timeline, Timeslice};
use vstd::prelude::*;

verus! {

/// The beginning of a note or chord: its time in beats and its identifier.
#[derive(Copy, Clone, Debug)]
pub struct Onset {
    pub(crate) time: Fraction,
    pub(crate) id: usize,
}

/// The onsets within a node, and the time at which the node ends.
pub struct Span {
    pub onsets: Seq<Onset>,
    pub end: Fraction,
}

impl Onset {
    /// The onset of the item `id` at `time`.
    pub open(crate) spec fn at(time: Fraction, id: usize) -> Onset {
        Onset { time, id }
    }

    /// The onset as a moment of a timeline.
    pub open(crate) spec fn moment(self) -> Moment<usize> {
        Moment { time: self.time.value(), item: self.id }
    }

    /// The time of the onset, in beats.
    pub fn get_time(&self) -> (r: Fraction)
        ensures
            r.value() == self.moment().time,
    {
        self.time
    }

    /// The identifier of the note or chord that begins.
    pub fn get_id(&self) -> (r: usize)
        ensures
            r == self.moment().item,
    {
        self.id
    }
}

/// The onsets as moments of a timeline.
pub open spec fn moments(onsets: Seq<Onset>) -> Seq<Moment<usize>> {
    Seq::new(onsets.len(), |i: int| onsets[i].moment())
}

/// The one onset of a leaf that begins at `start` and lasts `length`.
pub open spec fn leaf_span(id: usize, start: Fraction, length: Result<Fraction, TimingError>) -> Result<
    Span,
    TimingError,
> {
    match length {
        Err(e) => Err(e),
        Ok(length) => match start.spec_add(length) {
            None => Err(TimingError::Overflow),
            Some(end) => Ok(Span { onsets: seq![Onset::at(start, id)], end }),
        },
    }
}

impl NoteView {
    /// The onset of the note where it begins at `start`, and its end.
    pub open spec fn onsets(self, base: Duration, ratio: Option<Fraction>, start: Fraction) -> Result<
        Span,
        TimingError,
    > {
        leaf_span(self.id, start, self.beats(base, ratio))
    }
}

impl ChordView {
    /// The onset of the chord where it begins at `start`, and its end.
    pub open spec fn onsets(self, base: Duration, ratio: Option<Fraction>, start: Fraction) -> Result<
        Span,
        TimingError,
    > {
        leaf_span(self.id, start, self.beats(base, ratio))
    }
}

impl PhraseView {
    /// The onsets in the phrase where it begins at `start`, in the order of
    /// the tree, and its end.
    pub open spec fn onsets(self, base: Duration, ratio: Option<Fraction>, start: Fraction) -> Result<
        Span,
        TimingError,
    >
        decreases self,
    {
        match self.inner_ratio(ratio) {
            Err(e) => Err(e),
            Ok(inner) => Self::onsets_in(
                self.content,
                base,
                inner,
                0,
                Span { onsets: Seq::empty(), end: start },
            ),
        }
    }

    /// The onsets in the children from position `from` on, which begin
    /// where `so_far` ends, after those of `so_far`.
    pub open spec fn onsets_in(
        items: Seq<PhraseContentView>,
        base: Duration,
        ratio: Option<Fraction>,
        from: int,
        so_far: Span,
    ) -> Result<Span, TimingError>
        decreases items, items.len() - from,
    {
        if from < 0 || from >= items.len() {
            Ok(so_far)
        } else {
            match (match items[from] {
                PhraseContentView::Note(note) => note.onsets(base, ratio, so_far.end),
                PhraseContentView::Chord(chord) => chord.onsets(base, ratio, so_far.end),
                PhraseContentView::Phrase(phrase) => phrase.onsets(base, ratio, so_far.end),
            }) {
                Err(e) => Err(e),
                Ok(span) => Self::onsets_in(
                    items,
                    base,
                    ratio,
                    from + 1,
                    Span { onsets: so_far.onsets + span.onsets, end: span.end },
                ),
            }
        }
    }
}

impl MultiVoiceView {
    /// The onsets in the voices where they all begin at `start`, voice by
    /// voice, and the end of the longest voice.
    pub open spec fn onsets(self, base: Duration, start: Fraction) -> Result<Span, TimingError> {
        Self::onsets_in(self.voices, base, start, 0, Span { onsets: Seq::empty(), end: start })
    }

    /// The onsets in the voices from position `from` on, after those of
    /// `so_far`.
    pub open spec fn onsets_in(
        voices: Seq<PhraseView>,
        base: Duration,
        start: Fraction,
        from: int,
        so_far: Span,
    ) -> Result<Span, TimingError>
        decreases voices.len() - from,
    {
        if from < 0 || from >= voices.len() {
            Ok(so_far)
        } else {
            match voices[from].onsets(base, None, start) {
                Err(e) => Err(e),
                Ok(span) => Self::onsets_in(
                    voices,
                    base,
                    start,
                    from + 1,
                    Span { onsets: so_far.onsets + span.onsets, end: so_far.end.spec_max(span.end) },
                ),
            }
        }
    }
}

impl StaffContentView {
    /// The onsets in the item where it begins at `start`, and its end.
    pub open spec fn onsets(self, base: Duration, start: Fraction) -> Result<Span, TimingError> {
        match self {
            StaffContentView::Phrase(phrase) => phrase.onsets(base, None, start),
            StaffContentView::Chord(chord) => chord.onsets(base, None, start),
            StaffContentView::MultiVoice(voices) => voices.onsets(base, start),
        }
    }
}

impl StaffView {
    /// The onsets in the staff, which begins at zero, and its end.
    pub open spec fn onsets(self, base: Duration) -> Result<Span, TimingError> {
        Self::onsets_in(
            self.content,
            base,
            0,
            Span { onsets: Seq::empty(), end: Fraction::spec_zero() },
        )
    }

    /// The onsets in the items from position `from` on, which begin where
    /// `so_far` ends, after those of `so_far`.
    pub open spec fn onsets_in(
        items: Seq<StaffContentView>,
        base: Duration,
        from: int,
        so_far: Span,
    ) -> Result<Span, TimingError>
        decreases items.len() - from,
    {
        if from < 0 || from >= items.len() {
            Ok(so_far)
        } else {
            match items[from].onsets(base, so_far.end) {
                Err(e) => Err(e),
                Ok(span) => Self::onsets_in(
                    items,
                    base,
                    from + 1,
                    Span { onsets: so_far.onsets + span.onsets, end: span.end },
                ),
            }
        }
    }
}

impl PartView {
    /// The onsets in the part, staff by staff. Each staff begins at zero.
    pub open spec fn onsets(self, base: Duration) -> Result<Seq<Onset>, TimingError> {
        Self::onsets_in(self.staves, base, 0, Seq::empty())
    }

    /// The onsets in the staves from position `from` on, after `so_far`.
    pub open spec fn onsets_in(
        staves: Seq<StaffView>,
        base: Duration,
        from: int,
        so_far: Seq<Onset>,
    ) -> Result<Seq<Onset>, TimingError>
        decreases staves.len() - from,
    {
        if from < 0 || from >= staves.len() {
            Ok(so_far)
        } else {
            match staves[from].onsets(base) {
                Err(e) => Err(e),
                Ok(span) => Self::onsets_in(staves, base, from + 1, so_far + span.onsets),
            }
        }
    }

    /// The timeline of the part: the identifiers of the notes and chords
    /// that begin at each instant, in the order of the tree.
    pub open spec fn timeslices(self, base: Duration) -> Result<
        Seq<crate::temporal::timeline::SliceView<usize>>,
        TimingError,
    > {
        match self.onsets(base) {
            Err(e) => Err(e),
            Ok(onsets) => Ok(timeline(moments(onsets))),
        }
    }
}

/// Puts the onset of a leaf at the end of `out` and returns the end of the
/// leaf.
fn collect_leaf(id: usize, start: Fraction, length: Result<Fraction, TimingError>, out: &mut Vec<Onset>) -> (r:
    Result<Fraction, TimingError>)
    ensures
        match leaf_span(id, start, length) {
            Ok(span) => r == Ok::<Fraction, TimingError>(span.end) && final(out)@ == old(out)@
                + span.onsets,
            Err(e) => r == Err::<Fraction, TimingError>(e),
        },
{
    match length {
        Err(e) => Err(e),
        Ok(length) => match start.checked_add(&length) {
            None => Err(TimingError::Overflow),
            Some(end) => {
                out.push(Onset { time: start, id });
                proof {
                    assert(old(out)@.push(Onset::at(start, id)) =~= old(out)@ + seq![
                        Onset::at(start, id),
                    ]);
                }
                Ok(end)
            },
        },
    }
}

impl Phrase {
    /// Puts the onsets in the phrase, which begins at `start`, at the end
    /// of `out` and returns the end of the phrase.
    pub(crate) fn collect_onsets(
        &self,
        base: &Duration,
        tuplet_ratio: Option<Fraction>,
        start: Fraction,
        out: &mut Vec<Onset>,
    ) -> (r: Result<Fraction, TimingError>)
        ensures
            match self@.onsets(*base, tuplet_ratio, start) {
                Ok(span) => r == Ok::<Fraction, TimingError>(span.end) && final(out)@ == old(out)@
                    + span.onsets,
                Err(e) => r == Err::<Fraction, TimingError>(e),
            },
        decreases self,
    {
        proof {
            self.lemma_view();
        }
        let inner = match self.ratio_for_children(tuplet_ratio) {
            Err(e) => {
                return Err(e);
            },
            Ok(inner) => inner,
        };
        let mut end = start;
        let mut i: usize = 0;
        let ghost mut found: Seq<Onset> = Seq::empty();
        proof {
            assert(out@ =~= old(out)@ + found);
        }
        while i < self.content.len()
            invariant
                i <= self.content.len(),
                self@.content == content_views(self.content@),
                self@.inner_ratio(tuplet_ratio) == Ok::<Option<Fraction>, TimingError>(inner),
                out@ == old(out)@ + found,
                self@.onsets(*base, tuplet_ratio, start) == PhraseView::onsets_in(
                    self@.content,
                    *base,
                    inner,
                    i as int,
                    Span { onsets: found, end },
                ),
            decreases self.content.len() - i,
        {
            proof {
                lemma_content_view_items(self.content@);
            }
            let ghost before = out@;
            let step = match &self.content[i] {
                PhraseContent::Note(note) => collect_leaf(
                    note.get_id(),
                    end,
                    note.get_beats(base, inner),
                    out,
                ),
                PhraseContent::Chord(chord) => collect_leaf(
                    chord.get_id(),
                    end,
                    chord.get_beats(base, inner),
                    out,
                ),
                PhraseContent::Phrase(phrase) => phrase.collect_onsets(base, inner, end, out),
            };
            match step {
                Err(e) => {
                    return Err(e);
                },
                Ok(next) => {
                    proof {
                        let span = (match self@.content[i as int] {
                            PhraseContentView::Note(note) => note.onsets(*base, inner, end),
                            PhraseContentView::Chord(chord) => chord.onsets(*base, inner, end),
                            PhraseContentView::Phrase(phrase) => phrase.onsets(*base, inner, end),
                        }).unwrap();
                        assert(out@ =~= old(out)@ + (found + span.onsets));
                        found = found + span.onsets;
                    }
                    end = next;
                },
            }
            i += 1;
        }
        Ok(end)
    }
}

impl MultiVoice {
    /// Puts the onsets in the voices, which all begin at `start`, at the end
    /// of `out` and returns the end of the longest voice.
    pub(crate) fn collect_onsets(&self, base: &Duration, start: Fraction, out: &mut Vec<Onset>) -> (r:
        Result<Fraction, TimingError>)
        ensures
            match self@.onsets(*base, start) {
                Ok(span) => r == Ok::<Fraction, TimingError>(span.end) && final(out)@ == old(out)@
                    + span.onsets,
                Err(e) => r == Err::<Fraction, TimingError>(e),
            },
    {
        let mut end = start;
        let mut i: usize = 0;
        let ghost mut found: Seq<Onset> = Seq::empty();
        proof {
            assert(out@ =~= old(out)@ + found);
        }
        while i < self.voices.len()
            invariant
                i <= self.voices.len(),
                out@ == old(out)@ + found,
                self@.onsets(*base, start) == MultiVoiceView::onsets_in(
                    self@.voices,
                    *base,
                    start,
                    i as int,
                    Span { onsets: found, end },
                ),
            decreases self.voices.len() - i,
        {
            match self.voices[i].collect_onsets(base, None, start, out) {
                Err(e) => {
                    return Err(e);
                },
                Ok(next) => {
                    proof {
                        let span = self@.voices[i as int].onsets(*base, None, start).unwrap();
                        assert(out@ =~= old(out)@ + (found + span.onsets));
                        found = found + span.onsets;
                    }
                    end = end.max(next);
                },
            }
            i += 1;
        }
        Ok(end)
    }
}

impl Staff {
    /// The onsets in the staff, in the order of the tree, and the end of the
    /// staff. The staff begins at zero.
    pub(crate) fn collect_onsets(&self, base: &Duration, out: &mut Vec<Onset>) -> (r: Result<
        Fraction,
        TimingError,
    >)
        ensures
            match self@.onsets(*base) {
                Ok(span) => r == Ok::<Fraction, TimingError>(span.end) && final(out)@ == old(out)@
                    + span.onsets,
                Err(e) => r == Err::<Fraction, TimingError>(e),
            },
    {
        let mut end = Fraction::zero();
        let mut i: usize = 0;
        let ghost mut found: Seq<Onset> = Seq::empty();
        proof {
            assert(out@ =~= old(out)@ + found);
        }
        while i < self.content.len()
            invariant
                i <= self.content.len(),
                out@ == old(out)@ + found,
                self@.onsets(*base) == StaffView::onsets_in(
                    self@.content,
                    *base,
                    i as int,
                    Span { onsets: found, end },
                ),
            decreases self.content.len() - i,
        {
            let step = match &self.content[i] {
                StaffContent::Phrase(phrase) => phrase.collect_onsets(base, None, end, out),
                StaffContent::Chord(chord) => collect_leaf(
                    chord.get_id(),
                    end,
                    chord.get_beats(base, None),
                    out,
                ),
                StaffContent::MultiVoice(voices) => voices.collect_onsets(base, end, out),
            };
            match step {
                Err(e) => {
                    return Err(e);
                },
                Ok(next) => {
                    proof {
                        let span = self@.content[i as int].onsets(*base, end).unwrap();
                        assert(out@ =~= old(out)@ + (found + span.onsets));
                        found = found + span.onsets;
                    }
                    end = next;
                },
            }
            i += 1;
        }
        Ok(end)
    }

    /// The onsets of the notes and chords of the staff, in the order of the
    /// tree.
    pub fn get_onsets(&self, base: &Duration) -> (r: Result<Vec<Onset>, TimingError>)
        ensures
            match self@.onsets(*base) {
                Ok(span) => r is Ok && r.unwrap()@ == span.onsets,
                Err(e) => r == Err::<Vec<Onset>, TimingError>(e),
            },
    {
        let mut out: Vec<Onset> = Vec::new();
        match self.collect_onsets(base, &mut out) {
            Err(e) => Err(e),
            Ok(_) => {
                proof {
                    let span = self@.onsets(*base).unwrap();
                    assert(Seq::<Onset>::empty() + span.onsets =~= span.onsets);
                }
                Ok(out)
            },
        }
    }
}

/// The timeline of the onsets: each placed in turn.
pub fn group_onsets(onsets: &Vec<Onset>) -> (r: Vec<Timeslice>)
    ensures
        all_shown(r@) == timeline(moments(onsets@)),
{
    let mut slices: Vec<Timeslice> = Vec::new();
    let mut i: usize = 0;
    proof {
        assert(moments(onsets@.take(0)) =~= Seq::empty());
        assert(all_shown(slices@) =~= Seq::empty());
    }
    while i < onsets.len()
        invariant
            i <= onsets.len(),
            all_shown(slices@) == timeline(moments(onsets@.take(i as int))),
        decreases onsets.len() - i,
    {
        proof {
            let longer = moments(onsets@.take(i + 1));
            assert(longer.drop_last() =~= moments(onsets@.take(i as int)));
            assert(longer.last() == onsets@[i as int].moment());
        }
        let _ = place_and_merge(&mut slices, 0, onsets[i].time, onsets[i].id);
        i += 1;
    }
    proof {
        assert(onsets@.take(i as int) =~= onsets@);
    }
    slices
}

impl Part {
    /// The onsets of the notes and chords of the part, staff by staff.
    pub fn get_onsets(&self, base: &Duration) -> (r: Result<Vec<Onset>, TimingError>)
        ensures
            match self@.onsets(*base) {
                Ok(onsets) => r is Ok && r.unwrap()@ == onsets,
                Err(e) => r == Err::<Vec<Onset>, TimingError>(e),
            },
    {
        let mut out: Vec<Onset> = Vec::new();
        let mut i: usize = 0;
        while i < self.staves.len()
            invariant
                i <= self.staves.len(),
                self@.onsets(*base) == PartView::onsets_in(self@.staves, *base, i as int, out@),
            decreases self.staves.len() - i,
        {
            match self.staves[i].collect_onsets(base, &mut out) {
                Err(e) => {
                    return Err(e);
                },
                Ok(_) => {},
            }
            i += 1;
        }
        Ok(out)
    }

    /// The timeline of the part: one slice for each instant at which a note
    /// or chord begins, in ascending order of time, each with the
    /// identifiers of what begins then, in the order of the tree.
    pub fn iter_timeslices(&self, base: &Duration) -> (r: Result<Vec<Timeslice>, TimingError>)
        ensures
            match self@.timeslices(*base) {
                Ok(slices) => r is Ok && all_shown(r.unwrap()@) == slices,
                Err(e) => r == Err::<Vec<Timeslice>, TimingError>(e),
            },
    {
        match self.get_onsets(base) {
            Err(e) => Err(e),
            Ok(onsets) => Ok(group_onsets(&onsets)),
        }
    }

    /// The number of instants at which a note or chord of the part begins.
    pub fn num_timeslices(&self, base: &Duration) -> (r: Result<usize, TimingError>)
        ensures
            match self@.timeslices(*base) {
                Ok(slices) => r is Ok && r.unwrap() == slices.len(),
                Err(e) => r == Err::<usize, TimingError>(e),
            },
    {
        match self.iter_timeslices(base) {
            Err(e) => Err(e),
            Ok(slices) => Ok(slices.len()),
        }
    }
}

/// Whether each onset lies between two times.
pub open spec fn within(onsets: Seq<Onset>, from: real, to: real) -> bool {
    forall|k: int| 0 <= k < onsets.len() ==> from <= (#[trigger] onsets[k]).moment().time <= to
}

/// A leaf begins where it is told to and ends after its length.
pub proof fn lemma_leaf_span(id: usize, start: Fraction, length: Result<Fraction, TimingError>)
    requires
        start.well_formed(),
        length is Ok ==> length.unwrap().well_formed(),
    ensures
        leaf_span(id, start, length) matches Ok(span) ==> {
            &&& length is Ok
            &&& span.end.well_formed()
            &&& span.end.value() == start.value() + length.unwrap().value()
            &&& start.value() <= span.end.value()
            &&& within(span.onsets, start.value(), span.end.value())
        },
{
    if let Ok(l) = length {
        lemma_fraction_arithmetic(start, l);
        lemma_fraction_arithmetic(l, l);
    }
}

/// A phrase that begins at `start` ends after its exact length, and
/// everything in it begins between its beginning and its end.
pub proof fn lemma_phrase_onsets_are_exact(
    phrase: PhraseView,
    base: Duration,
    ratio: Option<Fraction>,
    start: Fraction,
)
    requires
        start.well_formed(),
        ratio is Some ==> ratio.unwrap().well_formed(),
    ensures
        phrase.onsets(base, ratio, start) matches Ok(span) ==> {
            &&& span.end.well_formed()
            &&& span.end.value() == start.value() + phrase.exact_beats(base, scale(ratio))
            &&& start.value() <= span.end.value()
            &&& within(span.onsets, start.value(), span.end.value())
        },
    decreases phrase,
{
    lemma_inner_ratio_is_exact(phrase, ratio);
    if let Ok(inner) = phrase.inner_ratio(ratio) {
        lemma_children_onsets_are_exact(
            phrase.content,
            base,
            inner,
            0,
            Span { onsets: Seq::empty(), end: start },
            start.value(),
        );
    }
}

/// The children of a phrase from position `from` on begin where `so_far`
/// ends and end after the exact sum of their lengths.
pub proof fn lemma_children_onsets_are_exact(
    items: Seq<PhraseContentView>,
    base: Duration,
    ratio: Option<Fraction>,
    from: int,
    so_far: Span,
    start: real,
)
    requires
        0 <= from,
        so_far.end.well_formed(),
        ratio is Some ==> ratio.unwrap().well_formed(),
        start <= so_far.end.value(),
        within(so_far.onsets, start, so_far.end.value()),
    ensures
        PhraseView::onsets_in(items, base, ratio, from, so_far) matches Ok(span) ==> {
            &&& span.end.well_formed()
            &&& span.end.value() == so_far.end.value() + PhraseView::exact_sum(
                items,
                base,
                scale(ratio),
                from,
            )
            &&& start <= span.end.value()
            &&& within(span.onsets, start, span.end.value())
        },
    decreases items, items.len() - from,
{
    if from < items.len() {
        let here = match items[from] {
            PhraseContentView::Note(note) => {
                lemma_note_beats_are_exact(note, base, ratio);
                lemma_leaf_span(note.id, so_far.end, note.beats(base, ratio));
                note.onsets(base, ratio, so_far.end)
            },
            PhraseContentView::Chord(chord) => {
                lemma_chord_beats_are_exact(chord, base, ratio);
                lemma_leaf_span(chord.id, so_far.end, chord.beats(base, ratio));
                chord.onsets(base, ratio, so_far.end)
            },
            PhraseContentView::Phrase(phrase) => {
                lemma_phrase_onsets_are_exact(phrase, base, ratio, so_far.end);
                phrase.onsets(base, ratio, so_far.end)
            },
        };
        if let Ok(span) = here {
            let next = Span { onsets: so_far.onsets + span.onsets, end: span.end };
            assert forall|k: int| 0 <= k < next.onsets.len() implies start <= (
            #[trigger] next.onsets[k]).moment().time <= next.end.value() by {
                if k < so_far.onsets.len() {
                    assert(next.onsets[k] == so_far.onsets[k]);
                } else {
                    assert(next.onsets[k] == span.onsets[k - so_far.onsets.len()]);
                }
            }
            lemma_children_onsets_are_exact(items, base, ratio, from + 1, next, start);
        }
    }
}

/// The voices of a group all begin where the group begins, and the group
/// ends where its longest voice ends.
pub proof fn lemma_voices_onsets_are_exact(
    voices: Seq<PhraseView>,
    base: Duration,
    start: Fraction,
    from: int,
    so_far: Span,
)
    requires
        0 <= from,
        start.well_formed(),
        so_far.end.well_formed(),
        start.value() <= so_far.end.value(),
        within(so_far.onsets, start.value(), so_far.end.value()),
    ensures
        MultiVoiceView::onsets_in(voices, base, start, from, so_far) matches Ok(span) ==> {
            &&& span.end.well_formed()
            &&& span.end.value() == greater(
                so_far.end.value(),
                start.value() + MultiVoiceView::exact_max(voices, base, from),
            )
            &&& start.value() <= span.end.value()
            &&& within(span.onsets, start.value(), span.end.value())
        },
    decreases voices.len() - from,
{
    if from < voices.len() {
        lemma_phrase_onsets_are_exact(voices[from], base, None, start);
        if let Ok(span) = voices[from].onsets(base, None, start) {
            let next = Span {
                onsets: so_far.onsets + span.onsets,
                end: so_far.end.spec_max(span.end),
            };
            assert forall|k: int| 0 <= k < next.onsets.len() implies start.value() <= (
            #[trigger] next.onsets[k]).moment().time <= next.end.value() by {
                if k < so_far.onsets.len() {
                    assert(next.onsets[k] == so_far.onsets[k]);
                } else {
                    assert(next.onsets[k] == span.onsets[k - so_far.onsets.len()]);
                }
            }
            lemma_voices_onsets_are_exact(voices, base, start, from + 1, next);
        }
    } else {
        lemma_exact_max_is_not_negative(voices, base, from);
    }
}

/// An item of a staff that begins at `start` ends after its exact length.
pub proof fn lemma_item_onsets_are_exact(item: StaffContentView, base: Duration, start: Fraction)
    requires
        start.well_formed(),
    ensures
        item.onsets(base, start) matches Ok(span) ==> {
            &&& span.end.well_formed()
            &&& span.end.value() == start.value() + item.exact_beats(base)
            &&& start.value() <= span.end.value()
            &&& within(span.onsets, start.value(), span.end.value())
        },
{
    match item {
        StaffContentView::Phrase(phrase) => {
            lemma_phrase_onsets_are_exact(phrase, base, None, start);
        },
        StaffContentView::Chord(chord) => {
            lemma_chord_beats_are_exact(chord, base, None);
            lemma_leaf_span(chord.id, start, chord.beats(base, None));
        },
        StaffContentView::MultiVoice(voices) => {
            lemma_voices_onsets_are_exact(
                voices.voices,
                base,
                start,
                0,
                Span { onsets: Seq::empty(), end: start },
            );
            lemma_exact_max_is_not_negative(voices.voices, base, 0);
        },
    }
}

/// The items of a staff from position `from` on begin where `so_far` ends:
/// each begins when the one before it ends, so that an item begins after
/// the exact sum of the lengths of the items before it.
pub proof fn lemma_items_onsets_are_exact(
    items: Seq<StaffContentView>,
    base: Duration,
    from: int,
    so_far: Span,
)
    requires
        0 <= from,
        so_far.end.well_formed(),
        0real <= so_far.end.value(),
        within(so_far.onsets, 0real, so_far.end.value()),
    ensures
        StaffView::onsets_in(items, base, from, so_far) matches Ok(span) ==> {
            &&& span.end.well_formed()
            &&& span.end.value() == so_far.end.value() + StaffView::exact_sum(items, base, from)
            &&& within(span.onsets, 0real, span.end.value())
        },
    decreases items.len() - from,
{
    if from < items.len() {
        lemma_item_onsets_are_exact(items[from], base, so_far.end);
        if let Ok(span) = items[from].onsets(base, so_far.end) {
            let next = Span { onsets: so_far.onsets + span.onsets, end: span.end };
            assert forall|k: int| 0 <= k < next.onsets.len() implies 0real <= (
            #[trigger] next.onsets[k]).moment().time <= next.end.value() by {
                if k < so_far.onsets.len() {
                    assert(next.onsets[k] == so_far.onsets[k]);
                } else {
                    assert(next.onsets[k] == span.onsets[k - so_far.onsets.len()]);
                }
            }
            lemma_items_onsets_are_exact(items, base, from + 1, next);
        }
    }
}

/// A staff ends after its exact length, and everything in it begins
/// between zero and its end.
pub proof fn lemma_staff_onsets_are_exact(staff: StaffView, base: Duration)
    ensures
        staff.onsets(base) matches Ok(span) ==> {
            &&& span.end.value() == staff.exact_beats(base)
            &&& within(span.onsets, 0real, span.end.value())
        },
{
    lemma_ratio_whole(0);
    lemma_items_onsets_are_exact(
        staff.content,
        base,
        0,
        Span { onsets: Seq::empty(), end: Fraction::spec_zero() },
    );
}

/// Walking the first `upto` items of a staff and then the rest is walking
/// them all.
pub proof fn lemma_onsets_of_first_items(
    items: Seq<StaffContentView>,
    base: Duration,
    from: int,
    upto: int,
    so_far: Span,
)
    requires
        0 <= from <= upto <= items.len(),
    ensures
        match StaffView::onsets_in(items.take(upto), base, from, so_far) {
            Ok(first) => StaffView::onsets_in(items, base, from, so_far) == StaffView::onsets_in(
                items,
                base,
                upto,
                first,
            ),
            Err(e) => StaffView::onsets_in(items, base, from, so_far)
                == Err::<Span, TimingError>(e),
        },
    decreases upto - from,
{
    if from < upto {
        assert(items.take(upto)[from] == items[from]);
        if let Ok(span) = items[from].onsets(base, so_far.end) {
            lemma_onsets_of_first_items(
                items,
                base,
                from + 1,
                upto,
                Span { onsets: so_far.onsets + span.onsets, end: span.end },
            );
        }
    }
}

/// An item of a staff begins when the items before it have ended: after
/// the exact sum of their lengths.
pub proof fn lemma_item_begins_after_those_before(staff: StaffView, base: Duration, at: int)
    requires
        0 <= at < staff.content.len(),
        staff.onsets(base) is Ok,
    ensures
        StaffView::onsets_in(
            staff.content.take(at),
            base,
            0,
            Span { onsets: Seq::empty(), end: Fraction::spec_zero() },
        ) matches Ok(before) && {
            &&& before.end.value() == staff.exact_onset(base, at)
            &&& staff.content[at].onsets(base, before.end) is Ok
            &&& staff.onsets(base) == StaffView::onsets_in(staff.content, base, at, before)
        },
{
    let nothing = Span { onsets: Seq::empty(), end: Fraction::spec_zero() };
    lemma_ratio_whole(0);
    lemma_onsets_of_first_items(staff.content, base, 0, at, nothing);
    lemma_items_onsets_are_exact(staff.content.take(at), base, 0, nothing);
}

} // verus!
