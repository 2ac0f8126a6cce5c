//! Cutting parallel voices at every instant at which a note begins or ends,
//! so that between two cuts the same notes sound throughout.
//!
//! What sounds in the voices is found first: every note and chord with the
//! instants at which it begins and ends, counted in beats from the beginning
//! of the group. The cuts are those instants in increasing order, each once,
//! and a segment is what lies between two neighbouring cuts. The chord of a
//! segment holds a piece of every note that sounds through it.
//!
//! Proved of this: the notes that sound are all notes of the voices, and
//! each begins at the time of its onset; a note that lasts fills a run of
//! neighbouring segments that begins when it begins and ends when it ends;
//! the chord of each of these segments holds a piece of it, the first under
//! the identifier of the note; and the chord of a segment begins, by the
//! exact sum of the chords before it, when the segment begins.

use crate::context::id::IdRegistry;
use crate::error::TimingError;
use crate::flatten::{
    add_capped, capped, duration_beats, lemma_no_tuplet_together, lemma_sum_of_first_children,
};
use crate::modification::{
    first_tuplet, NoteModification, NoteModificationType, PhraseModification,
    PhraseModificationType,
};
use crate::note::accidental::Accidental;
use crate::note::pitch::{Pitch, PitchName};
use crate::structure::chord::{Chord, ChordView};
use crate::lookup_laws::notes_of_voice;
use crate::model::{gathered, lemma_views, views};
use crate::note::duration::{lemma_beats_are_exact, lemma_value_is_positive, Duration, DurationType};
use crate::note::note::{Note, NoteView};
use crate::structure::multivoice::{lemma_max_beats_is_exact, MultiVoice, MultiVoiceView};
use crate::structure::phrase_laws::{child_has_id, lemma_has_id_in_some_child};
use crate::structure::phrase::{
    content_views, lemma_content_view_items, lemma_content_views, Phrase, PhraseContent,
    PhraseContentView, PhraseView,
};
use crate::temporal::onsets::{Onset, Span};
use crate::temporal::fraction::{
    lemma_fraction_arithmetic, lemma_ratio_order, lemma_ratio_whole, lemma_reduced_value, reduced,
    Fraction,
};
use vstd::arithmetic::power2::lemma2_to64;
use vstd::prelude::*;

verus! {

/// Notes that sound together from one instant to another: a note, or the
/// notes of a chord.
#[derive(Debug)]
pub struct Sounding {
    pub(crate) start: Fraction,
    pub(crate) end: Fraction,
    pub(crate) notes: Vec<Note>,
}

/// What sounds from one instant to another, as plain data.
pub struct SoundingView {
    pub start: Fraction,
    pub end: Fraction,
    pub notes: Seq<NoteView>,
}

impl View for Sounding {
    type V = SoundingView;

    open(crate) spec fn view(&self) -> SoundingView {
        SoundingView { start: self.start, end: self.end, notes: views(self.notes@) }
    }
}

/// What sounds within a node, in the order of the tree, and the time at
/// which the node ends.
pub struct Run {
    pub soundings: Seq<SoundingView>,
    pub end: Fraction,
}

/// The span between two cuts: the instants and the length between them as
/// an exact duration.
#[derive(Copy, Clone, Debug)]
pub struct Segment {
    pub start: Fraction,
    pub end: Fraction,
    pub length: Duration,
}

/// What is needed to put parallel voices into one sequence: what sounds in
/// them, and the segments between their cuts.
#[derive(Debug)]
pub struct Plan {
    pub(crate) soundings: Vec<Sounding>,
    pub(crate) segments: Vec<Segment>,
}

/// A plan as plain data.
pub struct PlanView {
    pub soundings: Seq<SoundingView>,
    pub segments: Seq<Segment>,
}

impl View for Plan {
    type V = PlanView;

    open(crate) spec fn view(&self) -> PlanView {
        PlanView { soundings: views(self.soundings@), segments: self.segments@ }
    }
}

/// What a leaf gives that begins at `start` and lasts `length`.
pub open spec fn leaf_run(
    notes: Seq<NoteView>,
    start: Fraction,
    length: Result<Fraction, TimingError>,
) -> Result<Run, TimingError> {
    match length {
        Err(e) => Err(e),
        Ok(length) => match start.spec_add(length) {
            None => Err(TimingError::Overflow),
            Some(end) => Ok(Run { soundings: seq![SoundingView { start, end, notes }], end }),
        },
    }
}

impl PhraseView {
    /// What sounds in the phrase where it begins at `start`, and its end.
    pub open spec fn soundings(self, base: Duration, ratio: Option<Fraction>, start: Fraction) -> Result<
        Run,
        TimingError,
    >
        decreases self,
    {
        match self.inner_ratio(ratio) {
            Err(e) => Err(e),
            Ok(inner) => Self::soundings_in(
                self.content,
                base,
                inner,
                0,
                Run { soundings: Seq::empty(), end: start },
            ),
        }
    }

    /// What sounds in the children from position `from` on, which begin
    /// where `so_far` ends, after what sounds in `so_far`.
    pub open spec fn soundings_in(
        items: Seq<PhraseContentView>,
        base: Duration,
        ratio: Option<Fraction>,
        from: int,
        so_far: Run,
    ) -> Result<Run, TimingError>
        decreases items, items.len() - from,
    {
        if from < 0 || from >= items.len() {
            Ok(so_far)
        } else {
            match (match items[from] {
                PhraseContentView::Note(note) => leaf_run(
                    seq![note],
                    so_far.end,
                    note.beats(base, ratio),
                ),
                PhraseContentView::Chord(chord) => leaf_run(
                    chord.notes,
                    so_far.end,
                    chord.beats(base, ratio),
                ),
                PhraseContentView::Phrase(phrase) => phrase.soundings(base, ratio, so_far.end),
            }) {
                Err(e) => Err(e),
                Ok(run) => Self::soundings_in(
                    items,
                    base,
                    ratio,
                    from + 1,
                    Run { soundings: so_far.soundings + run.soundings, end: run.end },
                ),
            }
        }
    }
}

impl MultiVoiceView {
    /// What sounds in the voices, voice by voice, each from the beginning
    /// of the group, which counts as zero; and the end of the longest voice.
    pub open spec fn soundings(self, base: Duration) -> Result<Run, TimingError> {
        Self::soundings_of(
            self.voices,
            base,
            0,
            Run { soundings: Seq::empty(), end: Fraction::spec_zero() },
        )
    }

    /// What sounds in the voices from position `from` on, after what sounds
    /// in `so_far`.
    pub open spec fn soundings_of(
        voices: Seq<PhraseView>,
        base: Duration,
        from: int,
        so_far: Run,
    ) -> Result<Run, TimingError>
        decreases voices.len() - from,
    {
        if from < 0 || from >= voices.len() {
            Ok(so_far)
        } else {
            match voices[from].soundings(base, None, Fraction::spec_zero()) {
                Err(e) => Err(e),
                Ok(run) => Self::soundings_of(
                    voices,
                    base,
                    from + 1,
                    Run {
                        soundings: so_far.soundings + run.soundings,
                        end: so_far.end.spec_max(run.end),
                    },
                ),
            }
        }
    }
}

/// The position of the first cut from `from` on that is not earlier than
/// `time`.
pub open spec fn cut_position(cuts: Seq<Fraction>, time: Fraction, from: int) -> int
    decreases cuts.len() - from,
{
    if from < 0 || from >= cuts.len() || !(cuts[from].value() < time.value()) {
        from
    } else {
        cut_position(cuts, time, from + 1)
    }
}

/// The cuts with one more instant in its place, unless a cut stands at that
/// instant already.
pub open spec fn with_cut(cuts: Seq<Fraction>, time: Fraction) -> Seq<Fraction> {
    let at = cut_position(cuts, time, 0);
    if 0 <= at < cuts.len() && cuts[at].value() == time.value() {
        cuts
    } else {
        cuts.insert(at, time)
    }
}

/// The cuts that the first `upto` soundings ask for: one where each begins
/// and one where each ends.
pub open spec fn cuts_of(soundings: Seq<SoundingView>, upto: int) -> Seq<Fraction>
    decreases upto,
{
    if upto <= 0 {
        Seq::empty()
    } else {
        with_cut(
            with_cut(cuts_of(soundings, upto - 1), soundings[upto - 1].start),
            soundings[upto - 1].end,
        )
    }
}

/// The duration that lasts `whole` whole notes.
pub open(crate) spec fn exact_duration(whole: Fraction) -> Duration {
    Duration {
        value: DurationType::Exact {
            numerator: whole.numer() as u64,
            denominator: whole.denom() as u64,
        },
        dots: 0,
    }
}

/// The segment between two instants, where `unit` is the length of a beat
/// in whole notes; none where the instants are one.
pub open(crate) spec fn segment_between(start: Fraction, end: Fraction, unit: Fraction) -> Result<
    Option<Segment>,
    TimingError,
> {
    match end.spec_sub(start) {
        None => Err(TimingError::Overflow),
        Some(beats) => if beats.numer() == 0 {
            Ok(None)
        } else {
            match beats.spec_mul(unit) {
                None => Err(TimingError::Overflow),
                Some(whole) => Ok(Some(Segment { start, end, length: exact_duration(whole) })),
            }
        },
    }
}

/// The segments between the first `upto` pairs of neighbouring cuts.
pub open spec fn segments_upto(cuts: Seq<Fraction>, unit: Fraction, upto: int) -> Result<
    Seq<Segment>,
    TimingError,
>
    decreases upto,
{
    if upto <= 0 {
        Ok(Seq::empty())
    } else {
        match segments_upto(cuts, unit, upto - 1) {
            Err(e) => Err(e),
            Ok(before) => match segment_between(cuts[upto - 1], cuts[upto], unit) {
                Err(e) => Err(e),
                Ok(None) => Ok(before),
                Ok(Some(segment)) => Ok(before.push(segment)),
            },
        }
    }
}

/// The lengths of the segments from position `from` on, added to `so_far`
/// one after the other.
pub open(crate) spec fn plan_beats(
    segments: Seq<Segment>,
    base: Duration,
    from: int,
    so_far: Fraction,
) -> Result<Fraction, TimingError>
    decreases segments.len() - from,
{
    if from < 0 || from >= segments.len() {
        Ok(so_far)
    } else {
        match duration_beats(segments[from].length, base) {
            Err(e) => Err(e),
            Ok(length) => match so_far.spec_add(length) {
                None => Err(TimingError::Overflow),
                Some(sum) => plan_beats(segments, base, from + 1, sum),
            },
        }
    }
}

impl MultiVoiceView {
    /// The plan by which the voices are put into one sequence, or the reason
    /// why there is none: a duration in the voices that is not defined, or
    /// exact arithmetic that cannot be held. The plan stands only where its
    /// segments are together as long as the group, to the letter.
    pub open spec fn cut_plan(self, base: Duration) -> Result<PlanView, TimingError> {
        match self.soundings(base) {
            Err(e) => Err(e),
            Ok(run) => match self.beats(base) {
                Err(e) => Err(e),
                Ok(length) => match base.spec_value() {
                    None => Err(TimingError::Overflow),
                    Some(unit) => {
                        let cuts = cuts_of(run.soundings, run.soundings.len() as int);
                        match segments_upto(cuts, unit, cuts.len() - 1) {
                            Err(e) => Err(e),
                            Ok(segments) => if plan_beats(segments, base, 0, Fraction::spec_zero())
                                == Ok::<Fraction, TimingError>(length) {
                                Ok(PlanView { soundings: run.soundings, segments })
                            } else {
                                Err(TimingError::Overflow)
                            },
                        }
                    },
                },
            },
        }
    }
}

/// Once the segments cannot be made up to a pair of cuts, they cannot be
/// made beyond it, for the same reason.
pub proof fn lemma_segments_stay_failed(cuts: Seq<Fraction>, unit: Fraction, failed: int, upto: int)
    requires
        failed <= upto,
        segments_upto(cuts, unit, failed) is Err,
    ensures
        segments_upto(cuts, unit, upto) == segments_upto(cuts, unit, failed),
    decreases upto - failed,
{
    if failed < upto {
        lemma_segments_stay_failed(cuts, unit, failed, upto - 1);
    }
}

/// A copy of each note, in the same order.
pub(crate) fn copy_notes(notes: &Vec<Note>) -> (r: Vec<Note>)
    ensures
        views(r@) == views(notes@),
{
    let mut copies: Vec<Note> = Vec::new();
    let mut i: usize = 0;
    while i < notes.len()
        invariant
            i <= notes.len(),
            views(copies@) == views(notes@).take(i as int),
        decreases notes.len() - i,
    {
        let note = notes[i].clone();
        proof {
            lemma_views(copies@, 0, note);
            assert(views(notes@).take(i + 1) == views(notes@).take(i as int).push(
                views(notes@)[i as int],
            ));
        }
        copies.push(note);
        i += 1;
    }
    proof {
        assert(views(notes@).take(i as int) == views(notes@));
    }
    copies
}

/// Puts what a leaf gives at the end of `out` and returns the end of the
/// leaf.
fn collect_leaf_run(
    notes: Vec<Note>,
    start: Fraction,
    length: Result<Fraction, TimingError>,
    out: &mut Vec<Sounding>,
) -> (r: Result<Fraction, TimingError>)
    ensures
        match leaf_run(views(notes@), start, length) {
            Ok(run) => r == Ok::<Fraction, TimingError>(run.end) && views(final(out)@) == views(
                old(out)@,
            ) + run.soundings,
            Err(e) => r == Err::<Fraction, TimingError>(e),
        },
{
    match length {
        Err(e) => Err(e),
        Ok(length) => match start.checked_add(&length) {
            None => Err(TimingError::Overflow),
            Some(end) => {
                let sounding = Sounding { start, end, notes };
                proof {
                    lemma_views(out@, 0, sounding);
                    assert(views(out@).push(sounding@) =~= views(out@) + seq![sounding@]);
                }
                out.push(sounding);
                Ok(end)
            },
        },
    }
}

impl Phrase {
    /// Puts what sounds in the phrase, which begins at `start`, at the end
    /// of `out` and returns the end of the phrase.
    pub(crate) fn collect_soundings(
        &self,
        base: &Duration,
        tuplet_ratio: Option<Fraction>,
        start: Fraction,
        out: &mut Vec<Sounding>,
    ) -> (r: Result<Fraction, TimingError>)
        ensures
            match self@.soundings(*base, tuplet_ratio, start) {
                Ok(run) => r == Ok::<Fraction, TimingError>(run.end) && views(final(out)@)
                    == views(old(out)@) + run.soundings,
                Err(e) => r == Err::<Fraction, TimingError>(e),
            },
        decreases self,
    {
        proof {
            self.lemma_view();
        }
        let inner = match self.ratio_for_children(tuplet_ratio) {
            Err(e) => {
                return Err(e);
            },
            Ok(inner) => inner,
        };
        let mut end = start;
        let mut i: usize = 0;
        let ghost mut found: Seq<SoundingView> = Seq::empty();
        proof {
            assert(views(out@) =~= views(old(out)@) + found);
        }
        while i < self.content.len()
            invariant
                i <= self.content.len(),
                self@.content == content_views(self.content@),
                self@.inner_ratio(tuplet_ratio) == Ok::<Option<Fraction>, TimingError>(inner),
                views(out@) == views(old(out)@) + found,
                self@.soundings(*base, tuplet_ratio, start) == PhraseView::soundings_in(
                    self@.content,
                    *base,
                    inner,
                    i as int,
                    Run { soundings: found, end },
                ),
            decreases self.content.len() - i,
        {
            proof {
                lemma_content_view_items(self.content@);
            }
            let step = match &self.content[i] {
                PhraseContent::Note(note) => {
                    let mut alone: Vec<Note> = Vec::new();
                    let copy = note.clone();
                    proof {
                        lemma_views(alone@, 0, copy);
                        assert(views(alone@.push(copy)) =~= seq![note@]);
                    }
                    alone.push(copy);
                    collect_leaf_run(alone, end, note.get_beats(base, inner), out)
                },
                PhraseContent::Chord(chord) => collect_leaf_run(
                    copy_notes(&chord.notes),
                    end,
                    chord.get_beats(base, inner),
                    out,
                ),
                PhraseContent::Phrase(phrase) => phrase.collect_soundings(base, inner, end, out),
            };
            match step {
                Err(e) => {
                    return Err(e);
                },
                Ok(next) => {
                    proof {
                        let run = (match self@.content[i as int] {
                            PhraseContentView::Note(note) => leaf_run(
                                seq![note],
                                end,
                                note.beats(*base, inner),
                            ),
                            PhraseContentView::Chord(chord) => leaf_run(
                                chord.notes,
                                end,
                                chord.beats(*base, inner),
                            ),
                            PhraseContentView::Phrase(phrase) => phrase.soundings(*base, inner, end),
                        }).unwrap();
                        assert(views(out@) =~= views(old(out)@) + (found + run.soundings));
                        found = found + run.soundings;
                    }
                    end = next;
                },
            }
            i += 1;
        }
        Ok(end)
    }
}

/// Puts an instant among the cuts, in its place, unless a cut stands at that
/// instant already.
fn insert_cut(cuts: &mut Vec<Fraction>, time: Fraction)
    ensures
        final(cuts)@ == with_cut(old(cuts)@, time),
{
    proof {
        lemma_cut_place(cuts@, time, 0);
    }
    let mut at: usize = 0;
    while at < cuts.len() && cuts[at].is_less_than(&time)
        invariant
            at <= cuts.len(),
            *cuts == *old(cuts),
            cut_position(cuts@, time, 0) == cut_position(cuts@, time, at as int),
        decreases cuts.len() - at,
    {
        at += 1;
    }
    if at < cuts.len() && cuts[at].is_equal_to(&time) {
    } else {
        cuts.insert(at, time);
    }
}

impl MultiVoice {
    /// The plan by which the voices are put into one sequence, or the reason
    /// why there is none.
    pub(crate) fn cut_plan(&self, base: &Duration) -> (r: Result<Plan, TimingError>)
        ensures
            match self@.cut_plan(*base) {
                Ok(plan) => r matches Ok(made) && made@ == plan,
                Err(e) => r matches Err(x) && x == e,
            },
    {
        let mut soundings: Vec<Sounding> = Vec::new();
        let mut end = Fraction::zero();
        let mut v: usize = 0;
        let ghost mut found: Seq<SoundingView> = Seq::empty();
        proof {
            assert(views(soundings@) =~= found);
        }
        while v < self.voices.len()
            invariant
                v <= self.voices.len(),
                views(soundings@) == found,
                self@.soundings(*base) == MultiVoiceView::soundings_of(
                    self@.voices,
                    *base,
                    v as int,
                    Run { soundings: found, end },
                ),
            decreases self.voices.len() - v,
        {
            match self.voices[v].collect_soundings(base, None, Fraction::zero(), &mut soundings) {
                Err(e) => {
                    return Err(e);
                },
                Ok(next) => {
                    proof {
                        let run = self@.voices[v as int].soundings(
                            *base,
                            None,
                            Fraction::spec_zero(),
                        ).unwrap();
                        found = found + run.soundings;
                    }
                    end = end.max(next);
                },
            }
            v += 1;
        }
        let length = match self.get_beats(base) {
            Err(e) => {
                return Err(e);
            },
            Ok(length) => length,
        };
        let unit = match base.value() {
            None => {
                return Err(TimingError::Overflow);
            },
            Some(unit) => unit,
        };
        let mut cuts: Vec<Fraction> = Vec::new();
        let mut i: usize = 0;
        while i < soundings.len()
            invariant
                i <= soundings.len(),
                self@.soundings(*base) == Ok::<Run, TimingError>(
                    Run { soundings: views(soundings@), end },
                ),
                self@.beats(*base) == Ok::<Fraction, TimingError>(length),
                base.spec_value() == Some(unit),
                cuts@ == cuts_of(views(soundings@), i as int),
            decreases soundings.len() - i,
        {
            proof {
                lemma_views(soundings@, i as int, soundings@[i as int]);
            }
            insert_cut(&mut cuts, soundings[i].start);
            insert_cut(&mut cuts, soundings[i].end);
            i += 1;
        }
        let last: usize = if cuts.len() == 0 {
            0
        } else {
            cuts.len() - 1
        };
        let mut segments: Vec<Segment> = Vec::new();
        let mut k: usize = 0;
        while k < last
            invariant
                k <= last,
                last < cuts.len() || (last == 0 && cuts.len() == 0),
                self@.soundings(*base) == Ok::<Run, TimingError>(
                    Run { soundings: views(soundings@), end },
                ),
                self@.beats(*base) == Ok::<Fraction, TimingError>(length),
                base.spec_value() == Some(unit),
                cuts@ == cuts_of(views(soundings@), soundings@.len() as int),
                segments_upto(cuts@, unit, k as int) == Ok::<Seq<Segment>, TimingError>(segments@),
            decreases last - k,
        {
            let beats = match cuts[k + 1].checked_sub(&cuts[k]) {
                None => {
                    proof {
                        lemma_segments_stay_failed(cuts@, unit, k + 1, cuts@.len() - 1);
                    }
                    return Err(TimingError::Overflow);
                },
                Some(beats) => beats,
            };
            if beats.numerator() != 0 {
                match beats.checked_mul(&unit) {
                    None => {
                        proof {
                            lemma_segments_stay_failed(cuts@, unit, k + 1, cuts@.len() - 1);
                        }
                        return Err(TimingError::Overflow);
                    },
                    Some(whole) => {
                        segments.push(
                            Segment {
                                start: cuts[k],
                                end: cuts[k + 1],
                                length: Duration {
                                    value: DurationType::Exact {
                                        numerator: whole.numerator(),
                                        denominator: whole.denominator(),
                                    },
                                    dots: 0,
                                },
                            },
                        );
                    },
                }
            }
            k += 1;
        }
        let mut sum = Fraction::zero();
        let mut s: usize = 0;
        proof {
            assert(views(soundings@).len() == soundings@.len());
            if cuts@.len() == 0 {
                assert(segments_upto(cuts@, unit, cuts@.len() - 1) == segments_upto(cuts@, unit, 0));
            }
        }
        while s < segments.len()
            invariant
                s <= segments.len(),
                self@.soundings(*base) == Ok::<Run, TimingError>(
                    Run { soundings: views(soundings@), end },
                ),
                self@.beats(*base) == Ok::<Fraction, TimingError>(length),
                base.spec_value() == Some(unit),
                cuts@ == cuts_of(views(soundings@), soundings@.len() as int),
                segments_upto(cuts@, unit, cuts@.len() - 1) == Ok::<Seq<Segment>, TimingError>(
                    segments@,
                ),
                plan_beats(segments@, *base, 0, Fraction::spec_zero()) == plan_beats(
                    segments@,
                    *base,
                    s as int,
                    sum,
                ),
            decreases segments.len() - s,
        {
            let here = match segments[s].length.beats(base) {
                None => {
                    return Err(TimingError::Overflow);
                },
                Some(here) => here,
            };
            sum = match sum.checked_add(&here) {
                None => {
                    return Err(TimingError::Overflow);
                },
                Some(more) => more,
            };
            s += 1;
        }
        if sum == length {
            Ok(Plan { soundings, segments })
        } else {
            Err(TimingError::Overflow)
        }
    }
}


/// How many new identifiers a piece of a note takes: one for the piece
/// unless it is where the note begins, and one for its tie where the note
/// goes on after it.
pub open spec fn ids_each(begins: bool, carries: bool) -> nat {
    (if begins {
        0nat
    } else {
        1nat
    }) + (if carries {
        1nat
    } else {
        0nat
    })
}

/// The piece of a note that sounds through a segment of the given length.
/// Where the note begins with the segment, the piece is the note itself,
/// with its identifier and modifications; a later piece has the identifier
/// `first` and no modification. A piece that the note outlasts is tied to
/// the next by a tie with the next identifier.
pub open(crate) spec fn piece(
    note: NoteView,
    begins: bool,
    carries: bool,
    length: Duration,
    first: int,
) -> NoteView {
    let kept = if begins {
        note.modifications
    } else {
        Seq::empty()
    };
    let tie = NoteModification::made(
        (if begins {
            first
        } else {
            first + 1
        }) as usize,
        NoteModificationType::Tie,
    );
    NoteView {
        id: if begins {
            note.id
        } else {
            first as usize
        },
        pitch: note.pitch,
        duration: length,
        accidental: note.accidental,
        modifications: if carries {
            kept.push(tie)
        } else {
            kept
        },
    }
}

/// The rest that fills a segment in which nothing sounds.
pub open spec fn rest_of(id: usize, length: Duration) -> NoteView {
    NoteView {
        id,
        pitch: Pitch { name: PitchName::Rest, octave: 0 },
        duration: length,
        accidental: Accidental::Unmarked,
        modifications: Seq::empty(),
    }
}

impl SoundingView {
    /// Whether the notes sound through the segment: they have begun where
    /// it begins, and have not ended there.
    pub open(crate) spec fn sounds_in(self, segment: Segment) -> bool {
        self.start.value() <= segment.start.value() && segment.start.value() < self.end.value()
    }

    /// Whether the notes begin where the segment begins.
    pub open(crate) spec fn begins(self, segment: Segment) -> bool {
        self.start.value() == segment.start.value()
    }

    /// Whether the notes go on after the segment.
    pub open(crate) spec fn carries(self, segment: Segment) -> bool {
        segment.end.value() < self.end.value()
    }

    /// How many new identifiers the pieces of the notes take in the segment.
    pub open(crate) spec fn note_ids(self, segment: Segment) -> nat {
        self.notes.len() * ids_each(self.begins(segment), self.carries(segment))
    }

    /// The pieces of the first `upto` notes in the segment, new identifiers
    /// from `first` on.
    pub open(crate) spec fn pieces(self, segment: Segment, first: int, upto: int) -> Seq<NoteView>
        decreases upto,
    {
        if upto <= 0 {
            Seq::empty()
        } else {
            self.pieces(segment, first, upto - 1).push(
                piece(
                    self.notes[upto - 1],
                    self.begins(segment),
                    self.carries(segment),
                    segment.length,
                    first + (upto - 1) * ids_each(self.begins(segment), self.carries(segment)),
                ),
            )
        }
    }
}

/// How many notes of the first `upto` soundings sound through the segment.
pub open(crate) spec fn sounding_count(soundings: Seq<SoundingView>, segment: Segment, upto: int) -> nat
    decreases upto,
{
    if upto <= 0 {
        0
    } else if soundings[upto - 1].sounds_in(segment) {
        sounding_count(soundings, segment, upto - 1) + soundings[upto - 1].notes.len()
    } else {
        sounding_count(soundings, segment, upto - 1)
    }
}

/// How many new identifiers the pieces of the first `upto` soundings take
/// in the segment.
pub open(crate) spec fn segment_ids(soundings: Seq<SoundingView>, segment: Segment, upto: int) -> nat
    decreases upto,
{
    if upto <= 0 {
        0
    } else if soundings[upto - 1].sounds_in(segment) {
        segment_ids(soundings, segment, upto - 1) + soundings[upto - 1].note_ids(segment)
    } else {
        segment_ids(soundings, segment, upto - 1)
    }
}

/// The pieces of the first `upto` soundings in the segment, sounding by
/// sounding, new identifiers from `first` on.
pub open(crate) spec fn segment_pieces(
    soundings: Seq<SoundingView>,
    segment: Segment,
    first: int,
    upto: int,
) -> Seq<NoteView>
    decreases upto,
{
    if upto <= 0 {
        Seq::empty()
    } else if soundings[upto - 1].sounds_in(segment) {
        segment_pieces(soundings, segment, first, upto - 1) + soundings[upto - 1].pieces(
            segment,
            first + segment_ids(soundings, segment, upto - 1),
            soundings[upto - 1].notes.len() as int,
        )
    } else {
        segment_pieces(soundings, segment, first, upto - 1)
    }
}

/// How many new identifiers the chord of a segment takes: one for the
/// chord, those of its pieces, and one for a rest where nothing sounds.
pub open(crate) spec fn chord_ids(soundings: Seq<SoundingView>, segment: Segment) -> nat {
    1 + segment_ids(soundings, segment, soundings.len() as int) + (if sounding_count(
        soundings,
        segment,
        soundings.len() as int,
    ) == 0 {
        1nat
    } else {
        0nat
    })
}

/// The chord of a segment: the pieces of all that sounds through it, or a
/// rest where nothing does. The chord has the identifier `first`, and what
/// is new in it the identifiers that follow.
pub open(crate) spec fn segment_chord(
    soundings: Seq<SoundingView>,
    segment: Segment,
    first: int,
) -> ChordView {
    ChordView {
        id: first as usize,
        notes: if sounding_count(soundings, segment, soundings.len() as int) == 0 {
            seq![
                rest_of(
                    (first + 1 + segment_ids(soundings, segment, soundings.len() as int)) as usize,
                    segment.length,
                ),
            ]
        } else {
            segment_pieces(soundings, segment, first + 1, soundings.len() as int)
        },
    }
}

/// How many new identifiers the chords of the first `upto` segments take.
pub open(crate) spec fn plan_ids(plan: PlanView, upto: int) -> nat
    decreases upto,
{
    if upto <= 0 {
        0
    } else {
        plan_ids(plan, upto - 1) + chord_ids(plan.soundings, plan.segments[upto - 1])
    }
}

/// The chords of the segments, one after the other, identifiers from
/// `first` on.
pub open(crate) spec fn plan_content(plan: PlanView, first: int) -> Seq<PhraseContentView> {
    Seq::new(
        plan.segments.len(),
        |k: int|
            PhraseContentView::Chord(
                segment_chord(plan.soundings, plan.segments[k], first + plan_ids(plan, k)),
            ),
    )
}

/// The phrase that a plan gives: the chords of its segments, under the
/// given identifier and without modifications.
pub open(crate) spec fn cut_phrase(id: usize, plan: PlanView, first: int) -> PhraseView {
    PhraseView { id, content: plan_content(plan, first), modifications: Seq::empty() }
}

/// The identifiers that a segment takes do not become fewer with more
/// soundings.
pub proof fn lemma_segment_ids_grow(
    soundings: Seq<SoundingView>,
    segment: Segment,
    fewer: int,
    more: int,
)
    requires
        fewer <= more,
    ensures
        segment_ids(soundings, segment, fewer) <= segment_ids(soundings, segment, more),
    decreases more - fewer,
{
    if fewer < more {
        lemma_segment_ids_grow(soundings, segment, fewer, more - 1);
    }
}

/// The identifiers that a plan takes do not become fewer with more
/// segments.
pub proof fn lemma_plan_ids_grow(plan: PlanView, fewer: int, more: int)
    requires
        fewer <= more,
    ensures
        plan_ids(plan, fewer) <= plan_ids(plan, more),
    decreases more - fewer,
{
    if fewer < more {
        lemma_plan_ids_grow(plan, fewer, more - 1);
    }
}

impl Sounding {
    /// Whether the notes sound through the segment.
    fn sounds_in(&self, segment: &Segment) -> (r: bool)
        ensures
            r == self@.sounds_in(*segment),
    {
        !segment.start.is_less_than(&self.start) && segment.start.is_less_than(&self.end)
    }

    /// How many new identifiers the pieces of the notes take in the
    /// segment, or the greatest number that the machine holds.
    fn count_note_ids(&self, segment: &Segment) -> (r: usize)
        ensures
            r == capped(self@.note_ids(*segment)),
    {
        let begins = self.start.is_equal_to(&segment.start);
        let carries = segment.end.is_less_than(&self.end);
        let ghost count = self.notes@.len();
        proof {
            lemma_views(self.notes@, 0, self.notes@[0]);
            assert(count * 0 == 0 && count * 1 == count && count * 2 == count + count)
                by (nonlinear_arith);
        }
        let once: usize = if begins {
            0
        } else {
            self.notes.len()
        };
        let again: usize = if carries {
            self.notes.len()
        } else {
            0
        };
        add_capped(
            once,
            again,
            Ghost(if begins { 0nat } else { count }),
            Ghost(if carries { count } else { 0nat }),
        )
    }
}

/// The piece of a note for a segment of the given length.
fn make_piece(
    note: &Note,
    begins: bool,
    carries: bool,
    length: Duration,
    registry: &mut IdRegistry,
) -> (r: Note)
    requires
        old(registry).spec_remaining() >= ids_each(begins, carries),
    ensures
        r@ == piece(note@, begins, carries, length, old(registry).next_id() as int),
        *final(registry) == old(registry).after(ids_each(begins, carries)),
{
    let mut made = note.clone();
    made.duration = length;
    if !begins {
        made.id = registry.generate_id();
        made.modifications = Vec::new();
    }
    if carries {
        let tie = NoteModification::new(registry, NoteModificationType::Tie);
        made.modifications.push(tie);
    }
    made
}

/// Puts the pieces of what sounds through the segment at the end of
/// `notes`.
fn add_pieces(
    sounding: &Sounding,
    segment: &Segment,
    registry: &mut IdRegistry,
    notes: &mut Vec<Note>,
)
    requires
        old(registry).spec_remaining() >= sounding@.note_ids(*segment),
    ensures
        views(final(notes)@) == views(old(notes)@) + sounding@.pieces(
            *segment,
            old(registry).next_id() as int,
            sounding@.notes.len() as int,
        ),
        *final(registry) == old(registry).after(sounding@.note_ids(*segment)),
{
    let begins = sounding.start.is_equal_to(&segment.start);
    let carries = segment.end.is_less_than(&sounding.end);
    let ghost first = registry.next_id() as int;
    let ghost each = ids_each(begins, carries);
    let ghost view = sounding@;
    let mut i: usize = 0;
    proof {
        lemma_views(sounding.notes@, 0, sounding.notes@[0]);
        assert(views(notes@) =~= views(old(notes)@) + view.pieces(*segment, first, 0));
        assert(0 * each == 0) by (nonlinear_arith);
    }
    while i < sounding.notes.len()
        invariant
            i <= sounding.notes.len(),
            view == sounding@,
            view.notes.len() == sounding.notes.len(),
            begins == view.begins(*segment),
            carries == view.carries(*segment),
            each == ids_each(begins, carries),
            first == old(registry).next_id(),
            old(registry).spec_remaining() >= sounding.notes.len() * each,
            registry.next_id() == first + i * each,
            views(notes@) == views(old(notes)@) + view.pieces(*segment, first, i as int),
        decreases sounding.notes.len() - i,
    {
        proof {
            assert((i + 1) * each == i * each + each) by (nonlinear_arith);
            assert((i + 1) * each <= sounding.notes.len() * each) by (nonlinear_arith)
                requires
                    i + 1 <= sounding.notes.len(),
                    each >= 0,
            ;
        }
        let made = make_piece(&sounding.notes[i], begins, carries, segment.length, registry);
        proof {
            lemma_views(notes@, 0, made);
            assert(view.notes[i as int] == sounding.notes@[i as int]@);
            assert(view.pieces(*segment, first, i + 1) == view.pieces(*segment, first, i as int).push(
                made@,
            ));
            assert(views(notes@.push(made)) =~= views(old(notes)@) + view.pieces(
                *segment,
                first,
                i + 1,
            ));
        }
        notes.push(made);
        i += 1;
    }
}

impl Plan {
    /// How many new identifiers the chord of segment `k` takes, or the
    /// greatest number that the machine holds.
    fn count_chord_ids(&self, k: usize) -> (r: usize)
        requires
            k < self.segments.len(),
        ensures
            r == capped(chord_ids(self@.soundings, self@.segments[k as int])),
    {
        let segment = self.segments[k];
        let ghost soundings = self@.soundings;
        let mut ids: usize = 0;
        let mut sounding: usize = 0;
        let mut s: usize = 0;
        proof {
            lemma_views(self.soundings@, 0, self.soundings@[0]);
        }
        while s < self.soundings.len()
            invariant
                s <= self.soundings.len(),
                soundings == self@.soundings,
                soundings.len() == self.soundings.len(),
                ids == capped(segment_ids(soundings, segment, s as int)),
                sounding == capped(sounding_count(soundings, segment, s as int)),
            decreases self.soundings.len() - s,
        {
            if self.soundings[s].sounds_in(&segment) {
                proof {
                    lemma_views(self.soundings[s as int].notes@, 0, self.soundings[s as int].notes@[0]);
                }
                ids = add_capped(
                    ids,
                    self.soundings[s].count_note_ids(&segment),
                    Ghost(segment_ids(soundings, segment, s as int)),
                    Ghost(soundings[s as int].note_ids(segment)),
                );
                sounding = add_capped(
                    sounding,
                    self.soundings[s].notes.len(),
                    Ghost(sounding_count(soundings, segment, s as int)),
                    Ghost(soundings[s as int].notes.len()),
                );
            }
            s += 1;
        }
        let rest: usize = if sounding == 0 {
            1
        } else {
            0
        };
        let pieces = add_capped(
            ids,
            rest,
            Ghost(segment_ids(soundings, segment, s as int)),
            Ghost(rest as nat),
        );
        add_capped(
            1,
            pieces,
            Ghost(1nat),
            Ghost(segment_ids(soundings, segment, s as int) + rest as nat),
        )
    }

    /// How many new identifiers the chords of the plan take, or the
    /// greatest number that the machine holds.
    pub(crate) fn count_ids(&self) -> (r: usize)
        ensures
            r == capped(plan_ids(self@, self@.segments.len() as int)),
    {
        let mut ids: usize = 0;
        let mut k: usize = 0;
        while k < self.segments.len()
            invariant
                k <= self.segments.len(),
                ids == capped(plan_ids(self@, k as int)),
            decreases self.segments.len() - k,
        {
            ids = add_capped(
                ids,
                self.count_chord_ids(k),
                Ghost(plan_ids(self@, k as int)),
                Ghost(chord_ids(self@.soundings, self@.segments[k as int])),
            );
            k += 1;
        }
        ids
    }

    /// The chord of segment `k`.
    fn make_chord(&self, k: usize, registry: &mut IdRegistry) -> (r: Chord)
        requires
            k < self.segments.len(),
            old(registry).spec_remaining() >= chord_ids(self@.soundings, self@.segments[k as int]),
        ensures
            r@ == segment_chord(
                self@.soundings,
                self@.segments[k as int],
                old(registry).next_id() as int,
            ),
            *final(registry) == old(registry).after(
                chord_ids(self@.soundings, self@.segments[k as int]),
            ),
    {
        let segment = self.segments[k];
        let ghost soundings = self@.soundings;
        let ghost all = soundings.len() as int;
        let id = registry.generate_id();
        let ghost first = registry.next_id() as int;
        let mut notes: Vec<Note> = Vec::new();
        let mut s: usize = 0;
        proof {
            lemma_views(self.soundings@, 0, self.soundings@[0]);
            assert(views(notes@) =~= segment_pieces(soundings, segment, first, 0));
        }
        while s < self.soundings.len()
            invariant
                s <= self.soundings.len(),
                soundings == self@.soundings,
                all == self.soundings.len(),
                all == soundings.len(),
                first == old(registry).next_id() + 1,
                old(registry).spec_remaining() >= chord_ids(soundings, segment),
                registry.next_id() == first + segment_ids(soundings, segment, s as int),
                views(notes@) == segment_pieces(soundings, segment, first, s as int),
                notes.len() == sounding_count(soundings, segment, s as int),
            decreases self.soundings.len() - s,
        {
            if self.soundings[s].sounds_in(&segment) {
                proof {
                    lemma_segment_ids_grow(soundings, segment, s + 1, all);
                    lemma_pieces_last(
                        soundings[s as int],
                        segment,
                        registry.next_id() as int,
                        soundings[s as int].notes.len() as int,
                    );
                    lemma_views(notes@, 0, self.soundings[s as int].notes@[0]);
                }
                let ghost before = notes@;
                add_pieces(&self.soundings[s], &segment, registry, &mut notes);
                proof {
                    lemma_views(notes@, 0, self.soundings[s as int].notes@[0]);
                    lemma_views(before, 0, self.soundings[s as int].notes@[0]);
                }
            }
            s += 1;
        }
        if notes.len() == 0 {
            let rest = Note::new(registry, Pitch::new_rest(), segment.length, None);
            proof {
                lemma_views(notes@, 0, rest);
                assert(views(notes@.push(rest)) =~= seq![rest@]);
            }
            notes.push(rest);
        }
        Chord { id, notes }
    }

    /// The phrase that the plan gives, under the given identifier.
    pub(crate) fn make_phrase(&self, id: usize, registry: &mut IdRegistry) -> (r: Phrase)
        requires
            old(registry).spec_remaining() >= plan_ids(self@, self@.segments.len() as int),
        ensures
            r@ == cut_phrase(id, self@, old(registry).next_id() as int),
            *final(registry) == old(registry).after(plan_ids(self@, self@.segments.len() as int)),
    {
        let ghost first = registry.next_id() as int;
        let ghost wanted = plan_content(self@, first);
        let mut content: Vec<PhraseContent> = Vec::new();
        let mut k: usize = 0;
        proof {
            assert(content_views(content@) =~= wanted.take(0));
        }
        while k < self.segments.len()
            invariant
                k <= self.segments.len(),
                first == old(registry).next_id(),
                wanted == plan_content(self@, first),
                old(registry).spec_remaining() >= plan_ids(self@, self@.segments.len() as int),
                registry.next_id() == first + plan_ids(self@, k as int),
                content_views(content@) == wanted.take(k as int),
            decreases self.segments.len() - k,
        {
            proof {
                lemma_plan_ids_grow(self@, k + 1, self@.segments.len() as int);
            }
            let chord = self.make_chord(k, registry);
            let item = PhraseContent::Chord(chord);
            proof {
                lemma_content_views(content@, 0, item);
                assert(item@ == PhraseContentView::Chord(chord@));
                assert(wanted.take(k as int).push(item@) =~= wanted.take(k + 1));
            }
            content.push(item);
            k += 1;
        }
        let r = Phrase { id, content, modifications: Vec::new() };
        proof {
            r.lemma_view();
            assert(wanted.take(k as int) == wanted);
            assert(r@.modifications =~= Seq::empty());
        }
        r
    }
}


/// Every piece lasts as long as its segment.
pub proof fn lemma_pieces_last(sounding: SoundingView, segment: Segment, first: int, upto: int)
    requires
        0 <= upto,
    ensures
        sounding.pieces(segment, first, upto).len() == upto,
        forall|i: int|
            0 <= i < upto ==> (#[trigger] sounding.pieces(segment, first, upto)[i]).duration
                == segment.length,
    decreases upto,
{
    if upto > 0 {
        lemma_pieces_last(sounding, segment, first, upto - 1);
    }
}

/// The pieces in a segment are as many as the notes that sound through it,
/// and each lasts as long as the segment.
pub proof fn lemma_segment_pieces_last(
    soundings: Seq<SoundingView>,
    segment: Segment,
    first: int,
    upto: int,
)
    requires
        0 <= upto,
    ensures
        segment_pieces(soundings, segment, first, upto).len() == sounding_count(
            soundings,
            segment,
            upto,
        ),
        forall|i: int|
            0 <= i < segment_pieces(soundings, segment, first, upto).len() ==> (
            #[trigger] segment_pieces(soundings, segment, first, upto)[i]).duration
                == segment.length,
    decreases upto,
{
    if upto > 0 {
        lemma_segment_pieces_last(soundings, segment, first, upto - 1);
        if soundings[upto - 1].sounds_in(segment) {
            lemma_pieces_last(
                soundings[upto - 1],
                segment,
                first + segment_ids(soundings, segment, upto - 1),
                soundings[upto - 1].notes.len() as int,
            );
        }
    }
}

/// The chord of a segment is as long as the segment.
pub proof fn lemma_segment_chord_lasts(
    soundings: Seq<SoundingView>,
    segment: Segment,
    base: Duration,
    first: int,
)
    ensures
        segment_chord(soundings, segment, first).beats(base, None) == duration_beats(
            segment.length,
            base,
        ),
{
    let chord = segment_chord(soundings, segment, first);
    lemma_segment_pieces_last(soundings, segment, first + 1, soundings.len() as int);
    assert(chord.notes.len() > 0);
    assert(chord.uniform());
    assert(chord.notes[0].duration == segment.length);
}

/// The chords of a plan are together as long as its segments, from any
/// position on.
pub proof fn lemma_plan_content_lasts(
    plan: PlanView,
    base: Duration,
    first: int,
    from: int,
    so_far: Fraction,
)
    requires
        0 <= from <= plan.segments.len(),
    ensures
        PhraseView::sum_beats(plan_content(plan, first), base, None, from, so_far) == plan_beats(
            plan.segments,
            base,
            from,
            so_far,
        ),
    decreases plan.segments.len() - from,
{
    let content = plan_content(plan, first);
    if from < plan.segments.len() {
        lemma_segment_chord_lasts(
            plan.soundings,
            plan.segments[from],
            base,
            first + plan_ids(plan, from),
        );
        assert(content[from] == PhraseContentView::Chord(
            segment_chord(plan.soundings, plan.segments[from], first + plan_ids(plan, from)),
        ));
        match duration_beats(plan.segments[from].length, base) {
            Err(_) => {},
            Ok(length) => match so_far.spec_add(length) {
                None => {},
                Some(sum) => {
                    lemma_plan_content_lasts(plan, base, first, from + 1, sum);
                },
            },
        }
    }
}

/// The phrase that a plan gives is as long as the segments of the plan
/// together, to the letter.
pub proof fn lemma_cut_is_as_long(
    id: usize,
    plan: PlanView,
    base: Duration,
    first: int,
    length: Fraction,
)
    requires
        plan_beats(plan.segments, base, 0, Fraction::spec_zero()) == Ok::<Fraction, TimingError>(
            length,
        ),
    ensures
        cut_phrase(id, plan, first).beats(base, None) == Ok::<Fraction, TimingError>(length),
        cut_phrase(id, plan, first).tuplet() is None,
{
    let phrase = cut_phrase(id, plan, first);
    assert(phrase.tuplet() is None);
    lemma_plan_content_lasts(plan, base, first, 0, Fraction::spec_zero());
}


/// Whether every identifier in the notes of the soundings lies below the
/// bound.
pub open spec fn notes_below(soundings: Seq<SoundingView>, bound: int) -> bool {
    forall|s: int, n: int|
        0 <= s < soundings.len() && 0 <= n < soundings[s].notes.len() ==> (
        #[trigger] soundings[s].notes[n]).below(bound)
}

/// What sounds in a phrase has its identifiers below a bound below which
/// the phrase has them.
pub proof fn lemma_soundings_below(
    phrase: PhraseView,
    base: Duration,
    ratio: Option<Fraction>,
    start: Fraction,
    bound: int,
)
    requires
        phrase.below(bound),
        phrase.soundings(base, ratio, start) is Ok,
    ensures
        notes_below(phrase.soundings(base, ratio, start).unwrap().soundings, bound),
    decreases phrase,
{
    let inner = phrase.inner_ratio(ratio).unwrap();
    assert forall|i: int, id: usize|
        0 <= i < phrase.content.len() && #[trigger] child_has_id(
            phrase.content[i],
            id,
        ) implies id < bound by {
        lemma_has_id_in_some_child(phrase.content, id, 0);
        assert(phrase.has_id(id));
    }
    lemma_soundings_in_below(
        phrase.content,
        base,
        inner,
        0,
        Run { soundings: Seq::empty(), end: start },
        bound,
    );
}

/// What sounds in the children of a phrase has its identifiers below a
/// bound below which the children have them.
pub proof fn lemma_soundings_in_below(
    items: Seq<PhraseContentView>,
    base: Duration,
    ratio: Option<Fraction>,
    from: int,
    so_far: Run,
    bound: int,
)
    requires
        0 <= from,
        forall|i: int, id: usize|
            from <= i < items.len() && #[trigger] child_has_id(items[i], id) ==> id < bound,
        notes_below(so_far.soundings, bound),
        PhraseView::soundings_in(items, base, ratio, from, so_far) is Ok,
    ensures
        notes_below(PhraseView::soundings_in(items, base, ratio, from, so_far).unwrap().soundings, bound),
    decreases items, items.len() - from,
{
    if from < items.len() {
        let run = (match items[from] {
            PhraseContentView::Note(note) => leaf_run(seq![note], so_far.end, note.beats(base, ratio)),
            PhraseContentView::Chord(chord) => leaf_run(
                chord.notes,
                so_far.end,
                chord.beats(base, ratio),
            ),
            PhraseContentView::Phrase(phrase) => phrase.soundings(base, ratio, so_far.end),
        }).unwrap();
        match items[from] {
            PhraseContentView::Note(note) => {
                assert forall|id: usize| #[trigger] note.has_id(id) implies id < bound by {
                    assert(child_has_id(items[from], id));
                }
                assert(notes_below(run.soundings, bound));
            },
            PhraseContentView::Chord(chord) => {
                assert forall|n: int| 0 <= n < chord.notes.len() implies (
                #[trigger] chord.notes[n]).below(bound) by {
                    assert forall|id: usize| #[trigger] chord.notes[n].has_id(id) implies id
                        < bound by {
                        assert(chord.has_id(id));
                        assert(child_has_id(items[from], id));
                    }
                }
                assert(notes_below(run.soundings, bound));
            },
            PhraseContentView::Phrase(phrase) => {
                assert forall|id: usize| #[trigger] phrase.has_id(id) implies id < bound by {
                    assert(child_has_id(items[from], id));
                }
                lemma_soundings_below(phrase, base, ratio, so_far.end, bound);
            },
        }
        let next = Run { soundings: so_far.soundings + run.soundings, end: run.end };
        lemma_notes_below_together(so_far.soundings, run.soundings, bound);
        lemma_soundings_in_below(items, base, ratio, from + 1, next, bound);
    }
}

/// Soundings put one after the other have their identifiers below a bound
/// below which both have them.
pub proof fn lemma_notes_below_together(
    first: Seq<SoundingView>,
    second: Seq<SoundingView>,
    bound: int,
)
    requires
        notes_below(first, bound),
        notes_below(second, bound),
    ensures
        notes_below(first + second, bound),
{
    let both = first + second;
    assert forall|s: int, n: int|
        0 <= s < both.len() && 0 <= n < both[s].notes.len() implies (#[trigger] both[s].notes[n]).below(
        bound,
    ) by {
        if s < first.len() {
            assert(both[s] == first[s]);
            assert(first[s].notes[n].below(bound));
        } else {
            assert(both[s] == second[s - first.len()]);
            assert(second[s - first.len()].notes[n].below(bound));
        }
    }
}

/// What sounds in voices has its identifiers below a bound below which the
/// voices have them.
pub proof fn lemma_voice_soundings_below(
    voices: Seq<PhraseView>,
    base: Duration,
    from: int,
    so_far: Run,
    bound: int,
)
    requires
        0 <= from,
        forall|v: int| from <= v < voices.len() ==> (#[trigger] voices[v]).below(bound),
        notes_below(so_far.soundings, bound),
        MultiVoiceView::soundings_of(voices, base, from, so_far) is Ok,
    ensures
        notes_below(MultiVoiceView::soundings_of(voices, base, from, so_far).unwrap().soundings, bound),
    decreases voices.len() - from,
{
    if from < voices.len() {
        let run = voices[from].soundings(base, None, Fraction::spec_zero()).unwrap();
        assert(voices[from].below(bound));
        lemma_soundings_below(voices[from], base, None, Fraction::spec_zero(), bound);
        lemma_notes_below_together(so_far.soundings, run.soundings, bound);
        lemma_voice_soundings_below(
            voices,
            base,
            from + 1,
            Run { soundings: so_far.soundings + run.soundings, end: so_far.end.spec_max(run.end) },
            bound,
        );
    }
}

/// A piece has its identifiers below what follows the identifiers that it
/// takes.
pub proof fn lemma_piece_below(
    note: NoteView,
    begins: bool,
    carries: bool,
    length: Duration,
    first: int,
    bound: int,
)
    requires
        note.below(bound),
        0 <= bound <= first,
        first + ids_each(begins, carries) <= usize::MAX,
    ensures
        piece(note, begins, carries, length, first).below(first + ids_each(begins, carries)),
{
    let made = piece(note, begins, carries, length, first);
    assert forall|id: usize| #[trigger] made.has_id(id) implies id < first + ids_each(
        begins,
        carries,
    ) by {
        if made.id == id {
            if begins {
                assert(note.has_id(id));
            }
        } else {
            let i = choose|i: int|
                0 <= i < made.modifications.len() && (#[trigger] made.modifications[i]).spec_id()
                    == id;
            if begins && i < note.modifications.len() {
                assert(made.modifications[i] == note.modifications[i]);
                assert(note.has_id(id));
            }
        }
    }
}

/// The pieces of what sounds have their identifiers below what follows the
/// identifiers that they take.
pub proof fn lemma_pieces_below(
    sounding: SoundingView,
    segment: Segment,
    first: int,
    upto: int,
    bound: int,
)
    requires
        0 <= upto <= sounding.notes.len(),
        forall|n: int| 0 <= n < sounding.notes.len() ==> (#[trigger] sounding.notes[n]).below(bound),
        0 <= bound <= first,
        first + upto * ids_each(sounding.begins(segment), sounding.carries(segment)) <= usize::MAX,
    ensures
        sounding.pieces(segment, first, upto).len() == upto,
        forall|i: int|
            0 <= i < upto ==> (#[trigger] sounding.pieces(segment, first, upto)[i]).below(
                first + upto * ids_each(sounding.begins(segment), sounding.carries(segment)),
            ),
    decreases upto,
{
    let each = ids_each(sounding.begins(segment), sounding.carries(segment));
    if upto > 0 {
        assert((upto - 1) * each + each == upto * each) by (nonlinear_arith);
        assert(0 <= (upto - 1) * each) by (nonlinear_arith)
            requires
                upto >= 1,
                each >= 0,
        ;
        lemma_pieces_below(sounding, segment, first, upto - 1, bound);
        lemma_piece_below(
            sounding.notes[upto - 1],
            sounding.begins(segment),
            sounding.carries(segment),
            segment.length,
            first + (upto - 1) * each,
            bound,
        );
        let all = sounding.pieces(segment, first, upto);
        assert forall|i: int| 0 <= i < upto implies (#[trigger] all[i]).below(
            first + upto * each,
        ) by {
            if i < upto - 1 {
                assert(all[i] == sounding.pieces(segment, first, upto - 1)[i]);
                assert(all[i].below(first + (upto - 1) * each));
            }
        }
    }
}

/// The pieces in a segment have their identifiers below what follows the
/// identifiers that they take.
pub proof fn lemma_segment_pieces_below(
    soundings: Seq<SoundingView>,
    segment: Segment,
    first: int,
    upto: int,
    bound: int,
)
    requires
        0 <= upto <= soundings.len(),
        notes_below(soundings, bound),
        0 <= bound <= first,
        first + segment_ids(soundings, segment, upto) <= usize::MAX,
    ensures
        forall|i: int|
            0 <= i < segment_pieces(soundings, segment, first, upto).len() ==> (
            #[trigger] segment_pieces(soundings, segment, first, upto)[i]).below(
                first + segment_ids(soundings, segment, upto),
            ),
    decreases upto,
{
    if upto > 0 {
        lemma_segment_pieces_below(soundings, segment, first, upto - 1, bound);
        let before = segment_pieces(soundings, segment, first, upto - 1);
        let sounding = soundings[upto - 1];
        if sounding.sounds_in(segment) {
            let from = first + segment_ids(soundings, segment, upto - 1);
            assert forall|n: int| 0 <= n < sounding.notes.len() implies (
            #[trigger] sounding.notes[n]).below(bound) by {
                assert(soundings[upto - 1].notes[n].below(bound));
            }
            lemma_pieces_below(sounding, segment, from, sounding.notes.len() as int, bound);
            let here = sounding.pieces(segment, from, sounding.notes.len() as int);
            let all = segment_pieces(soundings, segment, first, upto);
            assert forall|i: int| 0 <= i < all.len() implies (#[trigger] all[i]).below(
                first + segment_ids(soundings, segment, upto),
            ) by {
                if i < before.len() {
                    assert(all[i] == before[i]);
                    assert(before[i].below(first + segment_ids(soundings, segment, upto - 1)));
                } else {
                    assert(all[i] == here[i - before.len()]);
                }
            }
        }
    }
}

/// The chord of a segment has its identifiers below what follows the
/// identifiers that it takes.
pub proof fn lemma_segment_chord_below(
    soundings: Seq<SoundingView>,
    segment: Segment,
    first: int,
    bound: int,
)
    requires
        notes_below(soundings, bound),
        0 <= bound <= first,
        first + chord_ids(soundings, segment) <= usize::MAX,
    ensures
        segment_chord(soundings, segment, first).below(first + chord_ids(soundings, segment)),
{
    let chord = segment_chord(soundings, segment, first);
    let all = soundings.len() as int;
    lemma_segment_pieces_below(soundings, segment, first + 1, all, bound);
    lemma_segment_pieces_last(soundings, segment, first + 1, all);
    assert forall|id: usize| #[trigger] chord.has_id(id) implies id < first + chord_ids(
        soundings,
        segment,
    ) by {
        if chord.id != id {
            let i = choose|i: int| 0 <= i < chord.notes.len() && (#[trigger] chord.notes[i]).has_id(id);
            if sounding_count(soundings, segment, all) == 0 {
                assert(chord.notes[i] == rest_of(
                    (first + 1 + segment_ids(soundings, segment, all)) as usize,
                    segment.length,
                ));
            } else {
                assert(chord.notes[i].below(first + 1 + segment_ids(soundings, segment, all)));
            }
        }
    }
}

/// The phrase that a plan gives has its identifiers below what follows the
/// identifiers that it takes, where its own identifier and those of what
/// sounds lie below the first of them.
pub proof fn lemma_cut_stays_below(id: usize, plan: PlanView, first: int)
    requires
        0 <= first,
        id < first,
        notes_below(plan.soundings, first),
        first + plan_ids(plan, plan.segments.len() as int) <= usize::MAX,
    ensures
        cut_phrase(id, plan, first).below(first + plan_ids(plan, plan.segments.len() as int)),
{
    let phrase = cut_phrase(id, plan, first);
    let all = plan.segments.len() as int;
    assert forall|other: usize| #[trigger] phrase.has_id(other) implies other < first + plan_ids(
        plan,
        all,
    ) by {
        if phrase.id != other {
            assert(PhraseView::has_id_in(phrase.content, other, 0));
            lemma_has_id_in_some_child(phrase.content, other, 0);
            let k = choose|k: int|
                0 <= k < phrase.content.len() && child_has_id(#[trigger] phrase.content[k], other);
            lemma_plan_ids_grow(plan, k + 1, all);
            lemma_plan_ids_grow(plan, 0, k);
            lemma_segment_chord_below(
                plan.soundings,
                plan.segments[k],
                first + plan_ids(plan, k),
                first,
            );
            let chord = segment_chord(plan.soundings, plan.segments[k], first + plan_ids(plan, k));
            assert(phrase.content[k] == PhraseContentView::Chord(chord));
            assert(chord.has_id(other));
        }
    }
}


/// Whether each cut is later than those before it.
#[verifier::opaque]
pub open spec fn increasing(cuts: Seq<Fraction>) -> bool {
    forall|i: int, j: int|
        0 <= i < j < cuts.len() ==> (#[trigger] cuts[i]).value() < (#[trigger] cuts[j]).value()
}

/// Whether a cut stands at the instant.
pub open spec fn cut_at(cuts: Seq<Fraction>, time: Fraction) -> bool {
    exists|k: int| 0 <= k < cuts.len() && (#[trigger] cuts[k]).value() == time.value()
}

/// The place found for an instant among increasing cuts lies after all
/// earlier cuts and before all later ones.
pub proof fn lemma_cut_place(cuts: Seq<Fraction>, time: Fraction, from: int)
    requires
        0 <= from <= cuts.len(),
        forall|i: int| 0 <= i < from ==> (#[trigger] cuts[i]).value() < time.value(),
    ensures
        from <= cut_position(cuts, time, from) <= cuts.len(),
        forall|i: int|
            0 <= i < cut_position(cuts, time, from) ==> (#[trigger] cuts[i]).value() < time.value(),
        cut_position(cuts, time, from) < cuts.len() ==> !(cuts[cut_position(
            cuts,
            time,
            from,
        )].value() < time.value()),
    decreases cuts.len() - from,
{
    if from < cuts.len() && cuts[from].value() < time.value() {
        lemma_cut_place(cuts, time, from + 1);
    }
}

/// Increasing cuts stay increasing with one more instant, which is then
/// among them, as are all that were.
pub proof fn lemma_with_cut(cuts: Seq<Fraction>, time: Fraction)
    requires
        increasing(cuts),
    ensures
        increasing(with_cut(cuts, time)),
        cut_at(with_cut(cuts, time), time),
        forall|k: int| 0 <= k < cuts.len() ==> cut_at(with_cut(cuts, time), #[trigger] cuts[k]),
{
    reveal(increasing);
    let at = cut_position(cuts, time, 0);
    let more = with_cut(cuts, time);
    lemma_cut_place(cuts, time, 0);
    if 0 <= at < cuts.len() && cuts[at].value() == time.value() {
        assert(more[at].value() == time.value());
        assert forall|k: int| 0 <= k < cuts.len() implies cut_at(more, #[trigger] cuts[k]) by {
            assert(more[k].value() == cuts[k].value());
        }
    } else {
        assert(more[at] == time);
        assert forall|i: int, j: int| 0 <= i < j < more.len() implies (#[trigger] more[i]).value() < (
        #[trigger] more[j]).value() by {
            if j < at {
                assert(more[i] == cuts[i] && more[j] == cuts[j]);
            } else if j == at {
                assert(more[i] == cuts[i]);
            } else if i < at {
                assert(more[i] == cuts[i] && more[j] == cuts[j - 1]);
                if at < j - 1 {
                    assert(cuts[at].value() < cuts[j - 1].value());
                }
                assert(cuts[i].value() < time.value());
            } else if i == at {
                assert(more[j] == cuts[j - 1]);
                if at < j - 1 {
                    assert(cuts[at].value() < cuts[j - 1].value());
                }
            } else {
                assert(more[i] == cuts[i - 1] && more[j] == cuts[j - 1]);
            }
        }
        assert forall|k: int| 0 <= k < cuts.len() implies cut_at(more, #[trigger] cuts[k]) by {
            if k < at {
                assert(more[k] == cuts[k]);
            } else {
                assert(more[k + 1] == cuts[k]);
            }
        }
    }
}

/// A cut stays where one more instant is put among the cuts.
pub proof fn lemma_cut_stays(cuts: Seq<Fraction>, more: Fraction, time: Fraction)
    requires
        increasing(cuts),
        cut_at(cuts, time),
    ensures
        cut_at(with_cut(cuts, more), time),
{
    let k = choose|k: int| 0 <= k < cuts.len() && (#[trigger] cuts[k]).value() == time.value();
    lemma_with_cut(cuts, more);
    assert(cut_at(with_cut(cuts, more), cuts[k]));
    let found = with_cut(cuts, more);
    let at = choose|at: int| 0 <= at < found.len() && (#[trigger] found[at]).value() == cuts[k].value();
    assert(found[at].value() == time.value());
}

/// The cuts of soundings increase, and there is one where each sounding
/// begins and one where it ends.
pub proof fn lemma_cuts_of(soundings: Seq<SoundingView>, upto: int)
    requires
        0 <= upto <= soundings.len(),
    ensures
        increasing(cuts_of(soundings, upto)),
        forall|s: int|
            0 <= s < upto ==> cut_at(cuts_of(soundings, upto), (#[trigger] soundings[s]).start)
                && cut_at(cuts_of(soundings, upto), soundings[s].end),
    decreases upto,
{
    if upto <= 0 {
        reveal(increasing);
    } else {
        lemma_cuts_of(soundings, upto - 1);
        let before = cuts_of(soundings, upto - 1);
        let last = soundings[upto - 1];
        let between = with_cut(before, last.start);
        lemma_with_cut(before, last.start);
        lemma_with_cut(between, last.end);
        lemma_cut_stays(between, last.end, last.start);
        assert forall|s: int| 0 <= s < upto implies cut_at(
            cuts_of(soundings, upto),
            (#[trigger] soundings[s]).start,
        ) && cut_at(cuts_of(soundings, upto), soundings[s].end) by {
            if s < upto - 1 {
                lemma_cut_stays(before, last.start, soundings[s].start);
                lemma_cut_stays(before, last.start, soundings[s].end);
                lemma_cut_stays(between, last.end, soundings[s].start);
                lemma_cut_stays(between, last.end, soundings[s].end);
            }
        }
    }
}

/// The difference of two instants, where it can be held, is more than
/// nothing where the first instant is the later.
pub proof fn lemma_difference_is_positive(later: Fraction, earlier: Fraction)
    requires
        earlier.value() < later.value(),
        later.spec_sub(earlier) is Some,
    ensures
        later.spec_sub(earlier).unwrap().numer() > 0,
{
    let (ln, ld, en, ed) = (
        later.numer() as int,
        later.denom() as int,
        earlier.numer() as int,
        earlier.denom() as int,
    );
    assert(ld > 0 && ed > 0) by (nonlinear_arith)
        requires
            ld * ed > 0,
            ld >= 0,
            ed >= 0,
    ;
    lemma_ratio_order(en, ed, ln, ld);
    let n = (ln * ed - en * ld) as nat;
    let d = (ld * ed) as nat;
    let found = reduced(n, d).unwrap();
    lemma_reduced_value(n, d);
    lemma_ratio_order(0, 1, n as int, d as int);
    lemma_ratio_whole(0);
    if found.numer() == 0 {
        lemma_ratio_order(0, 1, 0, found.denom() as int);
    }
}

/// Between increasing cuts there is a segment for every two neighbours.
pub proof fn lemma_segments_follow_cuts(cuts: Seq<Fraction>, unit: Fraction, upto: int)
    requires
        increasing(cuts),
        0 <= upto <= cuts.len() - 1,
        segments_upto(cuts, unit, upto) is Ok,
    ensures
        segments_upto(cuts, unit, upto).unwrap().len() == upto,
        forall|k: int|
            0 <= k < upto ==> (#[trigger] segments_upto(cuts, unit, upto).unwrap()[k]).start
                == cuts[k] && segments_upto(cuts, unit, upto).unwrap()[k].end == cuts[k + 1],
    decreases upto,
{
    if upto > 0 {
        lemma_segments_follow_cuts(cuts, unit, upto - 1);
        assert(cuts[upto - 1].value() < cuts[upto].value()) by {
            reveal(increasing);
        }
        lemma_difference_is_positive(cuts[upto], cuts[upto - 1]);
    }
}

/// The pieces of what sounds are the pieces of its notes, one by one.
pub proof fn lemma_pieces_of_notes(sounding: SoundingView, segment: Segment, first: int, upto: int)
    requires
        0 <= upto,
    ensures
        sounding.pieces(segment, first, upto).len() == upto,
        forall|n: int|
            0 <= n < upto ==> (#[trigger] sounding.pieces(segment, first, upto)[n]) == piece(
                sounding.notes[n],
                sounding.begins(segment),
                sounding.carries(segment),
                segment.length,
                first + n * ids_each(sounding.begins(segment), sounding.carries(segment)),
            ),
    decreases upto,
{
    if upto > 0 {
        lemma_pieces_of_notes(sounding, segment, first, upto - 1);
    }
}

/// Each note that sounds through a segment has a piece among the pieces of
/// the segment, with its pitch; where the note begins with the segment, the
/// piece has its identifier.
pub proof fn lemma_segment_holds_note(
    soundings: Seq<SoundingView>,
    segment: Segment,
    first: int,
    upto: int,
    s: int,
    n: int,
)
    requires
        0 <= s < upto <= soundings.len(),
        0 <= n < soundings[s].notes.len(),
        soundings[s].sounds_in(segment),
    ensures
        exists|i: int|
            0 <= i < segment_pieces(soundings, segment, first, upto).len() && (
            #[trigger] segment_pieces(soundings, segment, first, upto)[i]).pitch
                == soundings[s].notes[n].pitch && (soundings[s].begins(segment) ==> segment_pieces(
                soundings,
                segment,
                first,
                upto,
            )[i].id == soundings[s].notes[n].id),
    decreases upto,
{
    let all = segment_pieces(soundings, segment, first, upto);
    let before = segment_pieces(soundings, segment, first, upto - 1);
    if s < upto - 1 {
        lemma_segment_holds_note(soundings, segment, first, upto - 1, s, n);
        let i = choose|i: int|
            0 <= i < before.len() && (#[trigger] before[i]).pitch == soundings[s].notes[n].pitch && (
            soundings[s].begins(segment) ==> before[i].id == soundings[s].notes[n].id);
        assert(all[i] == before[i]);
    } else {
        let from = first + segment_ids(soundings, segment, upto - 1);
        lemma_pieces_of_notes(soundings[s], segment, from, soundings[s].notes.len() as int);
        let here = soundings[s].pieces(segment, from, soundings[s].notes.len() as int);
        assert(all[before.len() + n] == here[n]);
    }
}

impl MultiVoiceView {
    /// No note is lost where voices are cut: a note that sounds for some
    /// time stands in the chord of a segment that begins when the note
    /// begins, under its identifier and with its pitch.
    pub proof fn lemma_cut_keeps_every_note(self, base: Duration, first: int, s: int, n: int)
        requires
            self.cut_plan(base) is Ok,
            0 <= s < self.cut_plan(base).unwrap().soundings.len(),
            0 <= n < self.cut_plan(base).unwrap().soundings[s].notes.len(),
            self.cut_plan(base).unwrap().soundings[s].start.value() < self.cut_plan(
                base,
            ).unwrap().soundings[s].end.value(),
        ensures
            exists|k: int, i: int|
                0 <= k < self.cut(base, first).content.len() && k < self.cut_plan(
                    base,
                ).unwrap().segments.len() && self.cut_plan(base).unwrap().segments[k].start.value()
                    == self.cut_plan(base).unwrap().soundings[s].start.value() && (
                #[trigger] self.cut(base, first).content[k]) is Chord && 0 <= i < self.cut(
                    base,
                    first,
                ).content[k]->Chord_0.notes.len() && (#[trigger] self.cut(
                    base,
                    first,
                ).content[k]->Chord_0.notes[i]).id == self.cut_plan(
                    base,
                ).unwrap().soundings[s].notes[n].id && self.cut(
                    base,
                    first,
                ).content[k]->Chord_0.notes[i].pitch == self.cut_plan(
                    base,
                ).unwrap().soundings[s].notes[n].pitch,
    {
        let plan = self.cut_plan(base).unwrap();
        let soundings = plan.soundings;
        let all = soundings.len() as int;
        let cuts = cuts_of(soundings, all);
        let unit = base.spec_value().unwrap();
        let sounding = soundings[s];
        lemma_cuts_of(soundings, all);
        assert(cut_at(cuts, sounding.start) && cut_at(cuts, sounding.end));
        let k = choose|k: int| 0 <= k < cuts.len() && (#[trigger] cuts[k]).value() == sounding.start.value();
        let e = choose|e: int| 0 <= e < cuts.len() && (#[trigger] cuts[e]).value() == sounding.end.value();
        assert(k < e) by {
            reveal(increasing);
            if e < k {
                assert(cuts[e].value() < cuts[k].value());
            }
        }
        lemma_segments_follow_cuts(cuts, unit, cuts.len() - 1);
        let segment = plan.segments[k];
        assert(segment.start == cuts[k]);
        assert(sounding.sounds_in(segment) && sounding.begins(segment));
        let from = first + plan_ids(plan, k);
        lemma_segment_holds_note(soundings, segment, from + 1, all, s, n);
        lemma_segment_pieces_last(soundings, segment, from + 1, all);
        let pieces = segment_pieces(soundings, segment, from + 1, all);
        let i = choose|i: int|
            0 <= i < pieces.len() && (#[trigger] pieces[i]).pitch == sounding.notes[n].pitch && (
            sounding.begins(segment) ==> pieces[i].id == sounding.notes[n].id);
        let content = self.cut(base, first).content;
        let chord = segment_chord(soundings, segment, from);
        assert(content[k] == PhraseContentView::Chord(chord));
        assert(chord.notes[i] == pieces[i]);
        assert(content[k]->Chord_0.notes[i].id == sounding.notes[n].id);
    }
}


/// The difference of two instants, where it can be held, is exact.
pub proof fn lemma_difference_is_exact(later: Fraction, earlier: Fraction)
    requires
        later.spec_sub(earlier) is Some,
    ensures
        later.well_formed(),
        earlier.well_formed(),
        later.spec_sub(earlier).unwrap().well_formed(),
        later.spec_sub(earlier).unwrap().value() == later.value() - earlier.value(),
{
    let (a, b, c, d) = (
        later.numer() as int,
        later.denom() as int,
        earlier.numer() as int,
        earlier.denom() as int,
    );
    assert(b > 0 && d > 0) by (nonlinear_arith)
        requires
            b * d > 0,
            b >= 0,
            d >= 0,
    ;
    lemma_reduced_value((a * d - c * b) as nat, (b * d) as nat);
    assert(b as real * d as real == (b * d) as real) by (nonlinear_arith);
    assert(a as real / b as real - c as real / d as real == (a as real * d as real - c as real
        * b as real) / (b as real * d as real)) by (nonlinear_arith)
        requires
            b as real > 0real,
            d as real > 0real,
    ;
    assert((a * d - c * b) as real == a as real * d as real - c as real * b as real)
        by (nonlinear_arith);
}

/// A segment lasts, in beats, from its first instant to its second.
pub proof fn lemma_segment_lasts(
    start: Fraction,
    end: Fraction,
    unit: Fraction,
    base: Duration,
    segment: Segment,
)
    requires
        segment_between(start, end, unit) == Ok::<Option<Segment>, TimingError>(Some(segment)),
        base.spec_value() == Some(unit),
        duration_beats(segment.length, base) is Ok,
    ensures
        duration_beats(segment.length, base).unwrap().well_formed(),
        duration_beats(segment.length, base).unwrap().value() == end.value() - start.value(),
        start.well_formed(),
        end.well_formed(),
{
    let beats = end.spec_sub(start).unwrap();
    let whole = beats.spec_mul(unit).unwrap();
    lemma_difference_is_exact(end, start);
    lemma_value_is_positive(base);
    lemma_fraction_arithmetic(beats, unit);
    lemma_ratio_whole(0);
    lemma_ratio_order(0, 1, beats.numer() as int, beats.denom() as int);
    lemma_ratio_order(0, 1, unit.numer() as int, unit.denom() as int);
    let (b, u) = (beats.value(), unit.value());
    assert(b * u > 0real) by (nonlinear_arith)
        requires
            b > 0real,
            u > 0real,
    ;
    if whole.numer() == 0 {
        lemma_ratio_order(0, 1, 0, whole.denom() as int);
    }
    let length = segment.length;
    lemma2_to64();
    assert(length.numer() == whole.numer()) by (nonlinear_arith)
        requires
            length.numer() == whole.numer() * (2 - 1),
    ;
    assert(length.denom() == whole.denom()) by (nonlinear_arith)
        requires
            length.denom() == whole.denom() * 1,
    ;
    assert(length.whole_notes() == whole.value());
    lemma_beats_are_exact(length, base);
    assert((b * u) / u == b) by (nonlinear_arith)
        requires
            u > 0real,
    ;
}

/// The chords of a plan up to a position last, in beats, from the first cut
/// to the cut at that position.
pub proof fn lemma_chords_reach_cut(
    plan: PlanView,
    cuts: Seq<Fraction>,
    unit: Fraction,
    base: Duration,
    first: int,
    upto: int,
    from: int,
    so_far: Fraction,
)
    requires
        increasing(cuts),
        segments_upto(cuts, unit, cuts.len() - 1) == Ok::<Seq<Segment>, TimingError>(plan.segments),
        base.spec_value() == Some(unit),
        0 <= from <= upto <= plan.segments.len(),
        so_far.well_formed(),
        so_far.value() == cuts[from].value() - cuts[0].value(),
        PhraseView::sum_beats(plan_content(plan, first).take(upto), base, None, from, so_far) is Ok,
    ensures
        PhraseView::sum_beats(
            plan_content(plan, first).take(upto),
            base,
            None,
            from,
            so_far,
        ).unwrap().value() == cuts[upto].value() - cuts[0].value(),
    decreases upto - from,
{
    if from < upto {
        let content = plan_content(plan, first).take(upto);
        let segment = plan.segments[from];
        if cuts.len() > 0 {
            lemma_segments_follow_cuts(cuts, unit, cuts.len() - 1);
        }
        lemma_segments_agree(cuts, unit, cuts.len() - 1, from);
        lemma_segment_chord_lasts(plan.soundings, segment, base, first + plan_ids(plan, from));
        assert(content[from] == PhraseContentView::Chord(
            segment_chord(plan.soundings, segment, first + plan_ids(plan, from)),
        ));
        lemma_segment_lasts(cuts[from], cuts[from + 1], unit, base, segment);
        let length = duration_beats(segment.length, base).unwrap();
        lemma_fraction_arithmetic(so_far, length);
        let sum = so_far.spec_add(length).unwrap();
        lemma_chords_reach_cut(plan, cuts, unit, base, first, upto, from + 1, sum);
    }
}

/// Between increasing cuts, the segment at a position is the one between
/// the cut at that position and the next.
pub proof fn lemma_segments_agree(cuts: Seq<Fraction>, unit: Fraction, upto: int, k: int)
    requires
        increasing(cuts),
        0 <= k < upto <= cuts.len() - 1,
        segments_upto(cuts, unit, upto) is Ok,
    ensures
        segments_upto(cuts, unit, upto).unwrap().len() == upto,
        segment_between(cuts[k], cuts[k + 1], unit) == Ok::<Option<Segment>, TimingError>(
            Some(segments_upto(cuts, unit, upto).unwrap()[k]),
        ),
    decreases upto,
{
    lemma_segments_follow_cuts(cuts, unit, upto);
    lemma_segments_follow_cuts(cuts, unit, upto - 1);
    if k < upto - 1 {
        lemma_segments_agree(cuts, unit, upto - 1, k);
    } else {
        assert(cuts[upto - 1].value() < cuts[upto].value()) by {
            reveal(increasing);
        }
        lemma_difference_is_positive(cuts[upto], cuts[upto - 1]);
    }
}

/// What sounds first in a phrase begins when the phrase begins.
pub proof fn lemma_first_sounding(
    phrase: PhraseView,
    base: Duration,
    ratio: Option<Fraction>,
    start: Fraction,
)
    requires
        phrase.soundings(base, ratio, start) is Ok,
    ensures
        phrase.soundings(base, ratio, start).unwrap().soundings.len() > 0 ==> phrase.soundings(
            base,
            ratio,
            start,
        ).unwrap().soundings[0].start == start,
        phrase.soundings(base, ratio, start).unwrap().soundings.len() == 0 ==> phrase.soundings(
            base,
            ratio,
            start,
        ).unwrap().end == start,
    decreases phrase,
{
    lemma_first_sounding_in(
        phrase.content,
        base,
        phrase.inner_ratio(ratio).unwrap(),
        0,
        Run { soundings: Seq::empty(), end: start },
        start,
    );
}

/// What sounds first among the children of a phrase begins when the first
/// of them begins.
pub proof fn lemma_first_sounding_in(
    items: Seq<PhraseContentView>,
    base: Duration,
    ratio: Option<Fraction>,
    from: int,
    so_far: Run,
    start: Fraction,
)
    requires
        0 <= from,
        so_far.soundings.len() > 0 ==> so_far.soundings[0].start == start,
        so_far.soundings.len() == 0 ==> so_far.end == start,
        PhraseView::soundings_in(items, base, ratio, from, so_far) is Ok,
    ensures
        PhraseView::soundings_in(items, base, ratio, from, so_far).unwrap().soundings.len() > 0
            ==> PhraseView::soundings_in(items, base, ratio, from, so_far).unwrap().soundings[0].start
            == start,
        PhraseView::soundings_in(items, base, ratio, from, so_far).unwrap().soundings.len() == 0
            ==> PhraseView::soundings_in(items, base, ratio, from, so_far).unwrap().end == start,
    decreases items, items.len() - from,
{
    if from < items.len() {
        let run = (match items[from] {
            PhraseContentView::Note(note) => leaf_run(seq![note], so_far.end, note.beats(base, ratio)),
            PhraseContentView::Chord(chord) => leaf_run(
                chord.notes,
                so_far.end,
                chord.beats(base, ratio),
            ),
            PhraseContentView::Phrase(phrase) => phrase.soundings(base, ratio, so_far.end),
        }).unwrap();
        if let PhraseContentView::Phrase(phrase) = items[from] {
            lemma_first_sounding(phrase, base, ratio, so_far.end);
        }
        let next = Run { soundings: so_far.soundings + run.soundings, end: run.end };
        if so_far.soundings.len() > 0 {
            assert(next.soundings[0] == so_far.soundings[0]);
        } else if run.soundings.len() > 0 {
            assert(next.soundings[0] == run.soundings[0]);
        }
        lemma_first_sounding_in(items, base, ratio, from + 1, next, start);
    }
}

/// What sounds first in voices begins with them, at zero.
pub proof fn lemma_first_voice_sounding(
    voices: Seq<PhraseView>,
    base: Duration,
    from: int,
    so_far: Run,
)
    requires
        0 <= from,
        so_far.soundings.len() > 0 ==> so_far.soundings[0].start == Fraction::spec_zero(),
        MultiVoiceView::soundings_of(voices, base, from, so_far) is Ok,
    ensures
        MultiVoiceView::soundings_of(voices, base, from, so_far).unwrap().soundings.len() > 0
            ==> MultiVoiceView::soundings_of(voices, base, from, so_far).unwrap().soundings[0].start
            == Fraction::spec_zero(),
    decreases voices.len() - from,
{
    if from < voices.len() {
        let run = voices[from].soundings(base, None, Fraction::spec_zero()).unwrap();
        lemma_first_sounding(voices[from], base, None, Fraction::spec_zero());
        let next = Run {
            soundings: so_far.soundings + run.soundings,
            end: so_far.end.spec_max(run.end),
        };
        if so_far.soundings.len() > 0 {
            assert(next.soundings[0] == so_far.soundings[0]);
        } else if run.soundings.len() > 0 {
            assert(next.soundings[0] == run.soundings[0]);
        }
        lemma_first_voice_sounding(voices, base, from + 1, next);
    }
}

impl MultiVoiceView {
    /// Where voices are cut, the chord of a segment begins when the segment
    /// begins: the chords before it last, in beats, as long as the time
    /// from the beginning of the group, which is zero, to that instant.
    pub proof fn lemma_cut_chords_begin_with_their_segments(self, base: Duration, first: int, k: int)
        requires
            self.cut_plan(base) is Ok,
            0 <= k < self.cut_plan(base).unwrap().segments.len(),
        ensures
            k < self.cut(base, first).content.len(),
            PhraseView::sum_beats(
                self.cut(base, first).content.take(k),
                base,
                None,
                0,
                Fraction::spec_zero(),
            ) is Ok,
            PhraseView::sum_beats(
                self.cut(base, first).content.take(k),
                base,
                None,
                0,
                Fraction::spec_zero(),
            ).unwrap().value() == self.cut_plan(base).unwrap().segments[k].start.value(),
    {
        let plan = self.cut_plan(base).unwrap();
        let soundings = plan.soundings;
        let all = soundings.len() as int;
        let cuts = cuts_of(soundings, all);
        let unit = base.spec_value().unwrap();
        let zero = Fraction::spec_zero();
        let content = self.cut(base, first).content;
        lemma_cuts_of(soundings, all);
        lemma_segments_follow_cuts(cuts, unit, cuts.len() - 1);
        lemma_cut_is_as_long(self.id, plan, base, first, self.beats(base).unwrap());
        lemma_sum_of_first_children(content, base, None, 0, k, zero);
        lemma_ratio_whole(0);
        // The first cut stands at zero.
        lemma_segments_agree(cuts, unit, cuts.len() - 1, 0);
        lemma_difference_is_exact(cuts[1], cuts[0]);
        lemma_fraction_arithmetic(cuts[0], cuts[0]);
        lemma_first_voice_sounding(
            self.voices,
            base,
            0,
            Run { soundings: Seq::empty(), end: zero },
        );
        assert(soundings.len() > 0) by {
            if soundings.len() == 0 {
                assert(cuts.len() == 0);
            }
        }
        assert(cut_at(cuts, soundings[0].start));
        let z = choose|z: int| 0 <= z < cuts.len() && (#[trigger] cuts[z]).value() == zero.value();
        assert(cuts[0].value() == 0real) by {
            reveal(increasing);
            if z > 0 {
                assert(cuts[0].value() < cuts[z].value());
            }
        }
        lemma_chords_reach_cut(plan, cuts, unit, base, first, k, 0, zero);
    }
}


/// What sounds in a phrase can be found unless a duration in it is not
/// defined or exact arithmetic cannot be held.
pub proof fn lemma_soundings_fail_for_time(
    phrase: PhraseView,
    base: Duration,
    ratio: Option<Fraction>,
    start: Fraction,
)
    ensures
        phrase.soundings(base, ratio, start) matches Err(e) ==> e == TimingError::Overflow
            || !phrase.sound(),
    decreases phrase,
{
    match phrase.inner_ratio(ratio) {
        Err(_) => {},
        Ok(inner) => {
            lemma_soundings_in_fail_for_time(
                phrase.content,
                base,
                inner,
                0,
                Run { soundings: Seq::empty(), end: start },
            );
        },
    }
}

/// What sounds in the children of a phrase can be found unless a duration
/// in them is not defined or exact arithmetic cannot be held.
pub proof fn lemma_soundings_in_fail_for_time(
    items: Seq<PhraseContentView>,
    base: Duration,
    ratio: Option<Fraction>,
    from: int,
    so_far: Run,
)
    requires
        0 <= from,
    ensures
        PhraseView::soundings_in(items, base, ratio, from, so_far) matches Err(e) ==> e
            == TimingError::Overflow || !PhraseView::sound_from(items, from),
    decreases items, items.len() - from,
{
    if from < items.len() {
        let found = match items[from] {
            PhraseContentView::Note(note) => leaf_run(seq![note], so_far.end, note.beats(base, ratio)),
            PhraseContentView::Chord(chord) => leaf_run(
                chord.notes,
                so_far.end,
                chord.beats(base, ratio),
            ),
            PhraseContentView::Phrase(phrase) => phrase.soundings(base, ratio, so_far.end),
        };
        if let PhraseContentView::Phrase(phrase) = items[from] {
            lemma_soundings_fail_for_time(phrase, base, ratio, so_far.end);
        }
        if let Ok(run) = found {
            lemma_soundings_in_fail_for_time(
                items,
                base,
                ratio,
                from + 1,
                Run { soundings: so_far.soundings + run.soundings, end: run.end },
            );
        }
    }
}

/// What sounds in voices can be found unless a duration in them is not
/// defined or exact arithmetic cannot be held.
pub proof fn lemma_voice_soundings_fail_for_time(
    voices: Seq<PhraseView>,
    base: Duration,
    from: int,
    so_far: Run,
)
    requires
        0 <= from,
    ensures
        MultiVoiceView::soundings_of(voices, base, from, so_far) matches Err(e) ==> e
            == TimingError::Overflow || exists|v: int|
            from <= v < voices.len() && !(#[trigger] voices[v]).sound(),
    decreases voices.len() - from,
{
    if from < voices.len() {
        lemma_soundings_fail_for_time(voices[from], base, None, Fraction::spec_zero());
        match voices[from].soundings(base, None, Fraction::spec_zero()) {
            Err(e) => {
                if e != TimingError::Overflow {
                    assert(!voices[from].sound());
                }
            },
            Ok(run) => {
                let next = Run {
                    soundings: so_far.soundings + run.soundings,
                    end: so_far.end.spec_max(run.end),
                };
                lemma_voice_soundings_fail_for_time(voices, base, from + 1, next);
                if let Err(e) = MultiVoiceView::soundings_of(voices, base, from + 1, next) {
                    if e != TimingError::Overflow {
                        let v = choose|v: int|
                            from + 1 <= v < voices.len() && !(#[trigger] voices[v]).sound();
                        assert(!voices[v].sound());
                    }
                }
            },
        }
    }
}

/// Segments can be made unless exact arithmetic cannot be held.
pub proof fn lemma_segments_fail_for_overflow(cuts: Seq<Fraction>, unit: Fraction, upto: int)
    ensures
        segments_upto(cuts, unit, upto) matches Err(e) ==> e == TimingError::Overflow,
    decreases upto,
{
    if upto > 0 {
        lemma_segments_fail_for_overflow(cuts, unit, upto - 1);
    }
}

impl MultiVoiceView {
    /// There is a plan for cutting the voices unless a duration in them is
    /// not defined, a chord without a single duration or a tuplet over
    /// nothing, or exact arithmetic cannot be held.
    pub proof fn lemma_cut_fails_for_time(self, base: Duration)
        ensures
            self.cut_plan(base) matches Err(e) ==> e == TimingError::Overflow || !self.sound(),
    {
        lemma_voice_soundings_fail_for_time(
            self.voices,
            base,
            0,
            Run { soundings: Seq::empty(), end: Fraction::spec_zero() },
        );
        lemma_ratio_whole(0);
        lemma_max_beats_is_exact(self.voices, base, 0, Fraction::spec_zero());
        if let Ok(run) = self.soundings(base) {
            if base.spec_value() is Some {
                let cuts = cuts_of(run.soundings, run.soundings.len() as int);
                lemma_segments_fail_for_overflow(cuts, base.spec_value().unwrap(), cuts.len() - 1);
            }
        }
    }
}


/// Whether what sounds fills the segments from position `from` up to
/// position `upto`, and no others: it sounds through each of them, the first
/// begins when it begins and the last ends when it ends; it begins with the
/// first of them only, and goes on after each but the last.
pub open spec fn fills(segments: Seq<Segment>, sounding: SoundingView, from: int, upto: int) -> bool {
    &&& 0 <= from < upto <= segments.len()
    &&& segments[from].start.value() == sounding.start.value()
    &&& segments[upto - 1].end.value() == sounding.end.value()
    &&& forall|k: int|
        0 <= k < segments.len() ==> {
            &&& sounding.sounds_in(#[trigger] segments[k]) <==> from <= k < upto
            &&& sounding.begins(segments[k]) <==> k == from
            &&& from <= k < upto ==> (sounding.carries(segments[k]) <==> k < upto - 1)
        }
}

impl MultiVoiceView {
    /// Where voices are cut, the pieces of a note fill the time for which
    /// the note sounded: the note fills a run of segments, and each segment
    /// ends where the next begins.
    pub proof fn lemma_cut_pieces_fill_the_note(self, base: Duration, s: int)
        requires
            self.cut_plan(base) is Ok,
            0 <= s < self.cut_plan(base).unwrap().soundings.len(),
            self.cut_plan(base).unwrap().soundings[s].start.value() < self.cut_plan(
                base,
            ).unwrap().soundings[s].end.value(),
        ensures
            ({
                let plan = self.cut_plan(base).unwrap();
                let sounding = plan.soundings[s];
                &&& forall|k: int|
                    0 <= k < plan.segments.len() - 1 ==> (#[trigger] plan.segments[k]).end
                        == plan.segments[k + 1].start
                &&& exists|a: int, b: int| #[trigger] fills(plan.segments, sounding, a, b)
            }),
    {
        let plan = self.cut_plan(base).unwrap();
        let soundings = plan.soundings;
        let all = soundings.len() as int;
        let cuts = cuts_of(soundings, all);
        let unit = base.spec_value().unwrap();
        let sounding = soundings[s];
        lemma_cuts_of(soundings, all);
        assert(cut_at(cuts, sounding.start) && cut_at(cuts, sounding.end));
        let a = choose|a: int| 0 <= a < cuts.len() && (#[trigger] cuts[a]).value() == sounding.start.value();
        let b = choose|b: int| 0 <= b < cuts.len() && (#[trigger] cuts[b]).value() == sounding.end.value();
        lemma_segments_follow_cuts(cuts, unit, cuts.len() - 1);
        reveal(increasing);
        assert(a < b) by {
            if b < a {
                assert(cuts[b].value() < cuts[a].value());
            }
        }
        assert forall|k: int| 0 <= k < plan.segments.len() implies {
            &&& sounding.sounds_in(#[trigger] plan.segments[k]) <==> a <= k < b
            &&& sounding.begins(plan.segments[k]) <==> k == a
            &&& a <= k < b ==> (sounding.carries(plan.segments[k]) <==> k < b - 1)
        } by {
            assert(plan.segments[k].start == cuts[k] && plan.segments[k].end == cuts[k + 1]);
            if k < a {
                assert(cuts[k].value() < cuts[a].value());
            }
            if a < k {
                assert(cuts[a].value() < cuts[k].value());
            }
            if k < b {
                assert(cuts[k].value() < cuts[b].value());
            }
            if b < k {
                assert(cuts[b].value() < cuts[k].value());
            }
            if k + 1 < b {
                assert(cuts[k + 1].value() < cuts[b].value());
            }
            if b < k + 1 {
                assert(cuts[b].value() < cuts[k + 1].value());
            }
        }
        assert(plan.segments[a].start == cuts[a]);
        assert(plan.segments[b - 1].end == cuts[b]);
        assert(fills(plan.segments, sounding, a, b));
        assert forall|k: int| 0 <= k < plan.segments.len() - 1 implies (
        #[trigger] plan.segments[k]).end == plan.segments[k + 1].start by {
            assert(plan.segments[k].end == cuts[k + 1]);
            assert(plan.segments[k + 1].start == cuts[k + 1]);
        }
    }
}


impl MultiVoiceView {
    /// Where voices are cut, the chord of a segment holds a piece of each
    /// note that sounds through the segment, with the pitch of the note.
    pub proof fn lemma_cut_holds_a_piece(self, base: Duration, first: int, s: int, n: int, k: int)
        requires
            self.cut_plan(base) is Ok,
            0 <= s < self.cut_plan(base).unwrap().soundings.len(),
            0 <= n < self.cut_plan(base).unwrap().soundings[s].notes.len(),
            0 <= k < self.cut_plan(base).unwrap().segments.len(),
            self.cut_plan(base).unwrap().soundings[s].sounds_in(
                self.cut_plan(base).unwrap().segments[k],
            ),
        ensures
            k < self.cut(base, first).content.len(),
            self.cut(base, first).content[k] is Chord,
            exists|i: int|
                0 <= i < self.cut(base, first).content[k]->Chord_0.notes.len() && (
                #[trigger] self.cut(base, first).content[k]->Chord_0.notes[i]).pitch
                    == self.cut_plan(base).unwrap().soundings[s].notes[n].pitch,
    {
        let plan = self.cut_plan(base).unwrap();
        let soundings = plan.soundings;
        let all = soundings.len() as int;
        let segment = plan.segments[k];
        let from = first + plan_ids(plan, k);
        lemma_segment_holds_note(soundings, segment, from + 1, all, s, n);
        lemma_segment_pieces_last(soundings, segment, from + 1, all);
        let pieces = segment_pieces(soundings, segment, from + 1, all);
        let i = choose|i: int|
            0 <= i < pieces.len() && (#[trigger] pieces[i]).pitch == soundings[s].notes[n].pitch && (
            soundings[s].begins(segment) ==> pieces[i].id == soundings[s].notes[n].id);
        let chord = segment_chord(soundings, segment, from);
        assert(self.cut(base, first).content[k] == PhraseContentView::Chord(chord));
        assert(chord.notes[i] == pieces[i]);
        assert(self.cut(base, first).content[k]->Chord_0.notes[i].pitch == soundings[s].notes[n].pitch);
    }
}


/// The notes of the first `upto` soundings, sounding by sounding.
pub open spec fn sounding_notes(soundings: Seq<SoundingView>, upto: int) -> Seq<NoteView>
    decreases upto,
{
    if upto <= 0 {
        Seq::empty()
    } else {
        sounding_notes(soundings, upto - 1) + soundings[upto - 1].notes
    }
}

/// The notes of soundings put one after the other are the notes of the
/// first and then those of the second.
pub proof fn lemma_sounding_notes_together(
    first: Seq<SoundingView>,
    second: Seq<SoundingView>,
    upto: int,
)
    requires
        0 <= upto <= second.len(),
    ensures
        sounding_notes(first + second, first.len() + upto) == sounding_notes(
            first,
            first.len() as int,
        ) + sounding_notes(second, upto),
    decreases upto,
{
    let both = first + second;
    if upto == 0 {
        lemma_sounding_notes_begin(both, first, first.len() as int);
        assert(sounding_notes(first, first.len() as int) + Seq::<NoteView>::empty()
            =~= sounding_notes(first, first.len() as int));
    } else {
        lemma_sounding_notes_together(first, second, upto - 1);
        assert(both[first.len() + upto - 1] == second[upto - 1]);
        assert(sounding_notes(both, first.len() + upto) =~= sounding_notes(
            first,
            first.len() as int,
        ) + sounding_notes(second, upto));
    }
}

/// The notes of the first soundings depend on those soundings alone.
pub proof fn lemma_sounding_notes_begin(
    longer: Seq<SoundingView>,
    shorter: Seq<SoundingView>,
    upto: int,
)
    requires
        0 <= upto <= shorter.len() <= longer.len(),
        forall|i: int| 0 <= i < upto ==> longer[i] == shorter[i],
    ensures
        sounding_notes(longer, upto) == sounding_notes(shorter, upto),
    decreases upto,
{
    if upto > 0 {
        lemma_sounding_notes_begin(longer, shorter, upto - 1);
    }
}

/// What sounds in a phrase is all its notes, in the order of the tree.
pub proof fn lemma_soundings_are_all_notes(
    phrase: PhraseView,
    base: Duration,
    ratio: Option<Fraction>,
    start: Fraction,
)
    requires
        phrase.soundings(base, ratio, start) is Ok,
    ensures
        sounding_notes(
            phrase.soundings(base, ratio, start).unwrap().soundings,
            phrase.soundings(base, ratio, start).unwrap().soundings.len() as int,
        ) == phrase.all_notes(),
    decreases phrase,
{
    lemma_soundings_in_are_all_notes(
        phrase.content,
        base,
        phrase.inner_ratio(ratio).unwrap(),
        0,
        Run { soundings: Seq::empty(), end: start },
    );
    assert(Seq::<NoteView>::empty() + phrase.all_notes() =~= phrase.all_notes());
}

/// What sounds in the children of a phrase from a position on is all
/// their notes, after what sounded before.
pub proof fn lemma_soundings_in_are_all_notes(
    items: Seq<PhraseContentView>,
    base: Duration,
    ratio: Option<Fraction>,
    from: int,
    so_far: Run,
)
    requires
        0 <= from,
        PhraseView::soundings_in(items, base, ratio, from, so_far) is Ok,
    ensures
        sounding_notes(
            PhraseView::soundings_in(items, base, ratio, from, so_far).unwrap().soundings,
            PhraseView::soundings_in(items, base, ratio, from, so_far).unwrap().soundings.len() as int,
        ) == sounding_notes(so_far.soundings, so_far.soundings.len() as int) + PhraseView::notes_in(
            items,
            from,
        ),
    decreases items, items.len() - from,
{
    let before = sounding_notes(so_far.soundings, so_far.soundings.len() as int);
    if from < items.len() {
        let run = (match items[from] {
            PhraseContentView::Note(note) => leaf_run(seq![note], so_far.end, note.beats(base, ratio)),
            PhraseContentView::Chord(chord) => leaf_run(
                chord.notes,
                so_far.end,
                chord.beats(base, ratio),
            ),
            PhraseContentView::Phrase(phrase) => phrase.soundings(base, ratio, so_far.end),
        }).unwrap();
        let here = match items[from] {
            PhraseContentView::Note(note) => seq![note],
            PhraseContentView::Chord(chord) => chord.notes,
            PhraseContentView::Phrase(phrase) => phrase.all_notes(),
        };
        match items[from] {
            PhraseContentView::Phrase(phrase) => {
                lemma_soundings_are_all_notes(phrase, base, ratio, so_far.end);
            },
            _ => {
                assert(sounding_notes(run.soundings, 0) =~= Seq::<NoteView>::empty());
                assert(sounding_notes(run.soundings, 1) =~= here);
            },
        }
        let next = Run { soundings: so_far.soundings + run.soundings, end: run.end };
        lemma_sounding_notes_together(so_far.soundings, run.soundings, run.soundings.len() as int);
        lemma_soundings_in_are_all_notes(items, base, ratio, from + 1, next);
        assert((before + here) + PhraseView::notes_in(items, from + 1) =~= before + (here
            + PhraseView::notes_in(items, from + 1)));
    } else {
        assert(before + Seq::<NoteView>::empty() =~= before);
    }
}

/// What sounds in voices from a position on is all their notes, voice by
/// voice, after what sounded before.
pub proof fn lemma_voice_soundings_are_all_notes(
    voices: Seq<PhraseView>,
    base: Duration,
    from: int,
    so_far: Run,
)
    requires
        0 <= from,
        MultiVoiceView::soundings_of(voices, base, from, so_far) is Ok,
    ensures
        sounding_notes(
            MultiVoiceView::soundings_of(voices, base, from, so_far).unwrap().soundings,
            MultiVoiceView::soundings_of(voices, base, from, so_far).unwrap().soundings.len() as int,
        ) == sounding_notes(so_far.soundings, so_far.soundings.len() as int) + gathered(
            voices,
            notes_of_voice(),
            from,
        ),
    decreases voices.len() - from,
{
    let before = sounding_notes(so_far.soundings, so_far.soundings.len() as int);
    if from < voices.len() {
        let run = voices[from].soundings(base, None, Fraction::spec_zero()).unwrap();
        lemma_soundings_are_all_notes(voices[from], base, None, Fraction::spec_zero());
        let next = Run {
            soundings: so_far.soundings + run.soundings,
            end: so_far.end.spec_max(run.end),
        };
        lemma_sounding_notes_together(so_far.soundings, run.soundings, run.soundings.len() as int);
        lemma_voice_soundings_are_all_notes(voices, base, from + 1, next);
        assert((before + voices[from].all_notes()) + gathered(voices, notes_of_voice(), from + 1)
            =~= before + (voices[from].all_notes() + gathered(voices, notes_of_voice(), from + 1)));
    } else {
        assert(before + Seq::<NoteView>::empty() =~= before);
    }
}

impl MultiVoiceView {
    /// What a plan takes to sound is all the notes of the voices, voice by
    /// voice, each voice in the order of its tree.
    pub proof fn lemma_plan_holds_all_notes(self, base: Duration)
        requires
            self.cut_plan(base) is Ok,
        ensures
            sounding_notes(
                self.cut_plan(base).unwrap().soundings,
                self.cut_plan(base).unwrap().soundings.len() as int,
            ) == self.all_notes(),
    {
        lemma_voice_soundings_are_all_notes(
            self.voices,
            base,
            0,
            Run { soundings: Seq::empty(), end: Fraction::spec_zero() },
        );
        assert(Seq::<NoteView>::empty() + self.all_notes() =~= self.all_notes());
    }
}


/// The modifications among the first `upto` that are no tuplet, in their
/// order.
pub open spec fn marks_of(modifications: Seq<PhraseModification>, upto: int) -> Seq<
    PhraseModification,
>
    decreases upto,
{
    if upto <= 0 {
        Seq::empty()
    } else if modifications[upto - 1].spec_modification() is Tuplet {
        marks_of(modifications, upto - 1)
    } else {
        marks_of(modifications, upto - 1).push(modifications[upto - 1])
    }
}

/// The modifications of the first `upto` voices that are no tuplet, voice
/// by voice.
pub open spec fn voice_marks(voices: Seq<PhraseView>, upto: int) -> Seq<PhraseModification>
    decreases upto,
{
    if upto <= 0 {
        Seq::empty()
    } else {
        voice_marks(voices, upto - 1) + marks_of(
            voices[upto - 1].modifications,
            voices[upto - 1].modifications.len() as int,
        )
    }
}

/// There is no tuplet among the modifications that are none.
pub proof fn lemma_marks_hold_no_tuplet(modifications: Seq<PhraseModification>, upto: int)
    ensures
        first_tuplet(marks_of(modifications, upto), 0) is None,
    decreases upto,
{
    if upto > 0 {
        lemma_marks_hold_no_tuplet(modifications, upto - 1);
        if !(modifications[upto - 1].spec_modification() is Tuplet) {
            let before = marks_of(modifications, upto - 1);
            let last = seq![modifications[upto - 1]];
            assert(first_tuplet(last, 1) is None);
            assert(first_tuplet(last, 0) is None);
            lemma_no_tuplet_together(before, last, 0);
            assert(before.push(modifications[upto - 1]) =~= before + last);
        }
    }
}

/// There is no tuplet among the modifications of voices that are none.
pub proof fn lemma_voice_marks_hold_no_tuplet(voices: Seq<PhraseView>, upto: int)
    ensures
        first_tuplet(voice_marks(voices, upto), 0) is None,
    decreases upto,
{
    if upto > 0 {
        lemma_voice_marks_hold_no_tuplet(voices, upto - 1);
        lemma_marks_hold_no_tuplet(
            voices[upto - 1].modifications,
            voices[upto - 1].modifications.len() as int,
        );
        lemma_no_tuplet_together(
            voice_marks(voices, upto - 1),
            marks_of(voices[upto - 1].modifications, voices[upto - 1].modifications.len() as int),
            0,
        );
    }
}

/// Each of the modifications that are no tuplet is one of the
/// modifications.
pub proof fn lemma_marks_are_modifications(modifications: Seq<PhraseModification>, upto: int, k: int)
    requires
        0 <= upto <= modifications.len(),
        0 <= k < marks_of(modifications, upto).len(),
    ensures
        exists|n: int| 0 <= n < upto && #[trigger] modifications[n] == marks_of(modifications, upto)[k],
    decreases upto,
{
    if upto > 0 {
        let before = marks_of(modifications, upto - 1);
        if k < before.len() {
            lemma_marks_are_modifications(modifications, upto - 1, k);
            let n = choose|n: int| 0 <= n < upto - 1 && #[trigger] modifications[n] == before[k];
            assert(modifications[n] == marks_of(modifications, upto)[k]);
        } else {
            assert(modifications[upto - 1] == marks_of(modifications, upto)[k]);
        }
    }
}

/// Each of the modifications kept of voices is a modification of one of
/// the voices.
pub proof fn lemma_voice_marks_come_of_voices(voices: Seq<PhraseView>, upto: int, k: int)
    requires
        0 <= upto <= voices.len(),
        0 <= k < voice_marks(voices, upto).len(),
    ensures
        exists|v: int, n: int|
            0 <= v < upto && 0 <= n < voices[v].modifications.len()
                && #[trigger] voices[v].modifications[n] == voice_marks(voices, upto)[k],
    decreases upto,
{
    if upto > 0 {
        let before = voice_marks(voices, upto - 1);
        let all = voice_marks(voices, upto);
        if k < before.len() {
            lemma_voice_marks_come_of_voices(voices, upto - 1, k);
            let (v, n) = choose|v: int, n: int|
                0 <= v < upto - 1 && 0 <= n < voices[v].modifications.len()
                    && #[trigger] voices[v].modifications[n] == before[k];
            assert(voices[v].modifications[n] == all[k]);
        } else {
            let own = voices[upto - 1].modifications;
            lemma_marks_are_modifications(own, own.len() as int, k - before.len());
            let n = choose|n: int|
                0 <= n < own.len() && #[trigger] own[n] == marks_of(own, own.len() as int)[k
                    - before.len()];
            assert(voices[upto - 1].modifications[n] == all[k]);
        }
    }
}

impl MultiVoice {
    /// The modifications of the voices that are no tuplet, voice by voice.
    pub(crate) fn marks(&self) -> (r: Vec<PhraseModification>)
        ensures
            r@ == voice_marks(self@.voices, self@.voices.len() as int),
    {
        let mut kept: Vec<PhraseModification> = Vec::new();
        let mut v: usize = 0;
        while v < self.voices.len()
            invariant
                v <= self.voices.len(),
                kept@ == voice_marks(self@.voices, v as int),
            decreases self.voices.len() - v,
        {
            let voice = &self.voices[v];
            let ghost before = kept@;
            let mut k: usize = 0;
            proof {
                voice.lemma_view();
                assert(kept@ =~= before + marks_of(voice@.modifications, 0));
            }
            while k < voice.modifications.len()
                invariant
                    k <= voice.modifications.len(),
                    voice@.modifications == voice.modifications@,
                    kept@ == before + marks_of(voice@.modifications, k as int),
                decreases voice.modifications.len() - k,
            {
                let here = voice.modifications[k];
                match here.get_modification() {
                    PhraseModificationType::Tuplet { .. } => {},
                    _ => {
                        proof {
                            assert((before + marks_of(voice@.modifications, k as int)).push(here)
                                =~= before + marks_of(voice@.modifications, k + 1));
                        }
                        kept.push(here);
                    },
                }
                k += 1;
            }
            v += 1;
        }
        kept
    }
}


/// Whether soundings and onsets go together: they are as many, and each
/// sounding begins at the time of its onset.
pub open spec fn begin_alike(soundings: Seq<SoundingView>, onsets: Seq<Onset>) -> bool {
    soundings.len() == onsets.len() && forall|i: int|
        0 <= i < soundings.len() ==> (#[trigger] soundings[i]).start.value()
            == onsets[i].moment().time
}

/// Whether what sounds in a node and its onsets have been found alike:
/// both or neither, for the same reason, with the same end, and each
/// sounding at the time of its onset.
pub open spec fn found_alike(run: Result<Run, TimingError>, span: Result<Span, TimingError>) -> bool {
    match (run, span) {
        (Ok(run), Ok(span)) => run.end == span.end && begin_alike(run.soundings, span.onsets),
        (Err(a), Err(b)) => a == b,
        _ => false,
    }
}

/// Soundings and onsets that go together still do when put after others
/// that do.
pub proof fn lemma_begin_alike_together(
    first: Seq<SoundingView>,
    first_onsets: Seq<Onset>,
    second: Seq<SoundingView>,
    second_onsets: Seq<Onset>,
)
    requires
        begin_alike(first, first_onsets),
        begin_alike(second, second_onsets),
    ensures
        begin_alike(first + second, first_onsets + second_onsets),
{
    let both = first + second;
    let onsets = first_onsets + second_onsets;
    assert forall|i: int| 0 <= i < both.len() implies (#[trigger] both[i]).start.value()
        == onsets[i].moment().time by {
        if i < first.len() {
            assert(both[i] == first[i] && onsets[i] == first_onsets[i]);
        } else {
            assert(both[i] == second[i - first.len()] && onsets[i] == second_onsets[i
                - first.len()]);
            assert(second[i - first.len()].start.value() == second_onsets[i
                - first.len()].moment().time);
        }
    }
}

/// What sounds in a phrase begins when the onsets of the phrase say: each
/// note or chord at the time of its onset.
pub proof fn lemma_soundings_begin_at_onsets(
    phrase: PhraseView,
    base: Duration,
    ratio: Option<Fraction>,
    start: Fraction,
)
    ensures
        found_alike(phrase.soundings(base, ratio, start), phrase.onsets(base, ratio, start)),
    decreases phrase,
{
    if let Ok(inner) = phrase.inner_ratio(ratio) {
        lemma_soundings_in_begin_at_onsets(
            phrase.content,
            base,
            inner,
            0,
            Run { soundings: Seq::empty(), end: start },
            Span { onsets: Seq::empty(), end: start },
        );
    }
}

/// The same of the children of a phrase from position `from` on.
pub proof fn lemma_soundings_in_begin_at_onsets(
    items: Seq<PhraseContentView>,
    base: Duration,
    ratio: Option<Fraction>,
    from: int,
    run: Run,
    span: Span,
)
    requires
        0 <= from,
        run.end == span.end,
        begin_alike(run.soundings, span.onsets),
    ensures
        found_alike(
            PhraseView::soundings_in(items, base, ratio, from, run),
            PhraseView::onsets_in(items, base, ratio, from, span),
        ),
    decreases items, items.len() - from,
{
    if from < items.len() {
        let sounds = match items[from] {
            PhraseContentView::Note(note) => leaf_run(seq![note], run.end, note.beats(base, ratio)),
            PhraseContentView::Chord(chord) => leaf_run(chord.notes, run.end, chord.beats(base, ratio)),
            PhraseContentView::Phrase(phrase) => phrase.soundings(base, ratio, run.end),
        };
        let begins = match items[from] {
            PhraseContentView::Note(note) => note.onsets(base, ratio, span.end),
            PhraseContentView::Chord(chord) => chord.onsets(base, ratio, span.end),
            PhraseContentView::Phrase(phrase) => phrase.onsets(base, ratio, span.end),
        };
        if let PhraseContentView::Phrase(phrase) = items[from] {
            lemma_soundings_begin_at_onsets(phrase, base, ratio, run.end);
        }
        assert(found_alike(sounds, begins));
        if let Ok(here) = sounds {
            let there = begins.unwrap();
            lemma_begin_alike_together(run.soundings, span.onsets, here.soundings, there.onsets);
            lemma_soundings_in_begin_at_onsets(
                items,
                base,
                ratio,
                from + 1,
                Run { soundings: run.soundings + here.soundings, end: here.end },
                Span { onsets: span.onsets + there.onsets, end: there.end },
            );
        }
    }
}

/// The same of voices from position `from` on, which begin at zero.
pub proof fn lemma_voice_soundings_begin_at_onsets(
    voices: Seq<PhraseView>,
    base: Duration,
    from: int,
    run: Run,
    span: Span,
)
    requires
        0 <= from,
        run.end == span.end,
        begin_alike(run.soundings, span.onsets),
    ensures
        found_alike(
            MultiVoiceView::soundings_of(voices, base, from, run),
            MultiVoiceView::onsets_in(voices, base, Fraction::spec_zero(), from, span),
        ),
    decreases voices.len() - from,
{
    if from < voices.len() {
        let zero = Fraction::spec_zero();
        lemma_soundings_begin_at_onsets(voices[from], base, None, zero);
        if let Ok(here) = voices[from].soundings(base, None, zero) {
            let there = voices[from].onsets(base, None, zero).unwrap();
            lemma_begin_alike_together(run.soundings, span.onsets, here.soundings, there.onsets);
            lemma_voice_soundings_begin_at_onsets(
                voices,
                base,
                from + 1,
                Run { soundings: run.soundings + here.soundings, end: run.end.spec_max(here.end) },
                Span { onsets: span.onsets + there.onsets, end: span.end.spec_max(there.end) },
            );
        }
    }
}

impl MultiVoiceView {
    /// What a plan takes to sound begins when the onsets of the group say,
    /// counted from the beginning of the group: each note or chord at the
    /// time of its onset.
    pub proof fn lemma_plan_begins_at_onsets(self, base: Duration)
        requires
            self.cut_plan(base) is Ok,
        ensures
            self.onsets(base, Fraction::spec_zero()) is Ok,
            begin_alike(
                self.cut_plan(base).unwrap().soundings,
                self.onsets(base, Fraction::spec_zero()).unwrap().onsets,
            ),
    {
        lemma_voice_soundings_begin_at_onsets(
            self.voices,
            base,
            0,
            Run { soundings: Seq::empty(), end: Fraction::spec_zero() },
            Span { onsets: Seq::empty(), end: Fraction::spec_zero() },
        );
    }
}

} // verus!
