//! Restructuring: a part of its own for every staff, so that no part has
//! more than one. The tree that is restructured stays as it is.

use crate::composition::{Composition, CompositionView, notes_of_part};
use crate::context::id::IdRegistry;
use crate::error::TimingError;
use crate::model::{lemma_total_concat, lemma_views, total, views};
use crate::note::duration::Duration;
use crate::structure::multivoice::greater;
use crate::structure::part::{notes_of_staff, Part, PartView};
use crate::structure::staff::{Staff, StaffView};
use crate::temporal::fraction::Fraction;
use crate::text::{decimal, decimal_text};
use vstd::prelude::*;
use vstd::string::StringExecFns;

verus! {

/// What is put after the name of a part for the staff at position `k`: an
/// underscore and the number of the staff, counted from one.
pub open spec fn staff_suffix(k: int) -> Seq<char> {
    seq!['_'] + decimal((k + 1) as nat)
}

impl PartView {
    /// How many identifiers are made when each staff of the part becomes a
    /// part: one for each new part where the part has several staves, one
    /// for the new staff where it has none, and none where it keeps its one
    /// staff.
    pub open spec fn ids_made(self) -> nat {
        if self.staves.len() > 1 {
            self.staves.len()
        } else if self.staves.len() == 0 {
            1
        } else {
            0
        }
    }

    /// The parts that the part gives way to, what is new with identifiers
    /// from `first` on: the part itself where it has one staff, the part
    /// with one new, empty staff where it has none, and else one part for
    /// each staff, named after the part and the number of the staff.
    pub open spec fn split(self, first: int) -> Seq<PartView> {
        if self.staves.len() == 0 {
            seq![
                PartView {
                    id: self.id,
                    name: self.name,
                    staves: seq![StaffView { id: first as usize, content: Seq::empty() }],
                },
            ]
        } else if self.staves.len() == 1 {
            seq![self]
        } else {
            Seq::new(
                self.staves.len(),
                |k: int|
                    PartView {
                        id: (first + k) as usize,
                        name: self.name + staff_suffix(k),
                        staves: seq![self.staves[k]],
                    },
            )
        }
    }
}

impl CompositionView {
    /// How many new parts are made when each staff becomes a part.
    pub open spec fn ids_made(self) -> nat {
        Self::ids_made_from(self.parts, 0)
    }

    /// How many new parts the parts from position `from` on give way to.
    pub open spec fn ids_made_from(parts: Seq<PartView>, from: int) -> nat
        decreases parts.len() - from,
    {
        if from < 0 || from >= parts.len() {
            0
        } else {
            parts[from].ids_made() + Self::ids_made_from(parts, from + 1)
        }
    }

    /// The parts that the parts from position `from` on give way to, the new
    /// ones with identifiers from `first` on.
    pub open spec fn split_from(parts: Seq<PartView>, from: int, first: int) -> Seq<PartView>
        decreases parts.len() - from,
    {
        if from < 0 || from >= parts.len() {
            Seq::empty()
        } else {
            parts[from].split(first) + Self::split_from(
                parts,
                from + 1,
                first + parts[from].ids_made(),
            )
        }
    }

    /// The composition with each staff as a part of its own, the new parts
    /// with identifiers from `first` on.
    pub open spec fn restructured(self, first: int) -> CompositionView {
        CompositionView { parts: Self::split_from(self.parts, 0, first), ..self }
    }
}

/// The parts that a part gives way to have one staff each, and together as
/// many notes as the part.
pub proof fn lemma_split_part(part: PartView, first: int)
    ensures
        forall|i: int|
            0 <= i < part.split(first).len() ==> (#[trigger] part.split(first)[i]).staves.len()
                == 1,
        total(part.split(first), notes_of_part(), 0) == part.note_count(),
{
    let made = part.split(first);
    if part.staves.len() == 1 {
        assert(total(made, notes_of_part(), 1) == 0);
    } else if part.staves.len() == 0 {
        assert(total(made, notes_of_part(), 1) == 0);
        let staff = made[0].staves[0];
        assert(total(staff.content, crate::structure::staff::notes_of_item(), 0) == 0);
        assert(total(made[0].staves, notes_of_staff(), 1) == 0);
        assert(made[0].note_count() == 0);
    } else {
        lemma_split_counts(part, first, 0);
    }
}

/// The parts made of the staves from position `from` on hold as many notes
/// as those staves.
proof fn lemma_split_counts(part: PartView, first: int, from: int)
    requires
        part.staves.len() > 1,
        0 <= from,
    ensures
        total(part.split(first), notes_of_part(), from) == total(
            part.staves,
            notes_of_staff(),
            from,
        ),
    decreases part.staves.len() - from,
{
    if from < part.staves.len() {
        lemma_split_counts(part, first, from + 1);
        let one = part.split(first)[from];
        assert(one.staves =~= seq![part.staves[from]]);
        assert(total(one.staves, notes_of_staff(), 1) == 0);
        assert(one.note_count() == part.staves[from].note_count());
    }
}

/// After each staff has become a part of its own, every part has exactly
/// one staff, and the composition holds as many notes as before.
pub proof fn lemma_restructure_keeps_notes(composition: CompositionView, first: int)
    ensures
        forall|i: int|
            0 <= i < composition.restructured(first).parts.len() ==> (
            #[trigger] composition.restructured(first).parts[i]).staves.len() == 1,
        composition.restructured(first).note_count() == composition.note_count(),
{
    lemma_split_from_keeps_notes(composition.parts, 0, first);
}

/// The parts that the parts from position `from` on give way to have one
/// staff each, and together as many notes as those parts.
proof fn lemma_split_from_keeps_notes(parts: Seq<PartView>, from: int, first: int)
    requires
        0 <= from,
    ensures
        forall|i: int|
            0 <= i < CompositionView::split_from(parts, from, first).len() ==> (
            #[trigger] CompositionView::split_from(parts, from, first)[i]).staves.len() == 1,
        total(CompositionView::split_from(parts, from, first), notes_of_part(), 0) == total(
            parts,
            notes_of_part(),
            from,
        ),
    decreases parts.len() - from,
{
    if from < parts.len() {
        let here = parts[from].split(first);
        let rest = CompositionView::split_from(parts, from + 1, first + parts[from].ids_made());
        lemma_split_part(parts[from], first);
        lemma_split_from_keeps_notes(parts, from + 1, first + parts[from].ids_made());
        lemma_total_concat(here, rest, notes_of_part(), 0);
        assert forall|i: int| 0 <= i < (here + rest).len()
            implies (#[trigger] (here + rest)[i]).staves.len()
            == 1 by {
            if i < here.len() {
                assert(here[i].staves.len() == 1);
            } else {
                assert(rest[i - here.len()].staves.len() == 1);
            }
        }
    }
}

impl Part {
    /// The parts that the part gives way to when each of its staves becomes
    /// a part: a copy of the part itself where it has one staff, nothing
    /// where it has none, and else one new part for each staff, with a copy
    /// of that staff, named after the part and the number of the staff.
    pub fn extract_staves_as_parts(&self, registry: &mut IdRegistry) -> (r: Vec<Part>)
        requires
            old(registry).spec_remaining() >= self@.ids_made(),
        ensures
            views(r@) == self@.split(old(registry).next_id() as int),
            *final(registry) == old(registry).after(self@.ids_made()),
            final(registry).next_id() == old(registry).next_id() + self@.ids_made(),
    {
        let mut made: Vec<Part> = Vec::new();
        if self.staves.len() == 0 {
            let staff = Staff::new(registry);
            let mut staves: Vec<Staff> = Vec::new();
            proof {
                lemma_views(staves@, 0, staff);
            }
            staves.push(staff);
            let part = Part { id: self.id, name: self.name.clone(), staves };
            proof {
                assert(part@.staves =~= seq![
                    StaffView { id: old(registry).next_id(), content: Seq::empty() },
                ]);
                lemma_views(made@, 0, part);
                assert(Seq::<PartView>::empty().push(part@) =~= self@.split(
                    old(registry).next_id() as int,
                ));
            }
            made.push(part);
            return made;
        }
        if self.staves.len() == 1 {
            let part = self.clone();
            proof {
                lemma_views(made@, 0, part);
                assert(Seq::<PartView>::empty().push(part@) =~= seq![self@]);
            }
            made.push(part);
            return made;
        }
        let ghost first = registry.next_id() as int;
        let ghost wanted = self@.split(first);
        let mut k: usize = 0;
        proof {
            assert(views(made@) =~= wanted.take(0));
        }
        while k < self.staves.len()
            invariant
                k <= self.staves.len(),
                self.staves.len() > 1,
                wanted == self@.split(first),
                first == old(registry).next_id(),
                old(registry).spec_remaining() >= self.staves.len(),
                *registry == old(registry).after(k as nat),
                views(made@) == wanted.take(k as int),
            decreases self.staves.len() - k,
        {
            let id = registry.generate_id();
            let mut name = self.name.clone();
            name.append("_");
            let number = decimal_text((k + 1) as u64);
            name.append(number.as_str());
            let staff = self.staves[k].clone();
            let mut staves: Vec<Staff> = Vec::new();
            proof {
                lemma_views(staves@, 0, staff);
            }
            staves.push(staff);
            let part = Part { id, name, staves };
            proof {
                reveal_strlit("_");
                assert("_"@ =~= seq!['_']);
                assert(part@.name =~= self@.name + staff_suffix(k as int));
                assert(part@.staves =~= seq![self@.staves[k as int]]);
                assert(part@ == wanted[k as int]);
                lemma_views(made@, 0, part);
                assert(wanted.take(k + 1) == wanted.take(k as int).push(wanted[k as int]));
            }
            made.push(part);
            k += 1;
        }
        proof {
            assert(wanted.take(k as int) == wanted);
        }
        made
    }
}

impl Composition {
    /// A copy of the composition in which each staff is a part of its own.
    /// A part with several staves gives way to one new part for each of
    /// them, named after the part and the number of the staff; a part with
    /// one staff stays as it is; a part without a staff is given one new,
    /// empty staff, so that it stays and has one staff as every other part.
    /// Nothing in the staves changes.
    #[must_use]
    pub fn restructure_staves_as_parts(&self, registry: &mut IdRegistry) -> (r: Self)
        requires
            old(registry).spec_remaining() >= self@.ids_made(),
        ensures
            r@ == self@.restructured(old(registry).next_id() as int),
            *final(registry) == old(registry).after(self@.ids_made()),
            final(registry).next_id() == old(registry).next_id() + self@.ids_made(),
            forall|i: int| 0 <= i < r@.parts.len() ==> (#[trigger] r@.parts[i]).staves.len() == 1,
            r@.note_count() == self@.note_count(),
            self@.beats() is Ok ==> r@.beats() is Ok && r@.beats().unwrap().value()
                == self@.beats().unwrap().value(),
            self@.beats() is Ok ==> r@.exact_beats() == self@.exact_beats() && r@.exact_seconds()
                == self@.exact_seconds(),
            self@.below(old(registry).next_id() as int) ==> r@.below(
                final(registry).next_id() as int,
            ),
    {
        let ghost first = registry.next_id() as int;
        proof {
            if self@.below(first) {
                lemma_restructure_stays_below(self@, first);
            }
            lemma_restructure_keeps_notes(self@, first);
            if self@.beats() is Ok {
                lemma_restructure_keeps_duration(self@, first);
            }
        }
        let mut r = self.clone();
        let mut parts: Vec<Part> = Vec::new();
        let mut i: usize = 0;
        proof {
            assert(views(parts@) + CompositionView::split_from(self@.parts, 0, first)
                =~= CompositionView::split_from(self@.parts, 0, first));
        }
        while i < self.parts.len()
            invariant
                i <= self.parts.len(),
                first == old(registry).next_id(),
                registry.spec_remaining() >= CompositionView::ids_made_from(self@.parts, i as int),
                registry.next_id() - first + CompositionView::ids_made_from(self@.parts, i as int)
                    == self@.ids_made(),
                views(parts@) + CompositionView::split_from(
                    self@.parts,
                    i as int,
                    registry.next_id() as int,
                ) == CompositionView::split_from(self@.parts, 0, first),
            decreases self.parts.len() - i,
        {
            let ghost next = registry.next_id() as int;
            let ghost earlier = views(parts@);
            let mut made = self.parts[i].extract_staves_as_parts(registry);
            let ghost added = views(made@);
            proof {
                assert(views(parts@ + made@) =~= earlier + added);
                assert((earlier + added) + CompositionView::split_from(
                    self@.parts,
                    i + 1,
                    next + self@.parts[i as int].ids_made(),
                ) =~= earlier + (added + CompositionView::split_from(
                    self@.parts,
                    i + 1,
                    next + self@.parts[i as int].ids_made(),
                )));
            }
            parts.append(&mut made);
            i += 1;
        }
        proof {
            assert(views(parts@) + Seq::<PartView>::empty() =~= views(parts@));
        }
        r.parts = parts;
        r
    }
}

impl Composition {
    /// How many identifiers restructuring takes: one for each staff of a
    /// part that has several; or the greatest number that the machine holds
    /// where they are more.
    pub fn count_ids_made(&self) -> (r: usize)
        ensures
            r == (if self@.ids_made() <= usize::MAX {
                self@.ids_made()
            } else {
                usize::MAX as nat
            }),
    {
        let mut made: usize = 0;
        let mut i: usize = self.parts.len();
        while i > 0
            invariant
                i <= self.parts.len(),
                made == (if CompositionView::ids_made_from(self@.parts, i as int) <= usize::MAX {
                    CompositionView::ids_made_from(self@.parts, i as int)
                } else {
                    usize::MAX as nat
                }),
            decreases i,
        {
            i -= 1;
            let staves = self.parts[i].len();
            let here = if staves > 1 {
                staves
            } else if staves == 0 {
                1
            } else {
                0
            };
            made = if here > usize::MAX - made {
                usize::MAX
            } else {
                made + here
            };
        }
        made
    }
}

/// Staves whose lengths can all be computed have a longest length.
proof fn lemma_staves_have_a_length(
    staves: Seq<StaffView>,
    base: Duration,
    from: int,
    so_far: Fraction,
)
    requires
        0 <= from,
        forall|i: int| from <= i < staves.len() ==> (#[trigger] staves[i]).beats(base) is Ok,
    ensures
        PartView::max_beats(staves, base, from, so_far) is Ok,
    decreases staves.len() - from,
{
    if from < staves.len() {
        assert(staves[from].beats(base) is Ok);
        lemma_staves_have_a_length(
            staves,
            base,
            from + 1,
            so_far.spec_max(staves[from].beats(base).unwrap()),
        );
    }
}

/// Parts whose lengths can all be computed have a longest length.
proof fn lemma_parts_have_a_length(parts: Seq<PartView>, base: Duration, from: int, so_far: Fraction)
    requires
        0 <= from,
        forall|i: int| from <= i < parts.len() ==> (#[trigger] parts[i]).beats(base) is Ok,
    ensures
        CompositionView::max_beats(parts, base, from, so_far) is Ok,
    decreases parts.len() - from,
{
    if from < parts.len() {
        assert(parts[from].beats(base) is Ok);
        lemma_parts_have_a_length(
            parts,
            base,
            from + 1,
            so_far.spec_max(parts[from].beats(base).unwrap()),
        );
    }
}

/// No staff is shorter than nothing.
proof fn lemma_longest_staff_is_not_negative(staves: Seq<StaffView>, base: Duration, from: int)
    ensures
        PartView::exact_max(staves, base, from) >= 0real,
    decreases staves.len() - from,
{
    if 0 <= from < staves.len() {
        lemma_longest_staff_is_not_negative(staves, base, from + 1);
    }
}

/// No part is shorter than nothing.
proof fn lemma_longest_part_is_not_negative(parts: Seq<PartView>, base: Duration, from: int)
    ensures
        CompositionView::exact_max(parts, base, from) >= 0real,
    decreases parts.len() - from,
{
    if 0 <= from < parts.len() {
        lemma_longest_part_is_not_negative(parts, base, from + 1);
    }
}

/// The longest of parts that follow others.
proof fn lemma_longest_part_later(
    first: Seq<PartView>,
    second: Seq<PartView>,
    base: Duration,
    from: int,
)
    requires
        0 <= from <= second.len(),
    ensures
        CompositionView::exact_max(first + second, base, first.len() + from)
            == CompositionView::exact_max(second, base, from),
    decreases second.len() - from,
{
    if from < second.len() {
        assert((first + second)[first.len() + from] == second[from]);
        lemma_longest_part_later(first, second, base, from + 1);
    }
}

/// The longest of two runs of parts is the longer of their longest.
proof fn lemma_longest_part_of_both(
    first: Seq<PartView>,
    second: Seq<PartView>,
    base: Duration,
    from: int,
)
    requires
        0 <= from <= first.len(),
    ensures
        CompositionView::exact_max(first + second, base, from) == greater(
            CompositionView::exact_max(first, base, from),
            CompositionView::exact_max(second, base, 0),
        ),
    decreases first.len() - from,
{
    lemma_longest_part_is_not_negative(second, base, 0);
    if from < first.len() {
        assert((first + second)[from] == first[from]);
        lemma_longest_part_of_both(first, second, base, from + 1);
    } else {
        lemma_longest_part_later(first, second, base, 0);
    }
}

/// The parts made of the staves from position `from` on are together as
/// long as those staves.
proof fn lemma_split_staves_keep_length(part: PartView, base: Duration, first: int, from: int)
    requires
        part.staves.len() > 1,
        0 <= from,
    ensures
        CompositionView::exact_max(part.split(first), base, from) == PartView::exact_max(
            part.staves,
            base,
            from,
        ),
    decreases part.staves.len() - from,
{
    if from < part.staves.len() {
        lemma_split_staves_keep_length(part, base, first, from + 1);
        lemma_longest_staff_is_not_negative(part.staves, base, from + 1);
        let one = part.split(first)[from];
        assert(one.staves =~= seq![part.staves[from]]);
        assert(PartView::exact_max(one.staves, base, 1) == 0real);
        assert(one.exact_beats(base) == greater(part.staves[from].exact_beats(base), 0real));
    }
}

/// The parts that a part gives way to have lengths that can be computed
/// where that of the part can, and are together as long as the part.
proof fn lemma_split_part_keeps_length(part: PartView, base: Duration, first: int)
    requires
        part.beats(base) is Ok,
    ensures
        forall|i: int|
            0 <= i < part.split(first).len() ==> (#[trigger] part.split(first)[i]).beats(base) is Ok,
        CompositionView::exact_max(part.split(first), base, 0) == part.exact_beats(base),
{
    let made = part.split(first);
    crate::temporal::fraction::lemma_ratio_whole(0);
    crate::structure::part::lemma_part_max_is_exact(part.staves, base, 0, Fraction::spec_zero());
    if part.staves.len() == 1 {
        assert(CompositionView::exact_max(made, base, 1) == 0real);
    } else if part.staves.len() == 0 {
        let staff = made[0].staves[0];
        assert(CompositionView::exact_max(made, base, 1) == 0real);
        assert(staff.beats(base) == Ok::<Fraction, TimingError>(Fraction::spec_zero()));
        assert(staff.exact_beats(base) == 0real);
        assert(PartView::exact_max(made[0].staves, base, 1) == 0real);
        assert(made[0].exact_beats(base) == 0real);
        lemma_staves_have_a_length(made[0].staves, base, 0, Fraction::spec_zero());
    } else {
        lemma_split_staves_keep_length(part, base, first, 0);
        assert forall|i: int| 0 <= i < made.len() implies (#[trigger] made[i]).beats(base) is Ok by {
            assert(made[i].staves =~= seq![part.staves[i]]);
            assert(part.staves[i].beats(base) is Ok);
            lemma_staves_have_a_length(made[i].staves, base, 0, Fraction::spec_zero());
        }
    }
}

/// The parts that the parts from position `from` on give way to have
/// lengths that can be computed where those of the parts can, and are
/// together as long as those parts.
proof fn lemma_split_from_keeps_length(parts: Seq<PartView>, base: Duration, from: int, first: int)
    requires
        0 <= from,
        forall|i: int| from <= i < parts.len() ==> (#[trigger] parts[i]).beats(base) is Ok,
    ensures
        forall|i: int|
            0 <= i < CompositionView::split_from(parts, from, first).len() ==> (
            #[trigger] CompositionView::split_from(parts, from, first)[i]).beats(base) is Ok,
        CompositionView::exact_max(CompositionView::split_from(parts, from, first), base, 0)
            == CompositionView::exact_max(parts, base, from),
    decreases parts.len() - from,
{
    if from < parts.len() {
        let here = parts[from].split(first);
        let rest = CompositionView::split_from(parts, from + 1, first + parts[from].ids_made());
        assert(parts[from].beats(base) is Ok);
        lemma_split_part_keeps_length(parts[from], base, first);
        lemma_split_from_keeps_length(parts, base, from + 1, first + parts[from].ids_made());
        lemma_longest_part_of_both(here, rest, base, 0);
        assert forall|i: int| 0 <= i < (here + rest).len() implies (#[trigger] (here + rest)[i]).beats(
            base,
        ) is Ok by {
            if i < here.len() {
                assert(here[i].beats(base) is Ok);
            } else {
                assert(rest[i - here.len()].beats(base) is Ok);
            }
        }
    }
}

/// After each staff has become a part of its own, the composition is as
/// long as before: where its length could be computed it still can, and the
/// length is the same number of beats and of seconds.
pub proof fn lemma_restructure_keeps_duration(composition: CompositionView, first: int)
    requires
        composition.beats() is Ok,
    ensures
        composition.restructured(first).beats() is Ok,
        composition.restructured(first).beats().unwrap().value()
            == composition.beats().unwrap().value(),
        composition.restructured(first).exact_beats() == composition.exact_beats(),
        composition.restructured(first).exact_seconds() == composition.exact_seconds(),
{
    let after = composition.restructured(first);
    let base = composition.tempo.base_note;
    crate::temporal::fraction::lemma_ratio_whole(0);
    crate::composition::lemma_composition_max_is_exact(
        composition.parts,
        base,
        0,
        Fraction::spec_zero(),
    );
    lemma_split_from_keeps_length(composition.parts, base, 0, first);
    lemma_parts_have_a_length(after.parts, base, 0, Fraction::spec_zero());
    crate::composition::lemma_composition_timing_is_exact(composition);
    crate::composition::lemma_composition_timing_is_exact(after);
}

/// Whether a part is one of the given parts, or a new part of an identifier
/// between the two bounds that holds one staff of one of them.
pub open spec fn comes_of(part: PartView, parts: Seq<PartView>, low: int, high: int) -> bool {
    ||| exists|p: int| 0 <= p < parts.len() && (#[trigger] parts[p]) == part
    ||| low <= part.id < high && exists|p: int, k: int|
        0 <= p < parts.len() && 0 <= k < parts[p].staves.len() && part.staves == seq![
            #[trigger] parts[p].staves[k],
        ]
    ||| part.staves.len() == 1 && part.staves[0].content.len() == 0 && low <= part.staves[0].id
        < high && exists|p: int| 0 <= p < parts.len() && (#[trigger] parts[p]).id == part.id
}

/// Every part that the parts from position `from` on give way to is one of
/// them, or a new part that holds a staff of one of them.
proof fn lemma_split_from_comes_of(parts: Seq<PartView>, from: int, first: int, i: int)
    requires
        0 <= from,
        0 <= first,
        first + CompositionView::ids_made_from(parts, from) <= usize::MAX,
        0 <= i < CompositionView::split_from(parts, from, first).len(),
    ensures
        comes_of(
            CompositionView::split_from(parts, from, first)[i],
            parts,
            first,
            first + CompositionView::ids_made_from(parts, from),
        ),
    decreases parts.len() - from,
{
    if from < parts.len() {
        let here = parts[from].split(first);
        let rest = CompositionView::split_from(parts, from + 1, first + parts[from].ids_made());
        let high = first + CompositionView::ids_made_from(parts, from);
        if i < here.len() {
            let part = here[i];
            if parts[from].staves.len() == 1 {
                assert(parts[from] == part);
            } else if parts[from].staves.len() == 0 {
                assert(parts[from].id == part.id);
                assert(part.staves[0].id == first);
            } else {
                assert(part.staves == seq![parts[from].staves[i]]);
                assert(part.id == first + i);
            }
        } else {
            lemma_split_from_comes_of(
                parts,
                from + 1,
                first + parts[from].ids_made(),
                i - here.len(),
            );
            let part = rest[i - here.len()];
            assert((here + rest)[i] == part);
            assert(comes_of(part, parts, first + parts[from].ids_made(), high));
        }
    }
}

/// After each staff has become a part of its own, the identifiers of the
/// composition still lie below what the registry hands out next.
pub proof fn lemma_restructure_stays_below(composition: CompositionView, first: int)
    requires
        0 <= first,
        first + composition.ids_made() <= usize::MAX,
        composition.below(first),
    ensures
        composition.restructured(first).below(first + composition.ids_made()),
{
    let after = composition.restructured(first);
    let high = first + composition.ids_made();
    assert forall|id: usize| #[trigger] after.has_id(id) implies id < high by {
        let i = choose|i: int| 0 <= i < after.parts.len() && (#[trigger] after.parts[i]).has_id(id);
        let part = after.parts[i];
        lemma_split_from_comes_of(composition.parts, 0, first, i);
        if exists|p: int| 0 <= p < composition.parts.len() && (#[trigger] composition.parts[p]) == part {
            let p = choose|p: int|
                0 <= p < composition.parts.len() && (#[trigger] composition.parts[p]) == part;
            assert(composition.parts[p].has_id(id));
            assert(composition.has_id(id));
        } else if part.staves.len() == 1 && part.staves[0].content.len() == 0 && first
            <= part.staves[0].id < high && exists|p: int|
            0 <= p < composition.parts.len() && (#[trigger] composition.parts[p]).id == part.id {
            let p = choose|p: int|
                0 <= p < composition.parts.len() && (#[trigger] composition.parts[p]).id == part.id;
            if part.id == id {
                assert(composition.parts[p].has_id(id));
                assert(composition.has_id(id));
            } else {
                let s = choose|s: int| 0 <= s < part.staves.len() && (#[trigger] part.staves[s]).has_id(id);
                assert(part.staves[s].id == id);
            }
        } else if part.id != id {
            let (p, k) = choose|p: int, k: int|
                0 <= p < composition.parts.len() && 0 <= k < composition.parts[p].staves.len()
                    && part.staves == seq![#[trigger] composition.parts[p].staves[k]];
            let s = choose|s: int| 0 <= s < part.staves.len() && (#[trigger] part.staves[s]).has_id(id);
            assert(part.staves[s] == composition.parts[p].staves[k]);
            assert(composition.parts[p].staves[k].has_id(id));
            assert(composition.parts[p].has_id(id));
            assert(composition.has_id(id));
        }
    }
}

} // verus!
