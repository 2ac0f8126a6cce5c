//! The timeline of a whole composition: the timelines of its parts merged
//! into one, each item under the part that it belongs to.

use crate::composition::{Composition, CompositionView};
use crate::error::TimingError;
use crate::note::duration::Duration;
use crate::structure::part::PartView;

use crate::temporal::onsets::{moments, Onset};
use crate::temporal::timeline::{
    all_shown, is_timeline, items_at, lemma_items_at_concat, lemma_items_at_push,
    lemma_placed_keeps_timeline, lemma_position, lemma_timeline_is_timeline,
    lemma_timeline_is_unique, lemma_timelines_agree_up_to, Moment, PartEntry, PartTimeslice,
    place_and_merge, placed, position, SliceView, timeline, Timeslice,
};
use vstd::prelude::*;

verus! {

/// The items of a part as entries of a slice that spans several parts.
pub open spec fn tag(part: usize, items: Seq<usize>) -> Seq<PartEntry> {
    Seq::new(items.len(), |i: int| PartEntry { part, item: items[i] })
}

/// The onsets of a part as moments of the timeline of the composition.
pub open spec fn tagged(part: usize, onsets: Seq<Onset>) -> Seq<Moment<PartEntry>> {
    Seq::new(
        onsets.len(),
        |i: int| Moment { time: onsets[i].moment().time, item: PartEntry { part, item: onsets[i].moment().item } },
    )
}

/// The first `upto` items of a slice of a part as moments of the timeline
/// of the composition.
pub open spec fn slice_moments(part: usize, slice: SliceView<usize>, upto: int) -> Seq<
    Moment<PartEntry>,
> {
    Seq::new(
        upto as nat,
        |k: int| Moment { time: slice.time, item: PartEntry { part, item: slice.items[k] } },
    )
}

/// The slices with the first `upto` items of a slice of a part placed in
/// turn.
pub open spec fn placed_slice(
    slices: Seq<SliceView<PartEntry>>,
    part: usize,
    slice: SliceView<usize>,
    upto: int,
) -> Seq<SliceView<PartEntry>>
    decreases upto,
{
    if upto <= 0 {
        slices
    } else {
        placed(
            placed_slice(slices, part, slice, upto - 1),
            Moment { time: slice.time, item: PartEntry { part, item: slice.items[upto - 1] } },
        )
    }
}

/// The first `upto` slices of the timeline of a part as moments of the
/// timeline of the composition, slice by slice.
pub open spec fn fed(part: usize, slices: Seq<SliceView<usize>>, upto: int) -> Seq<Moment<PartEntry>>
    decreases upto,
{
    if upto <= 0 {
        Seq::empty()
    } else {
        fed(part, slices, upto - 1) + slice_moments(
            part,
            slices[upto - 1],
            slices[upto - 1].items.len() as int,
        )
    }
}

/// The entries of one part among the items of a slice, in order.
pub open spec fn entries_of(items: Seq<PartEntry>, part: usize) -> Seq<usize>
    decreases items.len(),
{
    if items.len() == 0 {
        Seq::empty()
    } else if items.last().part == part {
        entries_of(items.drop_last(), part).push(items.last().item)
    } else {
        entries_of(items.drop_last(), part)
    }
}

impl CompositionView {
    /// The onsets of all parts as moments of one timeline, part by part, in
    /// beats of the tempo.
    pub open spec fn moments(self) -> Result<Seq<Moment<PartEntry>>, TimingError> {
        Self::moments_in(self.parts, self.tempo.base_note, 0, Seq::empty())
    }

    /// The moments of the parts from position `from` on, after `so_far`.
    pub open spec fn moments_in(
        parts: Seq<PartView>,
        base: Duration,
        from: int,
        so_far: Seq<Moment<PartEntry>>,
    ) -> Result<Seq<Moment<PartEntry>>, TimingError>
        decreases parts.len() - from,
    {
        if from < 0 || from >= parts.len() {
            Ok(so_far)
        } else {
            match parts[from].onsets(base) {
                Err(e) => Err(e),
                Ok(onsets) => Self::moments_in(
                    parts,
                    base,
                    from + 1,
                    so_far + tagged(parts[from].id, onsets),
                ),
            }
        }
    }

    /// The timeline of the composition: one slice for each instant at which
    /// a note or chord of any part begins, in ascending order of time, each
    /// with what begins then, part by part.
    pub open spec fn timeslices(self) -> Result<Seq<SliceView<PartEntry>>, TimingError> {
        match self.moments() {
            Err(e) => Err(e),
            Ok(all) => Ok(timeline(all)),
        }
    }

    /// The greatest number of slices in the timeline of a part.
    pub open spec fn most_timeslices(self) -> Result<nat, TimingError> {
        Self::most_timeslices_in(self.parts, self.tempo.base_note, 0, 0)
    }

    /// The greatest of `so_far` and the numbers of slices in the timelines
    /// of the parts from position `from` on.
    pub open spec fn most_timeslices_in(
        parts: Seq<PartView>,
        base: Duration,
        from: int,
        so_far: nat,
    ) -> Result<nat, TimingError>
        decreases parts.len() - from,
    {
        if from < 0 || from >= parts.len() {
            Ok(so_far)
        } else {
            match parts[from].timeslices(base) {
                Err(e) => Err(e),
                Ok(slices) => Self::most_timeslices_in(
                    parts,
                    base,
                    from + 1,
                    if slices.len() > so_far {
                        slices.len()
                    } else {
                        so_far
                    },
                ),
            }
        }
    }
}

/// Placing the items of a slice of a part in a timeline gives the timeline
/// of what was there and of those items.
pub proof fn lemma_placed_slice_keeps_timeline(
    slices: Seq<SliceView<PartEntry>>,
    events: Seq<Moment<PartEntry>>,
    part: usize,
    slice: SliceView<usize>,
    upto: int,
)
    requires
        is_timeline(slices, events),
        0 <= upto <= slice.items.len(),
    ensures
        is_timeline(
            placed_slice(slices, part, slice, upto),
            events + slice_moments(part, slice, upto),
        ),
    decreases upto,
{
    if upto == 0 {
        assert(events + slice_moments(part, slice, upto) =~= events);
    } else {
        lemma_placed_slice_keeps_timeline(slices, events, part, slice, upto - 1);
        let event = Moment { time: slice.time, item: PartEntry { part, item: slice.items[upto - 1] } };
        lemma_placed_keeps_timeline(
            placed_slice(slices, part, slice, upto - 1),
            events + slice_moments(part, slice, upto - 1),
            event,
        );
        assert((events + slice_moments(part, slice, upto - 1)).push(event) =~= events
            + slice_moments(part, slice, upto));
    }
}

/// Among the moments of a slice, its items happen at its time and nothing
/// happens at any other.
pub proof fn lemma_items_at_slice_moments(part: usize, slice: SliceView<usize>, upto: int, time: real)
    requires
        0 <= upto <= slice.items.len(),
    ensures
        items_at(slice_moments(part, slice, upto), time) == (if slice.time == time {
            tag(part, slice.items.take(upto))
        } else {
            Seq::empty()
        }),
    decreases upto,
{
    if upto > 0 {
        lemma_items_at_slice_moments(part, slice, upto - 1, time);
        let shorter = slice_moments(part, slice, upto - 1);
        let event = Moment { time: slice.time, item: PartEntry { part, item: slice.items[upto - 1] } };
        assert(slice_moments(part, slice, upto) =~= shorter.push(event));
        lemma_items_at_push(shorter, event, time);
        if slice.time == time {
            assert(tag(part, slice.items.take(upto - 1)).push(event.item) =~= tag(
                part,
                slice.items.take(upto),
            ));
        }
    } else {
        assert(tag(part, slice.items.take(upto)) =~= Seq::empty());
    }
}

/// Among the tagged onsets of a part happens what happens among its
/// onsets, tagged.
pub proof fn lemma_items_at_tagged(part: usize, onsets: Seq<Onset>, time: real)
    ensures
        items_at(tagged(part, onsets), time) == tag(part, items_at(moments(onsets), time)),
    decreases onsets.len(),
{
    if onsets.len() == 0 {
        assert(tag(part, items_at(moments(onsets), time)) =~= Seq::empty());
    } else {
        lemma_items_at_tagged(part, onsets.drop_last(), time);
        assert(tagged(part, onsets).drop_last() =~= tagged(part, onsets.drop_last()));
        assert(moments(onsets).drop_last() =~= moments(onsets.drop_last()));
        if onsets.last().moment().time == time {
            assert(tag(part, items_at(moments(onsets.drop_last()), time)).push(
                PartEntry { part, item: onsets.last().moment().item },
            ) =~= tag(part, items_at(moments(onsets), time)));
        }
    }
}

/// Among the first slices of a timeline, fed slice by slice, happens at the
/// time of each of them what that slice holds, and nothing at any other
/// time.
pub proof fn lemma_items_at_fed(
    part: usize,
    slices: Seq<SliceView<usize>>,
    events: Seq<Moment<usize>>,
    upto: int,
    time: real,
)
    requires
        is_timeline(slices, events),
        0 <= upto <= slices.len(),
    ensures
        items_at(fed(part, slices, upto), time) == (if exists|j: int|
            0 <= j < upto && (#[trigger] slices[j]).time == time {
            tag(part, items_at(events, time))
        } else {
            Seq::empty()
        }),
    decreases upto,
{
    if upto > 0 {
        lemma_items_at_fed(part, slices, events, upto - 1, time);
        let last = slices[upto - 1];
        lemma_items_at_concat(
            fed(part, slices, upto - 1),
            slice_moments(part, last, last.items.len() as int),
            time,
        );
        lemma_items_at_slice_moments(part, last, last.items.len() as int, time);
        assert(last.items.take(last.items.len() as int) =~= last.items);
        if last.time == time {
            if exists|j: int| 0 <= j < upto - 1 && (#[trigger] slices[j]).time == time {
                let j = choose|j: int| 0 <= j < upto - 1 && (#[trigger] slices[j]).time == time;
                assert(slices[j].time < slices[upto - 1].time);
            }
            assert(Seq::<PartEntry>::empty() + tag(part, last.items) =~= tag(part, last.items));
        } else {
            if exists|j: int| 0 <= j < upto && (#[trigger] slices[j]).time == time {
                let j = choose|j: int| 0 <= j < upto && (#[trigger] slices[j]).time == time;
                assert(j < upto - 1);
            }
            assert(items_at(fed(part, slices, upto - 1), time) + Seq::<PartEntry>::empty()
                =~= items_at(fed(part, slices, upto - 1), time));
        }
    }
}

/// Among the slices of the timeline of a part, fed slice by slice, happens
/// at every time what happens among its tagged onsets.
pub proof fn lemma_fed_is_tagged(part: usize, onsets: Seq<Onset>, time: real)
    ensures
        items_at(
            fed(part, timeline(moments(onsets)), timeline(moments(onsets)).len() as int),
            time,
        ) == items_at(tagged(part, onsets), time),
{
    let events = moments(onsets);
    let slices = timeline(events);
    lemma_timeline_is_timeline(events);
    lemma_items_at_fed(part, slices, events, slices.len() as int, time);
    lemma_items_at_tagged(part, onsets, time);
    if !(exists|j: int| 0 <= j < slices.len() && (#[trigger] slices[j]).time == time) {
        if items_at(events, time).len() > 0 {
            let j = choose|j: int| 0 <= j < slices.len() && (#[trigger] slices[j]).time == time;
            assert(false);
        }
        assert(tag(part, items_at(events, time)) =~= Seq::empty());
    }
}

/// Places the items of a slice of a part in the slices of the composition,
/// each under the part: in the slice of the same time, or in a new slice.
/// The search for the place starts at `index`, before which every slice
/// must be earlier than the slice of the part; the place is returned, to
/// start the search for the next slice of the same part from.
pub fn place_and_merge_part_timeslice(
    part: usize,
    timeslices: &mut Vec<PartTimeslice>,
    slice: &Timeslice,
    index: usize,
) -> (at: usize)
    requires
        index <= old(timeslices)@.len(),
        forall|j: int|
            0 <= j < index ==> (#[trigger] all_shown(old(timeslices)@)[j]).time < slice.shown().time,
    ensures
        all_shown(final(timeslices)@) == placed_slice(
            all_shown(old(timeslices)@),
            part,
            slice.shown(),
            slice.shown().items.len() as int,
        ),
        index <= at <= final(timeslices)@.len(),
        slice.shown().items.len() > 0 ==> at < final(timeslices)@.len() && all_shown(
            final(timeslices)@,
        )[at as int].time == slice.shown().time,
        slice.shown().items.len() == 0 ==> at == index,
{
    let mut at: usize = index;
    let mut k: usize = 0;
    while k < slice.items.len()
        invariant
            k <= slice.items.len(),
            index <= at <= timeslices@.len(),
            index <= timeslices@.len(),
            forall|j: int|
                0 <= j < index ==> (#[trigger] all_shown(timeslices@)[j]).time < slice.shown().time,
            all_shown(timeslices@) == placed_slice(
                all_shown(old(timeslices)@),
                part,
                slice.shown(),
                k as int,
            ),
            k > 0 ==> at < timeslices@.len() && all_shown(timeslices@)[at as int].time
                == slice.shown().time,
            k == 0 ==> at == index,
        decreases slice.items.len() - k,
    {
        let ghost before = all_shown(timeslices@);
        proof {
            lemma_position(before, slice.shown().time, 0);
            if position(before, slice.shown().time, 0) < index {
                assert(before[position(before, slice.shown().time, 0)].time < slice.shown().time);
            }
        }
        at = place_and_merge(
            timeslices,
            index,
            slice.time,
            PartEntry { part, item: slice.items[k] },
        );
        proof {
            let after = all_shown(timeslices@);
            assert forall|j: int| 0 <= j < index implies (#[trigger] after[j]).time
                < slice.shown().time by {
                assert(after[j] == before[j]);
                assert(before[j].time < slice.shown().time);
            }
        }
        k += 1;
    }
    at
}

impl Composition {
    /// The timeline of the composition: one slice for each instant at which
    /// a note or chord of any part begins, in ascending order of time. Each
    /// slice holds what begins at its instant, each item under the
    /// identifier of its part, part by part. For the timeline of a single
    /// part, ask the part.
    pub fn iter_timeslices(&self) -> (r: Result<Vec<PartTimeslice>, TimingError>)
        ensures
            match self@.timeslices() {
                Ok(slices) => r is Ok && all_shown(r.unwrap()@) == slices,
                Err(e) => r == Err::<Vec<PartTimeslice>, TimingError>(e),
            },
    {
        let mut merged: Vec<PartTimeslice> = Vec::new();
        let ghost mut all: Seq<Moment<PartEntry>> = Seq::empty();
        let ghost mut given: Seq<Moment<PartEntry>> = Seq::empty();
        let mut p: usize = 0;
        proof {
            assert(all_shown(merged@) =~= Seq::empty());
        }
        while p < self.parts.len()
            invariant
                p <= self.parts.len(),
                self@.moments() == CompositionView::moments_in(
                    self@.parts,
                    self@.tempo.base_note,
                    p as int,
                    all,
                ),
                is_timeline(all_shown(merged@), given),
                forall|time: real| #[trigger] items_at(given, time) == items_at(all, time),
            decreases self.parts.len() - p,
        {
            let part = self.parts[p].get_id();
            let slices = match self.parts[p].iter_timeslices(&self.tempo.base_note) {
                Err(e) => {
                    return Err(e);
                },
                Ok(slices) => slices,
            };
            let ghost onsets = self@.parts[p as int].onsets(self@.tempo.base_note).unwrap();
            let ghost own = all_shown(slices@);
            let ghost earlier = given;
            proof {
                lemma_timeline_is_timeline(moments(onsets));
                assert(given + fed(part, own, 0) =~= given);
            }
            let mut cursor: usize = 0;
            let mut s: usize = 0;
            while s < slices.len()
                invariant
                    s <= slices.len(),
                    cursor <= merged@.len(),
                    own == all_shown(slices@),
                    is_timeline(own, moments(onsets)),
                    is_timeline(all_shown(merged@), given),
                    given == earlier + fed(part, own, s as int),
                    s < slices.len() ==> forall|j: int|
                        0 <= j < cursor ==> (#[trigger] all_shown(merged@)[j]).time < own[s as int].time,
                decreases slices.len() - s,
            {
                let ghost before = all_shown(merged@);
                let ghost slice = own[s as int];
                assert(slices@[s as int].shown() == slice);
                let at = place_and_merge_part_timeslice(part, &mut merged, &slices[s], cursor);
                proof {
                    lemma_placed_slice_keeps_timeline(
                        before,
                        given,
                        part,
                        slice,
                        slice.items.len() as int,
                    );
                    let more = slice_moments(part, slice, slice.items.len() as int);
                    assert((earlier + fed(part, own, s as int)) + more =~= earlier + fed(
                        part,
                        own,
                        s + 1,
                    ));
                    given = given + more;
                    let after = all_shown(merged@);
                    assert(slice.items.len() > 0);
                    if s + 1 < slices.len() {
                        assert(own[s as int].time < own[s + 1].time);
                        assert forall|j: int| 0 <= j < at implies (#[trigger] after[j]).time < own[s
                            + 1].time by {
                            assert(after[j].time < after[at as int].time);
                        }
                    }
                }
                cursor = at;
                s += 1;
            }
            proof {
                let added = tagged(part, onsets);
                assert forall|time: real| #[trigger]
                    items_at(given, time) == items_at(all + added, time) by {
                    lemma_items_at_concat(earlier, fed(part, own, own.len() as int), time);
                    lemma_items_at_concat(all, added, time);
                    lemma_fed_is_tagged(part, onsets, time);
                    assert(items_at(earlier, time) == items_at(all, time));
                }
                all = all + added;
            }
            p += 1;
        }
        proof {
            lemma_timeline_is_timeline(all);
            lemma_timeline_is_unique(all_shown(merged@), timeline(all), given, all);
        }
        Ok(merged)
    }

    /// The greatest number of slices in the timeline of a part.
    pub fn num_timeslices(&self) -> (r: Result<usize, TimingError>)
        ensures
            match self@.most_timeslices() {
                Ok(most) => r is Ok && r.unwrap() == most,
                Err(e) => r == Err::<usize, TimingError>(e),
            },
    {
        let mut most: usize = 0;
        let mut p: usize = 0;
        while p < self.parts.len()
            invariant
                p <= self.parts.len(),
                self@.most_timeslices() == CompositionView::most_timeslices_in(
                    self@.parts,
                    self@.tempo.base_note,
                    p as int,
                    most as nat,
                ),
            decreases self.parts.len() - p,
        {
            match self.parts[p].num_timeslices(&self.tempo.base_note) {
                Err(e) => {
                    return Err(e);
                },
                Ok(count) => {
                    if count > most {
                        most = count;
                    }
                },
            }
            p += 1;
        }
        Ok(most)
    }
}

/// The entries of a part among two runs of items, one after the other.
pub proof fn lemma_entries_of_concat(first: Seq<PartEntry>, second: Seq<PartEntry>, part: usize)
    ensures
        entries_of(first + second, part) == entries_of(first, part) + entries_of(second, part),
    decreases second.len(),
{
    if second.len() == 0 {
        assert(first + second =~= first);
        assert(entries_of(first, part) + Seq::<usize>::empty() =~= entries_of(first, part));
    } else {
        lemma_entries_of_concat(first, second.drop_last(), part);
        assert((first + second).drop_last() =~= first + second.drop_last());
        if second.last().part == part {
            assert((entries_of(first, part) + entries_of(second.drop_last(), part)).push(
                second.last().item,
            ) =~= entries_of(first, part) + entries_of(second.drop_last(), part).push(
                second.last().item,
            ));
        }
    }
}

/// Items that all belong to other parts hold no entry of a part.
pub proof fn lemma_entries_of_others(items: Seq<PartEntry>, part: usize)
    requires
        forall|i: int| 0 <= i < items.len() ==> (#[trigger] items[i]).part != part,
    ensures
        entries_of(items, part) == Seq::<usize>::empty(),
    decreases items.len(),
{
    if items.len() > 0 {
        lemma_entries_of_others(items.drop_last(), part);
    }
}

/// What happens at a time among events is an item of one of them.
pub proof fn lemma_items_at_come_from_events(events: Seq<Moment<PartEntry>>, time: real, i: int)
    requires
        0 <= i < items_at(events, time).len(),
    ensures
        exists|k: int| 0 <= k < events.len() && (#[trigger] events[k]).item
            == items_at(events, time)[i],
    decreases events.len(),
{
    if events.len() > 0 {
        let shorter = events.drop_last();
        if i < items_at(shorter, time).len() {
            lemma_items_at_come_from_events(shorter, time, i);
            let k = choose|k: int|
                0 <= k < shorter.len() && (#[trigger] shorter[k]).item
                    == items_at(shorter, time)[i];
            assert(events[k].item == items_at(events, time)[i]);
        } else {
            assert(events[events.len() - 1].item == items_at(events, time)[i]);
        }
    }
}

/// Merging the events of parts in the order first, second gives the same
/// slots as merging them in the order second, first: as many slices, at the
/// same times, and in each slice the same items under every part. The
/// parts of the two runs of events must be different ones.
pub proof fn lemma_merge_order_does_not_matter(
    first: Seq<Moment<PartEntry>>,
    second: Seq<Moment<PartEntry>>,
)
    requires
        forall|i: int, j: int|
            0 <= i < first.len() && 0 <= j < second.len() ==> (#[trigger] first[i]).item.part != (
            #[trigger] second[j]).item.part,
    ensures
        timeline(first + second).len() == timeline(second + first).len(),
        forall|i: int|
            0 <= i < timeline(first + second).len() ==> (#[trigger] timeline(first + second)[i]).time
                == timeline(second + first)[i].time,
        forall|i: int, part: usize|
            0 <= i < timeline(first + second).len() ==> #[trigger] entries_of(
                timeline(first + second)[i].items,
                part,
            ) == entries_of(timeline(second + first)[i].items, part),
{
    let ab = timeline(first + second);
    let ba = timeline(second + first);
    lemma_timeline_is_timeline(first + second);
    lemma_timeline_is_timeline(second + first);
    assert forall|time: real| (#[trigger] items_at(first + second, time)).len() > 0 <==> items_at(
        second + first,
        time,
    ).len() > 0 by {
        lemma_items_at_concat(first, second, time);
        lemma_items_at_concat(second, first, time);
    }
    assert forall|time: real| (#[trigger] items_at(second + first, time)).len() > 0 <==> items_at(
        first + second,
        time,
    ).len() > 0 by {
        lemma_items_at_concat(first, second, time);
        lemma_items_at_concat(second, first, time);
    }
    lemma_timelines_agree_up_to(ab, ba, first + second, second + first, ab.len() as int);
    lemma_timelines_agree_up_to(ba, ab, second + first, first + second, ba.len() as int);
    assert forall|i: int, part: usize| 0 <= i < ab.len() implies #[trigger] entries_of(
        ab[i].items,
        part,
    ) == entries_of(ba[i].items, part) by {
        let time = ab[i].time;
        assert(ba[i].time == time);
        let from_first = items_at(first, time);
        let from_second = items_at(second, time);
        lemma_items_at_concat(first, second, time);
        lemma_items_at_concat(second, first, time);
        lemma_entries_of_concat(from_first, from_second, part);
        lemma_entries_of_concat(from_second, from_first, part);
        if exists|k: int| 0 <= k < from_first.len() && (#[trigger] from_first[k]).part == part {
            let k = choose|k: int| 0 <= k < from_first.len() && (#[trigger] from_first[k]).part
                == part;
            lemma_items_at_come_from_events(first, time, k);
            let a = choose|a: int| 0 <= a < first.len() && (#[trigger] first[a]).item
                == from_first[k];
            assert forall|m: int| 0 <= m < from_second.len()
                implies (#[trigger] from_second[m]).part
                != part by {
                lemma_items_at_come_from_events(second, time, m);
                let b = choose|b: int|
                    0 <= b < second.len() && (#[trigger] second[b]).item == from_second[m];
                assert(first[a].item.part != second[b].item.part);
            }
            lemma_entries_of_others(from_second, part);
            assert(entries_of(from_first, part) + Seq::<usize>::empty() =~= Seq::<usize>::empty()
                + entries_of(from_first, part));
        } else {
            lemma_entries_of_others(from_first, part);
            assert(entries_of(from_second, part) + Seq::<usize>::empty() =~= Seq::<usize>::empty()
                + entries_of(from_second, part));
        }
    }
}

/// The entries of one part in a slice of the composition, in order.
pub fn get_part_entries(slice: &PartTimeslice, part: usize) -> (r: Vec<usize>)
    ensures
        r@ == entries_of(slice.shown().items, part),
{
    let mut found: Vec<usize> = Vec::new();
    let mut i: usize = 0;
    proof {
        assert(slice.items@.take(0) =~= Seq::empty());
    }
    while i < slice.items.len()
        invariant
            i <= slice.items.len(),
            found@ == entries_of(slice.items@.take(i as int), part),
        decreases slice.items.len() - i,
    {
        proof {
            assert(slice.items@.take(i + 1).drop_last() =~= slice.items@.take(i as int));
        }
        if slice.items[i].part == part {
            found.push(slice.items[i].item);
        }
        i += 1;
    }
    proof {
        assert(slice.items@.take(i as int) =~= slice.items@);
    }
    found
}

impl Composition {
    /// What begins in the first part of the given name at the instant of a
    /// slice of the composition, or nothing where there is no such part.
    pub fn get_part_timeslice(&self, slice: &PartTimeslice, name: &str) -> (r: Option<Vec<usize>>)
        ensures
            match self@.find_part_by_name(name@) {
                Some(part) => r is Some && r.unwrap()@ == entries_of(slice.shown().items, part.id),
                None => r is None,
            },
    {
        match self.get_part_by_name(name) {
            Some(part) => Some(get_part_entries(slice, part.get_id())),
            None => None,
        }
    }
}

} // verus!
