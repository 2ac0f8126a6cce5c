//! Timelines: what happens at each instant, in the order of the instants.
//!
//! Events arrive in any order, each with the time at which it happens. A
//! timeline holds one slice for each instant at which something happens,
//! in ascending order of time, and each slice holds what happens then, in
//! the order of arrival.

use crate::temporal::fraction::Fraction;
use vstd::prelude::*;

verus! {

/// Something that happens at a time.
pub struct Moment<T> {
    pub time: real,
    pub item: T,
}

/// What happens at one instant, as plain data.
pub struct SliceView<T> {
    pub time: real,
    pub items: Seq<T>,
}

/// What happens at `time` among the events, in their order.
pub open spec fn items_at<T>(events: Seq<Moment<T>>, time: real) -> Seq<T>
    decreases events.len(),
{
    if events.len() == 0 {
        Seq::empty()
    } else if events.last().time == time {
        items_at(events.drop_last(), time).push(events.last().item)
    } else {
        items_at(events.drop_last(), time)
    }
}

/// Whether `slices` is the timeline of `events`: its times ascend, each
/// slice holds exactly what happens at its time, and a slice stands for
/// every time at which something happens.
pub open spec fn is_timeline<T>(slices: Seq<SliceView<T>>, events: Seq<Moment<T>>) -> bool {
    &&& forall|i: int, j: int|
        0 <= i < j < slices.len() ==> (#[trigger] slices[i]).time < (#[trigger] slices[j]).time
    &&& forall|i: int|
        0 <= i < slices.len() ==> (#[trigger] slices[i]).items == items_at(events, slices[i].time)
            && slices[i].items.len() > 0
    &&& forall|time: real|
        (#[trigger] items_at(events, time)).len() > 0 ==> exists|i: int|
            0 <= i < slices.len() && (#[trigger] slices[i]).time == time
}

/// The position of the first slice from `from` on that is not earlier than
/// `time`.
pub open spec fn position<T>(slices: Seq<SliceView<T>>, time: real, from: int) -> int
    decreases slices.len() - from,
{
    if from < 0 || from >= slices.len() || !(slices[from].time < time) {
        from
    } else {
        position(slices, time, from + 1)
    }
}

/// The slices with one more event: in the slice of its time, or in a new
/// slice in the place that its time gives it.
pub open spec fn placed<T>(slices: Seq<SliceView<T>>, event: Moment<T>) -> Seq<SliceView<T>> {
    let at = position(slices, event.time, 0);
    if 0 <= at < slices.len() && slices[at].time == event.time {
        slices.update(at, SliceView { time: slices[at].time, items: slices[at].items.push(event.item) })
    } else {
        slices.insert(at, SliceView { time: event.time, items: seq![event.item] })
    }
}

/// The timeline of the events: each of them placed in turn.
pub open spec fn timeline<T>(events: Seq<Moment<T>>) -> Seq<SliceView<T>>
    decreases events.len(),
{
    if events.len() == 0 {
        Seq::empty()
    } else {
        placed(timeline(events.drop_last()), events.last())
    }
}

/// Where a search for the place of a time ends.
pub proof fn lemma_position<T>(slices: Seq<SliceView<T>>, time: real, from: int)
    requires
        0 <= from <= slices.len(),
    ensures
        from <= position(slices, time, from) <= slices.len(),
        forall|j: int| from <= j < position(slices, time, from) ==>
            (#[trigger] slices[j]).time < time,
        position(slices, time, from) < slices.len() ==> !(slices[position(slices, time, from)].time
            < time),
    decreases slices.len() - from,
{
    if from < slices.len() && slices[from].time < time {
        lemma_position(slices, time, from + 1);
    }
}

/// A search that starts after slices that are all earlier ends where a
/// search from the beginning ends.
pub proof fn lemma_position_from_cursor<T>(slices: Seq<SliceView<T>>, time: real, from: int)
    requires
        0 <= from <= slices.len(),
        forall|j: int| 0 <= j < from ==> (#[trigger] slices[j]).time < time,
    ensures
        position(slices, time, 0) == position(slices, time, from),
    decreases from,
{
    if from > 0 {
        lemma_position_from_cursor(slices, time, from - 1);
        assert(slices[from - 1].time < time);
    }
}

/// What happens at a time after one more event.
pub proof fn lemma_items_at_push<T>(events: Seq<Moment<T>>, event: Moment<T>, time: real)
    ensures
        items_at(events.push(event), time) == (if event.time == time {
            items_at(events, time).push(event.item)
        } else {
            items_at(events, time)
        }),
{
    assert(events.push(event).drop_last() =~= events);
}

/// What happens at a time in two runs of events, one after the other.
pub proof fn lemma_items_at_concat<T>(first: Seq<Moment<T>>, second: Seq<Moment<T>>, time: real)
    ensures
        items_at(first + second, time) == items_at(first, time) + items_at(second, time),
    decreases second.len(),
{
    if second.len() == 0 {
        assert(first + second =~= first);
        assert(items_at(first, time) + Seq::<T>::empty() =~= items_at(first, time));
    } else {
        lemma_items_at_concat(first, second.drop_last(), time);
        assert((first + second).drop_last() =~= first + second.drop_last());
        assert((first + second).last() == second.last());
        if second.last().time == time {
            assert((items_at(first, time) + items_at(second.drop_last(), time)).push(
                second.last().item,
            ) =~= items_at(first, time) + items_at(second.drop_last(), time).push(
                second.last().item,
            ));
        }
    }
}

/// Placing an event in the timeline of the events before it gives the
/// timeline of them all.
pub proof fn lemma_placed_keeps_timeline<T>(
    slices: Seq<SliceView<T>>,
    events: Seq<Moment<T>>,
    event: Moment<T>,
)
    requires
        is_timeline(slices, events),
    ensures
        is_timeline(placed(slices, event), events.push(event)),
{
    let at = position(slices, event.time, 0);
    let after = placed(slices, event);
    let all = events.push(event);
    lemma_position(slices, event.time, 0);
    assert forall|time: real| #[trigger]
        items_at(all, time) == (if event.time == time {
            items_at(events, time).push(event.item)
        } else {
            items_at(events, time)
        }) by {
        lemma_items_at_push(events, event, time);
    }
    if at < slices.len() && slices[at].time == event.time {
        assert forall|i: int| 0 <= i < after.len() implies (#[trigger] after[i]).items == items_at(
            all,
            after[i].time,
        ) && after[i].items.len() > 0 by {
            if i != at {
                assert(after[i] == slices[i]);
                if i < at {
                    assert(slices[i].time < slices[at].time);
                } else {
                    assert(slices[at].time < slices[i].time);
                }
            }
        }
        assert forall|i: int, j: int| 0 <= i < j < after.len()
            implies (#[trigger] after[i]).time < (
        #[trigger] after[j]).time by {
            assert(after[i].time == slices[i].time);
            assert(after[j].time == slices[j].time);
        }
        assert forall|time: real| (#[trigger] items_at(all, time)).len() > 0 implies exists|i: int|
            0 <= i < after.len() && (#[trigger] after[i]).time == time by {
            if time == event.time {
                assert(after[at].time == time);
            } else {
                assert(items_at(events, time).len() > 0);
                let i = choose|i: int| 0 <= i < slices.len() && (#[trigger] slices[i]).time == time;
                assert(after[i].time == time);
            }
        }
    } else {
        assert forall|i: int| 0 <= i < slices.len() implies (#[trigger] slices[i]).time
            != event.time by {
            if i < at {
                assert(slices[i].time < event.time);
            } else if i > at {
                assert(slices[at].time < slices[i].time);
            }
        }
        if items_at(events, event.time).len() > 0 {
            let i = choose|i: int| 0 <= i < slices.len() && (#[trigger] slices[i]).time
                == event.time;
            assert(false);
        }
        assert(items_at(all, event.time) =~= seq![event.item]);
        assert forall|i: int| 0 <= i < after.len() implies (#[trigger] after[i]).items == items_at(
            all,
            after[i].time,
        ) && after[i].items.len() > 0 by {
            if i < at {
                assert(after[i] == slices[i]);
            } else if i > at {
                assert(after[i] == slices[i - 1]);
            }
        }
        assert forall|i: int, j: int| 0 <= i < j < after.len()
            implies (#[trigger] after[i]).time < (
        #[trigger] after[j]).time by {
            let earlier = if i < at {
                slices[i].time
            } else if i == at {
                event.time
            } else {
                slices[i - 1].time
            };
            assert(after[i].time == earlier);
            if j == at {
                assert(slices[i].time < event.time);
            } else if j > at {
                assert(after[j] == slices[j - 1]);
                if i < at {
                    assert(slices[i].time < slices[j - 1].time);
                } else if i == at {
                    if j - 1 > at {
                        assert(slices[at].time < slices[j - 1].time);
                    }
                } else {
                    assert(slices[i - 1].time < slices[j - 1].time);
                }
            } else {
                assert(after[j] == slices[j]);
                assert(slices[i].time < slices[j].time);
            }
        }
        assert forall|time: real| (#[trigger] items_at(all, time)).len() > 0 implies exists|i: int|
            0 <= i < after.len() && (#[trigger] after[i]).time == time by {
            if time == event.time {
                assert(after[at].time == time);
            } else {
                assert(items_at(events, time).len() > 0);
                let i = choose|i: int| 0 <= i < slices.len() && (#[trigger] slices[i]).time == time;
                if i < at {
                    assert(after[i].time == time);
                } else {
                    assert(after[i + 1] == slices[i]);
                }
            }
        }
    }
}

/// The timeline of events has their times in ascending order, holds in each
/// slice exactly what happens at its time, and has a slice for every time
/// at which something happens.
pub proof fn lemma_timeline_is_timeline<T>(events: Seq<Moment<T>>)
    ensures
        is_timeline(timeline(events), events),
    decreases events.len(),
{
    if events.len() > 0 {
        lemma_timeline_is_timeline(events.drop_last());
        lemma_placed_keeps_timeline(
            timeline(events.drop_last()),
            events.drop_last(),
            events.last(),
        );
        assert(events.drop_last().push(events.last()) =~= events);
    }
}

/// Two timelines of events among which the same happens at every time have
/// the same times, slice by slice.
pub proof fn lemma_timelines_agree_up_to<T>(
    first: Seq<SliceView<T>>,
    second: Seq<SliceView<T>>,
    events: Seq<Moment<T>>,
    others: Seq<Moment<T>>,
    upto: int,
)
    requires
        is_timeline(first, events),
        is_timeline(second, others),
        forall|time: real|
            (#[trigger] items_at(events, time)).len() > 0 <==> items_at(others, time).len() > 0,
        0 <= upto <= first.len(),
    ensures
        upto <= second.len(),
        forall|i: int| 0 <= i < upto ==> (#[trigger] first[i]).time == second[i].time,
    decreases upto,
{
    if upto > 0 {
        lemma_timelines_agree_up_to(first, second, events, others, upto - 1);
        let i = upto - 1;
        let time = first[i].time;
        assert(items_at(events, time).len() > 0);
        assert(items_at(others, time).len() > 0);
        let k = choose|k: int| 0 <= k < second.len() && (#[trigger] second[k]).time == time;
        if k < i {
            assert(first[k].time == second[k].time);
            assert(first[k].time < first[i].time);
        }
        let other = second[i].time;
        assert(items_at(others, other).len() > 0);
        assert(items_at(events, other).len() > 0);
        let m = choose|m: int| 0 <= m < first.len() && (#[trigger] first[m]).time == other;
        if m < i {
            assert(first[m].time == second[m].time);
            assert(second[m].time < second[i].time);
        }
        if k > i {
            assert(second[i].time < second[k].time);
        }
        if m > i {
            assert(first[i].time < first[m].time);
        }
    }
}

/// Events among which the same happens at every time have the same
/// timeline, in whatever order they came.
pub proof fn lemma_timeline_is_unique<T>(
    first: Seq<SliceView<T>>,
    second: Seq<SliceView<T>>,
    events: Seq<Moment<T>>,
    others: Seq<Moment<T>>,
)
    requires
        is_timeline(first, events),
        is_timeline(second, others),
        forall|time: real| #[trigger] items_at(events, time) == items_at(others, time),
    ensures
        first == second,
{
    assert forall|time: real| (#[trigger] items_at(events, time)).len() > 0 <==> items_at(
        others,
        time,
    ).len() > 0 by {
        assert(items_at(events, time) == items_at(others, time));
    }
    assert forall|time: real| (#[trigger] items_at(others, time)).len() > 0 <==> items_at(
        events,
        time,
    ).len() > 0 by {
        assert(items_at(events, time) == items_at(others, time));
    }
    lemma_timelines_agree_up_to(first, second, events, others, first.len() as int);
    lemma_timelines_agree_up_to(second, first, others, events, second.len() as int);
    assert forall|i: int| 0 <= i < first.len() implies first[i] == second[i] by {
        assert(first[i].time == second[i].time);
        assert(first[i].items == items_at(events, first[i].time));
        assert(second[i].items == items_at(others, second[i].time));
        assert(items_at(events, first[i].time) == items_at(others, first[i].time));
    }
    assert(first =~= second);
}

/// What happens at one instant: the time, and the items in the order in
/// which they were placed.
#[derive(Debug)]
pub struct Slice<T> {
    pub(crate) time: Fraction,
    pub(crate) items: Vec<T>,
}

/// The items of a part that begin at one instant: the identifiers of its
/// notes and chords.
pub type Timeslice = Slice<usize>;

/// An item of a part in a slice that spans several parts.
#[derive(Copy, Clone, Debug, PartialEq, Eq, Structural, Hash)]
pub struct PartEntry {
    /// The identifier of the part.
    pub part: usize,
    /// The identifier of the note or chord.
    pub item: usize,
}

/// The items of all parts that begin at one instant, each under its part.
pub type PartTimeslice = Slice<PartEntry>;

impl<T> Slice<T> {
    /// The slice as plain data.
    pub open(crate) spec fn shown(&self) -> SliceView<T> {
        SliceView { time: self.time.value(), items: self.items@ }
    }

    /// The time of the slice.
    pub fn get_time(&self) -> (r: Fraction)
        ensures
            r.value() == self.shown().time,
    {
        self.time
    }

    /// The number of items in the slice.
    pub fn len(&self) -> (r: usize)
        ensures
            r == self.shown().items.len(),
    {
        self.items.len()
    }

    /// The items of the slice, in the order in which they were placed.
    pub fn iter(&self) -> (r: &[T])
        ensures
            r@ == self.shown().items,
    {
        self.items.as_slice()
    }
}

/// The slices as plain data.
pub open spec fn all_shown<T>(slices: Seq<Slice<T>>) -> Seq<SliceView<T>> {
    Seq::new(slices.len(), |i: int| slices[i].shown())
}

/// Places an item that happens at `time` in the slices: in the slice of
/// that time, or in a new slice. The search for the place starts at
/// `from`, before which every slice must be earlier than `time`; the place
/// is returned, to start the next search from.
pub fn place_and_merge<T>(slices: &mut Vec<Slice<T>>, from: usize, time: Fraction, item: T) -> (at:
    usize)
    requires
        from <= old(slices)@.len(),
        forall|j: int| 0 <= j < from ==>
            (#[trigger] all_shown(old(slices)@)[j]).time < time.value(),
    ensures
        all_shown(final(slices)@) == placed(
            all_shown(old(slices)@),
            Moment { time: time.value(), item },
        ),
        at == position(all_shown(old(slices)@), time.value(), 0),
        at < final(slices)@.len(),
        all_shown(final(slices)@)[at as int].time == time.value(),
{
    let ghost before = all_shown(slices@);
    proof {
        lemma_position_from_cursor(before, time.value(), from as int);
        lemma_position(before, time.value(), 0);
    }
    let mut at: usize = from;
    while at < slices.len() && slices[at].time.is_less_than(&time)
        invariant
            from <= at <= slices.len(),
            *slices == *old(slices),
            before == all_shown(slices@),
            position(before, time.value(), 0) == position(before, time.value(), at as int),
        decreases slices.len() - at,
    {
        at += 1;
    }
    if at < slices.len() && slices[at].time.is_equal_to(&time) {
        let ghost earlier = slices@;
        slices[at].items.push(item);
        proof {
            assert(all_shown(slices@) =~= before.update(
                at as int,
                SliceView { time: before[at as int].time, items: before[at as int].items.push(item) },
            ));
        }
    } else {
        let mut items: Vec<T> = Vec::new();
        items.push(item);
        let slice = Slice { time, items };
        proof {
            assert(slice.shown().items =~= seq![item]);
            assert(all_shown(slices@.insert(at as int, slice)) =~= before.insert(
                at as int,
                slice.shown(),
            ));
        }
        slices.insert(at, slice);
    }
    at
}

} // verus!
