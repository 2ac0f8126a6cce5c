//! What the models of the tree have in common: views of sequences,
//! searches, and sequences with items taken out or changed.

use vstd::prelude::*;

verus! {

/// The views of the elements of a sequence, in the same order.
pub open spec fn views<T: View>(items: Seq<T>) -> Seq<T::V> {
    Seq::new(items.len(), |i: int| items[i]@)
}

/// How `views` goes with the operations that change a vector.
pub proof fn lemma_views<T: View>(items: Seq<T>, at: int, item: T)
    ensures
        views(items).len() == items.len(),
        views(items.push(item)) == views(items).push(item@),
        0 <= at <= items.len() ==> views(items.insert(at, item)) == views(items).insert(at, item@),
        0 <= at < items.len() ==> views(items.remove(at)) == views(items).remove(at),
        0 <= at < items.len() ==> views(items.update(at, item)) == views(items).update(at, item@),
        0 <= at <= items.len() ==> views(items.take(at)) == views(items).take(at),
        0 <= at <= items.len() ==> views(items.skip(at)) == views(items).skip(at),
        views(Seq::<T>::empty()) == Seq::<T::V>::empty(),
{
    assert(views(items.push(item)) =~= views(items).push(item@));
    if 0 <= at <= items.len() {
        assert(views(items.insert(at, item)) =~= views(items).insert(at, item@));
        assert(views(items.take(at)) =~= views(items).take(at));
        assert(views(items.skip(at)) =~= views(items).skip(at));
    }
    if 0 <= at < items.len() {
        assert(views(items.remove(at)) =~= views(items).remove(at));
        assert(views(items.update(at, item)) =~= views(items).update(at, item@));
    }
    assert(views(Seq::<T>::empty()) =~= Seq::<T::V>::empty());
}

/// Filtering a sequence with one more element at its end.
pub proof fn lemma_filter_push<T>(s: Seq<T>, last: T, keep: spec_fn(T) -> bool)
    ensures
        s.push(last).filter(keep) == (if keep(last) {
            s.filter(keep).push(last)
        } else {
            s.filter(keep)
        }),
{
    reveal(Seq::filter);
    assert(s.push(last).drop_last() == s);
}

/// A filter that every element passes keeps the whole sequence.
pub proof fn lemma_filter_keeps_all<T>(s: Seq<T>, keep: spec_fn(T) -> bool)
    requires
        forall|i: int| 0 <= i < s.len() ==> keep(#[trigger] s[i]),
    ensures
        s.filter(keep) == s,
    decreases s.len(),
{
    reveal(Seq::filter);
    if s.len() > 0 {
        lemma_filter_keeps_all(s.drop_last(), keep);
        assert(s.drop_last().push(s.last()) =~= s);
    }
}

/// The first result that `find` gives on the items from position `from` on.
pub open spec fn first_some<T, R>(items: Seq<T>, find: spec_fn(T) -> Option<R>, from: int) -> Option<R>
    decreases items.len() - from,
{
    if from < 0 || from >= items.len() {
        None
    } else if find(items[from]) is Some {
        find(items[from])
    } else {
        first_some(items, find, from + 1)
    }
}

/// A search passes over the items on which `find` gives nothing.
pub proof fn lemma_first_some_skips<T, R>(
    items: Seq<T>,
    find: spec_fn(T) -> Option<R>,
    from: int,
    at: int,
)
    requires
        0 <= from <= at <= items.len(),
        forall|i: int| from <= i < at ==> find(#[trigger] items[i]) is None,
    ensures
        first_some(items, find, from) == first_some(items, find, at),
    decreases at - from,
{
    if from < at {
        assert(find(items[from]) is None);
        lemma_first_some_skips(items, find, from + 1, at);
    }
}

/// The items from position `from` on, without those that are `gone` and
/// with `prune` applied to the others.
pub open spec fn pruned<T>(
    items: Seq<T>,
    gone: spec_fn(T) -> bool,
    prune: spec_fn(T) -> T,
    from: int,
) -> Seq<T>
    decreases items.len() - from,
{
    if from < 0 || from >= items.len() {
        Seq::empty()
    } else if gone(items[from]) {
        pruned(items, gone, prune, from + 1)
    } else {
        seq![prune(items[from])] + pruned(items, gone, prune, from + 1)
    }
}

/// What holds of every pruned item that is not gone holds of all that is
/// left.
pub proof fn lemma_pruned_holds<T>(
    items: Seq<T>,
    gone: spec_fn(T) -> bool,
    prune: spec_fn(T) -> T,
    from: int,
    holds: spec_fn(T) -> bool,
)
    requires
        0 <= from,
        forall|i: int| from <= i < items.len() && !gone(#[trigger] items[i]) ==>
            holds(prune(items[i])),
    ensures
        forall|j: int|
            0 <= j < pruned(items, gone, prune, from).len() ==> holds(
                #[trigger] pruned(items, gone, prune, from)[j],
            ),
    decreases items.len() - from,
{
    let all = pruned(items, gone, prune, from);
    if from < items.len() {
        lemma_pruned_holds(items, gone, prune, from + 1, holds);
        let rest = pruned(items, gone, prune, from + 1);
        if gone(items[from]) {
            assert(all == rest);
            assert forall|j: int| 0 <= j < all.len() implies holds(#[trigger] all[j]) by {
                assert(holds(rest[j]));
            }
        } else {
            assert forall|j: int| 0 <= j < all.len() implies holds(#[trigger] all[j]) by {
                if j > 0 {
                    assert(all[j] == rest[j - 1]);
                    assert(holds(rest[j - 1]));
                }
            }
        }
    }
}

/// Pruning changes nothing where no item is gone and `prune` leaves each
/// item as it is.
pub proof fn lemma_pruned_keeps<T>(
    items: Seq<T>,
    gone: spec_fn(T) -> bool,
    prune: spec_fn(T) -> T,
    from: int,
)
    requires
        0 <= from <= items.len(),
        forall|i: int| from <= i < items.len() ==>
            !gone(#[trigger] items[i]) && prune(items[i]) == items[i],
    ensures
        pruned(items, gone, prune, from) == items.skip(from),
    decreases items.len() - from,
{
    if from < items.len() {
        lemma_pruned_keeps(items, gone, prune, from + 1);
        assert(!gone(items[from]) && prune(items[from]) == items[from]);
        assert(seq![items[from]] + items.skip(from + 1) =~= items.skip(from));
    } else {
        assert(pruned(items, gone, prune, from) =~= items.skip(from));
    }
}

/// The sizes of the items from position `from` on, added up.
pub open spec fn total<T>(items: Seq<T>, size: spec_fn(T) -> nat, from: int) -> nat
    decreases items.len() - from,
{
    if from < 0 || from >= items.len() {
        0
    } else {
        size(items[from]) + total(items, size, from + 1)
    }
}

/// The items with `change` applied to the first of them, from position
/// `from` on, that `holds`; the items as they are where none does.
pub open spec fn changed_first<T>(
    items: Seq<T>,
    holds: spec_fn(T) -> bool,
    change: spec_fn(T) -> T,
    from: int,
) -> Seq<T>
    decreases items.len() - from,
{
    if from < 0 || from >= items.len() {
        items
    } else if holds(items[from]) {
        items.update(from, change(items[from]))
    } else {
        changed_first(items, holds, change, from + 1)
    }
}

/// Where `at` is the first position that holds, that is where the change
/// is made.
pub proof fn lemma_changed_first_at<T>(
    items: Seq<T>,
    holds: spec_fn(T) -> bool,
    change: spec_fn(T) -> T,
    from: int,
    at: int,
)
    requires
        0 <= from <= at < items.len(),
        holds(items[at]),
        forall|i: int| from <= i < at ==> !holds(#[trigger] items[i]),
    ensures
        changed_first(items, holds, change, from) == items.update(at, change(items[at])),
    decreases at - from,
{
    if from < at {
        assert(!holds(items[from]));
        lemma_changed_first_at(items, holds, change, from + 1, at);
    }
}

/// Whether a search finds something in an item.
pub open spec fn found<T, R>(find: spec_fn(T) -> Option<R>) -> spec_fn(T) -> bool {
    |item: T| find(item) is Some
}

/// Puts `new` in the place of whatever it is given.
pub open spec fn put<T>(new: T) -> spec_fn(T) -> T {
    |item: T| new
}

/// The total over two runs of items, one after the other, from a position
/// in the second run on.
pub proof fn lemma_total_shifts<T>(first: Seq<T>, second: Seq<T>, size: spec_fn(T) -> nat, from: int)
    requires
        0 <= from <= second.len(),
    ensures
        total(first + second, size, first.len() + from) == total(second, size, from),
    decreases second.len() - from,
{
    if from < second.len() {
        lemma_total_shifts(first, second, size, from + 1);
        assert((first + second)[first.len() + from] == second[from]);
    }
}

/// The total over two runs of items, one after the other.
pub proof fn lemma_total_concat<T>(first: Seq<T>, second: Seq<T>, size: spec_fn(T) -> nat, from: int)
    requires
        0 <= from <= first.len(),
    ensures
        total(first + second, size, from) == total(first, size, from) + total(second, size, 0),
    decreases first.len() - from,
{
    if from < first.len() {
        lemma_total_concat(first, second, size, from + 1);
        assert((first + second)[from] == first[from]);
    } else {
        lemma_total_shifts(first, second, size, 0);
    }
}

/// A change of the first item that holds leaves the items before it as they
/// are.
pub proof fn lemma_changed_first_keeps_earlier<T>(
    items: Seq<T>,
    holds: spec_fn(T) -> bool,
    change: spec_fn(T) -> T,
    from: int,
)
    requires
        0 <= from,
    ensures
        changed_first(items, holds, change, from).len() == items.len(),
        forall|j: int| 0 <= j < from && j < items.len() ==>
            changed_first(items, holds, change, from)[j]
            == items[j],
    decreases items.len() - from,
{
    if from < items.len() && !holds(items[from]) {
        lemma_changed_first_keeps_earlier(items, holds, change, from + 1);
    }
}

/// Where the change of an item in which something is found puts `new` where
/// it was found, a search after the change of the first such item finds
/// `new`.
pub proof fn lemma_changed_first_is_found<T, R>(
    items: Seq<T>,
    find: spec_fn(T) -> Option<R>,
    change: spec_fn(T) -> T,
    new: R,
    from: int,
)
    requires
        0 <= from,
        first_some(items, find, from) is Some,
        forall|i: int|
            0 <= i < items.len() && find(#[trigger] items[i]) is Some ==> find(change(items[i]))
                == Some(new),
    ensures
        first_some(changed_first(items, found(find), change, from), find, from) == Some(new),
    decreases items.len() - from,
{
    if from < items.len() {
        if find(items[from]) is Some {
            assert(find(change(items[from])) == Some(new));
        } else {
            lemma_changed_first_is_found(items, find, change, new, from + 1);
            lemma_changed_first_keeps_earlier(items, found(find), change, from + 1);
        }
    }
}

/// A search that finds nothing found nothing in any item.
pub proof fn lemma_first_some_is_none<T, R>(
    items: Seq<T>,
    find: spec_fn(T) -> Option<R>,
    from: int,
    at: int,
)
    requires
        0 <= from <= at < items.len(),
        first_some(items, find, from) is None,
    ensures
        find(items[at]) is None,
    decreases at - from,
{
    if from < at {
        lemma_first_some_is_none(items, find, from + 1, at);
    }
}

/// What is left after a filter was there before.
pub proof fn lemma_filter_members<T>(s: Seq<T>, keep: spec_fn(T) -> bool, i: int)
    requires
        0 <= i < s.filter(keep).len(),
    ensures
        exists|p: int| 0 <= p < s.len() && #[trigger] s[p] == s.filter(keep)[i],
    decreases s.len(),
{
    reveal(Seq::filter);
    if s.len() > 0 {
        let shorter = s.drop_last();
        if i < shorter.filter(keep).len() {
            lemma_filter_members(shorter, keep, i);
            let p = choose|p: int| 0 <= p < shorter.len() && #[trigger] shorter[p] == shorter.filter(keep)[i];
            assert(s[p] == s.filter(keep)[i]);
        } else {
            assert(s[s.len() - 1] == s.filter(keep)[i]);
        }
    }
}


/// The first item from position `from` on that `fits`.
pub open spec fn first_where<E>(items: Seq<E>, fits: spec_fn(E) -> bool, from: int) -> Option<E>
    decreases items.len() - from,
{
    if from < 0 || from >= items.len() {
        None
    } else if fits(items[from]) {
        Some(items[from])
    } else {
        first_where(items, fits, from + 1)
    }
}

/// What `of` gives for the items from position `from` on, one run after
/// the other.
pub open spec fn gathered<T, E>(items: Seq<T>, of: spec_fn(T) -> Seq<E>, from: int) -> Seq<E>
    decreases items.len() - from,
{
    if from < 0 || from >= items.len() {
        Seq::empty()
    } else {
        of(items[from]) + gathered(items, of, from + 1)
    }
}

/// The first of the kind among items that follow others.
pub proof fn lemma_first_where_later<E>(first: Seq<E>, second: Seq<E>, fits: spec_fn(E) -> bool, from: int)
    requires
        0 <= from <= second.len(),
    ensures
        first_where(first + second, fits, first.len() + from) == first_where(second, fits, from),
    decreases second.len() - from,
{
    if from < second.len() {
        assert((first + second)[first.len() + from] == second[from]);
        lemma_first_where_later(first, second, fits, from + 1);
    }
}

/// The first of the kind in two runs of items is the first in the first
/// run, or else the first in the second.
pub proof fn lemma_first_where_of_both<E>(
    first: Seq<E>,
    second: Seq<E>,
    fits: spec_fn(E) -> bool,
    from: int,
)
    requires
        0 <= from <= first.len(),
    ensures
        first_where(first + second, fits, from) == (if first_where(first, fits, from) is Some {
            first_where(first, fits, from)
        } else {
            first_where(second, fits, 0)
        }),
    decreases first.len() - from,
{
    if from < first.len() {
        assert((first + second)[from] == first[from]);
        lemma_first_where_of_both(first, second, fits, from + 1);
    } else {
        lemma_first_where_later(first, second, fits, 0);
    }
}

/// Where a search in each item finds the first of the kind in what the item
/// holds, the search item by item finds the first of the kind in what they
/// hold together.
pub proof fn lemma_first_some_gathered<T, E>(
    items: Seq<T>,
    find: spec_fn(T) -> Option<E>,
    of: spec_fn(T) -> Seq<E>,
    fits: spec_fn(E) -> bool,
    from: int,
)
    requires
        0 <= from,
        forall|i: int|
            0 <= i < items.len() ==> find(#[trigger] items[i]) == first_where(of(items[i]), fits, 0),
    ensures
        first_some(items, find, from) == first_where(gathered(items, of, from), fits, 0),
    decreases items.len() - from,
{
    if from < items.len() {
        lemma_first_some_gathered(items, find, of, fits, from + 1);
        assert(find(items[from]) == first_where(of(items[from]), fits, 0));
        lemma_first_where_of_both(of(items[from]), gathered(items, of, from + 1), fits, 0);
    }
}

/// The one item of a kind is the first of that kind.
pub proof fn lemma_only_one_is_first<E>(items: Seq<E>, fits: spec_fn(E) -> bool, from: int, at: int)
    requires
        0 <= from <= at < items.len(),
        fits(items[at]),
        forall|i: int| 0 <= i < items.len() && i != at ==> !fits(#[trigger] items[i]),
    ensures
        first_where(items, fits, from) == Some(items[at]),
    decreases at - from,
{
    if from < at {
        assert(!fits(items[from]));
        lemma_only_one_is_first(items, fits, from + 1, at);
    }
}


/// What a search finds is what `find` gives on one of the items.
pub proof fn lemma_first_some_is_found<T, R>(items: Seq<T>, find: spec_fn(T) -> Option<R>, from: int)
    requires
        0 <= from,
        first_some(items, find, from) is Some,
    ensures
        exists|i: int|
            from <= i < items.len() && find(#[trigger] items[i]) == first_some(items, find, from),
    decreases items.len() - from,
{
    if find(items[from]) is Some {
        assert(find(items[from]) == first_some(items, find, from));
    } else {
        lemma_first_some_is_found(items, find, from + 1);
        let i = choose|i: int|
            from + 1 <= i < items.len() && find(#[trigger] items[i]) == first_some(
                items,
                find,
                from + 1,
            );
        assert(find(items[i]) == first_some(items, find, from));
    }
}

} // verus!
