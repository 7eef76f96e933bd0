//! Stable sorting of items, largest first, and of free spaces, smallest first.

use crate::model::{Item, Space};
use std::cmp::Ordering;
use vstd::prelude::*;

verus! {

/// A value that takes part in a stable sort.
pub trait Ranked: Copy {
    /// Whether `self` has to stand before `other` in a sorted list. Where
    /// neither of two values has to stand before the other, they keep the
    /// order in which they came.
    spec fn goes_before(self, other: Self) -> bool;

    /// Tells whether `self` has to stand before `other`.
    fn stands_before(&self, other: &Self) -> (before: bool)
        ensures
            before == self.goes_before(*other),
    ;
}

impl Ranked for Item {
    /// The larger item goes first: by length, then width, then height.
    open spec fn goes_before(self, other: Item) -> bool {
        other.dimensions.lwh_less(self.dimensions)
    }

    fn stands_before(&self, other: &Item) -> (before: bool) {
        match other.dimensions.cmp_lwh(&self.dimensions) {
            Ordering::Less => true,
            _ => false,
        }
    }
}

impl Ranked for Space {
    /// The smaller space goes first: by height, then width, then length.
    open spec fn goes_before(self, other: Space) -> bool {
        self.dimensions.hwl_less(other.dimensions)
    }

    fn stands_before(&self, other: &Space) -> (before: bool) {
        match self.dimensions.cmp_hwl(&other.dimensions) {
            Ordering::Less => true,
            _ => false,
        }
    }
}

/// A sorted list with one more value: the value moves from the end towards
/// the front past every value that it has to stand before.
pub open spec fn inserted<T: Ranked>(sorted: Seq<T>, value: T) -> Seq<T>
    decreases sorted.len(),
{
    if sorted.len() > 0 && value.goes_before(sorted.last()) {
        inserted(sorted.drop_last(), value).push(sorted.last())
    } else {
        sorted.push(value)
    }
}

/// The list sorted stably: its values are inserted one by one, in the order
/// in which they came.
pub open spec fn stably_sorted<T: Ranked>(list: Seq<T>) -> Seq<T>
    decreases list.len(),
{
    if list.len() == 0 {
        Seq::empty()
    } else {
        inserted(stably_sorted(list.drop_last()), list.last())
    }
}

/// Where `inserted` puts the value: behind the last value that it does not
/// have to stand before.
pub open spec fn slot<T: Ranked>(sorted: Seq<T>, value: T) -> int
    decreases sorted.len(),
{
    if sorted.len() > 0 && value.goes_before(sorted.last()) {
        slot(sorted.drop_last(), value)
    } else {
        sorted.len() as int
    }
}

/// `inserted` puts the value at its slot and leaves the others in their order.
pub proof fn lemma_inserted_at_slot<T: Ranked>(sorted: Seq<T>, value: T)
    ensures
        0 <= slot(sorted, value) <= sorted.len(),
        inserted(sorted, value) == sorted.insert(slot(sorted, value), value),
        forall|i: int|
            slot(sorted, value) <= i < sorted.len() ==> value.goes_before(#[trigger] sorted[i]),
        slot(sorted, value) > 0 ==> !value.goes_before(sorted[slot(sorted, value) - 1]),
    decreases sorted.len(),
{
    if sorted.len() > 0 && value.goes_before(sorted.last()) {
        lemma_inserted_at_slot(sorted.drop_last(), value);
        let p = slot(sorted.drop_last(), value);
        assert(sorted.drop_last().insert(p, value).push(sorted.last()) =~= sorted.insert(
            p,
            value,
        ));
        assert forall|i: int| p <= i < sorted.len() implies value.goes_before(
            #[trigger] sorted[i],
        ) by {
            if i < sorted.len() - 1 {
                assert(sorted[i] == sorted.drop_last()[i]);
            }
        }
        if p > 0 {
            assert(sorted[p - 1] == sorted.drop_last()[p - 1]);
        }
    } else {
        assert(sorted.push(value) =~= sorted.insert(sorted.len() as int, value));
    }
}

/// Sorting keeps the values: it only changes their order.
pub proof fn lemma_sorting_permutes<T: Ranked>(list: Seq<T>)
    ensures
        stably_sorted(list).len() == list.len(),
        stably_sorted(list).to_multiset() == list.to_multiset(),
    decreases list.len(),
{
    broadcast use vstd::seq_lib::group_to_multiset_ensures;

    if list.len() > 0 {
        let rest = list.drop_last();
        let sorted = stably_sorted(rest);
        lemma_sorting_permutes(rest);
        lemma_inserted_at_slot(sorted, list.last());
        let at = slot(sorted, list.last());
        let longer = sorted.insert(at, list.last());
        assert(longer.remove(at) =~= sorted);
        assert(longer[at] == list.last());
        assert(longer.to_multiset() =~= sorted.to_multiset().insert(list.last()));
        assert(rest.push(list.last()) =~= list);
    } else {
        assert(stably_sorted(list) =~= list);
    }
}

/// Whether the list is in order: no value has to stand before one that comes
/// earlier in the list.
pub open spec fn in_order<T: Ranked>(list: Seq<T>) -> bool {
    forall|i: int, j: int|
        0 <= i < j < list.len() ==> !(#[trigger] list[j]).goes_before(#[trigger] list[i])
}

/// Whether `goes_before` ranks the values of `T`: of two values at most one
/// has to stand before the other, and a value that need not stand before a
/// second, which need not stand before a third, need not stand before the third.
pub open spec fn ranks<T: Ranked>() -> bool {
    &&& forall|a: T, b: T| #[trigger] a.goes_before(b) ==> !b.goes_before(a)
    &&& forall|a: T, b: T, c: T|
        !(#[trigger] a.goes_before(b)) && !(#[trigger] b.goes_before(c)) ==> !a.goes_before(c)
}

/// Items are ranked by their canonical extents, and so are spaces.
pub proof fn lemma_items_and_spaces_are_ranked()
    ensures
        ranks::<Item>(),
        ranks::<Space>(),
{
}

/// A list in order stays in order when a value is inserted.
pub proof fn lemma_inserted_in_order<T: Ranked>(sorted: Seq<T>, value: T)
    requires
        ranks::<T>(),
        in_order(sorted),
    ensures
        in_order(inserted(sorted, value)),
{
    lemma_inserted_at_slot(sorted, value);
    let at = slot(sorted, value);
    let longer = sorted.insert(at, value);
    assert forall|i: int, j: int| 0 <= i < j < longer.len() implies !(#[trigger] longer[j])
        .goes_before(#[trigger] longer[i]) by {
        if i == at {
            assert(longer[j] == sorted[j - 1]);
            assert(value.goes_before(sorted[j - 1]));
        } else if j == at {
            assert(longer[i] == sorted[i]);
            if i < at - 1 {
                assert(!sorted[at - 1].goes_before(sorted[i]));
            }
        } else {
            let a = if i < at {
                i
            } else {
                i - 1
            };
            let b = if j < at {
                j
            } else {
                j - 1
            };
            assert(longer[i] == sorted[a] && longer[j] == sorted[b]);
        }
    }
}

/// A sorted list is in order.
pub proof fn lemma_sorting_orders<T: Ranked>(list: Seq<T>)
    requires
        ranks::<T>(),
    ensures
        in_order(stably_sorted(list)),
    decreases list.len(),
{
    if list.len() > 0 {
        lemma_sorting_orders(list.drop_last());
        lemma_inserted_in_order(stably_sorted(list.drop_last()), list.last());
    }
}

/// Whether neither of two values has to stand before the other.
pub open spec fn ties<T: Ranked>(a: T, b: T) -> bool {
    !a.goes_before(b) && !b.goes_before(a)
}

/// The values of the list that tie with `value`, in their order.
pub open spec fn tied_with<T: Ranked>(list: Seq<T>, value: T) -> Seq<T>
    decreases list.len(),
{
    if list.len() == 0 {
        Seq::empty()
    } else if ties(list.last(), value) {
        tied_with(list.drop_last(), value).push(list.last())
    } else {
        tied_with(list.drop_last(), value)
    }
}

/// The values that tie with `value` in two lists joined are those of the
/// first list, then those of the second.
proof fn lemma_tied_with_joined<T: Ranked>(front: Seq<T>, back: Seq<T>, value: T)
    ensures
        tied_with(front + back, value) == tied_with(front, value) + tied_with(back, value),
    decreases back.len(),
{
    if back.len() == 0 {
        assert(front + back =~= front);
        assert(tied_with(front, value) + tied_with(back, value) =~= tied_with(front, value));
    } else {
        lemma_tied_with_joined(front, back.drop_last(), value);
        assert((front + back).drop_last() =~= front + back.drop_last());
        assert((tied_with(front, value) + tied_with(back.drop_last(), value)).push(back.last())
            =~= tied_with(front, value) + tied_with(back.drop_last(), value).push(back.last()));
    }
}

/// A list none of whose values ties with `value` holds none that does.
proof fn lemma_none_tied<T: Ranked>(list: Seq<T>, value: T)
    requires
        forall|i: int| 0 <= i < list.len() ==> !ties(#[trigger] list[i], value),
    ensures
        tied_with(list, value) == Seq::<T>::empty(),
    decreases list.len(),
{
    if list.len() > 0 {
        assert forall|i: int| 0 <= i < list.drop_last().len() implies !ties(
            #[trigger] list.drop_last()[i],
            value,
        ) by {
            assert(list.drop_last()[i] == list[i]);
        }
        lemma_none_tied(list.drop_last(), value);
    }
}

/// Inserting a value puts it behind every value that ties with it.
proof fn lemma_inserted_behind_ties<T: Ranked>(sorted: Seq<T>, inserted_value: T, value: T)
    requires
        ranks::<T>(),
    ensures
        tied_with(inserted(sorted, inserted_value), value) == tied_with(
            sorted.push(inserted_value),
            value,
        ),
{
    lemma_inserted_at_slot(sorted, inserted_value);
    let at = slot(sorted, inserted_value);
    let front = sorted.take(at);
    let back = sorted.skip(at);
    let one = seq![inserted_value];
    assert(sorted.insert(at, inserted_value) =~= front + one + back);
    assert(sorted.push(inserted_value) =~= front + back + one);
    assert(one.drop_last() =~= Seq::<T>::empty());
    assert(tied_with(Seq::<T>::empty(), value) =~= Seq::<T>::empty());
    lemma_tied_with_joined(front + one, back, value);
    lemma_tied_with_joined(front, one, value);
    lemma_tied_with_joined(front + back, one, value);
    lemma_tied_with_joined(front, back, value);
    if ties(inserted_value, value) {
        assert forall|i: int| 0 <= i < back.len() implies !ties(#[trigger] back[i], value) by {
            assert(back[i] == sorted[at + i]);
            assert(inserted_value.goes_before(sorted[at + i]));
        }
        lemma_none_tied(back, value);
        assert(tied_with(front, value) + tied_with(one, value) + Seq::<T>::empty() =~= tied_with(
            front,
            value,
        ) + Seq::<T>::empty() + tied_with(one, value));
    } else {
        assert(tied_with(one, value) =~= Seq::<T>::empty());
        assert(tied_with(front, value) + Seq::<T>::empty() + tied_with(back, value) =~= tied_with(
            front,
            value,
        ) + tied_with(back, value) + Seq::<T>::empty());
    }
}

/// Sorting is stable: the values that tie with each other stand in the sorted
/// list in the order in which they came.
pub proof fn lemma_sorting_is_stable<T: Ranked>(list: Seq<T>, value: T)
    requires
        ranks::<T>(),
    ensures
        tied_with(stably_sorted(list), value) == tied_with(list, value),
    decreases list.len(),
{
    if list.len() > 0 {
        let rest = list.drop_last();
        lemma_sorting_is_stable(rest, value);
        lemma_inserted_behind_ties(stably_sorted(rest), list.last(), value);
        assert(stably_sorted(rest).push(list.last()).drop_last() =~= stably_sorted(rest));
    }
}

/// Puts one more value into a sorted list.
pub fn insert_sorted<T: Ranked>(sorted: &mut Vec<T>, value: T)
    ensures
        final(sorted)@ == inserted(old(sorted)@, value),
{
    let mut at: usize = sorted.len();
    proof {
        assert(sorted@.take(at as int) =~= sorted@);
        assert(inserted(sorted@, value) + sorted@.skip(at as int) =~= inserted(sorted@, value));
    }
    while at > 0 && value.stands_before(&sorted[at - 1])
        invariant
            at <= sorted.len(),
            sorted@ == old(sorted)@,
            inserted(sorted@, value) == inserted(sorted@.take(at as int), value) + sorted@.skip(
                at as int,
            ),
        decreases at,
    {
        proof {
            let head = sorted@.take(at as int);
            assert(head.drop_last() =~= sorted@.take(at - 1));
            assert(inserted(head.drop_last(), value).push(head.last()) + sorted@.skip(at as int)
                =~= inserted(sorted@.take(at - 1), value) + sorted@.skip(at - 1));
        }
        at = at - 1;
    }
    proof {
        let head = sorted@.take(at as int);
        assert(inserted(head, value) == head.push(value));
        assert(head.push(value) + sorted@.skip(at as int) =~= sorted@.insert(at as int, value));
    }
    sorted.insert(at, value);
}

/// Sorts the items stably, the largest first: by length, then width, then
/// height. Items of the same length, width and height keep their order.
pub fn sorted_largest_first(items: &[Item]) -> (sorted: Vec<Item>)
    ensures
        sorted@ == stably_sorted(items@),
        sorted@.to_multiset() == items@.to_multiset(),
        in_order(sorted@),
{
    proof {
        lemma_items_and_spaces_are_ranked();
        lemma_sorting_permutes(items@);
        lemma_sorting_orders(items@);
    }
    let mut sorted: Vec<Item> = Vec::new();
    let mut i: usize = 0;
    while i < items.len()
        invariant
            i <= items.len(),
            sorted@ == stably_sorted(items@.take(i as int)),
        decreases items.len() - i,
    {
        proof {
            assert(items@.take(i + 1).drop_last() =~= items@.take(i as int));
        }
        insert_sorted(&mut sorted, items[i]);
        i = i + 1;
    }
    assert(items@.take(i as int) =~= items@);
    sorted
}

} // verus!
