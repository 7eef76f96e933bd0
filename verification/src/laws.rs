//! What holds of placements, of splits and of whole runs, whatever the input.

use crate::geometry::{lemma_lex_less_orders, Dimensions};
use crate::greedy::{
    lemma_sums_grow, max_length, max_width, spec_fits_greedy_box, spec_greedy_packing, stack_height,
    stacked,
};
use crate::model::{spec_weight_or_zero, Container, Item, PackingView, Placement, Space};
use crate::packer::{
    after_items, falls_back, fresh_packing, offer, pack, packed_largest_first, spec_pack, take_in,
    PackError, PackErrorKind, PackResult,
};
use crate::partition::{
    highest_below, lemma_highest_below, lemma_partition_volume, spec_break_up_space,
};
use crate::placement::{lemma_tightest_below, place, rotation, spec_place, tightest_below};
use crate::sorting::{
    lemma_items_and_spaces_are_ranked, lemma_sorting_is_stable, lemma_sorting_orders,
    lemma_sorting_permutes, stably_sorted, tied_with, ties,
};
use crate::soundness::{lemma_after_items_sound, lemma_place_fits, lemma_stack_weight};
use vstd::prelude::*;

verus! {

/// The two orders on extents are strict and total on canonical extents: no
/// extents come before themselves, of two with different canonical extents
/// exactly one comes before the other, and the orders are transitive.
pub proof fn lemma_extents_are_ordered(a: Dimensions, b: Dimensions, c: Dimensions)
    ensures
        !a.lwh_less(a) && !a.hwl_less(a),
        a.canonical() != b.canonical() ==> (a.lwh_less(b) <==> !b.lwh_less(a)),
        a.canonical() != b.canonical() ==> (a.hwl_less(b) <==> !b.hwl_less(a)),
        a.lwh_less(b) && b.lwh_less(c) ==> a.lwh_less(c),
        a.hwl_less(b) && b.hwl_less(c) ==> a.hwl_less(c),
{
    lemma_lex_less_orders(a.canonical(), b.canonical(), c.canonical());
    lemma_lex_less_orders(
        a.canonical().reversed(),
        b.canonical().reversed(),
        c.canonical().reversed(),
    );
}

/// The items are taken largest first: the list that a run goes through holds
/// the items given, no item of it is larger than one before it, and items of
/// the same canonical extents stand in it in the order in which they were given.
pub proof fn lemma_items_are_taken_largest_first(items: Seq<Item>, item: Item)
    ensures
        stably_sorted(items).to_multiset() == items.to_multiset(),
        forall|i: int, j: int|
            0 <= i < j < items.len() ==> !(#[trigger] stably_sorted(
                items,
            )[i]).dimensions.lwh_less((#[trigger] stably_sorted(items)[j]).dimensions),
        tied_with(stably_sorted(items), item) == tied_with(items, item),
        forall|other: Item|
            ties(other, item) <==> other.dimensions.canonical() == item.dimensions.canonical(),
{
    lemma_items_and_spaces_are_ranked();
    lemma_sorting_permutes(items);
    lemma_sorting_orders(items);
    lemma_sorting_is_stable(items, item);
    assert forall|other: Item|
        ties(other, item) <==> other.dimensions.canonical() == item.dimensions.canonical() by {
        lemma_lex_less_orders(
            other.dimensions.canonical(),
            item.dimensions.canonical(),
            item.dimensions.canonical(),
        );
    }
}

/// Placing is deterministic: whatever two calls of `place` return for the
/// same item and the same space is the same.
pub proof fn lemma_place_is_deterministic(
    item: Item,
    space: Space,
    first: Option<Placement>,
    second: Option<Placement>,
)
    requires
        call_ensures(place, (&item, &space), first),
        call_ensures(place, (&item, &space), second),
    ensures
        first == second,
        first == spec_place(item, space),
{
}

/// Packing is deterministic: whatever two calls of `pack` return for the same
/// container and the same items holds the same packings and the same errors.
pub proof fn lemma_pack_is_deterministic(
    container: Container,
    items: &[Item],
    first: PackResult,
    second: PackResult,
)
    requires
        call_ensures(pack, (&container, items), first),
        call_ensures(pack, (&container, items), second),
    ensures
        first@ == second@,
{
}

/// Volume is conserved: where an item is placed in a space and the rest of
/// the space is split, the volumes of the three spaces that come of the split
/// and the volume of the placed item add up to the volume of the space.
pub proof fn lemma_volume_is_conserved(item: Item, space: Space)
    requires
        spec_place(item, space).is_some(),
    ensures
        ({
            let placement = spec_place(item, space).unwrap();
            let parts = spec_break_up_space(space, placement);
            parts[0].volume() + parts[1].volume() + parts[2].volume() + placement.volume()
                == space.volume()
        }),
{
    let placement = spec_place(item, space).unwrap();
    let placed = placement.dimensions.raw;
    lemma_place_fits(item, space);
    lemma_highest_below(space, placed, 6);
    lemma_partition_volume(space, placed, highest_below(space, placed, 6));
}

/// Fitting is monotone: where no canonical extent of one item exceeds that of
/// another, and the other fits a space, the one fits that space too.
pub proof fn lemma_smaller_item_fits(smaller: Item, larger: Item, space: Space)
    requires
        smaller.dimensions.canonical().fits_in(larger.dimensions.canonical()),
        spec_place(larger, space).is_some(),
    ensures
        spec_place(smaller, space).is_some(),
{
    let outer = space.dimensions.raw;
    lemma_tightest_below(larger.dimensions.canonical(), outer, 6);
    lemma_tightest_below(smaller.dimensions.canonical(), outer, 6);
    let k = tightest_below(larger.dimensions.canonical(), outer, 6).unwrap();
    assert(rotation(smaller.dimensions.canonical(), k).fits_in(
        rotation(larger.dimensions.canonical(), k),
    ));
    assert(rotation(smaller.dimensions.canonical(), k).fits_in(outer));
}

/// No item is longer than the longest, nor wider than the widest.
pub proof fn lemma_within_maxima(items: Seq<Item>, i: int)
    requires
        0 <= i < items.len(),
    ensures
        items[i].dimensions.length() <= max_length(items),
        items[i].dimensions.width() <= max_width(items),
    decreases items.len(),
{
    if i < items.len() - 1 {
        lemma_within_maxima(items.drop_last(), i);
    }
}

/// A stack of items that lie flat stays inside the container and has no two
/// items overlap: each item is given with its length on the first axis, its
/// width on the second and its height on the third, the container is as long
/// and as wide as the longest and the widest item, and as high as the stack.
pub proof fn lemma_flat_stack_is_sound(container: Container, items: Seq<Item>)
    requires
        forall|i: int|
            0 <= i < items.len() ==> (#[trigger] items[i]).dimensions.raw
                == items[i].dimensions.canonical(),
        container.dimensions.length() >= max_length(items),
        container.dimensions.width() >= max_width(items),
        container.dimensions.height() >= stack_height(items),
    ensures
        spec_greedy_packing(items).placements_sound(container.interior()),
{
    let stack = spec_greedy_packing(items).placements;
    let bounds = container.interior();
    assert forall|i: int| 0 <= i < stack.len() implies (#[trigger] stack[i]).region().within(
        bounds,
    ) by {
        lemma_within_maxima(items, i);
        lemma_sums_grow(items, i);
        lemma_sums_grow(items, i + 1);
        assert(items.take(i + 1).drop_last() =~= items.take(i));
        assert(stack[i] == stacked(items, i));
        assert(items[i].dimensions.raw == items[i].dimensions.canonical());
    }
    assert forall|i: int, j: int| 0 <= i < j < stack.len() implies (#[trigger] stack[i]).region()
        .apart_from((#[trigger] stack[j]).region()) by {
        lemma_sums_grow(items, i);
        lemma_sums_grow(items, j);
        lemma_sums_grow(items.take(j), i + 1);
        assert(items.take(j).take(i + 1) =~= items.take(i + 1));
        assert(items.take(i + 1).drop_last() =~= items.take(i));
        assert(stack[i] == stacked(items, i));
        assert(stack[j] == stacked(items, j));
        assert(items[i].dimensions.raw == items[i].dimensions.canonical());
    }
}

/// No two items of a packing overlap, and each lies inside the container.
///
/// This holds of every packing that a run builds by placing items in free
/// spaces. Of the plain stack that a run may fall back on it holds where it
/// holds of that stack, which `lemma_flat_stack_is_sound` shows for items
/// that lie flat in a container as high as the stack.
pub proof fn lemma_items_do_not_overlap(container: Container, items: Seq<Item>)
    requires
        falls_back(container, items) ==> spec_greedy_packing(items).placements_sound(
            container.interior(),
        ),
    ensures
        forall|k: int|
            0 <= k < spec_pack(container, items).packings.len() ==> (#[trigger] spec_pack(
                container,
                items,
            ).packings[k]).placements_sound(container.interior()),
{
    lemma_after_items_sound(container, stably_sorted(items));
}

/// The free spaces of a packing overlap neither each other nor an item of
/// the packing, and lie inside the container.
pub proof fn lemma_spaces_stay_free(container: Container, items: Seq<Item>)
    ensures
        forall|k: int|
            0 <= k < spec_pack(container, items).packings.len() ==> (#[trigger] spec_pack(
                container,
                items,
            ).packings[k]).spaces_sound(container.interior()),
{
    lemma_after_items_sound(container, stably_sorted(items));
}

/// Weight is conserved: the weight of every packing is the sum of the weights
/// of the items placed in it, absent weights as zero.
pub proof fn lemma_weight_is_conserved(container: Container, items: Seq<Item>)
    ensures
        forall|k: int|
            0 <= k < spec_pack(container, items).packings.len() ==> (#[trigger] spec_pack(
                container,
                items,
            ).packings[k]).weight_is_sum(),
{
    lemma_after_items_sound(container, stably_sorted(items));
    lemma_stack_weight(items);
}

/// No packing carries more than the container's weight limit.
pub proof fn lemma_weight_within_limit(container: Container, items: Seq<Item>)
    ensures
        forall|k: int|
            0 <= k < spec_pack(container, items).packings.len() ==> (#[trigger] spec_pack(
                container,
                items,
            ).packings[k]).weight <= container.limit(),
{
    lemma_after_items_sound(container, stably_sorted(items));
}

/// The fallback is taken whenever it applies: where one container holds the
/// plain stack of all items, and placing the items one by one would open more
/// than one container, the result is one packing without free space.
pub proof fn lemma_fallback_is_one_stack(container: Container, items: Seq<Item>)
    requires
        spec_fits_greedy_box(container, items),
        packed_largest_first(container, items).packings.len() > 1,
    ensures
        spec_pack(container, items).packings.len() == 1,
        spec_pack(container, items).packings[0].spaces.len() == 0,
        spec_pack(container, items).packings[0] == spec_greedy_packing(items),
{
}

/// Whether the error names an item of the list and the reason holds of it: an
/// item left out as too heavy weighs more than the container may carry, and
/// an item left out as not placeable does not, and fits no empty container.
pub open spec fn justified(error: PackError, container: Container, items: Seq<Item>) -> bool {
    &&& items.contains(error.item)
    &&& match error.kind {
        PackErrorKind::OverWeight => spec_weight_or_zero(error.item.weight) > container.limit(),
        PackErrorKind::Unplaceable => {
            &&& spec_weight_or_zero(error.item.weight) <= container.limit()
            &&& spec_place(error.item, container.interior()).is_none()
        },
    }
}

/// Every error of a run is justified.
proof fn lemma_errors_of_run(container: Container, items: Seq<Item>)
    ensures
        forall|i: int|
            0 <= i < after_items(container, items).errors.len() ==> justified(
                #[trigger] after_items(container, items).errors[i],
                container,
                items,
            ),
    decreases items.len(),
{
    if items.len() > 0 {
        let rest = items.drop_last();
        let before = after_items(container, rest);
        let after = after_items(container, items);
        lemma_errors_of_run(container, rest);
        assert(items[items.len() - 1] == items.last());
        assert forall|i: int| 0 <= i < after.errors.len() implies justified(
            #[trigger] after.errors[i],
            container,
            items,
        ) by {
            if i < before.errors.len() {
                assert(after.errors[i] == before.errors[i]);
                assert(justified(before.errors[i], container, rest));
                let j = choose|j: int| 0 <= j < rest.len() && rest[j] == before.errors[i].item;
                assert(items[j] == rest[j]);
            }
        }
    }
}

/// Errors are justified: every item that `pack` leaves out is one of the
/// items given, and it is too heavy for the container or fits no empty
/// container, as its error says.
pub proof fn lemma_errors_are_justified(container: Container, items: Seq<Item>)
    ensures
        forall|i: int|
            0 <= i < spec_pack(container, items).errors.len() ==> justified(
                #[trigger] spec_pack(container, items).errors[i],
                container,
                items,
            ),
{
    broadcast use vstd::seq_lib::group_to_multiset_ensures;

    let sorted = stably_sorted(items);
    lemma_sorting_permutes(items);
    lemma_errors_of_run(container, sorted);
    if !falls_back(container, items) {
        let errors = spec_pack(container, items).errors;
        assert forall|i: int| 0 <= i < errors.len() implies justified(
            #[trigger] errors[i],
            container,
            items,
        ) by {
            assert(justified(errors[i], container, sorted));
            assert(sorted.contains(errors[i].item));
            assert(sorted.to_multiset().count(errors[i].item) > 0);
            assert(items.to_multiset().count(errors[i].item) > 0);
        }
    }
}

/// The number of items placed in a list of packings.
pub open spec fn placed_count(packings: Seq<PackingView>) -> int
    decreases packings.len(),
{
    if packings.len() == 0 {
        0
    } else {
        placed_count(packings.drop_last()) + packings.last().placements.len()
    }
}

/// Replacing one packing changes the count by the difference of the two.
proof fn lemma_count_of_update(packings: Seq<PackingView>, k: int, packing: PackingView)
    requires
        0 <= k < packings.len(),
    ensures
        placed_count(packings.update(k, packing)) == placed_count(packings)
            - packings[k].placements.len() + packing.placements.len(),
    decreases packings.len(),
{
    let updated = packings.update(k, packing);
    if k == packings.len() - 1 {
        assert(updated.drop_last() =~= packings.drop_last());
    } else {
        lemma_count_of_update(packings.drop_last(), k, packing);
        assert(updated.drop_last() =~= packings.drop_last().update(k, packing));
    }
}

/// Offering an item to the packings places it once if one takes it, and
/// places nothing otherwise.
proof fn lemma_count_of_offer(packings: Seq<PackingView>, item: Item, limit: u64, from: int)
    requires
        0 <= from,
    ensures
        placed_count(offer(packings, item, limit, from).0) == placed_count(packings) + if offer(
            packings,
            item,
            limit,
            from,
        ).1 {
            1int
        } else {
            0int
        },
    decreases packings.len() - from,
{
    if from < packings.len() {
        let (packing, taken) = take_in(packings[from], item, limit);
        let updated = packings.update(from, packing);
        lemma_count_of_update(packings, from, packing);
        if !taken {
            lemma_count_of_offer(updated, item, limit, from + 1);
        }
    }
}

/// Every item of a run is either placed once or reported once.
proof fn lemma_count_of_run(container: Container, items: Seq<Item>)
    ensures
        placed_count(after_items(container, items).packings) + after_items(
            container,
            items,
        ).errors.len() == items.len(),
    decreases items.len(),
{
    if items.len() > 0 {
        let before = after_items(container, items.drop_last());
        let item = items.last();
        lemma_count_of_run(container, items.drop_last());
        if spec_weight_or_zero(item.weight) <= container.limit() {
            let (packings, taken) = offer(before.packings, item, container.limit(), 0);
            lemma_count_of_offer(before.packings, item, container.limit(), 0);
            if !taken {
                if let Some(packing) = fresh_packing(container, item) {
                    assert(packings.push(packing).drop_last() =~= packings);
                }
            }
        }
    }
}

/// No item is lost and none is added: the items placed in the packings and
/// the items reported as left out are together as many as the items given.
pub proof fn lemma_every_item_is_accounted_for(container: Container, items: Seq<Item>)
    ensures
        placed_count(spec_pack(container, items).packings) + spec_pack(
            container,
            items,
        ).errors.len() == items.len(),
{
    lemma_sorting_permutes(items);
    lemma_count_of_run(container, stably_sorted(items));
    if falls_back(container, items) {
        let packings = spec_pack(container, items).packings;
        assert(packings.drop_last() =~= Seq::<PackingView>::empty());
        assert(placed_count(packings.drop_last()) == 0);
    }
}

} // verus!
