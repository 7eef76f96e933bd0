//! What holds of every packing that a run builds by placing items in free
//! spaces: its weight is the sum of its items' weights and within the limit,
//! its items and free spaces lie inside the container, and no two of them
//! overlap.

use crate::greedy::{spec_greedy_packing, stacked};
use crate::model::{
    placements_weight, spec_weight_or_zero, Container, Item, PackingView, Placement, Space,
};
use crate::packer::{
    after_item, after_items, first_fit, fresh_packing, offer, solid_only, take_in, tidied,
    with_item_in, PackOutcome,
};
use crate::partition::{
    highest_below, lemma_highest_below, lemma_partition_geometry, spec_break_up_space,
};
use crate::placement::{lemma_tightest_below, spec_place};
use crate::sorting::{
    in_order, lemma_inserted_at_slot, lemma_items_and_spaces_are_ranked, lemma_sorting_orders, slot,
    stably_sorted,
};
use vstd::prelude::*;

verus! {

/// Whether no two spaces of the list overlap.
pub open spec fn pairwise_apart(spaces: Seq<Space>) -> bool {
    forall|i: int, j: int|
        0 <= i < j < spaces.len() ==> (#[trigger] spaces[i]).apart_from(#[trigger] spaces[j])
}

/// Whether a packing is as a run leaves it: the weight it carries is the sum
/// of its items' weights and within the container's limit, its items and its
/// free spaces lie inside the container, and no two of them overlap.
pub open spec fn packing_sound(packing: PackingView, container: Container) -> bool {
    &&& packing.weight_is_sum()
    &&& 0 <= packing.weight <= container.limit()
    &&& packing.placements_sound(container.interior())
    &&& packing.spaces_sound(container.interior())
}

/// Whether every packing of the list is as a run leaves it.
pub open spec fn all_sound(packings: Seq<PackingView>, container: Container) -> bool {
    forall|k: int| 0 <= k < packings.len() ==> packing_sound(#[trigger] packings[k], container)
}

/// A placement that `place` returns lies in the low corner of the space,
/// inside it, and carries the item's weight.
pub proof fn lemma_place_fits(item: Item, space: Space)
    ensures
        spec_place(item, space) matches Some(p) ==> {
            &&& p.position == space.position
            &&& p.weight == item.weight
            &&& p.dimensions.raw.fits_in(space.dimensions.raw)
            &&& (space.in_range() ==> p.region().within(space))
        },
{
    lemma_tightest_below(item.dimensions.canonical(), space.dimensions.raw, 6);
}

/// The three spaces that `break_up_space` returns lie inside the space, and
/// overlap neither each other nor the item in its low corner.
pub proof fn lemma_break_up_geometry(space: Space, placement: Placement)
    requires
        placement.dimensions.raw.fits_in(space.dimensions.raw),
        placement.position == space.position,
        space.in_range(),
    ensures
        ({
            let parts = spec_break_up_space(space, placement);
            &&& parts.len() == 3
            &&& forall|i: int| 0 <= i < 3 ==> (#[trigger] parts[i]).within(space)
            &&& forall|i: int| 0 <= i < 3 ==> (#[trigger] parts[i]).apart_from(placement.region())
            &&& pairwise_apart(parts)
        }),
{
    let placed = placement.dimensions.raw;
    lemma_highest_below(space, placed, 6);
    lemma_partition_geometry(space, placed, highest_below(space, placed, 6));
}

/// A cuboid that is apart from another is apart from every part of it.
pub proof fn lemma_apart_from_part(other: Space, whole: Space, part: Space)
    requires
        other.apart_from(whole),
        part.within(whole),
    ensures
        other.apart_from(part),
        part.apart_from(other),
{
}

/// Dropping the spaces without volume keeps the others apart, and adds none.
pub proof fn lemma_solid_only_keeps(spaces: Seq<Space>)
    ensures
        forall|i: int|
            0 <= i < solid_only(spaces).len() ==> spaces.contains(#[trigger] solid_only(spaces)[i]),
        pairwise_apart(spaces) ==> pairwise_apart(solid_only(spaces)),
    decreases spaces.len(),
{
    if spaces.len() > 0 {
        let rest = spaces.drop_last();
        lemma_solid_only_keeps(rest);
        let kept = solid_only(rest);
        assert forall|i: int| 0 <= i < kept.len() implies spaces.contains(#[trigger] kept[i]) by {
            assert(rest.contains(kept[i]));
            let j = choose|j: int| 0 <= j < rest.len() && rest[j] == kept[i];
            assert(spaces[j] == kept[i]);
        }
        assert(spaces.contains(spaces.last())) by {
            assert(spaces[spaces.len() - 1] == spaces.last());
        }
        if pairwise_apart(spaces) {
            assert(pairwise_apart(rest)) by {
                assert forall|i: int, j: int| 0 <= i < j < rest.len() implies (#[trigger] rest[i])
                    .apart_from(#[trigger] rest[j]) by {
                    assert(spaces[i].apart_from(spaces[j]));
                }
            }
            if spaces.last().dimensions.is_solid() {
                lemma_push_keeps_apart(rest, kept, spaces.last(), spaces);
            }
        }
    }
}

/// A list whose spaces are apart and all come from the front of `spaces`
/// stays so when the last space of `spaces` is put into it anywhere.
proof fn lemma_insert_keeps_apart(
    rest: Seq<Space>,
    kept: Seq<Space>,
    at: int,
    last: Space,
    spaces: Seq<Space>,
)
    requires
        spaces.len() > 0,
        rest == spaces.drop_last(),
        last == spaces.last(),
        pairwise_apart(spaces),
        pairwise_apart(kept),
        0 <= at <= kept.len(),
        forall|i: int| 0 <= i < kept.len() ==> rest.contains(#[trigger] kept[i]),
    ensures
        pairwise_apart(kept.insert(at, last)),
        forall|i: int|
            0 <= i < kept.insert(at, last).len() ==> spaces.contains(
                #[trigger] kept.insert(at, last)[i],
            ),
{
    let longer = kept.insert(at, last);
    assert forall|i: int| 0 <= i < kept.len() implies (#[trigger] kept[i]).apart_from(last)
        && last.apart_from(kept[i]) && spaces.contains(kept[i]) by {
        assert(rest.contains(kept[i]));
        let j = choose|j: int| 0 <= j < rest.len() && rest[j] == kept[i];
        assert(spaces[j] == kept[i]);
        assert(spaces[j].apart_from(spaces[spaces.len() - 1]));
    }
    assert(spaces[spaces.len() - 1] == last);
    assert forall|i: int, j: int| 0 <= i < j < longer.len() implies (#[trigger] longer[i])
        .apart_from(#[trigger] longer[j]) by {
        if i == at {
            assert(longer[j] == kept[j - 1]);
        } else if j == at {
            assert(longer[i] == kept[i]);
        } else {
            let a = if i < at {
                i
            } else {
                i - 1
            };
            let b = if j < at {
                j
            } else {
                j - 1
            };
            assert(longer[i] == kept[a] && longer[j] == kept[b]);
        }
    }
    assert forall|i: int| 0 <= i < longer.len() implies spaces.contains(#[trigger] longer[i]) by {
        if i < at {
            assert(longer[i] == kept[i]);
        } else if i > at {
            assert(longer[i] == kept[i - 1]);
        }
    }
}

/// The same, for a space that is added at the end.
proof fn lemma_push_keeps_apart(rest: Seq<Space>, kept: Seq<Space>, last: Space, spaces: Seq<Space>)
    requires
        spaces.len() > 0,
        rest == spaces.drop_last(),
        last == spaces.last(),
        pairwise_apart(spaces),
        pairwise_apart(kept),
        forall|i: int| 0 <= i < kept.len() ==> rest.contains(#[trigger] kept[i]),
    ensures
        pairwise_apart(kept.push(last)),
{
    lemma_insert_keeps_apart(rest, kept, kept.len() as int, last, spaces);
    assert(kept.insert(kept.len() as int, last) =~= kept.push(last));
}

/// Sorting the spaces keeps them apart, and adds none.
pub proof fn lemma_sorted_keeps(spaces: Seq<Space>)
    ensures
        forall|i: int|
            0 <= i < stably_sorted(spaces).len() ==> spaces.contains(
                #[trigger] stably_sorted(spaces)[i],
            ),
        pairwise_apart(spaces) ==> pairwise_apart(stably_sorted(spaces)),
    decreases spaces.len(),
{
    if spaces.len() > 0 {
        let rest = spaces.drop_last();
        let kept = stably_sorted(rest);
        let last = spaces.last();
        lemma_sorted_keeps(rest);
        lemma_inserted_at_slot(kept, last);
        let at = slot(kept, last);
        let longer = kept.insert(at, last);
        assert(spaces[spaces.len() - 1] == last);
        assert forall|i: int| 0 <= i < longer.len() implies spaces.contains(#[trigger] longer[i]) by {
            if i < at {
                assert(longer[i] == kept[i]);
                assert(rest.contains(kept[i]));
                let j = choose|j: int| 0 <= j < rest.len() && rest[j] == kept[i];
                assert(spaces[j] == kept[i]);
            } else if i > at {
                assert(longer[i] == kept[i - 1]);
                assert(rest.contains(kept[i - 1]));
                let j = choose|j: int| 0 <= j < rest.len() && rest[j] == kept[i - 1];
                assert(spaces[j] == kept[i - 1]);
            }
        }
        if pairwise_apart(spaces) {
            assert(pairwise_apart(rest)) by {
                assert forall|i: int, j: int| 0 <= i < j < rest.len() implies (#[trigger] rest[i])
                    .apart_from(#[trigger] rest[j]) by {
                    assert(spaces[i].apart_from(spaces[j]));
                }
            }
            lemma_insert_keeps_apart(rest, kept, at, last, spaces);
        }
    }
}

/// Tidied spaces are spaces of the list, each with a volume, smallest first.
pub proof fn lemma_tidied_in_order(spaces: Seq<Space>)
    ensures
        in_order(tidied(spaces)),
        forall|i: int|
            0 <= i < tidied(spaces).len() ==> (#[trigger] tidied(spaces)[i]).dimensions.is_solid()
                && spaces.contains(tidied(spaces)[i]),
{
    let solid = solid_only(spaces);
    let ready = tidied(spaces);
    lemma_items_and_spaces_are_ranked();
    lemma_sorting_orders(solid);
    lemma_sorted_keeps(solid);
    lemma_solid_only_keeps(spaces);
    lemma_solid_only_is_solid(spaces);
    assert forall|i: int| 0 <= i < ready.len() implies (#[trigger] ready[i]).dimensions.is_solid()
        && spaces.contains(ready[i]) by {
        assert(solid.contains(ready[i]));
        let j = choose|j: int| 0 <= j < solid.len() && solid[j] == ready[i];
        assert(spaces.contains(solid[j]));
    }
}

/// Every space that is kept has a volume.
proof fn lemma_solid_only_is_solid(spaces: Seq<Space>)
    ensures
        forall|i: int|
            0 <= i < solid_only(spaces).len() ==> (#[trigger] solid_only(
                spaces,
            )[i]).dimensions.is_solid(),
    decreases spaces.len(),
{
    if spaces.len() > 0 {
        let kept = solid_only(spaces.drop_last());
        lemma_solid_only_is_solid(spaces.drop_last());
        assert forall|i: int| 0 <= i < solid_only(spaces).len() implies (#[trigger] solid_only(
            spaces,
        )[i]).dimensions.is_solid() by {
            if i < kept.len() {
                assert(solid_only(spaces)[i] == kept[i]);
            }
        }
    }
}

/// Tidying the free spaces of a packing leaves them inside the container and
/// apart from each other and from the items.
pub proof fn lemma_tidied_sound(packing: PackingView, bounds: Space)
    requires
        packing.spaces_sound(bounds),
    ensures
        (PackingView {
            placements: packing.placements,
            spaces: tidied(packing.spaces),
            weight: packing.weight,
        }).spaces_sound(bounds),
{
    let spaces = packing.spaces;
    let solid = solid_only(spaces);
    let ready = tidied(spaces);
    lemma_solid_only_keeps(spaces);
    lemma_sorted_keeps(solid);
    assert(pairwise_apart(spaces));
    assert forall|i: int| 0 <= i < ready.len() implies spaces.contains(#[trigger] ready[i]) by {
        assert(solid.contains(ready[i]));
        let j = choose|j: int| 0 <= j < solid.len() && solid[j] == ready[i];
        assert(spaces.contains(solid[j]));
    }
    assert forall|i: int| 0 <= i < ready.len() implies (#[trigger] ready[i]).within(bounds) by {
        let j = choose|j: int| 0 <= j < spaces.len() && spaces[j] == ready[i];
        assert(spaces[j].within(bounds));
    }
    assert forall|i: int, j: int|
        0 <= i < ready.len() && 0 <= j < packing.placements.len() implies (#[trigger] ready[i])
        .apart_from((#[trigger] packing.placements[j]).region()) by {
        let k = choose|k: int| 0 <= k < spaces.len() && spaces[k] == ready[i];
        assert(spaces[k].apart_from(packing.placements[j].region()));
    }
}

/// Adding one placement adds its weight to the sum.
pub proof fn lemma_weight_of_push(placements: Seq<Placement>, placement: Placement)
    ensures
        placements_weight(placements.push(placement)) == placements_weight(placements)
            + spec_weight_or_zero(placement.weight),
        placements_weight(placements) >= 0,
    decreases placements.len(),
{
    assert(placements.push(placement).drop_last() =~= placements);
    if placements.len() > 0 {
        lemma_weight_of_push(placements.drop_last(), placements.last());
        assert(placements.drop_last().push(placements.last()) =~= placements);
    }
}

/// A sound packing stays sound when an item is put into one of its free spaces.
pub proof fn lemma_with_item_sound(
    packing: PackingView,
    item: Item,
    at: int,
    container: Container,
)
    requires
        packing_sound(packing, container),
        0 <= at < packing.spaces.len(),
        spec_place(item, packing.spaces[at]).is_some(),
        packing.weight + spec_weight_or_zero(item.weight) <= container.limit(),
    ensures
        packing_sound(with_item_in(packing, item, at), container),
{
    let bounds = container.interior();
    let space = packing.spaces[at];
    let placement = spec_place(item, space).unwrap();
    let parts = spec_break_up_space(space, placement);
    let after = with_item_in(packing, item, at);
    let others = packing.spaces.remove(at);
    assert(space.within(bounds));
    assert(space.in_range());
    lemma_place_fits(item, space);
    lemma_break_up_geometry(space, placement);
    lemma_weight_of_push(packing.placements, placement);

    assert forall|i: int| 0 <= i < others.len() implies (#[trigger] others[i]).apart_from(space)
        && others[i].within(bounds) && (forall|j: int|
        0 <= j < packing.placements.len() ==> others[i].apart_from(
            (#[trigger] packing.placements[j]).region(),
        )) by {
        let k = if i < at {
            i
        } else {
            i + 1
        };
        assert(others[i] == packing.spaces[k]);
        if k < at {
            assert(packing.spaces[k].apart_from(packing.spaces[at]));
        } else {
            assert(packing.spaces[at].apart_from(packing.spaces[k]));
        }
    }
    assert forall|i: int, j: int| 0 <= i < j < others.len() implies (#[trigger] others[i])
        .apart_from(#[trigger] others[j]) by {
        let a = if i < at {
            i
        } else {
            i + 1
        };
        let b = if j < at {
            j
        } else {
            j + 1
        };
        assert(others[i] == packing.spaces[a] && others[j] == packing.spaces[b]);
    }

    assert forall|i: int| 0 <= i < after.placements.len() implies (#[trigger] after.placements[i])
        .region().within(bounds) by {
        if i < packing.placements.len() {
            assert(after.placements[i] == packing.placements[i]);
        }
    }
    assert forall|i: int, j: int| 0 <= i < j < after.placements.len() implies (
    #[trigger] after.placements[i]).region().apart_from((#[trigger] after.placements[j]).region()) by {
        assert(after.placements[i] == packing.placements[i]);
        if j < packing.placements.len() {
            assert(after.placements[j] == packing.placements[j]);
        } else {
            assert(space.apart_from(packing.placements[i].region()));
            lemma_apart_from_part(packing.placements[i].region(), space, placement.region());
        }
    }
    assert(after.placements_sound(bounds));

    assert forall|i: int| 0 <= i < after.spaces.len() implies (#[trigger] after.spaces[i]).within(
        bounds,
    ) by {
        if i < others.len() {
            assert(after.spaces[i] == others[i]);
        } else {
            assert(after.spaces[i] == parts[i - others.len()]);
            assert(parts[i - others.len()].within(space));
        }
    }
    assert forall|i: int, j: int| 0 <= i < j < after.spaces.len() implies (
    #[trigger] after.spaces[i]).apart_from(#[trigger] after.spaces[j]) by {
        if j < others.len() {
            assert(after.spaces[i] == others[i] && after.spaces[j] == others[j]);
        } else if i < others.len() {
            assert(after.spaces[i] == others[i]);
            assert(after.spaces[j] == parts[j - others.len()]);
            assert(parts[j - others.len()].within(space));
            lemma_apart_from_part(others[i], space, parts[j - others.len()]);
        } else {
            assert(after.spaces[i] == parts[i - others.len()]);
            assert(after.spaces[j] == parts[j - others.len()]);
        }
    }
    assert forall|i: int, j: int|
        0 <= i < after.spaces.len() && 0 <= j < after.placements.len() implies (
    #[trigger] after.spaces[i]).apart_from((#[trigger] after.placements[j]).region()) by {
        if i < others.len() {
            assert(after.spaces[i] == others[i]);
            if j < packing.placements.len() {
                assert(after.placements[j] == packing.placements[j]);
            } else {
                lemma_apart_from_part(others[i], space, placement.region());
            }
        } else {
            let part = parts[i - others.len()];
            assert(after.spaces[i] == part);
            assert(part.within(space));
            if j < packing.placements.len() {
                assert(after.placements[j] == packing.placements[j]);
                assert(space.apart_from(packing.placements[j].region()));
                lemma_apart_from_part(packing.placements[j].region(), space, part);
            } else {
                assert(part.apart_from(placement.region()));
            }
        }
    }
    assert(after.spaces_sound(bounds));
}

/// The first fit, where there is one, is an index of a space that takes the item,
/// and no space before it does.
pub proof fn lemma_first_fit(item: Item, spaces: Seq<Space>, from: int)
    requires
        0 <= from <= spaces.len(),
    ensures
        match first_fit(item, spaces, from) {
            None => forall|i: int|
                from <= i < spaces.len() ==> spec_place(item, #[trigger] spaces[i]).is_none(),
            Some(at) => {
                &&& from <= at < spaces.len()
                &&& spec_place(item, spaces[at]).is_some()
                &&& forall|i: int|
                    from <= i < at ==> spec_place(item, #[trigger] spaces[i]).is_none()
            },
        },
    decreases spaces.len() - from,
{
    if from < spaces.len() && spec_place(item, spaces[from]).is_none() {
        lemma_first_fit(item, spaces, from + 1);
    }
}

/// A sound packing stays sound when an item is offered to it.
pub proof fn lemma_take_in_sound(packing: PackingView, item: Item, container: Container)
    requires
        packing_sound(packing, container),
    ensures
        packing_sound(take_in(packing, item, container.limit()).0, container),
{
    if packing.weight + spec_weight_or_zero(item.weight) <= container.limit() {
        let ready = PackingView {
            placements: packing.placements,
            spaces: tidied(packing.spaces),
            weight: packing.weight,
        };
        lemma_tidied_sound(packing, container.interior());
        lemma_first_fit(item, ready.spaces, 0);
        if let Some(at) = first_fit(item, ready.spaces, 0) {
            lemma_with_item_sound(ready, item, at, container);
        }
    }
}

/// Sound packings stay sound, and as many, when an item is offered to them in turn.
pub proof fn lemma_offer_sound(
    packings: Seq<PackingView>,
    item: Item,
    container: Container,
    from: int,
)
    requires
        all_sound(packings, container),
        0 <= from,
    ensures
        all_sound(offer(packings, item, container.limit(), from).0, container),
        offer(packings, item, container.limit(), from).0.len() == packings.len(),
    decreases packings.len() - from,
{
    if from < packings.len() {
        let (packing, taken) = take_in(packings[from], item, container.limit());
        let updated = packings.update(from, packing);
        lemma_take_in_sound(packings[from], item, container);
        assert forall|k: int| 0 <= k < updated.len() implies packing_sound(
            #[trigger] updated[k],
            container,
        ) by {
            if k != from {
                assert(updated[k] == packings[k]);
            }
        }
        if !taken {
            lemma_offer_sound(updated, item, container, from + 1);
        }
    }
}

/// The packing of a newly opened container is sound.
pub proof fn lemma_fresh_packing_sound(container: Container, item: Item)
    requires
        spec_weight_or_zero(item.weight) <= container.limit(),
    ensures
        fresh_packing(container, item) matches Some(packing) ==> packing_sound(packing, container),
{
    let interior = container.interior();
    if let Some(placement) = spec_place(item, interior) {
        let packing = fresh_packing(container, item).unwrap();
        lemma_place_fits(item, interior);
        lemma_break_up_geometry(interior, placement);
        lemma_weight_of_push(Seq::empty(), placement);
        assert(Seq::<Placement>::empty().push(placement) =~= seq![placement]);
        let parts = spec_break_up_space(interior, placement);
        assert forall|i: int, j: int|
            0 <= i < packing.spaces.len() && 0 <= j < packing.placements.len() implies (
        #[trigger] packing.spaces[i]).apart_from((#[trigger] packing.placements[j]).region()) by {
            assert(packing.placements[j] == placement);
        }
    }
}

/// Every packing of a run is sound after one more item, if it was before.
pub proof fn lemma_after_item_sound(container: Container, before: PackOutcome, item: Item)
    requires
        all_sound(before.packings, container),
    ensures
        all_sound(after_item(container, before, item).packings, container),
{
    if spec_weight_or_zero(item.weight) <= container.limit() {
        let (packings, taken) = offer(before.packings, item, container.limit(), 0);
        lemma_offer_sound(before.packings, item, container, 0);
        if !taken {
            lemma_fresh_packing_sound(container, item);
            if let Some(packing) = fresh_packing(container, item) {
                let longer = packings.push(packing);
                assert forall|k: int| 0 <= k < longer.len() implies packing_sound(
                    #[trigger] longer[k],
                    container,
                ) by {
                    if k < packings.len() {
                        assert(longer[k] == packings[k]);
                    }
                }
            }
        }
    }
}

/// Every packing that a run builds, whatever the items and their order, is sound.
pub proof fn lemma_after_items_sound(container: Container, items: Seq<Item>)
    ensures
        all_sound(after_items(container, items).packings, container),
    decreases items.len(),
{
    if items.len() > 0 {
        lemma_after_items_sound(container, items.drop_last());
        lemma_after_item_sound(
            container,
            after_items(container, items.drop_last()),
            items.last(),
        );
    }
}

/// The weight of the plain stack is the sum of the weights of its items.
pub proof fn lemma_stack_weight(items: Seq<Item>)
    ensures
        spec_greedy_packing(items).weight_is_sum(),
    decreases items.len(),
{
    let stack = spec_greedy_packing(items).placements;
    if items.len() > 0 {
        let rest = items.drop_last();
        lemma_stack_weight(rest);
        assert(stack.drop_last() =~= spec_greedy_packing(rest).placements) by {
            assert forall|i: int| 0 <= i < rest.len() implies stacked(items, i) == stacked(
                rest,
                i,
            ) by {
                assert(items.take(i) =~= rest.take(i));
            }
        }
    }
}

} // verus!
