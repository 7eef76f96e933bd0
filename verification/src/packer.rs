//! The packing run: items are taken largest first, each goes into the first
//! free space that takes it, and a new container is opened where none does.

use crate::greedy::{
    fits_greedy_box, greedy_packing, greedy_packing_is_representable, spec_fits_greedy_box,
    spec_greedy_packing, stack_offsets_fit,
};
use crate::model::{
    packing_views, spec_weight_or_zero, weight_or_zero, Container, Item, Packing, PackingView,
    Placement, Space,
};
use crate::partition::{break_up_space, spec_break_up_space};
use crate::placement::{place, spec_place};
use crate::sorting::{in_order, insert_sorted, sorted_largest_first, stably_sorted};
use crate::soundness::{
    all_sound, lemma_after_item_sound, lemma_first_fit, lemma_fresh_packing_sound,
    lemma_place_fits, lemma_stack_weight, lemma_take_in_sound, lemma_tidied_in_order,
    lemma_tidied_sound, packing_sound,
};
use vstd::prelude::*;

verus! {

/// Why an item is in no packing.
#[derive(Clone, Copy, Debug, PartialEq, Eq, Structural)]
pub enum PackErrorKind {
    /// The item alone weighs more than a container may carry.
    OverWeight,
    /// The item does not fit an empty container, whichever way it is turned.
    Unplaceable,
}

/// An item that was left out, and why.
#[derive(Clone, Copy, Debug, PartialEq, Eq, Structural)]
pub struct PackError {
    pub kind: PackErrorKind,
    pub item: Item,
}

/// What a packing run returns: the containers that were filled, in the order
/// in which they were opened, and the items that were left out.
#[derive(Debug, PartialEq, Eq)]
pub struct PackResult {
    pub packings: Vec<Packing>,
    pub errors: Vec<PackError>,
}

/// What a `PackResult` holds, as mathematical sequences.
pub struct PackOutcome {
    pub packings: Seq<PackingView>,
    pub errors: Seq<PackError>,
}

impl View for PackResult {
    type V = PackOutcome;

    open spec fn view(&self) -> PackOutcome {
        PackOutcome { packings: packing_views(self.packings@), errors: self.errors@ }
    }
}

/// The spaces that have a volume, in their order.
pub open spec fn solid_only(spaces: Seq<Space>) -> Seq<Space>
    decreases spaces.len(),
{
    if spaces.len() == 0 {
        Seq::empty()
    } else if spaces.last().dimensions.is_solid() {
        solid_only(spaces.drop_last()).push(spaces.last())
    } else {
        solid_only(spaces.drop_last())
    }
}

/// The free spaces as they are tried: those without volume are dropped, the
/// others sorted stably, the smallest first.
pub open spec fn tidied(spaces: Seq<Space>) -> Seq<Space> {
    stably_sorted(solid_only(spaces))
}

/// The index of the first space, from `from` on, that takes the item.
pub open spec fn first_fit(item: Item, spaces: Seq<Space>, from: int) -> Option<int>
    decreases spaces.len() - from,
{
    if from < 0 || from >= spaces.len() {
        None
    } else if spec_place(item, spaces[from]).is_some() {
        Some(from)
    } else {
        first_fit(item, spaces, from + 1)
    }
}

/// The packing once the item lies in its free space at index `at`: the
/// placement is added at the end, the weight grows by the item's, and the
/// space gives way to the three spaces that are left of it, added at the end.
pub open spec fn with_item_in(packing: PackingView, item: Item, at: int) -> PackingView {
    let space = packing.spaces[at];
    let placement = spec_place(item, space).unwrap();
    PackingView {
        placements: packing.placements.push(placement),
        spaces: packing.spaces.remove(at) + spec_break_up_space(space, placement),
        weight: packing.weight + spec_weight_or_zero(item.weight),
    }
}

/// What becomes of a packing when the item is offered to it, and whether it
/// took the item. A packing that the item would make too heavy stays as it is.
/// Any other has its spaces tidied, and takes the item into the first of them
/// that the item fits.
pub open spec fn take_in(packing: PackingView, item: Item, limit: u64) -> (PackingView, bool) {
    if packing.weight + spec_weight_or_zero(item.weight) > limit {
        (packing, false)
    } else {
        let ready = PackingView {
            placements: packing.placements,
            spaces: tidied(packing.spaces),
            weight: packing.weight,
        };
        match first_fit(item, ready.spaces, 0) {
            None => (ready, false),
            Some(at) => (with_item_in(ready, item, at), true),
        }
    }
}

/// What becomes of the packings from index `from` on when the item is offered
/// to them in turn, until one takes it; and whether one did.
pub open spec fn offer(packings: Seq<PackingView>, item: Item, limit: u64, from: int) -> (
    Seq<PackingView>,
    bool,
)
    decreases packings.len() - from,
{
    if from < 0 || from >= packings.len() {
        (packings, false)
    } else {
        let (packing, taken) = take_in(packings[from], item, limit);
        let updated = packings.update(from, packing);
        if taken {
            (updated, true)
        } else {
            offer(updated, item, limit, from + 1)
        }
    }
}

/// The packing of a newly opened container that holds the item alone, or
/// `None` where the item does not fit an empty container.
pub open spec fn fresh_packing(container: Container, item: Item) -> Option<PackingView> {
    let interior = container.interior();
    match spec_place(item, interior) {
        None => None,
        Some(placement) => Some(
            PackingView {
                placements: seq![placement],
                spaces: spec_break_up_space(interior, placement),
                weight: spec_weight_or_zero(item.weight) as int,
            },
        ),
    }
}

/// The state of a run after one more item.
pub open spec fn after_item(container: Container, before: PackOutcome, item: Item) -> PackOutcome {
    if spec_weight_or_zero(item.weight) > container.limit() {
        PackOutcome {
            packings: before.packings,
            errors: before.errors.push(PackError { kind: PackErrorKind::OverWeight, item }),
        }
    } else {
        let (packings, taken) = offer(before.packings, item, container.limit(), 0);
        if taken {
            PackOutcome { packings, errors: before.errors }
        } else {
            match fresh_packing(container, item) {
                None => PackOutcome {
                    packings,
                    errors: before.errors.push(
                        PackError { kind: PackErrorKind::Unplaceable, item },
                    ),
                },
                Some(packing) => PackOutcome {
                    packings: packings.push(packing),
                    errors: before.errors,
                },
            }
        }
    }
}

/// The state of a run after the items, taken in the order given.
pub open spec fn after_items(container: Container, items: Seq<Item>) -> PackOutcome
    decreases items.len(),
{
    if items.len() == 0 {
        PackOutcome { packings: Seq::empty(), errors: Seq::empty() }
    } else {
        after_item(container, after_items(container, items.drop_last()), items.last())
    }
}

/// What the run yields before the plain stack is considered: the items are
/// sorted stably, the largest first, and taken in that order.
pub open spec fn packed_largest_first(container: Container, items: Seq<Item>) -> PackOutcome {
    after_items(container, stably_sorted(items))
}

/// Whether the run gives up its packings for the plain stack of all items:
/// it has opened more than one container, and one container holds the stack.
pub open spec fn falls_back(container: Container, items: Seq<Item>) -> bool {
    packed_largest_first(container, items).packings.len() > 1 && spec_fits_greedy_box(
        container,
        items,
    )
}

/// What `pack` returns.
pub open spec fn spec_pack(container: Container, items: Seq<Item>) -> PackOutcome {
    if falls_back(container, items) {
        PackOutcome { packings: seq![spec_greedy_packing(items)], errors: Seq::empty() }
    } else {
        packed_largest_first(container, items)
    }
}

/// Drops the spaces without volume and sorts the others stably, the smallest
/// first: by height, then width, then length.
pub fn tidy(spaces: &mut Vec<Space>)
    ensures
        final(spaces)@ == tidied(old(spaces)@),
        in_order(final(spaces)@),
        forall|i: int|
            0 <= i < final(spaces)@.len() ==> (#[trigger] final(spaces)@[i]).dimensions.is_solid()
                && old(spaces)@.contains(final(spaces)@[i]),
{
    proof {
        lemma_tidied_in_order(spaces@);
    }
    let mut ready: Vec<Space> = Vec::new();
    let mut i: usize = 0;
    while i < spaces.len()
        invariant
            i <= spaces.len(),
            spaces@ == old(spaces)@,
            ready@ == tidied(spaces@.take(i as int)),
        decreases spaces.len() - i,
    {
        let space = spaces[i];
        proof {
            assert(spaces@.take(i + 1).drop_last() =~= spaces@.take(i as int));
        }
        if space.dimensions.is_solid() {
            proof {
                let kept = solid_only(spaces@.take(i as int));
                assert(kept.push(space).drop_last() =~= kept);
            }
            insert_sorted(&mut ready, space);
        }
        i = i + 1;
    }
    assert(spaces@.take(i as int) =~= spaces@);
    *spaces = ready;
}

/// Finds the first of the spaces that takes the item, and how the item lies
/// in it; `None` where no space takes the item.
pub fn find_fit(item: &Item, spaces: &Vec<Space>) -> (found: Option<(usize, Placement)>)
    ensures
        match found {
            None => {
                &&& first_fit(*item, spaces@, 0).is_none()
                &&& forall|i: int|
                    0 <= i < spaces.len() ==> spec_place(*item, #[trigger] spaces@[i]).is_none()
            },
            Some((at, placement)) => {
                &&& at < spaces.len()
                &&& first_fit(*item, spaces@, 0) == Some(at as int)
                &&& spec_place(*item, spaces@[at as int]) == Some(placement)
                &&& forall|i: int|
                    0 <= i < at ==> spec_place(*item, #[trigger] spaces@[i]).is_none()
            },
        },
{
    let mut i: usize = 0;
    while i < spaces.len()
        invariant
            i <= spaces.len(),
            first_fit(*item, spaces@, 0) == first_fit(*item, spaces@, i as int),
            forall|j: int| 0 <= j < i ==> spec_place(*item, #[trigger] spaces@[j]).is_none(),
        decreases spaces.len() - i,
    {
        match place(item, &spaces[i]) {
            Some(placement) => {
                return Some((i, placement));
            },
            None => {},
        }
        i = i + 1;
    }
    None
}

/// Puts the item into the free space at index `at` of the packing.
fn settle(packing: &mut Packing, item: &Item, at: usize, placement: Placement)
    requires
        at < old(packing).spaces.len(),
        spec_place(*item, old(packing).spaces@[at as int]) == Some(placement),
        old(packing).spaces@[at as int].in_range(),
        old(packing).weight + spec_weight_or_zero(item.weight) <= u64::MAX,
    ensures
        final(packing)@ == with_item_in(old(packing)@, *item, at as int),
{
    let space = packing.spaces[at];
    proof {
        lemma_place_fits(*item, space);
    }
    let parts = break_up_space(&space, &placement);
    packing.placements.push(placement);
    packing.weight = packing.weight + weight_or_zero(item.weight);
    packing.spaces.remove(at);
    packing.spaces.push(parts[0]);
    packing.spaces.push(parts[1]);
    packing.spaces.push(parts[2]);
    proof {
        assert(parts@ =~= seq![parts[0], parts[1], parts[2]]);
        assert(packing@.spaces =~= old(packing)@.spaces.remove(at as int) + parts@);
    }
}

/// Offers the item to one packing, and tells whether the packing took it.
fn offer_to(packing: &mut Packing, item: &Item, container: &Container) -> (taken: bool)
    requires
        packing_sound(old(packing)@, *container),
    ensures
        (final(packing)@, taken) == take_in(old(packing)@, *item, container.limit()),
        packing_sound(final(packing)@, *container),
{
    let weight: u64 = weight_or_zero(item.weight);
    let limit: u64 = weight_or_zero(container.weight_limit);
    proof {
        lemma_take_in_sound(packing@, *item, *container);
    }
    if weight > limit - packing.weight {
        return false;
    }
    tidy(&mut packing.spaces);
    let ghost ready = PackingView {
        placements: old(packing)@.placements,
        spaces: tidied(old(packing)@.spaces),
        weight: old(packing)@.weight,
    };
    assert(packing@ == ready);
    match find_fit(item, &packing.spaces) {
        None => {
            assert(first_fit(*item, ready.spaces, 0).is_none());
            false
        },
        Some((at, placement)) => {
            assert(first_fit(*item, ready.spaces, 0) == Some(at as int));
            assert(packing.spaces@[at as int].in_range()) by {
                lemma_tidied_sound(old(packing)@, container.interior());
                lemma_first_fit(*item, packing.spaces@, 0);
                assert(packing.spaces@[at as int].within(container.interior()));
            }
            settle(packing, item, at, placement);
            true
        },
    }
}

/// Offers the item to the packings in the order in which they were opened,
/// until one takes it, and tells whether one did.
fn offer_to_all(packings: &mut Vec<Packing>, item: &Item, container: &Container) -> (taken: bool)
    requires
        all_sound(packing_views(old(packings)@), *container),
    ensures
        (packing_views(final(packings)@), taken) == offer(
            packing_views(old(packings)@),
            *item,
            container.limit(),
            0,
        ),
        all_sound(packing_views(final(packings)@), *container),
{
    let mut k: usize = 0;
    while k < packings.len()
        invariant
            k <= packings.len(),
            all_sound(packing_views(packings@), *container),
            offer(packing_views(old(packings)@), *item, container.limit(), 0) == offer(
                packing_views(packings@),
                *item,
                container.limit(),
                k as int,
            ),
        decreases packings.len() - k,
    {
        let ghost before = packing_views(packings@);
        assert(packing_sound(before[k as int], *container));
        let taken = offer_to(&mut packings[k], item, container);
        proof {
            let after = packing_views(packings@);
            assert(after =~= before.update(k as int, packings@[k as int]@));
            assert forall|j: int| 0 <= j < after.len() implies packing_sound(
                #[trigger] after[j],
                *container,
            ) by {
                if j != k {
                    assert(after[j] == before[j]);
                }
            }
        }
        if taken {
            return true;
        }
        k = k + 1;
    }
    false
}

/// Opens a new container for the item, where the item fits an empty one.
fn open_packing(container: &Container, item: &Item) -> (opened: Option<Packing>)
    requires
        spec_weight_or_zero(item.weight) <= container.limit(),
    ensures
        match fresh_packing(*container, *item) {
            None => opened.is_none(),
            Some(packing) => opened.is_some() && opened.unwrap()@ == packing && packing_sound(
                packing,
                *container,
            ),
        },
{
    let interior = container.interior();
    proof {
        lemma_fresh_packing_sound(*container, *item);
        lemma_place_fits(*item, interior);
    }
    match place(item, &interior) {
        None => None,
        Some(placement) => {
            let parts = break_up_space(&interior, &placement);
            let mut placements: Vec<Placement> = Vec::new();
            placements.push(placement);
            let mut spaces: Vec<Space> = Vec::new();
            spaces.push(parts[0]);
            spaces.push(parts[1]);
            spaces.push(parts[2]);
            let packing = Packing { placements, spaces, weight: weight_or_zero(item.weight) };
            proof {
                assert(packing@.placements =~= seq![placement]);
                assert(packing@.spaces =~= parts@);
            }
            Some(packing)
        },
    }
}

/// Takes one more item into the run.
fn pack_item(result: &mut PackResult, item: &Item, container: &Container)
    requires
        all_sound(old(result)@.packings, *container),
    ensures
        final(result)@ == after_item(*container, old(result)@, *item),
        all_sound(final(result)@.packings, *container),
{
    proof {
        lemma_after_item_sound(*container, result@, *item);
    }
    if weight_or_zero(item.weight) > weight_or_zero(container.weight_limit) {
        result.errors.push(PackError { kind: PackErrorKind::OverWeight, item: *item });
        return ;
    }
    if offer_to_all(&mut result.packings, item, container) {
        return ;
    }
    match open_packing(container, item) {
        None => {
            result.errors.push(PackError { kind: PackErrorKind::Unplaceable, item: *item });
        },
        Some(packing) => {
            let ghost before = packing_views(result.packings@);
            result.packings.push(packing);
            proof {
                assert(packing_views(result.packings@) =~= before.push(packing@));
            }
        },
    }
}

/// Tells whether `pack` can be called on the container and the items: where
/// the container holds the plain stack of the items, the offsets of the stack
/// can be written in 64 bits.
pub fn pack_is_representable(container: &Container, items: &[Item]) -> (ok: bool)
    ensures
        ok == (spec_fits_greedy_box(*container, items@) ==> stack_offsets_fit(items@)),
{
    !fits_greedy_box(container, items) || greedy_packing_is_representable(items)
}

/// Packs the items into instances of the container.
///
/// The items are sorted stably, the largest first: by length, then width, then
/// height. Each in turn is dealt with as follows. An item that weighs more
/// than the container may carry is left out as `OverWeight`, and nothing else
/// is tried with it. Any other is offered to the packings in the order in
/// which they were opened. A packing that the item would make too heavy is
/// passed over; any other has its free spaces tidied (those without volume
/// dropped, the others sorted stably, the smallest first: by height, then
/// width, then length) and takes the item into the first space that `place`
/// finds a rotation for. The space then gives way to the three spaces of
/// `break_up_space`, and no further packing is looked at. An item that no
/// packing took is placed in an empty container, which becomes a new packing;
/// where it does not fit, the item is left out as `Unplaceable`.
///
/// Where more than one packing came of this, and one container holds the
/// plain stack of all items and may carry their weight (`fits_greedy_box`),
/// the result is that stack alone, with no error: the items in the order in
/// which they were given.
///
/// An absent weight counts as zero, and so does an absent weight limit.
///
/// The precondition is met by every container whose height is at most
/// `u64::MAX - 49`: it asks that the offsets of the stack can be written in
/// 64 bits where the container holds the stack.
pub fn pack(container: &Container, items: &[Item]) -> (result: PackResult)
    requires
        spec_fits_greedy_box(*container, items@) ==> stack_offsets_fit(items@),
    ensures
        result@ == spec_pack(*container, items@),
        forall|k: int|
            0 <= k < result@.packings.len() ==> (#[trigger] result@.packings[k]).weight_is_sum(),
        !falls_back(*container, items@) ==> all_sound(result@.packings, *container),
        falls_back(*container, items@) ==> result@.packings.len() == 1
            && result@.packings[0].spaces.len() == 0 && result@.errors.len() == 0,
{
    let sorted = sorted_largest_first(items);
    let mut result = PackResult { packings: Vec::new(), errors: Vec::new() };
    assert(result@.packings =~= Seq::empty());
    let mut i: usize = 0;
    while i < sorted.len()
        invariant
            i <= sorted.len(),
            sorted@ == stably_sorted(items@),
            result@ == after_items(*container, sorted@.take(i as int)),
            all_sound(result@.packings, *container),
        decreases sorted.len() - i,
    {
        proof {
            assert(sorted@.take(i + 1).drop_last() =~= sorted@.take(i as int));
        }
        pack_item(&mut result, &sorted[i], container);
        i = i + 1;
    }
    assert(sorted@.take(i as int) =~= sorted@);
    if result.packings.len() > 1 && fits_greedy_box(container, items) {
        let stack = greedy_packing(items);
        proof {
            lemma_stack_weight(items@);
        }
        let mut packings: Vec<Packing> = Vec::new();
        packings.push(stack);
        result = PackResult { packings, errors: Vec::new() };
        assert(result@.packings =~= seq![spec_greedy_packing(items@)]);
    }
    result
}

} // verus!
