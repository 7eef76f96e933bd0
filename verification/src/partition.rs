//! The three-way split of what is left of a space once an item lies in its
//! low corner.

use crate::geometry::{
    lemma_product_of_permutation, lemma_sorting_keeps_product, Coordinates, Dimensions,
};
use crate::model::{Placement, Space};
use std::cmp::Ordering;
use vstd::prelude::*;

verus! {

/// The `k`-th order in which the three slabs beyond the item are cut off: the
/// axis of the first cut, of the second and of the third. The orders are
/// numbered from 0 to 5; among equally ranked splits the highest number wins.
pub open spec fn cut_order(k: int) -> (int, int, int) {
    if k == 0 {
        (2, 1, 0)
    } else if k == 1 {
        (2, 0, 1)
    } else if k == 2 {
        (0, 2, 1)
    } else if k == 3 {
        (0, 1, 2)
    } else if k == 4 {
        (1, 0, 2)
    } else {
        (1, 2, 0)
    }
}

/// The slab of `block` that lies beyond the item on `axis`: it spans the block
/// on the other two axes. `placed` holds the item's extents along the axes.
pub open spec fn slab_beyond(block: Space, placed: Coordinates, axis: int) -> Space {
    Space {
        dimensions: Dimensions {
            raw: block.dimensions.raw.with(
                axis,
                (block.dimensions.raw.get(axis) - placed.get(axis)) as u64,
            ),
        },
        position: block.position.with(
            axis,
            (block.position.get(axis) + placed.get(axis)) as u64,
        ),
    }
}

/// What is left of `block` when the slab beyond the item on `axis` is cut off.
pub open spec fn block_without_slab(block: Space, placed: Coordinates, axis: int) -> Space {
    Space {
        dimensions: Dimensions { raw: block.dimensions.raw.with(axis, placed.get(axis)) },
        position: block.position,
    }
}

/// The three slabs that the `k`-th cut order leaves of `space` around an item
/// of extents `placed` in its low corner, in the order in which they are cut.
pub open spec fn partition(space: Space, placed: Coordinates, k: int) -> Seq<Space> {
    partition_along(space, placed, cut_order(k))
}

/// The three slabs cut off along the axes of `order`, one after the other.
pub open spec fn partition_along(space: Space, placed: Coordinates, order: (int, int, int)) -> Seq<
    Space,
> {
    let (first, second, third) = order;
    let after_first = block_without_slab(space, placed, first);
    let after_second = block_without_slab(after_first, placed, second);
    seq![
        slab_beyond(space, placed, first),
        slab_beyond(after_first, placed, second),
        slab_beyond(after_second, placed, third),
    ]
}

/// Whether the three axes of a cut order are the three axes of space, each once.
pub open spec fn cuts_every_axis(order: (int, int, int)) -> bool {
    let (first, second, third) = order;
    &&& 0 <= first < 3 && 0 <= second < 3 && 0 <= third < 3
    &&& first != second && first != third && second != third
}

/// How two splits rank against each other: their first slabs are compared by
/// height, then width, then length; where these are equal the second slabs
/// decide, then the third.
pub open spec fn partition_order(a: Seq<Space>, b: Seq<Space>) -> Ordering {
    if a[0].dimensions.hwl_less(b[0].dimensions) {
        Ordering::Less
    } else if b[0].dimensions.hwl_less(a[0].dimensions) {
        Ordering::Greater
    } else if a[1].dimensions.hwl_less(b[1].dimensions) {
        Ordering::Less
    } else if b[1].dimensions.hwl_less(a[1].dimensions) {
        Ordering::Greater
    } else if a[2].dimensions.hwl_less(b[2].dimensions) {
        Ordering::Less
    } else if b[2].dimensions.hwl_less(a[2].dimensions) {
        Ordering::Greater
    } else {
        Ordering::Equal
    }
}

/// Whether split `a` ranks strictly below split `b`.
pub open spec fn ranks_below(a: Seq<Space>, b: Seq<Space>) -> bool {
    partition_order(a, b) == Ordering::Less
}

/// Whether cut order `k` is the one that `break_up_space` picks: no split
/// ranks above its split, and every higher-numbered one ranks strictly below.
pub open spec fn is_highest(space: Space, placed: Coordinates, k: int) -> bool {
    &&& 0 <= k < 6
    &&& forall|j: int|
        0 <= j < 6 ==> !ranks_below(
            partition(space, placed, k),
            #[trigger] partition(space, placed, j),
        )
    &&& forall|j: int|
        k < j < 6 ==> ranks_below(
            #[trigger] partition(space, placed, j),
            partition(space, placed, k),
        )
}

/// The cut order picked among those numbered below `n`.
pub open spec fn highest_below(space: Space, placed: Coordinates, n: int) -> int
    decreases n,
{
    if n <= 1 {
        0
    } else {
        let earlier = highest_below(space, placed, n - 1);
        if ranks_below(partition(space, placed, n - 1), partition(space, placed, earlier)) {
            earlier
        } else {
            n - 1
        }
    }
}

/// The three spaces that `break_up_space` returns.
pub open spec fn spec_break_up_space(space: Space, placement: Placement) -> Seq<Space> {
    let placed = placement.dimensions.raw;
    partition(space, placed, highest_below(space, placed, 6))
}

/// Ranking below is transitive, and so is not ranking below.
pub proof fn lemma_rank_transitive(a: Seq<Space>, b: Seq<Space>, c: Seq<Space>)
    ensures
        ranks_below(a, b) && ranks_below(b, c) ==> ranks_below(a, c),
        !ranks_below(a, b) && !ranks_below(b, c) ==> !ranks_below(a, c),
        !ranks_below(a, a),
{
}

/// What `highest_below` picks is the last of the highest-ranking splits below `n`.
pub proof fn lemma_highest_below(space: Space, placed: Coordinates, n: int)
    requires
        1 <= n <= 6,
    ensures
        ({
            let k = highest_below(space, placed, n);
            &&& 0 <= k < n
            &&& forall|j: int|
                0 <= j < n ==> !ranks_below(
                    partition(space, placed, k),
                    #[trigger] partition(space, placed, j),
                )
            &&& forall|j: int|
                k < j < n ==> ranks_below(
                    #[trigger] partition(space, placed, j),
                    partition(space, placed, k),
                )
        }),
    decreases n,
{
    if n > 1 {
        lemma_highest_below(space, placed, n - 1);
        let earlier = highest_below(space, placed, n - 1);
        let k = highest_below(space, placed, n);
        assert forall|j: int| 0 <= j < n implies !ranks_below(
            partition(space, placed, k),
            #[trigger] partition(space, placed, j),
        ) by {
            lemma_rank_transitive(
                partition(space, placed, k),
                partition(space, placed, earlier),
                partition(space, placed, j),
            );
            lemma_rank_transitive(
                partition(space, placed, k),
                partition(space, placed, k),
                partition(space, placed, k),
            );
        }
        assert forall|j: int| k < j < n implies ranks_below(
            #[trigger] partition(space, placed, j),
            partition(space, placed, k),
        ) by {
            if k == earlier && j < n - 1 {
            }
        }
    } else {
        lemma_rank_transitive(
            partition(space, placed, 0),
            partition(space, placed, 0),
            partition(space, placed, 0),
        );
    }
}

/// The slabs of every split lie inside the space, and no two of them overlap,
/// nor does any of them overlap the item in the low corner.
pub proof fn lemma_partition_geometry(space: Space, placed: Coordinates, k: int)
    requires
        0 <= k < 6,
        placed.fits_in(space.dimensions.raw),
        space.in_range(),
    ensures
        ({
            let parts = partition(space, placed, k);
            let item = Space { dimensions: Dimensions { raw: placed }, position: space.position };
            &&& parts.len() == 3
            &&& forall|i: int| 0 <= i < 3 ==> (#[trigger] parts[i]).within(space)
            &&& forall|i: int| 0 <= i < 3 ==> (#[trigger] parts[i]).apart_from(item)
            &&& forall|i: int| 0 <= i < 3 ==> (#[trigger] parts[i]).in_range()
            &&& parts[0].apart_from(parts[1])
            &&& parts[0].apart_from(parts[2])
            &&& parts[1].apart_from(parts[2])
            &&& item.within(space)
        }),
{
    lemma_slabs_apart(space, placed, cut_order(k));
}

/// The geometry of the three slabs, for any order that cuts every axis once.
proof fn lemma_slabs_apart(space: Space, placed: Coordinates, order: (int, int, int))
    requires
        cuts_every_axis(order),
        placed.fits_in(space.dimensions.raw),
        space.in_range(),
    ensures
        ({
            let parts = partition_along(space, placed, order);
            let item = Space { dimensions: Dimensions { raw: placed }, position: space.position };
            &&& parts.len() == 3
            &&& forall|i: int| 0 <= i < 3 ==> (#[trigger] parts[i]).within(space)
            &&& forall|i: int| 0 <= i < 3 ==> (#[trigger] parts[i]).apart_from(item)
            &&& forall|i: int| 0 <= i < 3 ==> (#[trigger] parts[i]).in_range()
            &&& parts[0].apart_from(parts[1])
            &&& parts[0].apart_from(parts[2])
            &&& parts[1].apart_from(parts[2])
            &&& item.within(space)
        }),
{
    let (first, second, third) = order;
    let after_first = block_without_slab(space, placed, first);
    let after_second = block_without_slab(after_first, placed, second);
    let a = slab_beyond(space, placed, first);
    let b = slab_beyond(after_first, placed, second);
    let c = slab_beyond(after_second, placed, third);
    let item = Space { dimensions: Dimensions { raw: placed }, position: space.position };
    let parts = partition_along(space, placed, order);
    assert(parts[0] == a && parts[1] == b && parts[2] == c);
    assert(a.within(space) && a.in_range());
    assert(b.within(space) && b.in_range());
    assert(c.within(space) && c.in_range());
    assert(a.apart_from(item) && b.apart_from(item) && c.apart_from(item));
    assert(a.apart_from(b) && a.apart_from(c) && b.apart_from(c));
}

/// The volumes of the three slabs of a split and of the item add up to the
/// volume of the space.
pub proof fn lemma_partition_volume(space: Space, placed: Coordinates, k: int)
    requires
        0 <= k < 6,
        placed.fits_in(space.dimensions.raw),
    ensures
        ({
            let parts = partition(space, placed, k);
            parts[0].volume() + parts[1].volume() + parts[2].volume() + (Dimensions {
                raw: placed,
            }).volume() == space.volume()
        }),
{
    let order = cut_order(k);
    let (first, second, third) = order;
    let parts = partition_along(space, placed, order);
    let s = space.dimensions.raw;
    lemma_sorting_keeps_product(parts[0].dimensions.raw);
    lemma_sorting_keeps_product(parts[1].dimensions.raw);
    lemma_sorting_keeps_product(parts[2].dimensions.raw);
    lemma_sorting_keeps_product(placed);
    lemma_sorting_keeps_product(s);
    lemma_product_along(parts[0].dimensions.raw, order);
    lemma_product_along(parts[1].dimensions.raw, order);
    lemma_product_along(parts[2].dimensions.raw, order);
    lemma_product_along(placed, order);
    lemma_product_along(s, order);
    lemma_peeling(
        s.get(first) as int,
        s.get(second) as int,
        s.get(third) as int,
        placed.get(first) as int,
        placed.get(second) as int,
        placed.get(third) as int,
    );
}

/// The product of three measures, taken along the axes in any order.
proof fn lemma_product_along(c: Coordinates, order: (int, int, int))
    requires
        cuts_every_axis(order),
    ensures
        c.product() == c.get(order.0) * c.get(order.1) * c.get(order.2),
{
    lemma_product_of_permutation(c.x as int, c.y as int, c.z as int);
}

/// A cuboid of extents `a`, `b`, `c` falls into a corner cuboid of extents
/// `p`, `q`, `r` and three slabs cut off one after the other.
proof fn lemma_peeling(a: int, b: int, c: int, p: int, q: int, r: int)
    ensures
        (a - p) * b * c + p * (b - q) * c + p * q * (c - r) + p * q * r == a * b * c,
{
    assert(p * q * (c - r) + p * q * r == p * q * c) by (nonlinear_arith);
    assert(p * (b - q) * c + p * q * c == p * b * c) by (nonlinear_arith);
    assert((a - p) * b * c + p * b * c == a * b * c) by (nonlinear_arith);
}

/// The `k`-th order in which the three slabs are cut off.
pub fn nth_cut_order(k: usize) -> (order: (usize, usize, usize))
    requires
        k < 6,
    ensures
        (order.0 as int, order.1 as int, order.2 as int) == cut_order(k as int),
        order.0 < 3 && order.1 < 3 && order.2 < 3,
{
    if k == 0 {
        (2, 1, 0)
    } else if k == 1 {
        (2, 0, 1)
    } else if k == 2 {
        (0, 2, 1)
    } else if k == 3 {
        (0, 1, 2)
    } else if k == 4 {
        (1, 0, 2)
    } else {
        (1, 2, 0)
    }
}

/// Cuts off the slab of `block` that lies beyond the item on `axis`.
pub fn cut_slab(block: &Space, placed: Coordinates, axis: usize) -> (slab: Space)
    requires
        axis < 3,
        placed.get(axis as int) <= block.dimensions.raw.get(axis as int),
        block.in_range(),
    ensures
        slab == slab_beyond(*block, placed, axis as int),
{
    let extent: u64 = block.dimensions.raw.at(axis) - placed.at(axis);
    let offset: u64 = block.position.at(axis) + placed.at(axis);
    Space {
        dimensions: Dimensions { raw: block.dimensions.raw.replace(axis, extent) },
        position: block.position.replace(axis, offset),
    }
}

/// Shortens `block` on `axis` to the extent of the item.
pub fn cut_block(block: &Space, placed: Coordinates, axis: usize) -> (rest: Space)
    requires
        axis < 3,
    ensures
        rest == block_without_slab(*block, placed, axis as int),
{
    Space {
        dimensions: Dimensions { raw: block.dimensions.raw.replace(axis, placed.at(axis)) },
        position: block.position,
    }
}

/// Splits what is left of `space` around the item by the `k`-th cut order.
pub fn nth_partition(space: &Space, placed: Coordinates, k: usize) -> (parts: [Space; 3])
    requires
        k < 6,
        placed.fits_in(space.dimensions.raw),
        space.in_range(),
    ensures
        parts@ == partition(*space, placed, k as int),
{
    let (first, second, third) = nth_cut_order(k);
    let after_first = cut_block(space, placed, first);
    let after_second = cut_block(&after_first, placed, second);
    let parts = [
        cut_slab(space, placed, first),
        cut_slab(&after_first, placed, second),
        cut_slab(&after_second, placed, third),
    ];
    assert(parts@ =~= partition(*space, placed, k as int));
    parts
}

/// Ranks two splits against each other: slab by slab, each pair compared by
/// height, then width, then length, the first pair that differs deciding.
pub fn cmp_dimensions_and_position(a: &[Space; 3], b: &[Space; 3]) -> (order: Ordering)
    ensures
        order == partition_order(a@, b@),
{
    let first = a[0].dimensions.cmp_hwl(&b[0].dimensions);
    match first {
        Ordering::Equal => {},
        _ => {
            return first;
        },
    }
    let second = a[1].dimensions.cmp_hwl(&b[1].dimensions);
    match second {
        Ordering::Equal => {},
        _ => {
            return second;
        },
    }
    a[2].dimensions.cmp_hwl(&b[2].dimensions)
}

/// Divides what is left of a space, once an item lies in its low corner, into
/// three spaces that overlap neither each other nor the item.
///
/// Only the extents of `placement` are read: the item is taken to lie at the
/// position of the space. Three slabs are cut off one after the other, each
/// across the whole of what is left at that moment; the three axes can be cut
/// in six orders. The split returned is the one that ranks highest by
/// `cmp_dimensions_and_position`, and among equals the one with the highest
/// number.
pub fn break_up_space(space: &Space, placement: &Placement) -> (parts: [Space; 3])
    requires
        placement.dimensions.raw.fits_in(space.dimensions.raw),
        space.in_range(),
    ensures
        parts@ == spec_break_up_space(*space, *placement),
        exists|k: int|
            is_highest(*space, placement.dimensions.raw, k) && parts@ == partition(
                *space,
                placement.dimensions.raw,
                k,
            ),
        forall|i: int| 0 <= i < 3 ==> (#[trigger] parts[i]).within(*space),
        forall|i: int| 0 <= i < 3 ==> (#[trigger] parts[i]).in_range(),
        placement.position == space.position ==> forall|i: int|
            0 <= i < 3 ==> (#[trigger] parts[i]).apart_from(placement.region()),
        parts[0].apart_from(parts[1]),
        parts[0].apart_from(parts[2]),
        parts[1].apart_from(parts[2]),
        parts[0].volume() + parts[1].volume() + parts[2].volume() + placement.volume()
            == space.volume(),
{
    let placed = placement.dimensions.raw;
    let mut best = nth_partition(space, placed, 0);
    let ghost mut chosen: int = 0;
    let ghost mut seen: int = 1;
    let mut k: usize = 1;
    while k < 6
        invariant
            1 <= k <= 6,
            seen == k,
            placed == placement.dimensions.raw,
            placed.fits_in(space.dimensions.raw),
            space.in_range(),
            chosen == highest_below(*space, placed, seen),
            best@ == partition(*space, placed, chosen),
        decreases 6 - k,
    {
        let candidate = nth_partition(space, placed, k);
        match cmp_dimensions_and_position(&candidate, &best) {
            Ordering::Less => {},
            _ => {
                best = candidate;
                proof {
                    chosen = seen;
                }
            },
        }
        k = k + 1;
        proof {
            seen = seen + 1;
        }
    }
    proof {
        lemma_highest_below(*space, placed, 6);
        assert(is_highest(*space, placed, chosen));
        lemma_partition_geometry(*space, placed, chosen);
        lemma_partition_volume(*space, placed, chosen);
    }
    best
}

} // verus!
