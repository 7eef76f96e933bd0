//! The plain stack of all items: its bounding box, the test whether a
//! container holds it, and the packing that it makes.

use crate::geometry::{Coordinates, Dimensions, UNITS_PER_TENTH};
use crate::model::{
    spec_weight_or_zero, weight_or_zero, Container, Item, Packing, PackingView, Placement,
};
use vstd::prelude::*;

verus! {

/// The greatest length among the items; zero for no items.
pub open spec fn max_length(items: Seq<Item>) -> u64
    decreases items.len(),
{
    if items.len() == 0 {
        0
    } else {
        let earlier = max_length(items.drop_last());
        let length = items.last().dimensions.length();
        if length > earlier {
            length
        } else {
            earlier
        }
    }
}

/// The greatest width among the items; zero for no items.
pub open spec fn max_width(items: Seq<Item>) -> u64
    decreases items.len(),
{
    if items.len() == 0 {
        0
    } else {
        let earlier = max_width(items.drop_last());
        let width = items.last().dimensions.width();
        if width > earlier {
            width
        } else {
            earlier
        }
    }
}

/// The heights of the items added up.
pub open spec fn stack_height(items: Seq<Item>) -> int
    decreases items.len(),
{
    if items.len() == 0 {
        0
    } else {
        stack_height(items.drop_last()) + items.last().dimensions.height()
    }
}

/// The weights of the items added up, absent weights as zero.
pub open spec fn total_weight(items: Seq<Item>) -> int
    decreases items.len(),
{
    if items.len() == 0 {
        0
    } else {
        total_weight(items.drop_last()) + spec_weight_or_zero(items.last().weight)
    }
}

/// A measure rounded to the nearest tenth of a unit, a half rounded up.
pub open spec fn round_to_tenth(measure: int) -> int {
    (measure + UNITS_PER_TENTH / 2) / (UNITS_PER_TENTH as int) * UNITS_PER_TENTH
}

/// The item of the stack at index `i`: unrotated, at the height of the items
/// before it.
pub open spec fn stacked(items: Seq<Item>, i: int) -> Placement {
    Placement {
        dimensions: items[i].dimensions,
        position: Coordinates { x: 0, y: 0, z: stack_height(items.take(i)) as u64 },
        weight: items[i].weight,
    }
}

/// The packing that stacks the items in the order given.
pub open spec fn spec_greedy_packing(items: Seq<Item>) -> PackingView {
    PackingView {
        placements: Seq::new(items.len(), |i: int| stacked(items, i)),
        spaces: Seq::empty(),
        weight: total_weight(items),
    }
}

/// Whether the container holds the plain stack of the items: it is at least as
/// long and as wide as the longest and the widest item, at least as high as
/// the rounded height of the stack, and may carry the weight of all items.
pub open spec fn spec_fits_greedy_box(container: Container, items: Seq<Item>) -> bool {
    &&& container.dimensions.length() >= max_length(items)
    &&& container.dimensions.width() >= max_width(items)
    &&& container.dimensions.height() >= round_to_tenth(stack_height(items))
    &&& container.limit() >= total_weight(items)
}

/// Whether the offset of every item of the stack can be written in 64 bits.
pub open spec fn stack_offsets_fit(items: Seq<Item>) -> bool {
    items.len() > 0 ==> stack_height(items.drop_last()) <= u64::MAX
}

/// Whether the rounded height of the stack can be written in 64 bits.
pub open spec fn spec_greedy_box_is_representable(items: Seq<Item>) -> bool {
    round_to_tenth(stack_height(items)) <= u64::MAX
}

/// Whether the stack's offsets and its weight can be written in 64 bits.
pub open spec fn spec_greedy_packing_is_representable(items: Seq<Item>) -> bool {
    stack_offsets_fit(items) && total_weight(items) <= u64::MAX
}

/// The sums over a list of items grow with the list and are bounded by its length.
pub proof fn lemma_sums_grow(items: Seq<Item>, n: int)
    requires
        0 <= n <= items.len(),
    ensures
        0 <= stack_height(items.take(n)) <= stack_height(items),
        0 <= total_weight(items.take(n)) <= total_weight(items),
        stack_height(items) <= items.len() * u64::MAX,
        total_weight(items) <= items.len() * u64::MAX,
    decreases items.len(),
{
    if items.len() == 0 {
        assert(items.take(n) =~= items);
    } else if n == items.len() {
        assert(items.take(n) =~= items);
        lemma_sums_grow(items.drop_last(), 0);
    } else {
        assert(items.drop_last().take(n) =~= items.take(n));
        lemma_sums_grow(items.drop_last(), n);
    }
}

/// What the four aggregates are of the first `n + 1` items, given the first `n`.
proof fn lemma_one_more(items: Seq<Item>, n: int)
    requires
        0 <= n < items.len(),
    ensures
        stack_height(items.take(n + 1)) == stack_height(items.take(n))
            + items[n].dimensions.height(),
        total_weight(items.take(n + 1)) == total_weight(items.take(n)) + spec_weight_or_zero(
            items[n].weight,
        ),
        max_length(items.take(n + 1)) == if items[n].dimensions.length() > max_length(
            items.take(n),
        ) {
            items[n].dimensions.length()
        } else {
            max_length(items.take(n))
        },
        max_width(items.take(n + 1)) == if items[n].dimensions.width() > max_width(
            items.take(n),
        ) {
            items[n].dimensions.width()
        } else {
            max_width(items.take(n))
        },
{
    assert(items.take(n + 1).drop_last() =~= items.take(n));
}

/// The four aggregates of a list of items, the two sums in 128 bits.
struct Totals {
    max_length: u64,
    max_width: u64,
    height: u128,
    weight: u128,
}

/// Walks the list once and gathers the four aggregates.
fn totals(items: &[Item]) -> (t: Totals)
    ensures
        t.max_length == max_length(items@),
        t.max_width == max_width(items@),
        t.height == stack_height(items@),
        t.weight == total_weight(items@),
        t.height + 50 <= u128::MAX,
{
    let mut t = Totals { max_length: 0, max_width: 0, height: 0, weight: 0 };
    let mut i: usize = 0;
    while i < items.len()
        invariant
            i <= items.len(),
            t.max_length == max_length(items@.take(i as int)),
            t.max_width == max_width(items@.take(i as int)),
            t.height == stack_height(items@.take(i as int)),
            t.weight == total_weight(items@.take(i as int)),
            t.height <= i * u64::MAX,
            t.weight <= i * u64::MAX,
        decreases items.len() - i,
    {
        let item = items[i];
        proof {
            lemma_one_more(items@, i as int);
        }
        let length: u64 = item.dimensions.length();
        let width: u64 = item.dimensions.width();
        if length > t.max_length {
            t.max_length = length;
        }
        if width > t.max_width {
            t.max_width = width;
        }
        t.height = t.height + item.dimensions.height() as u128;
        t.weight = t.weight + weight_or_zero(item.weight) as u128;
        i = i + 1;
    }
    assert(items@.take(i as int) =~= items@);
    t
}

/// Rounds a measure to the nearest tenth of a unit, a half rounded up.
fn rounded_to_tenth(measure: u128) -> (rounded: u128)
    requires
        measure + 50 <= u128::MAX,
    ensures
        rounded == round_to_tenth(measure as int),
{
    let tenth: u128 = UNITS_PER_TENTH as u128;
    (measure + tenth / 2) / tenth * tenth
}

/// Tells whether `item_greedy_box` can be called on the items.
pub fn greedy_box_is_representable(items: &[Item]) -> (ok: bool)
    ensures
        ok == spec_greedy_box_is_representable(items@),
{
    let t = totals(items);
    rounded_to_tenth(t.height) <= u64::MAX as u128
}

/// Tells whether `generate_packing_for_greedy_box` can be called on the items.
pub fn greedy_packing_is_representable(items: &[Item]) -> (ok: bool)
    ensures
        ok == spec_greedy_packing_is_representable(items@),
{
    let n: usize = items.len();
    let t = totals(items);
    if t.weight > u64::MAX as u128 {
        return false;
    }
    if n == 0 {
        return true;
    }
    proof {
        lemma_one_more(items@, n - 1);
        lemma_sums_grow(items@, n - 1);
        assert(items@.take(n as int) =~= items@);
        assert(items@.take(n - 1) =~= items@.drop_last());
    }
    t.height - items[n - 1].dimensions.height() as u128 <= u64::MAX as u128
}

/// Computes the bounding box of the plain stack of the items: the greatest
/// length, the greatest width, and the sum of the heights rounded to the
/// nearest tenth of a unit.
///
/// The three measures are returned as extents along the axes, in this order.
pub fn item_greedy_box(items: &[Item]) -> (greedy: Dimensions)
    requires
        spec_greedy_box_is_representable(items@),
    ensures
        greedy.raw.x == max_length(items@),
        greedy.raw.y == max_width(items@),
        greedy.raw.z == round_to_tenth(stack_height(items@)),
{
    let t = totals(items);
    let height: u128 = rounded_to_tenth(t.height);
    Dimensions { raw: Coordinates { x: t.max_length, y: t.max_width, z: height as u64 } }
}

/// Tells whether the container holds the plain stack of the items and may
/// carry their weight. An absent weight counts as zero, and so does an absent
/// weight limit.
pub fn fits_greedy_box(container: &Container, items: &[Item]) -> (fits: bool)
    ensures
        fits == spec_fits_greedy_box(*container, items@),
{
    let t = totals(items);
    let height: u128 = rounded_to_tenth(t.height);
    let bounds = container.dimensions.canonical();
    bounds.x >= t.max_length && bounds.y >= t.max_width && bounds.z as u128 >= height
        && weight_or_zero(container.weight_limit) as u128 >= t.weight
}

/// Stacks the items in the order given: each keeps its extents along the
/// axes, and lies on the third axis at the sum of the heights of the items
/// before it. The packing has no free space, and its weight is the sum of the
/// items' weights, absent ones as zero.
pub fn greedy_packing(items: &[Item]) -> (packing: Packing)
    requires
        spec_greedy_packing_is_representable(items@),
    ensures
        packing@ == spec_greedy_packing(items@),
{
    let mut placements: Vec<Placement> = Vec::new();
    let mut offset: u64 = 0;
    let mut weight: u64 = 0;
    let mut i: usize = 0;
    while i < items.len()
        invariant
            i <= items.len(),
            spec_greedy_packing_is_representable(items@),
            placements@.len() == i,
            forall|j: int| 0 <= j < i ==> placements@[j] == stacked(items@, j),
            i < items.len() ==> offset == stack_height(items@.take(i as int)),
            weight == total_weight(items@.take(i as int)),
        decreases items.len() - i,
    {
        let item = items[i];
        proof {
            lemma_one_more(items@, i as int);
            lemma_sums_grow(items@, i + 1);
            if i + 1 < items.len() {
                lemma_sums_grow(items@.drop_last(), i + 1);
                assert(items@.drop_last().take(i + 1) =~= items@.take(i + 1));
            }
        }
        placements.push(
            Placement {
                dimensions: item.dimensions,
                position: Coordinates { x: 0, y: 0, z: offset },
                weight: item.weight,
            },
        );
        weight = weight + weight_or_zero(item.weight);
        if i + 1 < items.len() {
            offset = offset + item.dimensions.height();
        }
        i = i + 1;
    }
    assert(items@.take(i as int) =~= items@);
    let packing = Packing { placements, spaces: Vec::new(), weight };
    assert(packing@.placements =~= spec_greedy_packing(items@).placements);
    assert(packing@.spaces =~= spec_greedy_packing(items@).spaces);
    packing
}

/// Builds the list that holds the one packing of `greedy_packing`.
pub fn generate_packing_for_greedy_box(items: &[Item]) -> (packings: Vec<Packing>)
    requires
        spec_greedy_packing_is_representable(items@),
    ensures
        packings@.len() == 1,
        packings@[0]@ == spec_greedy_packing(items@),
{
    let mut packings: Vec<Packing> = Vec::new();
    packings.push(greedy_packing(items));
    packings
}

} // verus!
