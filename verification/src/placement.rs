//! The search for the orientation in which an item fits a free space most tightly.

use crate::geometry::{comes_before, lex_less, Coordinates, Dimensions};
use crate::model::{Item, Placement, Space};
use vstd::prelude::*;

verus! {

/// The `k`-th way to lay an item along the axes, where `canonical` holds the
/// item's length, width and height in this order. The rotations are numbered
/// from 0 to 5; among equally tight ones the lowest number wins.
pub open spec fn rotation(canonical: Coordinates, k: int) -> Coordinates {
    let Coordinates { x: length, y: width, z: height } = canonical;
    if k == 0 {
        Coordinates { x: width, y: height, z: length }
    } else if k == 1 {
        Coordinates { x: width, y: length, z: height }
    } else if k == 2 {
        Coordinates { x: height, y: width, z: length }
    } else if k == 3 {
        Coordinates { x: height, y: length, z: width }
    } else if k == 4 {
        Coordinates { x: length, y: width, z: height }
    } else {
        Coordinates { x: length, y: height, z: width }
    }
}

/// The room left on each axis when a cuboid of extents `inner` lies in one of
/// extents `outer`, sorted from the smallest margin to the largest.
pub open spec fn spec_margins(inner: Coordinates, outer: Coordinates) -> Coordinates {
    Coordinates {
        x: (outer.x - inner.x) as u64,
        y: (outer.y - inner.y) as u64,
        z: (outer.z - inner.z) as u64,
    }.ascending()
}

/// Whether rotation `k` is the one that the search picks: it fits, no rotation
/// that fits has smaller margins, and none with a lower number has the same.
pub open spec fn is_tightest(canonical: Coordinates, outer: Coordinates, k: int) -> bool {
    &&& 0 <= k < 6
    &&& rotation(canonical, k).fits_in(outer)
    &&& forall|j: int|
        0 <= j < 6 && (#[trigger] rotation(canonical, j)).fits_in(outer) ==> !lex_less(
            margins(rotation(canonical, j), outer),
            margins(rotation(canonical, k), outer),
        )
    &&& forall|j: int|
        0 <= j < k && (#[trigger] rotation(canonical, j)).fits_in(outer) ==> margins(
            rotation(canonical, j),
            outer,
        ) != margins(rotation(canonical, k), outer)
}

/// The rotation picked among those numbered below `n`, if any of them fits.
pub open spec fn tightest_below(canonical: Coordinates, outer: Coordinates, n: int) -> Option<int>
    decreases n,
{
    if n <= 0 {
        None
    } else {
        let earlier = tightest_below(canonical, outer, n - 1);
        let k = n - 1;
        if !rotation(canonical, k).fits_in(outer) {
            earlier
        } else {
            match earlier {
                None => Some(k),
                Some(b) => if lex_less(
                    margins(rotation(canonical, k), outer),
                    margins(rotation(canonical, b), outer),
                ) {
                    Some(k)
                } else {
                    Some(b)
                },
            }
        }
    }
}

/// Where and how `place` puts the item, or `None` where no rotation fits.
pub open spec fn spec_place(item: Item, space: Space) -> Option<Placement> {
    let canonical = item.dimensions.canonical();
    match tightest_below(canonical, space.dimensions.raw, 6) {
        None => None,
        Some(k) => Some(
            Placement {
                dimensions: Dimensions { raw: rotation(canonical, k) },
                position: space.position,
                weight: item.weight,
            },
        ),
    }
}

/// What `tightest_below` picks is the first of the tightest rotations below `n`.
pub proof fn lemma_tightest_below(canonical: Coordinates, outer: Coordinates, n: int)
    requires
        0 <= n <= 6,
    ensures
        match tightest_below(canonical, outer, n) {
            None => forall|j: int|
                0 <= j < n ==> !(#[trigger] rotation(canonical, j)).fits_in(outer),
            Some(k) => {
                &&& 0 <= k < n
                &&& rotation(canonical, k).fits_in(outer)
                &&& forall|j: int|
                    0 <= j < n && (#[trigger] rotation(canonical, j)).fits_in(outer) ==> !lex_less(
                        margins(rotation(canonical, j), outer),
                        margins(rotation(canonical, k), outer),
                    )
                &&& forall|j: int|
                    0 <= j < k && (#[trigger] rotation(canonical, j)).fits_in(outer) ==> margins(
                        rotation(canonical, j),
                        outer,
                    ) != margins(rotation(canonical, k), outer)
            },
        },
    decreases n,
{
    if n > 0 {
        lemma_tightest_below(canonical, outer, n - 1);
    }
}

/// The `k`-th way to lay an item along the axes.
pub fn nth_rotation(canonical: Coordinates, k: usize) -> (r: Coordinates)
    requires
        k < 6,
    ensures
        r == rotation(canonical, k as int),
{
    let Coordinates { x: length, y: width, z: height } = canonical;
    if k == 0 {
        Coordinates { x: width, y: height, z: length }
    } else if k == 1 {
        Coordinates { x: width, y: length, z: height }
    } else if k == 2 {
        Coordinates { x: height, y: width, z: length }
    } else if k == 3 {
        Coordinates { x: height, y: length, z: width }
    } else if k == 4 {
        Coordinates { x: length, y: width, z: height }
    } else {
        Coordinates { x: length, y: height, z: width }
    }
}

/// The room left on each axis, from the smallest margin to the largest.
#[verifier::when_used_as_spec(spec_margins)]
pub fn margins(inner: Coordinates, outer: Coordinates) -> (m: Coordinates)
    requires
        inner.fits_in(outer),
    ensures
        m == spec_margins(inner, outer),
{
    Coordinates { x: outer.x - inner.x, y: outer.y - inner.y, z: outer.z - inner.z }.sorted_ascending()
}

/// Finds the orientation in which the item fits the space most tightly and
/// puts the item in the low corner of the space.
///
/// Of the six ways to lay the item's length, width and height along the axes,
/// those that exceed the space on some axis are left out. Of the others the
/// one with the smallest margins wins, the margins of a rotation being the
/// room it leaves on the three axes, sorted ascending and compared in this
/// order; among equals the lowest-numbered rotation wins. The result is
/// `None` exactly when no rotation fits, which is no error. The result is a
/// function of the item and the space alone.
pub fn place(item: &Item, space: &Space) -> (placement: Option<Placement>)
    ensures
        placement == spec_place(*item, *space),
        placement.is_none() <==> forall|k: int|
            0 <= k < 6 ==> !(#[trigger] rotation(item.dimensions.canonical(), k)).fits_in(
                space.dimensions.raw,
            ),
        placement matches Some(p) ==> {
            &&& p.position == space.position
            &&& p.weight == item.weight
            &&& p.dimensions.canonical() == item.dimensions.canonical()
            &&& p.dimensions.raw.fits_in(space.dimensions.raw)
            &&& exists|k: int|
                is_tightest(item.dimensions.canonical(), space.dimensions.raw, k)
                    && p.dimensions.raw == rotation(item.dimensions.canonical(), k)
        },
{
    let canonical = item.dimensions.canonical();
    let outer = space.dimensions.raw;
    let mut best: Option<(Coordinates, Coordinates)> = None;
    let mut k: usize = 0;
    while k < 6
        invariant
            k <= 6,
            canonical == item.dimensions.canonical(),
            outer == space.dimensions.raw,
            match tightest_below(canonical, outer, k as int) {
                None => best.is_none(),
                Some(b) => best == Some(
                    (rotation(canonical, b), margins(rotation(canonical, b), outer)),
                ),
            },
        decreases 6 - k,
    {
        let candidate = nth_rotation(canonical, k);
        if candidate.x <= outer.x && candidate.y <= outer.y && candidate.z <= outer.z {
            let room = margins(candidate, outer);
            let wins = match best {
                None => true,
                Some((_, least)) => comes_before(&room, &least),
            };
            if wins {
                best = Some((candidate, room));
            }
        }
        k = k + 1;
    }
    proof {
        lemma_tightest_below(canonical, outer, 6);
        if let Some(b) = tightest_below(canonical, outer, 6) {
            assert(is_tightest(canonical, outer, b));
        }
    }
    match best {
        None => None,
        Some((chosen, _)) => Some(
            Placement {
                dimensions: Dimensions { raw: chosen },
                position: space.position,
                weight: item.weight,
            },
        ),
    }
}

} // verus!
