//! The records that go into and come out of a packing run.

use crate::geometry::{Coordinates, Dimensions};
use vstd::prelude::*;

verus! {

/// A weight that may be absent; an absent weight counts as zero in every sum
/// and every comparison.
pub open spec fn spec_weight_or_zero(weight: Option<u64>) -> u64 {
    match weight {
        Some(w) => w,
        None => 0,
    }
}

/// Reads a weight that may be absent, taking an absent one as zero.
#[verifier::when_used_as_spec(spec_weight_or_zero)]
pub fn weight_or_zero(weight: Option<u64>) -> (w: u64)
    ensures
        w == spec_weight_or_zero(weight),
{
    match weight {
        Some(w) => w,
        None => 0,
    }
}

/// A cuboid to be packed.
#[derive(Clone, Copy, Debug, PartialEq, Eq, Structural)]
pub struct Item {
    pub dimensions: Dimensions,
    pub weight: Option<u64>,
}

impl Item {
    /// An item with the given extents along the axes.
    pub fn new(dimensions: [u64; 3], weight: Option<u64>) -> (item: Item)
        ensures
            item.dimensions.raw == (Coordinates {
                x: dimensions[0],
                y: dimensions[1],
                z: dimensions[2],
            }),
            item.weight == weight,
    {
        Item { dimensions: Dimensions::from_array(&dimensions), weight }
    }
}

/// The cuboid that items are packed into, and the weight that one instance of
/// it may carry. An absent limit counts as zero: such a container carries only
/// items that weigh nothing.
#[derive(Clone, Copy, Debug, PartialEq, Eq, Structural)]
pub struct Container {
    pub dimensions: Dimensions,
    pub weight_limit: Option<u64>,
}

impl Container {
    /// The weight one instance may carry, an absent limit taken as zero.
    pub open spec fn limit(self) -> u64 {
        spec_weight_or_zero(self.weight_limit)
    }

    /// The whole inside of an empty instance: a space at the origin whose
    /// extents on the three axes are the container's length, width and height.
    pub open spec fn spec_interior(&self) -> Space {
        Space {
            dimensions: Dimensions { raw: self.dimensions.canonical() },
            position: Coordinates { x: 0, y: 0, z: 0 },
        }
    }

    /// A container with the given extents.
    pub fn new(dimensions: [u64; 3], weight_limit: Option<u64>) -> (container: Container)
        ensures
            container.dimensions.raw == (Coordinates {
                x: dimensions[0],
                y: dimensions[1],
                z: dimensions[2],
            }),
            container.weight_limit == weight_limit,
    {
        Container { dimensions: Dimensions::from_array(&dimensions), weight_limit }
    }

    /// The whole inside of an empty instance.
    #[verifier::when_used_as_spec(spec_interior)]
    pub fn interior(&self) -> (space: Space)
        ensures
            space == self.spec_interior(),
            space.in_range(),
    {
        Space {
            dimensions: Dimensions { raw: self.dimensions.canonical() },
            position: Coordinates::origin(),
        }
    }
}

/// A free cuboid inside one container instance: its extents along the axes
/// and the offset of its low corner from the container's origin.
#[derive(Clone, Copy, Debug, PartialEq, Eq, Structural)]
pub struct Space {
    pub dimensions: Dimensions,
    pub position: Coordinates,
}

impl Space {
    /// The offset at which the cuboid ends on the given axis.
    pub open spec fn upper(self, axis: int) -> int {
        self.position.get(axis) + self.dimensions.raw.get(axis)
    }

    /// Whether the far corner of the cuboid can be written in 64 bits.
    pub open spec fn in_range(self) -> bool {
        &&& self.upper(0) <= u64::MAX
        &&& self.upper(1) <= u64::MAX
        &&& self.upper(2) <= u64::MAX
    }

    /// Whether the cuboid lies inside `outer`.
    pub open spec fn within(self, outer: Space) -> bool {
        &&& outer.position.x <= self.position.x && self.upper(0) <= outer.upper(0)
        &&& outer.position.y <= self.position.y && self.upper(1) <= outer.upper(1)
        &&& outer.position.z <= self.position.z && self.upper(2) <= outer.upper(2)
    }

    /// Whether the two cuboids are separated: on some axis one of them ends
    /// where the other begins, or before.
    pub open spec fn apart_from(self, other: Space) -> bool {
        ||| self.upper(0) <= other.position.x
        ||| other.upper(0) <= self.position.x
        ||| self.upper(1) <= other.position.y
        ||| other.upper(1) <= self.position.y
        ||| self.upper(2) <= other.position.z
        ||| other.upper(2) <= self.position.z
    }

    /// The volume of the cuboid.
    pub open spec fn volume(self) -> int {
        self.dimensions.volume()
    }

    /// A space with the given extents along the axes and the given low corner.
    pub fn new(dimensions: [u64; 3], position: [u64; 3]) -> (space: Space)
        ensures
            space.dimensions.raw == (Coordinates {
                x: dimensions[0],
                y: dimensions[1],
                z: dimensions[2],
            }),
            space.position == (Coordinates { x: position[0], y: position[1], z: position[2] }),
    {
        Space {
            dimensions: Dimensions::from_array(&dimensions),
            position: Coordinates::from_array(&position),
        }
    }

    /// Tells whether the far corner of the cuboid can be written in 64 bits.
    pub fn fits_in_range(&self) -> (ok: bool)
        ensures
            ok == self.in_range(),
    {
        let p = self.position;
        let d = self.dimensions.raw;
        p.x <= u64::MAX - d.x && p.y <= u64::MAX - d.y && p.z <= u64::MAX - d.z
    }
}

/// One item fixed in a container: its extents along the axes in the chosen
/// orientation, the offset of its low corner, and its weight.
#[derive(Clone, Copy, Debug, PartialEq, Eq, Structural)]
pub struct Placement {
    pub dimensions: Dimensions,
    pub position: Coordinates,
    pub weight: Option<u64>,
}

impl Placement {
    /// The cuboid that the placed item occupies.
    pub open spec fn region(self) -> Space {
        Space { dimensions: self.dimensions, position: self.position }
    }

    /// The volume of the placed item.
    pub open spec fn volume(self) -> int {
        self.dimensions.volume()
    }
}

/// The weights of a list of placements added up, absent weights as zero.
pub open spec fn placements_weight(placements: Seq<Placement>) -> int
    decreases placements.len(),
{
    if placements.len() == 0 {
        0
    } else {
        placements_weight(placements.drop_last()) + spec_weight_or_zero(placements.last().weight)
    }
}

/// One container instance: the items placed in it, in the order in which they
/// were placed, the free spaces that are left, and the weight it carries.
#[derive(Debug, PartialEq, Eq)]
pub struct Packing {
    pub placements: Vec<Placement>,
    pub spaces: Vec<Space>,
    pub weight: u64,
}

/// What a `Packing` holds, as mathematical sequences.
pub struct PackingView {
    pub placements: Seq<Placement>,
    pub spaces: Seq<Space>,
    pub weight: int,
}

impl View for Packing {
    type V = PackingView;

    open spec fn view(&self) -> PackingView {
        PackingView { placements: self.placements@, spaces: self.spaces@, weight: self.weight as int }
    }
}

/// The views of a list of packings, one for one.
pub open spec fn packing_views(packings: Seq<Packing>) -> Seq<PackingView> {
    Seq::new(packings.len(), |i: int| packings[i]@)
}

impl PackingView {
    /// Whether the weight carried is the sum of the weights of the items placed.
    pub open spec fn weight_is_sum(self) -> bool {
        self.weight == placements_weight(self.placements)
    }

    /// Whether no two placed items overlap and each lies inside `bounds`.
    pub open spec fn placements_sound(self, bounds: Space) -> bool {
        &&& forall|i: int|
            0 <= i < self.placements.len() ==> (#[trigger] self.placements[i]).region().within(
                bounds,
            )
        &&& forall|i: int, j: int|
            0 <= i < j < self.placements.len() ==> (#[trigger] self.placements[i]).region().apart_from(
                (#[trigger] self.placements[j]).region(),
            )
    }

    /// Whether the free spaces lie inside `bounds`, overlap neither each other
    /// nor any placed item.
    pub open spec fn spaces_sound(self, bounds: Space) -> bool {
        &&& forall|i: int|
            0 <= i < self.spaces.len() ==> (#[trigger] self.spaces[i]).within(bounds)
        &&& forall|i: int, j: int|
            0 <= i < j < self.spaces.len() ==> (#[trigger] self.spaces[i]).apart_from(
                #[trigger] self.spaces[j],
            )
        &&& forall|i: int, j: int|
            0 <= i < self.spaces.len() && 0 <= j < self.placements.len() ==> (
            #[trigger] self.spaces[i]).apart_from((#[trigger] self.placements[j]).region())
    }
}

} // verus!
