//! Heuristic packing of cuboid items into cuboid containers.
//!
//! `pack` places a batch of items into as many instances of one container as
//! it takes, turning each item the way it fits best and splitting what is
//! left of a free space so that later items can use it. The measures are
//! fixed-point numbers: see `geometry`.

pub mod geometry;
pub mod greedy;
pub mod laws;
pub mod model;
pub mod packer;
pub mod partition;
pub mod placement;
pub mod sorting;
pub mod soundness;

pub use geometry::{cmp_coordinates, Coordinates, Dimensions, UNITS_PER_TENTH, UNITS_PER_WHOLE};
pub use greedy::{
    fits_greedy_box, generate_packing_for_greedy_box, greedy_box_is_representable,
    greedy_packing_is_representable, item_greedy_box,
};
pub use model::{Container, Item, Packing, Placement, Space};
pub use packer::{pack, pack_is_representable, PackError, PackErrorKind, PackResult};
pub use partition::break_up_space;
pub use placement::place;
