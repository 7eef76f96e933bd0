use box_packer::geometry::{Coordinates, Dimensions};
use box_packer::model::{Item, Placement, Space};
use box_packer::placement::{margins, nth_rotation, place};

#[test]
fn the_six_rotations_in_their_order() {
    let canonical = Coordinates::new(3, 2, 1);
    assert_eq!(nth_rotation(canonical, 0), Coordinates::new(2, 1, 3));
    assert_eq!(nth_rotation(canonical, 1), Coordinates::new(2, 3, 1));
    assert_eq!(nth_rotation(canonical, 2), Coordinates::new(1, 2, 3));
    assert_eq!(nth_rotation(canonical, 3), Coordinates::new(1, 3, 2));
    assert_eq!(nth_rotation(canonical, 4), Coordinates::new(3, 2, 1));
    assert_eq!(nth_rotation(canonical, 5), Coordinates::new(3, 1, 2));
}

#[test]
fn margins_are_sorted_ascending() {
    let inner = Coordinates::new(1000, 2000, 3000);
    let outer = Coordinates::new(8000, 2000, 5000);
    assert_eq!(margins(inner, outer), Coordinates::new(0, 2000, 7000));
}

#[test]
fn place_takes_the_only_rotation_that_fits() {
    let item = Item::new([1000, 2000, 4000], Some(7));
    let space = Space::new([4000, 1000, 2000], [5, 6, 7]);
    let expected = Placement {
        dimensions: Dimensions::from_array(&[4000, 1000, 2000]),
        position: Coordinates::new(5, 6, 7),
        weight: Some(7),
    };
    assert_eq!(place(&item, &space), Some(expected));
}

#[test]
fn place_takes_the_tightest_rotation() {
    // (4, 3, 1) in a space of (5, 4, 3): the rotation (1, 4, 3) leaves the
    // margins (0, 0, 4), every other one that fits leaves more on the least.
    let item = Item::new([4000, 3000, 1000], None);
    let space = Space::new([5000, 4000, 3000], [0, 0, 0]);
    let placement = place(&item, &space).unwrap();
    assert_eq!(placement.dimensions.raw, Coordinates::new(1000, 4000, 3000));
    assert_eq!(placement.weight, None);
}

#[test]
fn place_follows_the_axes_of_the_space() {
    let item = Item::new([4000, 3000, 1000], None);
    let space = Space::new([3000, 5000, 4000], [0, 0, 0]);
    let placement = place(&item, &space).unwrap();
    assert_eq!(placement.dimensions.raw, Coordinates::new(3000, 1000, 4000));
}

#[test]
fn place_breaks_ties_by_the_lowest_rotation() {
    // Every rotation fits and leaves the same margins: the first one, which
    // lays width, height and length along the axes, is taken.
    let item = Item::new([1000, 2000, 3000], None);
    let space = Space::new([10000, 10000, 10000], [0, 0, 0]);
    let placement = place(&item, &space).unwrap();
    assert_eq!(placement.dimensions.raw, Coordinates::new(2000, 1000, 3000));
}

#[test]
fn place_breaks_ties_among_the_rotations_that_fit() {
    let item = Item::new([4000, 2000, 2000], None);
    let space = Space::new([4000, 4000, 2000], [0, 0, 0]);
    let placement = place(&item, &space).unwrap();
    assert_eq!(placement.dimensions.raw, Coordinates::new(2000, 4000, 2000));
}

#[test]
fn place_returns_none_where_nothing_fits() {
    let item = Item::new([5000, 2000, 3000], Some(1));
    let space = Space::new([4000, 4000, 4000], [0, 0, 0]);
    assert_eq!(place(&item, &space), None);
}

#[test]
fn place_puts_the_item_at_the_position_of_the_space() {
    let item = Item::new([1000, 1000, 1000], Some(3));
    let space = Space::new([2000, 2000, 2000], [100, 200, 300]);
    let placement = place(&item, &space).unwrap();
    assert_eq!(placement.position, Coordinates::new(100, 200, 300));
    assert_eq!(placement.weight, Some(3));
}

#[test]
fn place_fills_a_space_exactly() {
    let item = Item::new([3000, 5000, 4000], None);
    let space = Space::new([4000, 3000, 5000], [0, 0, 0]);
    let placement = place(&item, &space).unwrap();
    assert_eq!(placement.dimensions.raw, Coordinates::new(4000, 3000, 5000));
}

#[test]
fn place_of_nothing_in_nothing() {
    let item = Item::new([0, 0, 0], None);
    let space = Space::new([0, 0, 0], [9, 9, 9]);
    let placement = place(&item, &space).unwrap();
    assert_eq!(placement.dimensions.raw, Coordinates::new(0, 0, 0));
    assert_eq!(placement.position, Coordinates::new(9, 9, 9));
}

#[test]
fn place_gives_the_same_result_twice() {
    let item = Item::new([4000, 3000, 1000], Some(12));
    let space = Space::new([5000, 4000, 3000], [1, 2, 3]);
    let first = place(&item, &space);
    let second = place(&item, &space);
    assert_eq!(first, second);
    assert!(first.is_some());
}

#[test]
fn a_smaller_item_fits_where_a_larger_one_does() {
    let space = Space::new([5000, 2000, 4000], [0, 0, 0]);
    let larger = Item::new([2000, 5000, 4000], None);
    assert!(place(&larger, &space).is_some());
    for raw in [[2000, 5000, 4000], [5000, 1000, 1000], [3000, 3000, 2000], [0, 0, 0], [4000, 4000, 2000]] {
        let smaller = Item::new(raw, None);
        assert!(place(&smaller, &space).is_some());
    }
    let longer = Item::new([5001, 1000, 1000], None);
    assert!(place(&longer, &space).is_none());
}
