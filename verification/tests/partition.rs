use box_packer::geometry::{Coordinates, Dimensions};
use box_packer::model::{Item, Placement, Space};
use box_packer::partition::{
    break_up_space, cmp_dimensions_and_position, cut_block, cut_slab, nth_cut_order, nth_partition,
};
use box_packer::placement::place;
use std::cmp::Ordering;

#[test]
fn the_six_cut_orders_in_their_order() {
    assert_eq!(nth_cut_order(0), (2, 1, 0));
    assert_eq!(nth_cut_order(1), (2, 0, 1));
    assert_eq!(nth_cut_order(2), (0, 2, 1));
    assert_eq!(nth_cut_order(3), (0, 1, 2));
    assert_eq!(nth_cut_order(4), (1, 0, 2));
    assert_eq!(nth_cut_order(5), (1, 2, 0));
}

#[test]
fn a_slab_spans_the_block_on_the_other_axes() {
    let block = Space::new([10000, 8000, 6000], [1000, 2000, 3000]);
    let placed = Coordinates::new(4000, 3000, 2000);
    assert_eq!(cut_slab(&block, placed, 1), Space::new([10000, 5000, 6000], [1000, 5000, 3000]));
    assert_eq!(cut_block(&block, placed, 1), Space::new([10000, 3000, 6000], [1000, 2000, 3000]));
}

#[test]
fn the_first_split_cuts_height_then_width_then_length() {
    let space = Space::new([10000, 8000, 6000], [1000, 2000, 3000]);
    let parts = nth_partition(&space, Coordinates::new(4000, 3000, 2000), 0);
    assert_eq!(parts[0], Space::new([10000, 8000, 4000], [1000, 2000, 5000]));
    assert_eq!(parts[1], Space::new([10000, 5000, 2000], [1000, 5000, 3000]));
    assert_eq!(parts[2], Space::new([6000, 3000, 2000], [5000, 2000, 3000]));
}

#[test]
fn the_last_split_cuts_width_then_height_then_length() {
    let space = Space::new([10000, 8000, 6000], [1000, 2000, 3000]);
    let parts = nth_partition(&space, Coordinates::new(4000, 3000, 2000), 5);
    assert_eq!(parts[0], Space::new([10000, 5000, 6000], [1000, 5000, 3000]));
    assert_eq!(parts[1], Space::new([10000, 3000, 4000], [1000, 2000, 5000]));
    assert_eq!(parts[2], Space::new([6000, 3000, 2000], [5000, 2000, 3000]));
}

#[test]
fn splits_rank_by_their_first_slab_first() {
    let space = Space::new([10000, 8000, 6000], [1000, 2000, 3000]);
    let placed = Coordinates::new(4000, 3000, 2000);
    let first = nth_partition(&space, placed, 0);
    let second = nth_partition(&space, placed, 1);
    let third = nth_partition(&space, placed, 2);
    let fourth = nth_partition(&space, placed, 3);
    // 0 and 1 share the first slab; the second slab of 1 is the wider.
    assert_eq!(cmp_dimensions_and_position(&first, &second), Ordering::Less);
    assert_eq!(cmp_dimensions_and_position(&second, &first), Ordering::Greater);
    // the first slab of 2 has the greater least extent.
    assert_eq!(cmp_dimensions_and_position(&second, &third), Ordering::Less);
    assert_eq!(cmp_dimensions_and_position(&third, &fourth), Ordering::Less);
    assert_eq!(cmp_dimensions_and_position(&fourth, &fourth), Ordering::Equal);
}

#[test]
fn ranking_ignores_positions() {
    let a = [
        Space::new([1, 2, 3], [0, 0, 0]),
        Space::new([4, 5, 6], [0, 0, 0]),
        Space::new([7, 8, 9], [0, 0, 0]),
    ];
    let b = [
        Space::new([3, 2, 1], [5, 5, 5]),
        Space::new([4, 6, 5], [6, 6, 6]),
        Space::new([9, 7, 8], [7, 7, 7]),
    ];
    assert_eq!(cmp_dimensions_and_position(&a, &b), Ordering::Equal);
}

#[test]
fn break_up_space_returns_the_highest_ranking_split() {
    let space = Space::new([10000, 8000, 6000], [1000, 2000, 3000]);
    let placement = Placement {
        dimensions: Dimensions::from_array(&[4000, 3000, 2000]),
        position: Coordinates::new(1000, 2000, 3000),
        weight: None,
    };
    let parts = break_up_space(&space, &placement);
    assert_eq!(parts[0], Space::new([6000, 8000, 6000], [5000, 2000, 3000]));
    assert_eq!(parts[1], Space::new([4000, 5000, 6000], [1000, 5000, 3000]));
    assert_eq!(parts[2], Space::new([4000, 3000, 4000], [1000, 2000, 5000]));
}

#[test]
fn break_up_space_breaks_ties_by_the_highest_cut_order() {
    // All six splits rank the same: the last one is returned.
    let space = Space::new([10000, 10000, 10000], [0, 0, 0]);
    let placement = Placement {
        dimensions: Dimensions::from_array(&[5000, 5000, 5000]),
        position: Coordinates::origin(),
        weight: Some(1),
    };
    let parts = break_up_space(&space, &placement);
    assert_eq!(parts, nth_partition(&space, placement.dimensions.raw, 5));
    assert_eq!(parts[0], Space::new([10000, 5000, 10000], [0, 5000, 0]));
    assert_eq!(parts[1], Space::new([10000, 5000, 5000], [0, 0, 5000]));
    assert_eq!(parts[2], Space::new([5000, 5000, 5000], [5000, 0, 0]));
}

#[test]
fn break_up_space_around_an_item_that_fills_the_space() {
    let space = Space::new([3000, 2000, 1000], [10, 20, 30]);
    let placement = Placement {
        dimensions: Dimensions::from_array(&[3000, 2000, 1000]),
        position: Coordinates::new(10, 20, 30),
        weight: None,
    };
    let parts = break_up_space(&space, &placement);
    for part in parts {
        assert!(!part.dimensions.is_solid());
    }
}

#[test]
fn volume_is_conserved_by_place_and_break_up_space() {
    let space = Space::new([9000, 7000, 5000], [100, 200, 300]);
    for raw in [[1000, 2000, 3000], [5000, 5000, 5000], [9000, 7000, 5000], [8000, 1000, 1000], [0, 4000, 4000]] {
        let item = Item::new(raw, None);
        let placement = place(&item, &space).unwrap();
        let parts = break_up_space(&space, &placement);
        let mut sum: u128 = placement.dimensions.checked_volume().unwrap();
        for part in parts {
            sum += part.dimensions.checked_volume().unwrap();
        }
        assert_eq!(sum, space.dimensions.checked_volume().unwrap());
        assert_eq!(sum, 315_000_000_000);
    }
}

#[test]
fn the_spaces_of_a_split_do_not_overlap() {
    let space = Space::new([9000, 7000, 5000], [100, 200, 300]);
    let item = Item::new([4000, 3000, 2000], None);
    let placement = place(&item, &space).unwrap();
    let parts = break_up_space(&space, &placement);
    let mut boxes: Vec<(Coordinates, Coordinates)> = Vec::new();
    boxes.push((placement.position, placement.dimensions.raw));
    for part in parts {
        boxes.push((part.position, part.dimensions.raw));
    }
    for i in 0..boxes.len() {
        let (p, d) = boxes[i];
        for axis in 0..3 {
            assert!(p.at(axis) >= space.position.at(axis));
            assert!(p.at(axis) + d.at(axis) <= space.position.at(axis) + space.dimensions.raw.at(axis));
        }
        for j in (i + 1)..boxes.len() {
            let (q, e) = boxes[j];
            let mut apart = false;
            for axis in 0..3 {
                if p.at(axis) + d.at(axis) <= q.at(axis) || q.at(axis) + e.at(axis) <= p.at(axis) {
                    apart = true;
                }
            }
            assert!(apart);
        }
    }
}
