use box_packer::geometry::{cmp_coordinates, comes_before, Coordinates, Dimensions};
use box_packer::model::{weight_or_zero, Container, Space};
use std::cmp::Ordering;

#[test]
fn canonical_extents_are_sorted_descending() {
    let d = Dimensions::from_array(&[2000, 5000, 3000]);
    assert_eq!(d.canonical(), Coordinates::new(5000, 3000, 2000));
    assert_eq!(d.length(), 5000);
    assert_eq!(d.width(), 3000);
    assert_eq!(d.height(), 2000);
}

#[test]
fn canonical_extents_keep_the_raw_triple() {
    let d = Dimensions::from_array(&[2000, 5000, 3000]);
    assert_eq!(d.raw, Coordinates::new(2000, 5000, 3000));
    assert_eq!(d.raw.to_array(), [2000, 5000, 3000]);
    assert_eq!(d.raw.at(0), 2000);
    assert_eq!(d.raw.at(1), 5000);
    assert_eq!(d.raw.at(2), 3000);
}

#[test]
fn canonical_extents_of_every_order_of_three_measures() {
    let expected = Coordinates::new(3, 2, 1);
    for raw in [[1, 2, 3], [1, 3, 2], [2, 1, 3], [2, 3, 1], [3, 1, 2], [3, 2, 1]] {
        assert_eq!(Dimensions::from_array(&raw).canonical(), expected);
    }
}

#[test]
fn canonical_extents_with_equal_measures() {
    assert_eq!(Dimensions::from_array(&[4, 4, 9]).canonical(), Coordinates::new(9, 4, 4));
    assert_eq!(Dimensions::from_array(&[9, 4, 9]).canonical(), Coordinates::new(9, 9, 4));
    assert_eq!(Dimensions::from_array(&[7, 7, 7]).canonical(), Coordinates::new(7, 7, 7));
}

#[test]
fn sorting_three_measures_both_ways() {
    let c = Coordinates::new(20, 10, 30);
    assert_eq!(c.sorted_descending(), Coordinates::new(30, 20, 10));
    assert_eq!(c.sorted_ascending(), Coordinates::new(10, 20, 30));
}

#[test]
fn replacing_one_measure() {
    let c = Coordinates::new(1, 2, 3);
    assert_eq!(c.replace(0, 9), Coordinates::new(9, 2, 3));
    assert_eq!(c.replace(1, 9), Coordinates::new(1, 9, 3));
    assert_eq!(c.replace(2, 9), Coordinates::new(1, 2, 9));
    assert_eq!(Coordinates::from_array(&[1, 2, 3]), c);
    assert_eq!(Coordinates::origin(), Coordinates::new(0, 0, 0));
}

#[test]
fn coordinates_compare_measure_by_measure() {
    let a = Coordinates::new(1, 9, 9);
    let b = Coordinates::new(2, 0, 0);
    assert_eq!(cmp_coordinates(&a, &b), Ordering::Less);
    assert_eq!(cmp_coordinates(&b, &a), Ordering::Greater);
    assert_eq!(cmp_coordinates(&a, &a), Ordering::Equal);
    let c = Coordinates::new(1, 9, 8);
    assert_eq!(cmp_coordinates(&c, &a), Ordering::Less);
    let d = Coordinates::new(1, 8, 9);
    assert_eq!(cmp_coordinates(&a, &d), Ordering::Greater);
    assert!(comes_before(&c, &a));
    assert!(!comes_before(&a, &c));
    assert!(!comes_before(&a, &a));
}

#[test]
fn order_by_length_then_width_then_height() {
    let a = Dimensions::from_array(&[1000, 5000, 2000]);
    let b = Dimensions::from_array(&[3000, 3000, 5000]);
    // canonical: (5000, 2000, 1000) against (5000, 3000, 3000)
    assert_eq!(a.cmp_lwh(&b), Ordering::Less);
    assert_eq!(b.cmp_lwh(&a), Ordering::Greater);
    let c = Dimensions::from_array(&[2000, 1000, 5000]);
    assert_eq!(a.cmp_lwh(&c), Ordering::Equal);
    let d = Dimensions::from_array(&[5000, 2000, 900]);
    assert_eq!(d.cmp_lwh(&a), Ordering::Less);
}

#[test]
fn order_by_height_then_width_then_length() {
    let a = Dimensions::from_array(&[9000, 2000, 1000]);
    let b = Dimensions::from_array(&[3000, 3000, 2000]);
    // by height 1000 against 2000, although a is by far the longer
    assert_eq!(a.cmp_hwl(&b), Ordering::Less);
    assert_eq!(a.cmp_lwh(&b), Ordering::Greater);
    let c = Dimensions::from_array(&[1000, 3000, 4000]);
    assert_eq!(a.cmp_hwl(&c), Ordering::Less);
    let d = Dimensions::from_array(&[1000, 2000, 9001]);
    assert_eq!(a.cmp_hwl(&d), Ordering::Less);
    assert_eq!(d.cmp_hwl(&a), Ordering::Greater);
    assert_eq!(a.cmp_hwl(&a), Ordering::Equal);
}

#[test]
fn volume_is_the_product_of_the_extents() {
    let d = Dimensions::from_array(&[2000, 3000, 4000]);
    assert_eq!(d.checked_volume(), Some(24_000_000_000));
    assert!(d.is_solid());
}

#[test]
fn volume_of_a_flat_cuboid_is_zero() {
    let d = Dimensions::from_array(&[2000, 0, 4000]);
    assert_eq!(d.checked_volume(), Some(0));
    assert!(!d.is_solid());
    let huge = Dimensions::from_array(&[u64::MAX, 0, u64::MAX]);
    assert_eq!(huge.checked_volume(), Some(0));
}

#[test]
fn volume_that_does_not_fit_is_reported() {
    let d = Dimensions::from_array(&[u64::MAX, u64::MAX, u64::MAX]);
    assert_eq!(d.checked_volume(), None);
    assert!(d.is_solid());
    let e = Dimensions::from_array(&[u64::MAX, u64::MAX, 1]);
    assert_eq!(e.checked_volume(), Some((u64::MAX as u128) * (u64::MAX as u128)));
}

#[test]
fn absent_weight_is_zero() {
    assert_eq!(weight_or_zero(None), 0);
    assert_eq!(weight_or_zero(Some(0)), 0);
    assert_eq!(weight_or_zero(Some(1500)), 1500);
}

#[test]
fn interior_of_a_container_has_canonical_axes() {
    let container = Container::new([4000, 6000, 5000], Some(1));
    let interior = container.interior();
    assert_eq!(interior.position, Coordinates::origin());
    assert_eq!(interior.dimensions.raw, Coordinates::new(6000, 5000, 4000));
}

#[test]
fn far_corner_in_range() {
    assert!(Space::new([10, 10, 10], [0, 0, 0]).fits_in_range());
    assert!(Space::new([10, 10, 10], [u64::MAX - 10, 0, 0]).fits_in_range());
    assert!(!Space::new([10, 10, 10], [u64::MAX - 9, 0, 0]).fits_in_range());
    assert!(!Space::new([10, 10, 10], [0, 0, u64::MAX]).fits_in_range());
}
