use box_packer::geometry::{Coordinates, Dimensions};
use box_packer::greedy::{
    fits_greedy_box, generate_packing_for_greedy_box, greedy_box_is_representable,
    greedy_packing, greedy_packing_is_representable, item_greedy_box,
};
use box_packer::model::{Container, Item, Placement};

#[test]
fn greedy_box_of_two_items() {
    let items = vec![Item::new([3000, 2000, 1000], None), Item::new([4000, 1000, 1000], None)];
    let greedy = item_greedy_box(&items);
    assert_eq!(greedy.raw.to_array(), [4000, 2000, 2000]);
}

#[test]
fn greedy_box_goes_by_canonical_extents() {
    let items = vec![Item::new([1000, 2000, 3000], None), Item::new([1000, 1000, 4000], None)];
    let greedy = item_greedy_box(&items);
    assert_eq!(greedy.raw, Coordinates::new(4000, 2000, 2000));
}

#[test]
fn greedy_box_of_no_items() {
    let items: Vec<Item> = Vec::new();
    assert_eq!(item_greedy_box(&items).raw, Coordinates::new(0, 0, 0));
}

#[test]
fn greedy_box_rounds_the_height_to_a_tenth() {
    let low = vec![Item::new([1040, 2000, 3000], None)];
    assert_eq!(item_greedy_box(&low).raw, Coordinates::new(3000, 2000, 1000));
    let half = vec![Item::new([1050, 2000, 3000], None)];
    assert_eq!(item_greedy_box(&half).raw, Coordinates::new(3000, 2000, 1100));
    let below_half = vec![Item::new([40, 2000, 3000], None), Item::new([9, 2000, 3000], None)];
    assert_eq!(item_greedy_box(&below_half).raw, Coordinates::new(3000, 2000, 0));
    let at_half = vec![Item::new([40, 2000, 3000], None), Item::new([10, 2000, 3000], None)];
    assert_eq!(item_greedy_box(&at_half).raw, Coordinates::new(3000, 2000, 100));
}

#[test]
fn greedy_box_is_not_kept_sorted() {
    // The height of the stack may exceed the greatest length.
    let items = vec![
        Item::new([2000, 2000, 2000], None),
        Item::new([2000, 2000, 2000], None),
        Item::new([2000, 2000, 2000], None),
    ];
    assert_eq!(item_greedy_box(&items).raw, Coordinates::new(2000, 2000, 6000));
}

#[test]
fn container_holds_the_stack() {
    let container = Container::new([4000, 5000, 2000], Some(10));
    let items = vec![Item::new([3000, 2000, 1000], Some(4)), Item::new([4000, 1000, 1000], Some(6))];
    assert!(fits_greedy_box(&container, &items));
}

#[test]
fn container_too_short_too_narrow_or_too_low() {
    let items = vec![Item::new([3000, 2000, 1000], Some(4)), Item::new([4000, 1000, 1000], Some(6))];
    // canonical (3999, 3000, 2500)
    assert!(!fits_greedy_box(&Container::new([3999, 3000, 2500], Some(10)), &items));
    // canonical (9000, 9000, 1999): the least extent is below the stack
    assert!(!fits_greedy_box(&Container::new([9000, 9000, 1999], Some(10)), &items));
    // canonical (9000, 2000, 1999)
    assert!(!fits_greedy_box(&Container::new([9000, 1999, 2000], Some(10)), &items));
    assert!(fits_greedy_box(&Container::new([2000, 4000, 2000], Some(10)), &items));
}

#[test]
fn container_must_carry_the_weight_of_all_items() {
    let items = vec![Item::new([3000, 2000, 1000], Some(4)), Item::new([4000, 1000, 1000], Some(6))];
    assert!(!fits_greedy_box(&Container::new([4000, 5000, 2000], Some(9)), &items));
    assert!(fits_greedy_box(&Container::new([4000, 5000, 2000], Some(10)), &items));
}

#[test]
fn absent_weight_limit_carries_only_weightless_items() {
    let weightless = vec![Item::new([1000, 1000, 1000], None), Item::new([1000, 1000, 1000], Some(0))];
    assert!(fits_greedy_box(&Container::new([2000, 2000, 3000], None), &weightless));
    let heavy = vec![Item::new([1000, 1000, 1000], Some(1))];
    assert!(!fits_greedy_box(&Container::new([2000, 2000, 3000], None), &heavy));
}

#[test]
fn container_is_held_against_the_rounded_height() {
    // The stack is 1040 high, which rounds to 1000.
    let items = vec![Item::new([520, 2000, 3000], None), Item::new([520, 2000, 3000], None)];
    assert!(fits_greedy_box(&Container::new([3000, 2000, 1000], None), &items));
    // 1060 rounds to 1100.
    let taller = vec![Item::new([530, 2000, 3000], None), Item::new([530, 2000, 3000], None)];
    assert!(!fits_greedy_box(&Container::new([3000, 2000, 1099], None), &taller));
    assert!(fits_greedy_box(&Container::new([3000, 2000, 1100], None), &taller));
}

#[test]
fn every_container_holds_no_items() {
    let items: Vec<Item> = Vec::new();
    assert!(fits_greedy_box(&Container::new([0, 0, 0], None), &items));
}

#[test]
fn sums_beyond_64_bits_do_not_fit() {
    let items = vec![
        Item::new([u64::MAX, u64::MAX, u64::MAX], Some(u64::MAX)),
        Item::new([u64::MAX, u64::MAX, u64::MAX], Some(u64::MAX)),
    ];
    assert!(!fits_greedy_box(&Container::new([u64::MAX, u64::MAX, u64::MAX], Some(u64::MAX)), &items));
    assert!(!greedy_box_is_representable(&items));
    assert!(!greedy_packing_is_representable(&items));
    let tall = vec![
        Item::new([u64::MAX, u64::MAX, u64::MAX], Some(1)),
        Item::new([u64::MAX, u64::MAX, u64::MAX], Some(2)),
    ];
    // The second item lies at the height of the first, which can be written.
    assert!(greedy_packing_is_representable(&tall));
    assert!(!greedy_box_is_representable(&tall));
    let small = vec![Item::new([1, 2, 3], Some(1))];
    assert!(greedy_box_is_representable(&small));
    assert!(greedy_packing_is_representable(&small));
}

#[test]
fn stack_in_the_order_given() {
    let items = vec![
        Item::new([3000, 2000, 1000], Some(5)),
        Item::new([1000, 4000, 1000], None),
        Item::new([2000, 2000, 2000], Some(7)),
    ];
    let packing = greedy_packing(&items);
    assert_eq!(packing.weight, 12);
    assert!(packing.spaces.is_empty());
    let expected = vec![
        Placement {
            dimensions: Dimensions::from_array(&[3000, 2000, 1000]),
            position: Coordinates::new(0, 0, 0),
            weight: Some(5),
        },
        Placement {
            dimensions: Dimensions::from_array(&[1000, 4000, 1000]),
            position: Coordinates::new(0, 0, 1000),
            weight: None,
        },
        Placement {
            dimensions: Dimensions::from_array(&[2000, 2000, 2000]),
            position: Coordinates::new(0, 0, 2000),
            weight: Some(7),
        },
    ];
    assert_eq!(packing.placements, expected);
}

#[test]
fn stack_offsets_go_by_canonical_height() {
    // The first item stands on end: its height is 1000 all the same.
    let items = vec![Item::new([1000, 2000, 5000], None), Item::new([1000, 1000, 1000], None)];
    let packing = greedy_packing(&items);
    assert_eq!(packing.placements[0].dimensions.raw, Coordinates::new(1000, 2000, 5000));
    assert_eq!(packing.placements[1].position, Coordinates::new(0, 0, 1000));
}

#[test]
fn stack_of_no_items() {
    let items: Vec<Item> = Vec::new();
    let packing = greedy_packing(&items);
    assert!(packing.placements.is_empty());
    assert!(packing.spaces.is_empty());
    assert_eq!(packing.weight, 0);
}

#[test]
fn generated_list_holds_one_packing() {
    let items = vec![Item::new([3000, 2000, 1000], Some(5)), Item::new([1000, 4000, 1000], None)];
    let packings = generate_packing_for_greedy_box(&items);
    assert_eq!(packings.len(), 1);
    assert_eq!(packings[0], greedy_packing(&items));
    assert_eq!(packings[0].placements.len(), 2);
    assert_eq!(packings[0].weight, 5);
}
