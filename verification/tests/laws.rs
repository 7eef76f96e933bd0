use box_packer::geometry::Coordinates;
use box_packer::model::{weight_or_zero, Container, Item, Packing};
use box_packer::greedy::{fits_greedy_box, greedy_packing};
use box_packer::packer::{pack, PackErrorKind};

fn placements_are_apart_and_inside(packing: &Packing, container: &Container) -> bool {
    let bounds = container.dimensions.canonical();
    let boxes: Vec<(Coordinates, Coordinates)> =
        packing.placements.iter().map(|p| (p.position, p.dimensions.raw)).collect();
    for i in 0..boxes.len() {
        let (p, d) = boxes[i];
        for axis in 0..3 {
            if p.at(axis) + d.at(axis) > bounds.at(axis) {
                return false;
            }
        }
        for j in (i + 1)..boxes.len() {
            let (q, e) = boxes[j];
            let mut apart = false;
            for axis in 0..3 {
                if p.at(axis) + d.at(axis) <= q.at(axis) || q.at(axis) + e.at(axis) <= p.at(axis) {
                    apart = true;
                }
            }
            if !apart {
                return false;
            }
        }
    }
    true
}

fn weight_is_the_sum(packing: &Packing) -> bool {
    let sum: u64 = packing.placements.iter().map(|p| weight_or_zero(p.weight)).sum();
    sum == packing.weight
}

fn a_batch_of_items() -> Vec<Item> {
    let mut items = Vec::new();
    let mut seed: u64 = 12345;
    for _ in 0..40 {
        let mut raw = [0u64; 3];
        for axis in 0..3 {
            seed = seed.wrapping_mul(6364136223846793005).wrapping_add(1442695040888963407);
            raw[axis] = 500 + (seed >> 33) % 6 * 700;
        }
        seed = seed.wrapping_mul(6364136223846793005).wrapping_add(1442695040888963407);
        let weight = if (seed >> 33) % 5 == 0 { None } else { Some((seed >> 40) % 9000) };
        items.push(Item::new(raw, weight));
    }
    items
}

#[test]
fn packed_items_do_not_overlap() {
    let container = Container::new([8000, 6000, 7000], Some(20000));
    let items = a_batch_of_items();
    let result = pack(&container, &items);
    assert!(result.packings.len() > 1);
    for packing in &result.packings {
        assert!(placements_are_apart_and_inside(packing, &container));
    }
}

#[test]
fn packed_weight_is_the_sum_of_the_items() {
    let container = Container::new([8000, 6000, 7000], Some(20000));
    let items = a_batch_of_items();
    let result = pack(&container, &items);
    for packing in &result.packings {
        assert!(weight_is_the_sum(packing));
        assert!(packing.weight <= 20000);
    }
    let stack = pack(
        &Container::new([6000, 6000, 4000], Some(100000)),
        &[Item::new([5000, 2000, 5000], Some(700)), Item::new([6000, 2000, 4000], None)],
    );
    assert_eq!(stack.packings.len(), 1);
    assert!(weight_is_the_sum(&stack.packings[0]));
    assert_eq!(stack.packings[0].weight, 700);
}

#[test]
fn every_item_is_placed_or_reported() {
    let container = Container::new([8000, 6000, 7000], Some(20000));
    let mut items = a_batch_of_items();
    items.push(Item::new([9000, 1000, 1000], Some(1)));
    items.push(Item::new([1000, 1000, 1000], Some(20001)));
    let result = pack(&container, &items);
    let placed: usize = result.packings.iter().map(|packing| packing.placements.len()).sum();
    assert_eq!(placed + result.errors.len(), items.len());
    assert_eq!(result.errors.len(), 2);
}

#[test]
fn packing_twice_gives_the_same_result() {
    let container = Container::new([8000, 6000, 7000], Some(20000));
    let items = a_batch_of_items();
    assert_eq!(pack(&container, &items), pack(&container, &items));
}

#[test]
fn stack_is_taken_whenever_it_fits() {
    // Each batch opens two containers when its items are placed one by one.
    let container = Container::new([6000, 6000, 4000], Some(100000));
    let batch = vec![Item::new([5000, 2000, 5000], Some(1000)), Item::new([6000, 2000, 4000], Some(1000))];
    let result = pack(&container, &batch);
    assert_eq!(result.packings.len(), 1);
    assert!(result.packings[0].spaces.is_empty());
    assert_eq!(result.packings[0].placements.len(), 2);
    // One more tenth of height and the stack no longer fits.
    let taller = vec![Item::new([5000, 2050, 5000], Some(1000)), Item::new([6000, 2000, 4000], Some(1000))];
    let result = pack(&container, &taller);
    assert_eq!(result.packings.len(), 2);
}

#[test]
fn stack_may_stick_out_of_the_container() {
    let container = Container::new([6000, 6000, 4000], Some(100000));
    let batch = vec![Item::new([5000, 2000, 5000], Some(1000)), Item::new([6000, 2000, 4000], Some(1000))];
    let result = pack(&container, &batch);
    assert_eq!(result.packings.len(), 1);
    assert!(!placements_are_apart_and_inside(&result.packings[0], &container));
}

#[test]
fn flat_stack_stays_inside_the_container() {
    let container = Container::new([4000, 6000, 5000], Some(10));
    let items = vec![
        Item::new([5000, 4000, 2000], Some(1)),
        Item::new([6000, 5000, 1000], Some(2)),
        Item::new([3000, 3000, 1000], None),
    ];
    assert!(fits_greedy_box(&container, &items));
    let stack = greedy_packing(&items);
    assert!(placements_are_apart_and_inside(&stack, &container));
    assert!(weight_is_the_sum(&stack));
}

#[test]
fn errors_say_why_an_item_was_left_out() {
    let container = Container::new([8000, 6000, 7000], Some(20000));
    let mut items = a_batch_of_items();
    items.push(Item::new([9000, 1000, 1000], Some(1)));
    items.push(Item::new([1000, 1000, 1000], Some(20001)));
    let result = pack(&container, &items);
    for error in &result.errors {
        assert!(items.contains(&error.item));
        match error.kind {
            PackErrorKind::OverWeight => assert!(weight_or_zero(error.item.weight) > 20000),
            PackErrorKind::Unplaceable => {
                assert!(weight_or_zero(error.item.weight) <= 20000);
                assert!(error.item.dimensions.length() > 8000);
            }
        }
    }
}
