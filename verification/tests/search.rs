use stowage::geometry::{Coordinates, Position};
use stowage::models::Container;
use stowage::ranking::{sort_ranked, Ranked};
use stowage::search::{
    does_fit, find_spot_in_container, grid_offset_of, grid_points_of, grid_step_of, make_box,
    next_base_height, orientation_of, scan_heights, GRID_DIVISIONS, MIN_GRID_STEP,
};
use stowage::simulation::{ItemRef, Occupant};

const UNIT: u64 = 1_000_000;

fn cuboid(start: (u64, u64, u64), end: (u64, u64, u64)) -> Position {
    Position {
        start_coordinates: Coordinates {
            width: start.0 * UNIT,
            depth: start.1 * UNIT,
            height: start.2 * UNIT,
        },
        end_coordinates: Coordinates {
            width: end.0 * UNIT,
            depth: end.1 * UNIT,
            height: end.2 * UNIT,
        },
    }
}

fn occupant(number: usize, position: Position) -> Occupant {
    Occupant {
        item: ItemRef::Stored(number),
        position,
        is_preferred_zone: false,
        known: false,
        priority: 0,
        width: 0,
        depth: 0,
        height: 0,
    }
}

fn container(width: u64, depth: u64, height: u64) -> Container {
    Container {
        container_id: "C".to_string(),
        zone: "Z".to_string(),
        width: width * UNIT,
        depth: depth * UNIT,
        height: height * UNIT,
        is_waste_container: None,
        max_weight_capacity: None,
    }
}

fn dims(width: u64, depth: u64, height: u64) -> (u64, u64, u64) {
    (width * UNIT, depth * UNIT, height * UNIT)
}

#[test]
fn the_six_orientations_come_in_a_fixed_order() {
    let d = (1, 2, 3);
    assert_eq!(orientation_of(d, 0), (1, 2, 3));
    assert_eq!(orientation_of(d, 1), (1, 3, 2));
    assert_eq!(orientation_of(d, 2), (2, 1, 3));
    assert_eq!(orientation_of(d, 3), (2, 3, 1));
    assert_eq!(orientation_of(d, 4), (3, 1, 2));
    assert_eq!(orientation_of(d, 5), (3, 2, 1));
}

#[test]
fn an_orientation_fits_up_to_the_tolerance() {
    let c = container(10, 10, 10);
    assert!(does_fit(dims(10, 10, 10), &c));
    assert!(does_fit((10 * UNIT + 1, 10 * UNIT + 1, 10 * UNIT + 1), &c));
    assert!(!does_fit((10 * UNIT + 2, 10 * UNIT, 10 * UNIT), &c));
    assert!(!does_fit((UNIT, 11 * UNIT, UNIT), &c));
    assert!(!does_fit((UNIT, UNIT, 11 * UNIT), &c));
}

#[test]
fn the_grid_step_is_a_tenth_of_the_extent_but_no_less_than_the_minimum() {
    assert_eq!(GRID_DIVISIONS, 10);
    assert_eq!(MIN_GRID_STEP, 10_000);
    assert_eq!(grid_step_of(10 * UNIT), UNIT);
    assert_eq!(grid_step_of(100_010), 10_001);
    assert_eq!(grid_step_of(100_000), 10_000);
    assert_eq!(grid_step_of(50_000), 10_000);
    assert_eq!(grid_step_of(0), 10_000);
}

#[test]
fn the_grid_has_two_points_more_than_steps_fit() {
    assert_eq!(grid_points_of(10 * UNIT), 12);
    assert_eq!(grid_points_of(50_000), 7);
    assert_eq!(grid_points_of(9_999), 2);
    assert_eq!(grid_points_of(0), 2);
    assert_eq!(grid_points_of(1_000_000_000_000), 12);
}

#[test]
fn a_grid_offset_is_so_many_steps_but_no_further_than_the_box_can_go() {
    assert_eq!(grid_offset_of(10 * UNIT, 5 * UNIT, 0), 0);
    assert_eq!(grid_offset_of(10 * UNIT, 5 * UNIT, 3), 3 * UNIT);
    assert_eq!(grid_offset_of(10 * UNIT, 5 * UNIT, 5), 5 * UNIT);
    assert_eq!(grid_offset_of(10 * UNIT, 5 * UNIT, 11), 5 * UNIT);
    assert_eq!(grid_offset_of(10 * UNIT, 10 * UNIT, 7), 0);
    assert_eq!(grid_offset_of(10, 11, 3), 0);
    assert_eq!(grid_offset_of(50_000, 25_000, 2), 20_000);
    assert_eq!(grid_offset_of(50_000, 25_000, 3), 25_000);
}

#[test]
fn a_box_is_made_from_its_corner_and_its_extents() {
    assert_eq!(
        make_box((1, 2, 3), 10, 20, 30),
        Position {
            start_coordinates: Coordinates { width: 10, depth: 20, height: 30 },
            end_coordinates: Coordinates { width: 11, depth: 22, height: 33 },
        }
    );
}

#[test]
fn the_next_base_height_is_the_lowest_top_above() {
    let occupants = vec![
        occupant(0, cuboid((0, 0, 0), (1, 1, 5))),
        occupant(1, cuboid((2, 0, 0), (3, 1, 3))),
        occupant(2, cuboid((4, 0, 0), (5, 1, 5))),
        occupant(3, cuboid((6, 0, 0), (7, 1, 8))),
    ];
    assert_eq!(next_base_height(&occupants, 0), Some(3 * UNIT));
    assert_eq!(next_base_height(&occupants, 3 * UNIT), Some(5 * UNIT));
    assert_eq!(next_base_height(&occupants, 5 * UNIT), Some(8 * UNIT));
    assert_eq!(next_base_height(&occupants, 8 * UNIT), None);
    assert_eq!(next_base_height(&vec![], 0), None);
}

#[test]
fn an_item_of_high_priority_is_put_near_the_opening() {
    let found = find_spot_in_container(dims(5, 5, 5), &container(10, 10, 10), &vec![], true);
    assert_eq!(found, Some((cuboid((0, 0, 0), (5, 5, 5)), dims(5, 5, 5))));
}

#[test]
fn an_item_of_low_priority_is_put_at_the_back() {
    let found = find_spot_in_container(dims(5, 5, 5), &container(10, 10, 10), &vec![], false);
    assert_eq!(found, Some((cuboid((0, 5, 0), (5, 10, 5)), dims(5, 5, 5))));
}

#[test]
fn the_first_free_offset_of_the_grid_is_taken() {
    let occupants = vec![occupant(0, cuboid((0, 0, 0), (3, 10, 10)))];
    let found = find_spot_in_container(dims(2, 2, 2), &container(10, 10, 10), &occupants, true);
    assert_eq!(found, Some((cuboid((3, 0, 0), (5, 2, 2)), dims(2, 2, 2))));
    let at_back = find_spot_in_container(dims(2, 2, 2), &container(10, 10, 10), &occupants, false);
    assert_eq!(at_back, Some((cuboid((3, 8, 0), (5, 10, 2)), dims(2, 2, 2))));
}

#[test]
fn an_item_is_turned_where_it_does_not_fit_as_it_stands() {
    let found = find_spot_in_container(dims(2, 8, 3), &container(10, 4, 10), &vec![], true);
    assert_eq!(found, Some((cuboid((0, 0, 0), (2, 3, 8)), dims(2, 3, 8))));
}

#[test]
fn an_item_is_stacked_where_the_floor_is_taken() {
    let occupants = vec![occupant(0, cuboid((0, 0, 0), (10, 10, 5)))];
    let found = find_spot_in_container(dims(5, 5, 5), &container(10, 10, 10), &occupants, true);
    assert_eq!(found, Some((cuboid((0, 0, 5), (5, 5, 10)), dims(5, 5, 5))));
}

#[test]
fn an_item_is_not_left_floating() {
    // The floor is taken but for a strip of width 2 at the right; the
    // occupant's top is at 5. A box of width 4 fits on the top only.
    let occupants = vec![occupant(0, cuboid((0, 0, 0), (8, 10, 5)))];
    let found = find_spot_in_container(dims(4, 4, 4), &container(10, 10, 10), &occupants, true);
    assert_eq!(found, Some((cuboid((0, 0, 5), (4, 4, 9)), dims(4, 4, 4))));
}

#[test]
fn no_place_is_found_in_a_full_container() {
    let occupants = vec![occupant(0, cuboid((0, 0, 0), (10, 10, 10)))];
    assert_eq!(
        find_spot_in_container(dims(1, 1, 1), &container(10, 10, 10), &occupants, true),
        None
    );
    assert_eq!(
        find_spot_in_container(dims(11, 11, 11), &container(10, 10, 10), &vec![], false),
        None
    );
}

#[test]
fn the_search_for_one_orientation_does_not_turn_the_box() {
    let c = container(10, 4, 10);
    assert_eq!(
        scan_heights(dims(2, 3, 8), &c, &vec![], true),
        Some(cuboid((0, 0, 0), (2, 3, 8)))
    );
    let occupants = vec![occupant(0, cuboid((0, 0, 0), (10, 4, 3)))];
    assert_eq!(scan_heights(dims(2, 3, 8), &c, &occupants, true), None);
    assert_eq!(
        scan_heights(dims(2, 3, 7), &c, &occupants, true),
        Some(cuboid((0, 0, 3), (2, 3, 10)))
    );
}

fn entry(rank: i128, index: usize) -> Ranked {
    Ranked { rank, container: 0, index }
}

fn indices(entries: &[Ranked]) -> Vec<usize> {
    entries.iter().map(|e| e.index).collect()
}

#[test]
fn entries_are_ranked_and_equals_keep_their_order() {
    let given = vec![entry(3, 0), entry(1, 1), entry(2, 2), entry(1, 3), entry(3, 4)];
    assert_eq!(indices(&sort_ranked(&given, false)), vec![1, 3, 2, 0, 4]);
    assert_eq!(indices(&sort_ranked(&given, true)), vec![0, 4, 2, 1, 3]);
    assert!(sort_ranked(&vec![], true).is_empty());
}
