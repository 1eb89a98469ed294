use stowage::geometry::{Coordinates, Position};
use stowage::models::{Container, Item, ItemStatus, PlacementResult, Timestamp};
use stowage::placement_service::{arrange_points, service_order_of, PlacementService};
use stowage::simulation::{ItemRef, Occupant, Simulation};

const UNIT: u64 = 1_000_000;

fn cuboid(start: (u64, u64, u64), end: (u64, u64, u64)) -> Position {
    Position {
        start_coordinates: Coordinates {
            width: start.0 * UNIT,
            depth: start.1 * UNIT,
            height: start.2 * UNIT,
        },
        end_coordinates: Coordinates {
            width: end.0 * UNIT,
            depth: end.1 * UNIT,
            height: end.2 * UNIT,
        },
    }
}

fn at(width: u64, depth: u64, height: u64) -> (u64, u64, u64) {
    (width * UNIT, depth * UNIT, height * UNIT)
}

fn occupant(number: usize, position: Position) -> Occupant {
    ranked_occupant(number, position, 0)
}

fn ranked_occupant(number: usize, position: Position, priority: i32) -> Occupant {
    Occupant {
        item: ItemRef::Requested(number),
        position,
        is_preferred_zone: true,
        known: true,
        priority,
        width: position.end_coordinates.width - position.start_coordinates.width,
        depth: position.end_coordinates.depth - position.start_coordinates.depth,
        height: position.end_coordinates.height - position.start_coordinates.height,
    }
}

fn container(id: &str, zone: &str, dims: (u64, u64, u64)) -> Container {
    Container {
        container_id: id.to_string(),
        zone: zone.to_string(),
        width: dims.0 * UNIT,
        depth: dims.1 * UNIT,
        height: dims.2 * UNIT,
        is_waste_container: None,
        max_weight_capacity: None,
    }
}

fn item(id: &str, dims: (u64, u64, u64), priority: i32, zone: &str) -> Item {
    Item {
        item_id: id.to_string(),
        name: id.to_string(),
        width: dims.0 * UNIT,
        depth: dims.1 * UNIT,
        height: dims.2 * UNIT,
        mass: None,
        priority,
        expiry_date: None,
        usage_limit: 1,
        current_uses: 0,
        preferred_zone: zone.to_string(),
        status: None,
    }
}

fn placement_of<'a>(placements: &'a [PlacementResult], id: &str) -> &'a PlacementResult {
    let found: Vec<&PlacementResult> = placements.iter().filter(|p| p.item_id == id).collect();
    assert_eq!(found.len(), 1);
    found[0]
}

#[test]
fn the_orientations_that_fit_are_listed_in_their_order() {
    let service = PlacementService::new();
    let c = container("C", "Z", (10, 4, 10));
    assert_eq!(
        service.get_possible_orientations(&item("a", (2, 8, 3), 1, "Z"), &c),
        vec![at(2, 3, 8), at(8, 2, 3), at(8, 3, 2), at(3, 2, 8)]
    );
    assert_eq!(
        service.get_possible_orientations(&item("a", (1, 1, 1), 1, "Z"), &c),
        vec![at(1, 1, 1); 6]
    );
    assert!(service.get_possible_orientations(&item("a", (11, 11, 11), 1, "Z"), &c).is_empty());
}

#[test]
fn points_are_arranged_by_depth_then_height_then_width() {
    let points = vec![(1, 5, 0), (9, 0, 3), (2, 0, 3), (7, 0, 0), (1, 5, 0), (0, 2, 9)];
    assert_eq!(
        arrange_points(&points),
        vec![(7, 0, 0), (2, 0, 3), (9, 0, 3), (0, 2, 9), (1, 5, 0), (1, 5, 0)]
    );
}

#[test]
fn the_corners_that_the_occupants_leave_free_are_the_extreme_points() {
    let service = PlacementService::new();
    let c = container("C", "Z", (10, 10, 10));
    assert_eq!(service.calculate_extreme_points(&c, &vec![]), vec![(0, 0, 0)]);
    let one = vec![occupant(0, cuboid((0, 0, 0), (5, 5, 5)))];
    assert_eq!(
        service.calculate_extreme_points(&c, &one),
        vec![at(5, 0, 0), at(0, 0, 5), at(0, 5, 0)]
    );
    // a corner inside another occupant, and one outside the container
    let two = vec![
        occupant(0, cuboid((0, 0, 0), (5, 5, 5))),
        occupant(1, cuboid((5, 0, 0), (12, 5, 5))),
    ];
    assert_eq!(
        service.calculate_extreme_points(&c, &two),
        vec![at(0, 0, 5), at(5, 0, 5), at(0, 5, 0), at(5, 5, 0)]
    );
}

#[test]
fn a_valid_position_overlaps_no_occupant() {
    let service = PlacementService::new();
    let one = vec![occupant(0, cuboid((0, 0, 0), (5, 5, 5)))];
    assert!(service.is_valid_position(&cuboid((5, 0, 0), (10, 5, 5)), &one));
    assert!(service.is_valid_position(&cuboid((5, 5, 7), (10, 10, 9)), &one));
    assert!(!service.is_valid_position(&cuboid((4, 4, 4), (10, 5, 5)), &one));
}

#[test]
fn a_position_is_found_at_the_corner_that_is_easiest_to_get_at() {
    let service = PlacementService::new();
    let c = container("C", "Z", (10, 10, 10));
    assert_eq!(
        service.find_position(5 * UNIT, 5 * UNIT, 5 * UNIT, &c, &vec![]),
        Some((cuboid((0, 0, 0), (5, 5, 5)), 0))
    );
    let one = vec![occupant(0, cuboid((0, 0, 0), (5, 5, 5)))];
    assert_eq!(
        service.find_position(5 * UNIT, 5 * UNIT, 5 * UNIT, &c, &one),
        Some((cuboid((5, 0, 0), (10, 5, 5)), 0))
    );
    // the front row is taken: behind it one occupant stands before the
    // box at the left, and none before a box on top of the front row
    let row = vec![
        occupant(0, cuboid((0, 0, 0), (5, 5, 5))),
        occupant(1, cuboid((5, 0, 0), (10, 5, 5))),
    ];
    assert_eq!(
        service.find_position(5 * UNIT, 5 * UNIT, 5 * UNIT, &c, &row),
        Some((cuboid((0, 0, 5), (5, 5, 10)), 0))
    );
    // a box that is too high for the top of the row goes behind it
    assert_eq!(
        service.find_position(5 * UNIT, 5 * UNIT, 6 * UNIT, &c, &row),
        Some((cuboid((0, 5, 0), (5, 10, 6)), 1))
    );
    let full = vec![occupant(0, cuboid((0, 0, 0), (10, 10, 10)))];
    assert_eq!(service.find_position(UNIT, UNIT, UNIT, &c, &full), None);
    assert_eq!(service.find_position(11 * UNIT, UNIT, UNIT, &c, &vec![]), None);
}

#[test]
fn an_item_is_turned_for_a_container_where_it_must_be() {
    let service = PlacementService::new();
    let c = container("C", "Z", (10, 4, 10));
    let record = service
        .try_container_placement(&item("a", (2, 8, 3), 1, "Z"), &c, &vec![], true)
        .unwrap();
    assert_eq!(record.item_id, "a");
    assert_eq!(record.container_id, "C");
    assert_eq!(record.position, cuboid((0, 0, 0), (2, 3, 8)));
    assert_eq!(record.retrieval_steps, 0);
    assert!(record.is_preferred_zone);
    assert!(service
        .try_container_placement(&item("a", (11, 8, 3), 1, "Z"), &c, &vec![], false)
        .is_none());
}

#[test]
fn the_best_place_is_in_the_zone_if_there_is_one() {
    let service = PlacementService::new();
    let containers = vec![
        container("C", "Y", (10, 10, 10)),
        container("D", "Z", (10, 10, 10)),
        container("E", "Z", (10, 10, 10)),
    ];
    let mut sim = Simulation::new(3);
    let a = item("a", (10, 10, 10), 1, "Z");
    let (c, record) = service.find_optimal_placement(&a, &containers, &sim).unwrap();
    assert_eq!(c, 1);
    assert_eq!(record.container_id, "D");
    assert!(record.is_preferred_zone);
    sim.place(1, occupant(0, cuboid((0, 0, 0), (10, 10, 10))));
    let (c, record) = service.find_optimal_placement(&a, &containers, &sim).unwrap();
    assert_eq!(c, 2);
    assert_eq!(record.container_id, "E");
    sim.place(2, occupant(1, cuboid((0, 0, 0), (10, 10, 10))));
    let (c, record) = service.find_optimal_placement(&a, &containers, &sim).unwrap();
    assert_eq!(c, 0);
    assert_eq!(record.container_id, "C");
    assert!(!record.is_preferred_zone);
    assert_eq!(record.position, cuboid((0, 0, 0), (10, 10, 10)));
    sim.place(0, occupant(2, cuboid((0, 0, 0), (10, 10, 10))));
    assert!(service.find_optimal_placement(&a, &containers, &sim).is_none());
}

#[test]
fn an_alternative_is_searched_in_the_other_containers_without_turning_the_box() {
    let service = PlacementService::new();
    let containers = vec![
        container("C", "Z", (10, 10, 10)),
        container("D", "Z", (3, 10, 10)),
        container("E", "Y", (10, 10, 10)),
    ];
    let sim = Simulation::new(3);
    let current = cuboid((2, 2, 0), (6, 4, 3));
    assert_eq!(
        service.find_alternative_placement(&current, &containers, &sim, 0),
        Some((2, cuboid((0, 0, 0), (4, 2, 3))))
    );
    assert_eq!(
        service.find_alternative_placement(&current, &containers, &sim, 2),
        Some((0, cuboid((0, 0, 0), (4, 2, 3))))
    );
    let small = vec![container("C", "Z", (10, 10, 10)), container("D", "Z", (3, 10, 10))];
    assert_eq!(
        service.find_alternative_placement(&current, &small, &Simulation::new(2), 0),
        None
    );
}

#[test]
fn items_are_served_by_priority_and_then_by_expiry() {
    let mut items = vec![
        item("a", (1, 1, 1), 10, "Z"),
        item("b", (1, 1, 1), 90, "Z"),
        item("c", (1, 1, 1), 90, "Z"),
        item("d", (1, 1, 1), 90, "Z"),
        item("e", (1, 1, 1), 10, "Z"),
    ];
    items[2].expiry_date = Some(Timestamp { seconds: 200, nanos: 0 });
    items[3].expiry_date = Some(Timestamp { seconds: 100, nanos: 0 });
    assert_eq!(service_order_of(&items), vec![3, 2, 1, 0, 4]);
    assert!(service_order_of(&vec![]).is_empty());
}

#[test]
fn the_service_places_the_items_in_the_order_of_their_priority() {
    let service = PlacementService::new();
    let items = vec![item("A", (5, 5, 5), 10, "Z"), item("B", (5, 5, 5), 90, "Z")];
    let containers = vec![container("C", "Z", (10, 10, 10))];
    let response = service.optimize_placement(items, containers);
    assert!(response.success);
    assert!(response.error.is_none());
    assert!(response.unplaced.is_empty());
    assert!(response.rearrangements.is_empty());
    let ids: Vec<&str> = response.placements.iter().map(|p| p.item_id.as_str()).collect();
    assert_eq!(ids, vec!["B", "A"]);
    assert_eq!(placement_of(&response.placements, "B").position, cuboid((0, 0, 0), (5, 5, 5)));
    assert_eq!(placement_of(&response.placements, "A").position, cuboid((5, 0, 0), (10, 5, 5)));
    assert!(response.placements.iter().all(|p| p.is_preferred_zone && p.container_id == "C"));
}

#[test]
fn the_service_passes_over_waste_and_reports_what_finds_no_place() {
    let service = PlacementService::new();
    let mut waste = item("W", (1, 1, 1), 99, "Z");
    waste.status = Some(ItemStatus::WASTE_DEPLETED);
    let items = vec![
        waste,
        item("Huge", (20, 20, 20), 50, "Z"),
        item("Also", (30, 1, 1), 40, "Z"),
        item("Fine", (5, 5, 5), 10, "Y"),
    ];
    let containers = vec![container("C", "Z", (10, 10, 10))];
    let response = service.optimize_placement(items, containers);
    assert!(!response.success);
    assert_eq!(response.unplaced, vec!["Huge".to_string(), "Also".to_string()]);
    assert_eq!(
        response.error.as_deref(),
        Some("Placement incomplete. Could not place items: Huge, Also")
    );
    assert_eq!(response.placements.len(), 1);
    let fine = placement_of(&response.placements, "Fine");
    assert_eq!(fine.container_id, "C");
    assert!(!fine.is_preferred_zone);
    assert_eq!(fine.position, cuboid((0, 0, 0), (5, 5, 5)));
}

#[test]
fn a_box_that_fits_by_the_tolerance_only_is_found_by_the_search_over_the_grid() {
    let service = PlacementService::new();
    let c = container("C", "Z", (10, 10, 10));
    let found = service.find_position(10 * UNIT + 1, 5 * UNIT, 5 * UNIT, &c, &vec![]);
    let expected = Position {
        start_coordinates: Coordinates { width: 0, depth: 0, height: 0 },
        end_coordinates: Coordinates { width: 10 * UNIT + 1, depth: 5 * UNIT, height: 5 * UNIT },
    };
    assert_eq!(found, Some((expected, 0)));
    assert_eq!(service.find_position(10 * UNIT + 2, 5 * UNIT, 5 * UNIT, &c, &vec![]), None);
}

fn boxes(sim: &Simulation, c: usize) -> Vec<(ItemRef, Position)> {
    sim.occupancy[c].iter().map(|o| (o.item, o.position)).collect()
}

#[test]
fn the_service_moves_no_occupant_of_higher_priority() {
    let service = PlacementService::new();
    let items = vec![item("X", (10, 10, 10), 10, "Z"), item("S", (4, 4, 4), 90, "Z")];
    let containers = vec![container("C", "Z", (10, 10, 10)), container("D", "Y", (4, 4, 4))];
    let response = service.optimize_placement(items, containers);
    assert!(!response.success);
    assert_eq!(response.unplaced, vec!["X".to_string()]);
    assert!(response.rearrangements.is_empty());
    assert_eq!(response.placements.len(), 1);
    assert_eq!(placement_of(&response.placements, "S").position, cuboid((0, 0, 0), (4, 4, 4)));
}

#[test]
fn the_service_turns_down_repeated_identifiers() {
    let service = PlacementService::new();
    let items = vec![item("A", (1, 1, 1), 10, "Z"), item("A", (2, 2, 2), 20, "Z")];
    let response = service.optimize_placement(items, vec![container("C", "Z", (10, 10, 10))]);
    assert!(!response.success);
    assert!(response.placements.is_empty());
    assert!(response.rearrangements.is_empty());
    assert!(response.unplaced.is_empty());
    assert_eq!(response.error.as_deref(), Some("An identifier occurs more than once: A"));
    let containers = vec![container("C", "Z", (10, 10, 10)), container("C", "Y", (10, 10, 10))];
    let response = service.optimize_placement(vec![item("A", (1, 1, 1), 10, "Z")], containers);
    assert!(!response.success);
    assert!(response.placements.is_empty());
    assert_eq!(response.error.as_deref(), Some("An identifier occurs more than once: C"));
}

#[test]
fn room_is_made_by_moving_one_occupant_of_lower_priority() {
    let service = PlacementService::new();
    let containers = vec![container("C", "Z", (10, 10, 10)), container("D", "Y", (4, 4, 4))];
    let mut sim = Simulation::new(2);
    sim.place(0, ranked_occupant(0, cuboid((0, 0, 0), (4, 4, 4)), 5));
    let x = item("X", (10, 10, 10), 10, "Z");
    let record = service.try_rearrangement(&x, 1, &containers, &mut sim).unwrap();
    assert_eq!(record.item_id, "X");
    assert_eq!(record.container_id, "C");
    assert_eq!(record.position, cuboid((0, 0, 0), (10, 10, 10)));
    assert!(record.is_preferred_zone);
    assert_eq!(boxes(&sim, 0), vec![(ItemRef::Requested(1), cuboid((0, 0, 0), (10, 10, 10)))]);
    assert_eq!(boxes(&sim, 1), vec![(ItemRef::Requested(0), cuboid((0, 0, 0), (4, 4, 4)))]);
    assert_eq!(sim.transcript.len(), 1);
    assert_eq!(sim.transcript[0].item, ItemRef::Requested(0));
    assert_eq!((sim.transcript[0].from_container, sim.transcript[0].to_container), (0, 1));
}

#[test]
fn no_room_is_made_by_moving_an_occupant_of_the_same_or_a_higher_priority() {
    let service = PlacementService::new();
    let containers = vec![container("C", "Z", (10, 10, 10)), container("D", "Y", (10, 10, 10))];
    for priority in [10, 95] {
        let mut sim = Simulation::new(2);
        sim.place(0, ranked_occupant(0, cuboid((0, 0, 0), (10, 10, 10)), priority));
        let x = item("X", (10, 10, 10), 10, "Z");
        assert!(service.plan_single(&x, &containers, &sim).is_none());
        assert!(service.plan_pair(&x, &containers, &sim).is_none());
        assert!(service.try_rearrangement(&x, 1, &containers, &mut sim).is_none());
        assert!(service.try_complex_rearrangement(&x, 1, &containers, &mut sim).is_none());
        assert_eq!(boxes(&sim, 0), vec![(ItemRef::Requested(0), cuboid((0, 0, 0), (10, 10, 10)))]);
        assert!(sim.occupancy[1].is_empty());
        assert!(sim.transcript.is_empty());
    }
}

#[test]
fn no_room_is_made_by_moving_an_occupant_of_unknown_priority() {
    let service = PlacementService::new();
    let containers = vec![container("C", "Z", (10, 10, 10)), container("D", "Y", (10, 10, 10))];
    let mut sim = Simulation::new(2);
    let mut unknown = ranked_occupant(0, cuboid((0, 0, 0), (10, 10, 10)), 0);
    unknown.known = false;
    sim.place(0, unknown);
    let x = item("X", (10, 10, 10), 10, "Z");
    assert!(service.try_rearrangement(&x, 1, &containers, &mut sim).is_none());
    assert!(sim.transcript.is_empty());
}

#[test]
fn the_weakest_occupant_is_moved_first() {
    let service = PlacementService::new();
    let containers = vec![container("C", "Z", (10, 10, 10)), container("D", "Y", (10, 10, 10))];
    let mut sim = Simulation::new(2);
    sim.place(0, ranked_occupant(0, cuboid((0, 0, 0), (10, 5, 10)), 8));
    sim.place(0, ranked_occupant(1, cuboid((0, 5, 0), (10, 10, 10)), 3));
    let x = item("X", (10, 5, 10), 10, "Z");
    let (plan, record) = service.plan_single(&x, &containers, &sim).unwrap();
    assert_eq!((plan.source, plan.index, plan.destination), (0, 1, 1));
    assert_eq!(plan.target_position, cuboid((0, 5, 0), (10, 10, 10)));
    assert_eq!(plan.evictee_position, cuboid((0, 0, 0), (10, 5, 10)));
    assert_eq!(record.position, cuboid((0, 5, 0), (10, 10, 10)));
    assert_eq!(record.retrieval_steps, 1);
    let made = service.try_rearrangement(&x, 2, &containers, &mut sim).unwrap();
    assert_eq!(made.position, cuboid((0, 5, 0), (10, 10, 10)));
    assert_eq!(
        boxes(&sim, 0),
        vec![
            (ItemRef::Requested(0), cuboid((0, 0, 0), (10, 5, 10))),
            (ItemRef::Requested(2), cuboid((0, 5, 0), (10, 10, 10)))
        ]
    );
    assert_eq!(boxes(&sim, 1), vec![(ItemRef::Requested(1), cuboid((0, 0, 0), (10, 5, 10)))]);
}

#[test]
fn room_is_made_by_moving_two_occupants_of_lower_priority() {
    let service = PlacementService::new();
    let containers = vec![
        container("C", "Z", (10, 10, 10)),
        container("D1", "Y", (4, 4, 4)),
        container("D2", "Y", (4, 4, 4)),
    ];
    let mut sim = Simulation::new(3);
    sim.place(0, ranked_occupant(0, cuboid((0, 0, 0), (4, 4, 4)), 2));
    sim.place(0, ranked_occupant(1, cuboid((4, 0, 0), (8, 4, 4)), 1));
    let x = item("X", (10, 10, 10), 10, "Z");
    assert!(service.plan_single(&x, &containers, &sim).is_none());
    let (plan, _) = service.plan_pair(&x, &containers, &sim).unwrap();
    // the weaker of the two goes first
    assert_eq!((plan.first.source, plan.first.index, plan.first.destination), (0, 1, 1));
    assert_eq!((plan.second.source, plan.second.index, plan.second.destination), (0, 0, 2));
    let record = service.try_rearrangement(&x, 2, &containers, &mut sim).unwrap();
    assert_eq!(record.position, cuboid((0, 0, 0), (10, 10, 10)));
    assert_eq!(boxes(&sim, 0), vec![(ItemRef::Requested(2), cuboid((0, 0, 0), (10, 10, 10)))]);
    assert_eq!(boxes(&sim, 1), vec![(ItemRef::Requested(1), cuboid((0, 0, 0), (4, 4, 4)))]);
    assert_eq!(boxes(&sim, 2), vec![(ItemRef::Requested(0), cuboid((0, 0, 0), (4, 4, 4)))]);
    assert_eq!(sim.transcript.len(), 2);
    assert_eq!(sim.transcript[0].item, ItemRef::Requested(1));
    assert_eq!(sim.transcript[0].from_position, cuboid((4, 0, 0), (8, 4, 4)));
    assert_eq!(sim.transcript[1].item, ItemRef::Requested(0));
    assert_eq!(sim.transcript[1].from_position, cuboid((0, 0, 0), (4, 4, 4)));
}

#[test]
fn the_complex_rearrangement_tries_a_single_move_first() {
    let service = PlacementService::new();
    let containers = vec![
        container("C", "Z", (10, 10, 10)),
        container("D1", "Y", (10, 10, 10)),
        container("D2", "Y", (10, 10, 10)),
    ];
    let mut sim = Simulation::new(3);
    sim.place(0, ranked_occupant(0, cuboid((0, 0, 0), (10, 5, 10)), 2));
    sim.place(0, ranked_occupant(1, cuboid((0, 5, 0), (10, 10, 10)), 1));
    let x = item("X", (10, 5, 10), 10, "Z");
    let record = service.try_complex_rearrangement(&x, 2, &containers, &mut sim).unwrap();
    assert_eq!(record.position, cuboid((0, 5, 0), (10, 10, 10)));
    assert_eq!(sim.transcript.len(), 1);
    assert_eq!(sim.transcript[0].item, ItemRef::Requested(1));
    assert_eq!(sim.occupancy[0].len(), 2);
    assert_eq!(sim.occupancy[1].len(), 1);
    assert!(sim.occupancy[2].is_empty());
}

#[test]
fn making_room_changes_nothing_where_it_fails() {
    let service = PlacementService::new();
    let containers = vec![container("C", "Z", (10, 10, 10)), container("D", "Y", (3, 3, 3))];
    let mut sim = Simulation::new(2);
    sim.place(0, ranked_occupant(0, cuboid((0, 0, 0), (4, 4, 4)), 1));
    let x = item("X", (10, 10, 10), 10, "Z");
    assert!(service.plan_single(&x, &containers, &sim).is_none());
    assert!(service.plan_pair(&x, &containers, &sim).is_none());
    assert!(service.try_rearrangement(&x, 1, &containers, &mut sim).is_none());
    assert!(service.try_complex_rearrangement(&x, 1, &containers, &mut sim).is_none());
    assert_eq!(sim.occupancy[0].len(), 1);
    assert_eq!(sim.occupancy[0][0].position, cuboid((0, 0, 0), (4, 4, 4)));
    assert!(sim.occupancy[1].is_empty());
    assert!(sim.transcript.is_empty());
}
