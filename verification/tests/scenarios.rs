use stowage::geometry::{Coordinates, Position};
use stowage::models::{Container, Item, PlacementRequest, PlacementResult};
use stowage::placement::{optimize_placement, PlacementError};

const UNIT: u64 = 1_000_000;

fn cube(start: (u64, u64, u64), end: (u64, u64, u64)) -> Position {
    Position {
        start_coordinates: Coordinates {
            width: start.0 * UNIT,
            depth: start.1 * UNIT,
            height: start.2 * UNIT,
        },
        end_coordinates: Coordinates {
            width: end.0 * UNIT,
            depth: end.1 * UNIT,
            height: end.2 * UNIT,
        },
    }
}

fn item(id: &str, dims: (u64, u64, u64), priority: i32, zone: &str) -> Item {
    Item {
        item_id: id.to_string(),
        name: format!("item {}", id),
        width: dims.0 * UNIT,
        depth: dims.1 * UNIT,
        height: dims.2 * UNIT,
        mass: None,
        priority,
        expiry_date: None,
        usage_limit: 10,
        current_uses: 0,
        preferred_zone: zone.to_string(),
        status: None,
    }
}

fn container(id: &str, zone: &str, dims: (u64, u64, u64)) -> Container {
    Container {
        container_id: id.to_string(),
        zone: zone.to_string(),
        width: dims.0 * UNIT,
        depth: dims.1 * UNIT,
        height: dims.2 * UNIT,
        is_waste_container: None,
        max_weight_capacity: None,
    }
}

fn stored(id: &str, container_id: &str, position: Position) -> PlacementResult {
    PlacementResult {
        item_id: id.to_string(),
        container_id: container_id.to_string(),
        position,
        retrieval_steps: 0,
        is_preferred_zone: false,
    }
}

fn placement_of<'a>(placements: &'a [PlacementResult], id: &str) -> &'a PlacementResult {
    let found: Vec<&PlacementResult> = placements.iter().filter(|p| p.item_id == id).collect();
    assert_eq!(found.len(), 1);
    found[0]
}

#[test]
fn single_item_of_low_priority_goes_to_the_back_of_an_empty_container() {
    let request = PlacementRequest {
        items: vec![item("A", (5, 5, 5), 10, "Z")],
        containers: vec![container("C", "Z", (10, 10, 10))],
    };
    let response = optimize_placement(&request, &vec![], &vec![]).unwrap();
    assert!(response.success);
    assert!(response.error.is_none());
    assert!(response.unplaced.is_empty());
    assert!(response.rearrangements.is_empty());
    assert_eq!(response.placements.len(), 1);
    let a = placement_of(&response.placements, "A");
    assert_eq!(a.container_id, "C");
    assert!(a.is_preferred_zone);
    assert_eq!(a.position, cube((0, 5, 0), (5, 10, 5)));
}

#[test]
fn single_item_of_high_priority_goes_to_the_origin_of_an_empty_container() {
    let request = PlacementRequest {
        items: vec![item("A", (5, 5, 5), 50, "Z")],
        containers: vec![container("C", "Z", (10, 10, 10))],
    };
    let response = optimize_placement(&request, &vec![], &vec![]).unwrap();
    assert!(response.success);
    assert_eq!(response.placements.len(), 1);
    let a = placement_of(&response.placements, "A");
    assert_eq!(a.container_id, "C");
    assert!(a.is_preferred_zone);
    assert_eq!(a.position, cube((0, 0, 0), (5, 5, 5)));
    assert_eq!(a.retrieval_steps, 0);
}

#[test]
fn item_of_higher_priority_displaces_a_stored_item() {
    let request = PlacementRequest {
        items: vec![item("B", (8, 8, 8), 90, "Z")],
        containers: vec![container("C", "Z", (10, 10, 10)), container("D", "Y", (10, 10, 10))],
    };
    let before = vec![stored("A", "C", cube((0, 0, 0), (5, 5, 5)))];
    let known = vec![item("A", (5, 5, 5), 10, "Z")];
    let response = optimize_placement(&request, &before, &known).unwrap();
    assert!(response.success);
    assert_eq!(response.placements.len(), 2);
    let b = placement_of(&response.placements, "B");
    assert_eq!(b.container_id, "C");
    assert!(b.is_preferred_zone);
    assert_eq!(b.position, cube((0, 0, 0), (8, 8, 8)));
    let a = placement_of(&response.placements, "A");
    assert_eq!(a.container_id, "D");
    assert!(!a.is_preferred_zone);
    assert_eq!(a.position, cube((0, 5, 0), (5, 10, 5)));
    assert_eq!(response.rearrangements.len(), 1);
    let step = &response.rearrangements[0];
    assert_eq!(step.step, 1);
    assert_eq!(step.action, "move");
    assert_eq!(step.item_id, "A");
    assert_eq!(step.from_container.as_deref(), Some("C"));
    assert_eq!(step.to_container.as_deref(), Some("D"));
    assert_eq!(step.from_position, Some(cube((0, 0, 0), (5, 5, 5))));
    assert_eq!(step.to_position, Some(cube((0, 5, 0), (5, 10, 5))));
}

#[test]
fn item_without_a_container_in_its_zone_is_placed_elsewhere() {
    let request = PlacementRequest {
        items: vec![item("A", (4, 4, 4), 60, "Nowhere")],
        containers: vec![container("C", "X", (2, 2, 2)), container("D", "Y", (10, 10, 10))],
    };
    let response = optimize_placement(&request, &vec![], &vec![]).unwrap();
    assert!(response.success);
    assert!(response.rearrangements.is_empty());
    let a = placement_of(&response.placements, "A");
    assert_eq!(a.container_id, "D");
    assert!(!a.is_preferred_zone);
    assert_eq!(a.position, cube((0, 0, 0), (4, 4, 4)));
}

#[test]
fn item_that_fits_nowhere_makes_the_batch_incomplete() {
    let request = PlacementRequest {
        items: vec![item("Big", (10, 10, 10), 90, "Z"), item("Small", (2, 2, 2), 60, "Y")],
        containers: vec![container("C", "Z", (10, 10, 10)), container("D", "Y", (3, 3, 3))],
    };
    let before = vec![stored("Full", "C", cube((0, 0, 0), (10, 10, 10)))];
    let known = vec![item("Full", (10, 10, 10), 95, "Z")];
    let response = optimize_placement(&request, &before, &known).unwrap();
    assert!(!response.success);
    assert_eq!(response.unplaced, vec!["Big".to_string()]);
    assert_eq!(
        response.error.as_deref(),
        Some("Placement incomplete. Could not place items: Big")
    );
    assert!(response.rearrangements.is_empty());
    assert_eq!(response.placements.len(), 2);
    let small = placement_of(&response.placements, "Small");
    assert_eq!(small.container_id, "D");
    assert!(small.is_preferred_zone);
    assert_eq!(small.position, cube((0, 0, 0), (2, 2, 2)));
    let full = placement_of(&response.placements, "Full");
    assert_eq!(full.container_id, "C");
    assert_eq!(full.position, cube((0, 0, 0), (10, 10, 10)));
}

#[test]
fn item_that_is_stored_already_turns_the_batch_down() {
    let request = PlacementRequest {
        items: vec![item("B", (1, 1, 1), 10, "Z"), item("A", (5, 5, 5), 10, "Z")],
        containers: vec![container("C", "Z", (10, 10, 10))],
    };
    let before = vec![stored("A", "C", cube((0, 0, 0), (5, 5, 5)))];
    match optimize_placement(&request, &before, &vec![]) {
        Err(PlacementError::AlreadyPlaced(id)) => assert_eq!(id, "A"),
        other => panic!("the batch was not turned down for A: {:?}", other.map(|r| r.success)),
    }
}

#[test]
fn batch_without_items_changes_nothing() {
    let request = PlacementRequest {
        items: vec![],
        containers: vec![container("C", "Z", (10, 10, 10)), container("D", "Y", (10, 10, 10))],
    };
    let before = vec![
        stored("A", "C", cube((0, 0, 0), (5, 5, 5))),
        stored("B", "D", cube((0, 0, 0), (3, 3, 3))),
        stored("E", "C", cube((5, 0, 0), (10, 5, 5))),
    ];
    let response = optimize_placement(&request, &before, &vec![]).unwrap();
    assert!(response.success);
    assert!(response.rearrangements.is_empty());
    assert_eq!(response.placements.len(), 3);
    for record in &before {
        let now = placement_of(&response.placements, &record.item_id);
        assert_eq!(now.container_id, record.container_id);
        assert_eq!(now.position, record.position);
    }
}

#[test]
fn item_that_is_stored_in_a_container_outside_the_request_turns_the_batch_down() {
    let request = PlacementRequest {
        items: vec![item("B", (1, 1, 1), 10, "Z"), item("A", (5, 5, 5), 10, "Z")],
        containers: vec![container("C", "Z", (10, 10, 10))],
    };
    let before = vec![
        stored("Other", "C", cube((0, 0, 0), (5, 5, 5))),
        stored("A", "Elsewhere", cube((0, 0, 0), (5, 5, 5))),
        stored("B", "C", cube((5, 0, 0), (6, 1, 1))),
    ];
    match optimize_placement(&request, &before, &vec![]) {
        Err(PlacementError::AlreadyPlaced(id)) => assert_eq!(id, "A"),
        other => panic!("the batch was not turned down for A: {:?}", other.map(|r| r.success)),
    }
}

#[test]
fn stored_placement_outside_the_request_is_left_aside() {
    let request = PlacementRequest {
        items: vec![item("A", (5, 5, 5), 60, "Z")],
        containers: vec![container("C", "Z", (10, 10, 10))],
    };
    let before = vec![stored("Far", "Elsewhere", cube((0, 0, 0), (10, 10, 10)))];
    let response = optimize_placement(&request, &before, &vec![]).unwrap();
    assert!(response.success);
    assert_eq!(response.placements.len(), 1);
    assert_eq!(placement_of(&response.placements, "A").position, cube((0, 0, 0), (5, 5, 5)));
}

#[test]
fn request_with_a_repeated_item_is_turned_down() {
    let request = PlacementRequest {
        items: vec![
            item("A", (1, 1, 1), 10, "Z"),
            item("B", (1, 1, 1), 10, "Z"),
            item("C", (1, 1, 1), 10, "Z"),
            item("B", (2, 2, 2), 90, "Z"),
            item("A", (2, 2, 2), 90, "Z"),
        ],
        containers: vec![container("C", "Z", (10, 10, 10))],
    };
    match optimize_placement(&request, &vec![], &vec![]) {
        Err(PlacementError::RepeatedItem(id)) => assert_eq!(id, "B"),
        other => panic!("the batch was not turned down for B: {:?}", other.map(|r| r.success)),
    }
}

#[test]
fn request_with_a_repeated_container_is_turned_down() {
    let request = PlacementRequest {
        items: vec![item("A", (1, 1, 1), 10, "Z"), item("A", (1, 1, 1), 10, "Z")],
        containers: vec![
            container("C", "Z", (10, 10, 10)),
            container("D", "Z", (10, 10, 10)),
            container("C", "Y", (5, 5, 5)),
        ],
    };
    let before = vec![stored("A", "C", cube((0, 0, 0), (5, 5, 5)))];
    match optimize_placement(&request, &before, &vec![]) {
        Err(PlacementError::RepeatedContainer(id)) => assert_eq!(id, "C"),
        other => panic!("the batch was not turned down for C: {:?}", other.map(|r| r.success)),
    }
}
