use stowage::displacement::{attempt_displacement, collect_candidates, without};
use stowage::geometry::{Coordinates, Position};
use stowage::homing::{are_well_formed, find_home, is_zone_known};
use stowage::models::{Container, Item};
use stowage::orchestrator::{
    make_newcomer, place_anywhere, place_in_preferred_zones, priority_order_of, run_batch,
    run_cascade,
};
use stowage::simulation::{Displacement, ItemRef, Occupant, Relocation, Simulation};

const UNIT: u64 = 1_000_000;

fn cuboid(start: (u64, u64, u64), end: (u64, u64, u64)) -> Position {
    Position {
        start_coordinates: Coordinates {
            width: start.0 * UNIT,
            depth: start.1 * UNIT,
            height: start.2 * UNIT,
        },
        end_coordinates: Coordinates {
            width: end.0 * UNIT,
            depth: end.1 * UNIT,
            height: end.2 * UNIT,
        },
    }
}

fn occupant(number: usize, position: Position, priority: Option<i32>) -> Occupant {
    let width = position.end_coordinates.width - position.start_coordinates.width;
    let depth = position.end_coordinates.depth - position.start_coordinates.depth;
    let height = position.end_coordinates.height - position.start_coordinates.height;
    Occupant {
        item: ItemRef::Stored(number),
        position,
        is_preferred_zone: true,
        known: priority.is_some(),
        priority: priority.unwrap_or(0),
        width: if priority.is_some() { width } else { 0 },
        depth: if priority.is_some() { depth } else { 0 },
        height: if priority.is_some() { height } else { 0 },
    }
}

fn container(id: &str, zone: &str, dims: (u64, u64, u64)) -> Container {
    Container {
        container_id: id.to_string(),
        zone: zone.to_string(),
        width: dims.0 * UNIT,
        depth: dims.1 * UNIT,
        height: dims.2 * UNIT,
        is_waste_container: None,
        max_weight_capacity: None,
    }
}

fn item(id: &str, dims: (u64, u64, u64), priority: i32, zone: &str) -> Item {
    Item {
        item_id: id.to_string(),
        name: id.to_string(),
        width: dims.0 * UNIT,
        depth: dims.1 * UNIT,
        height: dims.2 * UNIT,
        mass: None,
        priority,
        expiry_date: None,
        usage_limit: 1,
        current_uses: 0,
        preferred_zone: zone.to_string(),
        status: None,
    }
}

fn state(occupancy: Vec<Vec<Occupant>>) -> Simulation {
    Simulation { occupancy, transcript: vec![] }
}

fn boxes(sim: &Simulation, c: usize) -> Vec<(ItemRef, Position)> {
    sim.occupancy[c].iter().map(|o| (o.item, o.position)).collect()
}

#[test]
fn a_new_state_has_empty_containers() {
    let sim = Simulation::new(3);
    assert_eq!(sim.occupancy.len(), 3);
    assert!(sim.occupancy.iter().all(|c| c.is_empty()));
    assert!(sim.transcript.is_empty());
}

#[test]
fn placing_appends_to_the_container() {
    let mut sim = Simulation::new(2);
    let a = occupant(0, cuboid((0, 0, 0), (1, 1, 1)), Some(5));
    let b = occupant(1, cuboid((1, 0, 0), (2, 1, 1)), None);
    sim.place(1, a);
    sim.place(1, b);
    assert!(sim.occupancy[0].is_empty());
    assert_eq!(
        boxes(&sim, 1),
        vec![
            (ItemRef::Stored(0), cuboid((0, 0, 0), (1, 1, 1))),
            (ItemRef::Stored(1), cuboid((1, 0, 0), (2, 1, 1)))
        ]
    );
    assert!(sim.transcript.is_empty());
}

#[test]
fn relocating_moves_the_occupant_and_writes_the_move_down() {
    let a = occupant(0, cuboid((0, 0, 0), (1, 1, 1)), Some(5));
    let b = occupant(1, cuboid((1, 0, 0), (2, 1, 1)), Some(6));
    let c = occupant(2, cuboid((2, 0, 0), (3, 1, 1)), Some(7));
    let mut sim = state(vec![vec![a, b, c], vec![]]);
    let copy = sim.snapshot();
    sim.relocate(&Relocation {
        source: 0,
        index: 1,
        destination: 1,
        position: cuboid((5, 5, 0), (6, 6, 1)),
    });
    assert_eq!(
        boxes(&sim, 0),
        vec![
            (ItemRef::Stored(0), cuboid((0, 0, 0), (1, 1, 1))),
            (ItemRef::Stored(2), cuboid((2, 0, 0), (3, 1, 1)))
        ]
    );
    assert_eq!(boxes(&sim, 1), vec![(ItemRef::Stored(1), cuboid((5, 5, 0), (6, 6, 1)))]);
    assert!(!sim.occupancy[1][0].is_preferred_zone);
    assert_eq!(sim.occupancy[1][0].priority, 6);
    assert_eq!(sim.transcript.len(), 1);
    let m = sim.transcript[0];
    assert_eq!(m.item, ItemRef::Stored(1));
    assert_eq!(m.from_container, 0);
    assert_eq!(m.from_position, cuboid((1, 0, 0), (2, 1, 1)));
    assert_eq!(m.to_container, 1);
    assert_eq!(m.to_position, cuboid((5, 5, 0), (6, 6, 1)));
    // the copy was taken before
    assert_eq!(boxes(&copy, 0).len(), 3);
    assert!(copy.occupancy[1].is_empty());
    assert!(copy.transcript.is_empty());
}

#[test]
fn carrying_out_a_plan_puts_the_newcomer_where_the_evictee_was() {
    let a = occupant(0, cuboid((0, 0, 0), (10, 5, 10)), Some(20));
    let b = occupant(1, cuboid((0, 5, 0), (10, 10, 10)), Some(10));
    let mut sim = state(vec![vec![a, b], vec![]]);
    let target = item("T", (10, 5, 10), 50, "Z");
    let newcomer = make_newcomer(7, &target, cuboid((0, 5, 0), (10, 10, 10)), true);
    sim.carry_out(
        &Displacement {
            source: 0,
            index: 1,
            target_position: cuboid((0, 5, 0), (10, 10, 10)),
            destination: 1,
            evictee_position: cuboid((0, 0, 0), (10, 5, 10)),
        },
        newcomer,
    );
    assert_eq!(
        boxes(&sim, 0),
        vec![
            (ItemRef::Stored(0), cuboid((0, 0, 0), (10, 5, 10))),
            (ItemRef::Requested(7), cuboid((0, 5, 0), (10, 10, 10)))
        ]
    );
    assert_eq!(boxes(&sim, 1), vec![(ItemRef::Stored(1), cuboid((0, 0, 0), (10, 5, 10)))]);
    assert_eq!(sim.transcript.len(), 1);
    assert_eq!(sim.transcript[0].item, ItemRef::Stored(1));
    assert_eq!(sim.occupancy[0][1].priority, 50);
    assert!(sim.occupancy[0][1].known);
}

#[test]
fn the_occupants_but_one() {
    let a = occupant(0, cuboid((0, 0, 0), (1, 1, 1)), None);
    let b = occupant(1, cuboid((1, 0, 0), (2, 1, 1)), None);
    let c = occupant(2, cuboid((2, 0, 0), (3, 1, 1)), None);
    let all = vec![a, b, c];
    let items = |v: &Vec<Occupant>| v.iter().map(|o| o.item).collect::<Vec<ItemRef>>();
    assert_eq!(items(&without(&all, 0)), vec![ItemRef::Stored(1), ItemRef::Stored(2)]);
    assert_eq!(items(&without(&all, 1)), vec![ItemRef::Stored(0), ItemRef::Stored(2)]);
    assert_eq!(items(&without(&all, 2)), vec![ItemRef::Stored(0), ItemRef::Stored(1)]);
}

#[test]
fn containers_are_checked_and_zones_are_looked_up() {
    let good = vec![container("C", "X", (10, 10, 10)), container("D", "Z", (1, 1, 1))];
    assert!(are_well_formed(&good));
    assert!(are_well_formed(&vec![]));
    let bad = vec![container("C", "X", (10, 10, 10)), container("D", "Z", (0, 1, 1))];
    assert!(!are_well_formed(&bad));
    assert!(is_zone_known(&good, &"Z".to_string()));
    assert!(!is_zone_known(&good, &"Y".to_string()));
}

#[test]
fn a_home_is_the_first_container_that_may_be_tried_and_has_a_place() {
    let containers = vec![
        container("C", "X", (10, 10, 10)),
        container("D", "Z", (10, 10, 10)),
        container("E", "Z", (10, 10, 10)),
    ];
    let full = occupant(0, cuboid((0, 0, 0), (10, 10, 10)), None);
    let sim = state(vec![vec![full], vec![], vec![]]);
    let dims = (5 * UNIT, 5 * UNIT, 5 * UNIT);
    let zone = "Z".to_string();
    assert_eq!(
        find_home(dims, &containers, &sim, true, Some(&zone), None),
        Some((1, cuboid((0, 0, 0), (5, 5, 5))))
    );
    assert_eq!(
        find_home(dims, &containers, &sim, false, Some(&zone), Some(1)),
        Some((2, cuboid((0, 5, 0), (5, 10, 5))))
    );
    assert_eq!(
        find_home(dims, &containers, &sim, true, None, None),
        Some((1, cuboid((0, 0, 0), (5, 5, 5))))
    );
    let nowhere = "X".to_string();
    assert_eq!(find_home(dims, &containers, &sim, true, Some(&nowhere), None), None);
    let unknown = "Q".to_string();
    assert_eq!(find_home(dims, &containers, &sim, true, Some(&unknown), None), None);
}

#[test]
fn the_occupant_of_lowest_priority_is_displaced() {
    let containers = vec![container("C", "Z", (10, 10, 10)), container("D", "Y", (10, 10, 10))];
    let front = occupant(0, cuboid((0, 0, 0), (10, 5, 10)), Some(20));
    let back = occupant(1, cuboid((0, 5, 0), (10, 10, 10)), Some(10));
    let sim = state(vec![vec![front, back], vec![]]);
    let target = item("T", (10, 5, 10), 50, "Z");
    let plan = attempt_displacement(&target, &containers, &sim).unwrap();
    assert_eq!(plan.source, 0);
    assert_eq!(plan.index, 1);
    assert_eq!(plan.target_position, cuboid((0, 5, 0), (10, 10, 10)));
    assert_eq!(plan.destination, 1);
    assert_eq!(plan.evictee_position, cuboid((0, 5, 0), (10, 10, 10)));
    // the planner does not change the state
    assert_eq!(sim.occupancy[0].len(), 2);
    assert!(sim.occupancy[1].is_empty());
    assert!(sim.transcript.is_empty());
}

#[test]
fn an_occupant_of_unknown_priority_is_not_displaced() {
    let containers = vec![container("C", "Z", (10, 10, 10)), container("D", "Y", (10, 10, 10))];
    let front = occupant(0, cuboid((0, 0, 0), (10, 5, 10)), Some(20));
    let back = occupant(1, cuboid((0, 5, 0), (10, 10, 10)), None);
    let sim = state(vec![vec![front, back], vec![]]);
    let target = item("T", (10, 5, 10), 50, "Z");
    let plan = attempt_displacement(&target, &containers, &sim).unwrap();
    assert_eq!(plan.source, 0);
    assert_eq!(plan.index, 0);
    assert_eq!(plan.target_position, cuboid((0, 0, 0), (10, 5, 10)));
    assert_eq!(plan.destination, 1);
    assert_eq!(plan.evictee_position, cuboid((0, 5, 0), (10, 10, 10)));
}

#[test]
fn an_occupant_of_the_same_or_a_higher_priority_is_not_displaced() {
    let containers = vec![container("C", "Z", (10, 10, 10)), container("D", "Y", (10, 10, 10))];
    let front = occupant(0, cuboid((0, 0, 0), (10, 5, 10)), Some(50));
    let back = occupant(1, cuboid((0, 5, 0), (10, 10, 10)), Some(90));
    let sim = state(vec![vec![front, back], vec![]]);
    let target = item("T", (10, 5, 10), 50, "Z");
    assert!(attempt_displacement(&target, &containers, &sim).is_none());
}

#[test]
fn an_occupant_of_negative_priority_can_be_displaced() {
    let containers = vec![container("C", "Z", (10, 10, 10)), container("D", "Y", (10, 10, 10))];
    let whole = occupant(0, cuboid((0, 0, 0), (10, 10, 10)), Some(-5));
    let sim = state(vec![vec![whole], vec![]]);
    let target = item("T", (10, 10, 10), 0, "Z");
    let plan = attempt_displacement(&target, &containers, &sim).unwrap();
    assert_eq!((plan.source, plan.index, plan.destination), (0, 0, 1));
}

#[test]
fn nothing_is_displaced_without_another_container_for_the_evictee() {
    let containers = vec![container("C", "Z", (10, 10, 10))];
    let front = occupant(0, cuboid((0, 0, 0), (10, 5, 10)), Some(20));
    let back = occupant(1, cuboid((0, 5, 0), (10, 10, 10)), Some(10));
    let sim = state(vec![vec![front, back]]);
    let target = item("T", (10, 5, 10), 50, "Z");
    assert!(attempt_displacement(&target, &containers, &sim).is_none());
    let elsewhere = vec![container("C", "Z", (10, 10, 10)), container("D", "Y", (1, 1, 1))];
    let sim = state(vec![
        vec![
            occupant(0, cuboid((0, 0, 0), (10, 5, 10)), Some(20)),
            occupant(1, cuboid((0, 5, 0), (10, 10, 10)), Some(10)),
        ],
        vec![],
    ]);
    assert!(attempt_displacement(&target, &elsewhere, &sim).is_none());
}

#[test]
fn occupants_outside_the_zone_are_not_displaced() {
    let containers = vec![container("C", "Y", (10, 10, 10)), container("D", "Z", (2, 2, 2))];
    let whole = occupant(0, cuboid((0, 0, 0), (10, 10, 10)), Some(1));
    let sim = state(vec![vec![whole], vec![]]);
    let target = item("T", (10, 10, 10), 50, "Z");
    assert!(attempt_displacement(&target, &containers, &sim).is_none());
}

#[test]
fn items_are_served_by_priority_and_then_in_the_order_of_the_request() {
    let items = vec![
        item("a", (1, 1, 1), 10, "Z"),
        item("b", (1, 1, 1), 90, "Z"),
        item("c", (1, 1, 1), 50, "Z"),
        item("d", (1, 1, 1), 90, "Z"),
        item("e", (1, 1, 1), -4, "Z"),
    ];
    assert_eq!(priority_order_of(&items), vec![1, 3, 2, 0, 4]);
    assert!(priority_order_of(&vec![]).is_empty());
}

#[test]
fn the_first_phase_places_in_the_zone_only() {
    let items = vec![
        item("a", (10, 10, 10), 10, "Z"),
        item("b", (10, 10, 10), 90, "Z"),
        item("c", (1, 1, 1), 50, "Q"),
    ];
    let containers = vec![container("C", "Z", (10, 10, 10)), container("D", "Y", (10, 10, 10))];
    let mut sim = Simulation::new(2);
    let pending = place_in_preferred_zones(&items, &containers, &mut sim, &vec![1, 2, 0]);
    assert_eq!(pending, vec![2, 0]);
    assert_eq!(boxes(&sim, 0), vec![(ItemRef::Requested(1), cuboid((0, 0, 0), (10, 10, 10)))]);
    assert!(sim.occupancy[0][0].is_preferred_zone);
    assert!(sim.occupancy[1].is_empty());
    assert!(sim.transcript.is_empty());
}

#[test]
fn the_second_phase_leaves_items_without_a_zone_and_displaces_for_the_others() {
    let items = vec![item("a", (10, 10, 10), 90, "Z"), item("c", (1, 1, 1), 50, "Q")];
    let containers = vec![container("C", "Z", (10, 10, 10)), container("D", "Y", (10, 10, 10))];
    let whole = occupant(0, cuboid((0, 0, 0), (10, 10, 10)), Some(5));
    let mut sim = state(vec![vec![whole], vec![]]);
    let left = run_cascade(&items, &containers, &mut sim, &vec![0, 1]);
    assert_eq!(left, vec![1]);
    assert_eq!(boxes(&sim, 0), vec![(ItemRef::Requested(0), cuboid((0, 0, 0), (10, 10, 10)))]);
    assert_eq!(boxes(&sim, 1), vec![(ItemRef::Stored(0), cuboid((0, 0, 0), (10, 10, 10)))]);
    assert_eq!(sim.transcript.len(), 1);
    assert_eq!(sim.transcript[0].item, ItemRef::Stored(0));
    assert_eq!((sim.transcript[0].from_container, sim.transcript[0].to_container), (0, 1));
}

#[test]
fn a_later_pass_places_what_an_earlier_move_made_room_for() {
    // "low" finds its zone full in the first pass; "high" then moves the
    // occupant away and takes a part of the container; the second pass
    // places "low" beside it.
    let items = vec![item("high", (10, 5, 10), 90, "Z"), item("low", (10, 5, 10), 1, "Z")];
    let containers = vec![container("C", "Z", (10, 10, 10)), container("D", "Y", (10, 10, 10))];
    let whole = occupant(0, cuboid((0, 0, 0), (10, 10, 10)), Some(5));
    let mut sim = state(vec![vec![whole], vec![]]);
    let left = run_cascade(&items, &containers, &mut sim, &vec![1, 0]);
    assert!(left.is_empty());
    assert_eq!(
        boxes(&sim, 0),
        vec![
            (ItemRef::Requested(0), cuboid((0, 0, 0), (10, 5, 10))),
            (ItemRef::Requested(1), cuboid((0, 5, 0), (10, 10, 10)))
        ]
    );
    assert_eq!(sim.transcript.len(), 1);
}

#[test]
fn the_third_phase_places_anywhere_and_marks_the_zone() {
    let items = vec![
        item("a", (5, 5, 5), 90, "Y"),
        item("b", (5, 5, 5), 10, "Q"),
        item("c", (11, 11, 11), 10, "Y"),
    ];
    let containers = vec![container("C", "Z", (5, 5, 5)), container("D", "Y", (10, 10, 10))];
    let mut sim = Simulation::new(2);
    let unplaced = place_anywhere(&items, &containers, &mut sim, &vec![0, 1, 2]);
    assert_eq!(unplaced, vec![2]);
    assert_eq!(boxes(&sim, 0), vec![(ItemRef::Requested(0), cuboid((0, 0, 0), (5, 5, 5)))]);
    assert!(!sim.occupancy[0][0].is_preferred_zone);
    assert_eq!(boxes(&sim, 1), vec![(ItemRef::Requested(1), cuboid((0, 5, 0), (5, 10, 5)))]);
    assert!(!sim.occupancy[1][0].is_preferred_zone);
}

#[test]
fn a_batch_runs_the_three_phases_in_order() {
    let items = vec![
        item("free", (2, 2, 2), 10, "Q"),
        item("big", (10, 10, 10), 90, "Z"),
        item("lost", (20, 20, 30), 95, "Z"),
    ];
    let containers = vec![container("C", "Z", (10, 10, 10)), container("D", "Y", (10, 10, 20))];
    let whole = occupant(0, cuboid((0, 0, 0), (10, 10, 10)), Some(5));
    let mut sim = state(vec![vec![whole], vec![]]);
    let unplaced = run_batch(&items, &containers, &mut sim);
    assert_eq!(unplaced, vec![2]);
    assert_eq!(boxes(&sim, 0), vec![(ItemRef::Requested(1), cuboid((0, 0, 0), (10, 10, 10)))]);
    assert_eq!(
        boxes(&sim, 1),
        vec![
            (ItemRef::Stored(0), cuboid((0, 0, 0), (10, 10, 10))),
            (ItemRef::Requested(0), cuboid((0, 8, 10), (2, 10, 12)))
        ]
    );
    assert_eq!(sim.transcript.len(), 1);
}

#[test]
fn candidates_are_the_weaker_occupants_of_the_zone_from_the_weakest_up() {
    let containers = vec![
        container("C", "Z", (10, 10, 10)),
        container("D", "Y", (10, 10, 10)),
        container("E", "Z", (10, 10, 10)),
    ];
    let sim = state(vec![
        vec![
            occupant(0, cuboid((0, 0, 0), (1, 1, 1)), Some(30)),
            occupant(1, cuboid((1, 0, 0), (2, 1, 1)), Some(10)),
            occupant(2, cuboid((2, 0, 0), (3, 1, 1)), None),
            occupant(3, cuboid((3, 0, 0), (4, 1, 1)), Some(50)),
        ],
        vec![occupant(4, cuboid((0, 0, 0), (1, 1, 1)), Some(1))],
        vec![
            occupant(5, cuboid((0, 0, 0), (1, 1, 1)), Some(10)),
            occupant(6, cuboid((1, 0, 0), (2, 1, 1)), Some(-7)),
            occupant(7, cuboid((2, 0, 0), (3, 1, 1)), Some(49)),
        ],
    ]);
    let target = item("T", (1, 1, 1), 50, "Z");
    let found: Vec<(i128, usize, usize)> = collect_candidates(&target, &containers, &sim)
        .iter()
        .map(|e| (e.rank, e.container, e.index))
        .collect();
    assert_eq!(found, vec![(-7, 2, 1), (10, 0, 1), (10, 2, 0), (30, 0, 0), (49, 2, 2)]);
}
