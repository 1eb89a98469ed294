use stowage::feasibility::{is_borne_by, is_inside};
use stowage::geometry::{Position, EPSILON};
use stowage::models::{Container, Item, PlacementRequest, PlacementResponse, PlacementResult};
use stowage::placement::optimize_placement;
use stowage::placement_service::PlacementService;

const UNIT: u64 = 1_000_000;

struct Dice(u64);

impl Dice {
    fn roll(&mut self, sides: u64) -> u64 {
        self.0 = self.0.wrapping_mul(6364136223846793005).wrapping_add(1442695040888963407);
        (self.0 >> 33) % sides
    }
}

fn containers() -> Vec<Container> {
    let make = |id: &str, zone: &str, w: u64, d: u64, h: u64| Container {
        container_id: id.to_string(),
        zone: zone.to_string(),
        width: w * UNIT,
        depth: d * UNIT,
        height: h * UNIT,
        is_waste_container: None,
        max_weight_capacity: None,
    };
    vec![
        make("c0", "A", 10, 10, 10),
        make("c1", "A", 8, 12, 6),
        make("c2", "B", 10, 10, 10),
        make("c3", "C", 6, 6, 6),
    ]
}

fn items(dice: &mut Dice, batch: usize, count: usize) -> Vec<Item> {
    let zones = ["A", "B", "C", "nowhere"];
    (0..count)
        .map(|k| Item {
            item_id: format!("i{}-{}", batch, k),
            name: format!("item {}", k),
            width: (1 + dice.roll(6)) * UNIT,
            depth: (1 + dice.roll(6)) * UNIT,
            height: (1 + dice.roll(6)) * UNIT,
            mass: None,
            priority: dice.roll(100) as i32,
            expiry_date: None,
            usage_limit: 5,
            current_uses: 0,
            preferred_zone: zones[dice.roll(4) as usize].to_string(),
            status: None,
        })
        .collect()
}

fn container_of<'a>(all: &'a [Container], id: &str) -> &'a Container {
    all.iter().find(|c| c.container_id == id).unwrap()
}

fn check_no_overlap(placements: &[PlacementResult]) {
    for (i, a) in placements.iter().enumerate() {
        for b in &placements[i + 1..] {
            if a.container_id == b.container_id {
                assert!(!a.position.overlaps(&b.position), "{:?} overlaps {:?}", a, b);
            }
        }
    }
}

fn check_bounds(placements: &[PlacementResult], all: &[Container]) {
    for p in placements {
        assert!(is_inside(&p.position, container_of(all, &p.container_id)), "{:?}", p);
    }
}

fn check_support(response: &PlacementResponse) {
    for (i, p) in response.placements.iter().enumerate() {
        if p.position.start_coordinates.height <= EPSILON {
            continue;
        }
        let rests = response.placements.iter().enumerate().any(|(j, q)| {
            j != i && q.container_id == p.container_id && is_borne_by(&p.position, &q.position)
        });
        let undermined = response.rearrangements.iter().any(|step| {
            step.from_container.as_deref() == Some(p.container_id.as_str())
                && is_borne_by(&p.position, &step.from_position.unwrap())
        });
        assert!(rests || undermined, "{:?} floats", p);
    }
}

fn check_unique(placements: &[PlacementResult]) {
    for (i, a) in placements.iter().enumerate() {
        for b in &placements[i + 1..] {
            assert!(a.item_id != b.item_id, "{} is placed twice", a.item_id);
        }
    }
}

fn check_terminal(request: &[Item], response: &PlacementResponse) {
    for item in request {
        let placed = response.placements.iter().filter(|p| p.item_id == item.item_id).count();
        let unplaced = response.unplaced.iter().filter(|id| **id == item.item_id).count();
        assert_eq!(placed + unplaced, 1, "{}", item.item_id);
    }
    assert_eq!(response.success, response.unplaced.is_empty());
    assert_eq!(response.error.is_some(), !response.success);
}

fn check_steps(response: &PlacementResponse) {
    for (k, step) in response.rearrangements.iter().enumerate() {
        assert_eq!(step.step, k + 1);
        assert_eq!(step.action, "move");
        assert!(step.from_container != step.to_container);
    }
}

fn replay(before: &[PlacementResult], response: &PlacementResponse) -> Vec<(String, String, Position)> {
    let mut records: Vec<(String, String, Position)> = before
        .iter()
        .map(|p| (p.item_id.clone(), p.container_id.clone(), p.position))
        .collect();
    for step in &response.rearrangements {
        let from = (
            step.item_id.clone(),
            step.from_container.clone().unwrap(),
            step.from_position.unwrap(),
        );
        if let Some(at) = records.iter().position(|r| *r == from) {
            records[at] = (
                step.item_id.clone(),
                step.to_container.clone().unwrap(),
                step.to_position.unwrap(),
            );
        }
    }
    records
}

fn check_replay(before: &[PlacementResult], response: &PlacementResponse) {
    let mut replayed = replay(before, response);
    let mut now: Vec<(String, String, Position)> = response
        .placements
        .iter()
        .filter(|p| before.iter().any(|b| b.item_id == p.item_id))
        .map(|p| (p.item_id.clone(), p.container_id.clone(), p.position))
        .collect();
    let key = |r: &(String, String, Position)| r.0.clone();
    replayed.sort_by_key(key);
    now.sort_by_key(key);
    assert_eq!(replayed, now);
}

fn check_all(before: &[PlacementResult], request: &[Item], response: &PlacementResponse) {
    let all = containers();
    check_no_overlap(&response.placements);
    check_bounds(&response.placements, &all);
    check_support(response);
    check_unique(&response.placements);
    check_terminal(request, response);
    check_steps(response);
    check_replay(before, response);
}

#[test]
fn batches_on_top_of_each_other_keep_the_state_settled() {
    for seed in 1..=6u64 {
        let mut dice = Dice(seed);
        let mut stored: Vec<PlacementResult> = vec![];
        let mut known: Vec<Item> = vec![];
        let mut moves = 0;
        for batch in 0..4 {
            let request = PlacementRequest { items: items(&mut dice, batch, 25), containers: containers() };
            let response = optimize_placement(&request, &stored, &known).unwrap();
            check_all(&stored, &request.items, &response);
            moves += response.rearrangements.len();
            assert!(response.placements.len() >= stored.len());
            stored = response.placements.clone();
            known.extend(request.items.iter().cloned());
        }
        assert!(!stored.is_empty());
        let _ = moves;
    }
}

#[test]
fn a_batch_without_items_on_a_settled_state_changes_nothing() {
    let mut dice = Dice(42);
    let first = PlacementRequest { items: items(&mut dice, 0, 30), containers: containers() };
    let settled = optimize_placement(&first, &vec![], &vec![]).unwrap();
    let empty = PlacementRequest { items: vec![], containers: containers() };
    let again = optimize_placement(&empty, &settled.placements, &first.items).unwrap();
    assert!(again.success);
    assert!(again.rearrangements.is_empty());
    assert!(again.unplaced.is_empty());
    assert_eq!(again.placements.len(), settled.placements.len());
    for before in &settled.placements {
        let now: Vec<&PlacementResult> =
            again.placements.iter().filter(|p| p.item_id == before.item_id).collect();
        assert_eq!(now.len(), 1);
        assert_eq!(now[0].container_id, before.container_id);
        assert_eq!(now[0].position, before.position);
        assert_eq!(now[0].is_preferred_zone, before.is_preferred_zone);
    }
}

#[test]
fn a_move_can_take_the_support_from_a_box_and_the_transcript_says_so() {
    // "under" bears "over"; "thin" displaces "under" and is lower than it,
    // so that "over" is left where it was, above a gap.
    let all = vec![
        Container {
            container_id: "C".to_string(),
            zone: "Z".to_string(),
            width: 10 * UNIT,
            depth: 10 * UNIT,
            height: 10 * UNIT,
            is_waste_container: None,
            max_weight_capacity: None,
        },
        Container {
            container_id: "D".to_string(),
            zone: "Y".to_string(),
            width: 10 * UNIT,
            depth: 10 * UNIT,
            height: 10 * UNIT,
            is_waste_container: None,
            max_weight_capacity: None,
        },
    ];
    let slab = |id: &str, height: u64, priority: i32| Item {
        item_id: id.to_string(),
        name: id.to_string(),
        width: 10 * UNIT,
        depth: 10 * UNIT,
        height: height * UNIT,
        mass: None,
        priority,
        expiry_date: None,
        usage_limit: 5,
        current_uses: 0,
        preferred_zone: "Z".to_string(),
        status: None,
    };
    let at = |id: &str, low: u64, high: u64| PlacementResult {
        item_id: id.to_string(),
        container_id: "C".to_string(),
        position: Position {
            start_coordinates: stowage::geometry::Coordinates {
                width: 0,
                depth: 0,
                height: low * UNIT,
            },
            end_coordinates: stowage::geometry::Coordinates {
                width: 10 * UNIT,
                depth: 10 * UNIT,
                height: high * UNIT,
            },
        },
        retrieval_steps: 0,
        is_preferred_zone: true,
    };
    let stored = vec![at("under", 0, 5), at("over", 5, 10)];
    let known = vec![slab("under", 5, 5), slab("over", 5, 10)];
    let request = PlacementRequest { items: vec![slab("thin", 2, 80)], containers: all };
    let response = optimize_placement(&request, &stored, &known).unwrap();
    assert!(response.success);
    assert_eq!(response.rearrangements.len(), 1);
    assert_eq!(response.rearrangements[0].item_id, "under");
    let find = |id: &str| response.placements.iter().find(|p| p.item_id == id).unwrap();
    assert_eq!(find("thin").position, at("thin", 0, 2).position);
    assert_eq!(find("over").position, at("over", 5, 10).position);
    assert_eq!(find("under").container_id, "D");
    // "over" rests on nothing now, and the step that moved "under" shows why
    assert!(!response
        .placements
        .iter()
        .any(|q| q.container_id == "C" && is_borne_by(&find("over").position, &q.position)));
    check_support(&response);
}

#[test]
fn the_service_keeps_the_state_settled() {
    for seed in 1..=6u64 {
        let mut dice = Dice(seed * 77);
        let request = items(&mut dice, 0, 40);
        let response = PlacementService::new().optimize_placement(request.clone(), containers());
        check_all(&[], &request, &response);
    }
}

#[test]
fn a_batch_without_items_gives_the_stored_placements_back() {
    let all = containers();
    let record = |id: &str, container: &str, low: u64, high: u64| PlacementResult {
        item_id: id.to_string(),
        container_id: container.to_string(),
        position: Position {
            start_coordinates: stowage::geometry::Coordinates { width: 0, depth: 0, height: low * UNIT },
            end_coordinates: stowage::geometry::Coordinates {
                width: 2 * UNIT,
                depth: 2 * UNIT,
                height: high * UNIT,
            },
        },
        retrieval_steps: 0,
        is_preferred_zone: true,
    };
    let stored = vec![
        record("a", "c2", 0, 2),
        record("b", "c0", 0, 3),
        record("c", "c2", 2, 4),
        record("d", "c3", 0, 1),
    ];
    let empty = PlacementRequest { items: vec![], containers: all };
    let response = optimize_placement(&empty, &stored, &vec![]).unwrap();
    assert!(response.success);
    assert!(response.rearrangements.is_empty());
    let triple = |p: &PlacementResult| (p.item_id.clone(), p.container_id.clone(), p.position);
    let mut before: Vec<(String, String, Position)> = stored.iter().map(triple).collect();
    let mut after: Vec<(String, String, Position)> = response.placements.iter().map(triple).collect();
    before.sort_by_key(|r| r.0.clone());
    after.sort_by_key(|r| r.0.clone());
    assert_eq!(before, after);
}
