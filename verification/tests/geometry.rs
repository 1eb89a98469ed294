use stowage::geometry::{
    boxes_overlap, is_within_epsilon, spans_cross, Coordinates, Position, COORDINATE_LIMIT,
    EPSILON, UNITS_PER_LENGTH,
};
use stowage::models::Container;

fn point(width: u64, depth: u64, height: u64) -> Coordinates {
    Coordinates { width, depth, height }
}

fn cuboid(start: (u64, u64, u64), end: (u64, u64, u64)) -> Position {
    Position {
        start_coordinates: point(start.0, start.1, start.2),
        end_coordinates: point(end.0, end.1, end.2),
    }
}

#[test]
fn the_tolerance_is_a_millionth_of_a_length() {
    assert_eq!(EPSILON, 1);
    assert_eq!(UNITS_PER_LENGTH, 1_000_000);
}

#[test]
fn boxes_that_share_space_overlap() {
    let a = cuboid((0, 0, 0), (50, 50, 50));
    let b = cuboid((40, 40, 40), (90, 90, 90));
    assert!(a.overlaps(&b));
    assert!(b.overlaps(&a));
}

#[test]
fn boxes_that_touch_do_not_overlap() {
    let a = cuboid((0, 0, 0), (50, 50, 50));
    let beside = cuboid((50, 0, 0), (100, 50, 50));
    let behind = cuboid((0, 50, 0), (50, 100, 50));
    let above = cuboid((0, 0, 50), (50, 50, 100));
    for other in [beside, behind, above] {
        assert!(!a.overlaps(&other));
        assert!(!other.overlaps(&a));
    }
}

#[test]
fn boxes_apart_on_one_axis_do_not_overlap() {
    let a = cuboid((0, 0, 0), (50, 50, 50));
    let b = cuboid((10, 10, 70), (40, 40, 90));
    assert!(!a.overlaps(&b));
    assert!(!b.overlaps(&a));
}

#[test]
fn reaching_into_each_other_by_the_tolerance_is_touching() {
    let a = cuboid((0, 0, 0), (50, 50, 50));
    let by_one = cuboid((49, 0, 0), (100, 50, 50));
    let by_two = cuboid((48, 0, 0), (100, 50, 50));
    assert!(!a.overlaps(&by_one));
    assert!(!by_one.overlaps(&a));
    assert!(a.overlaps(&by_two));
    assert!(by_two.overlaps(&a));
}

#[test]
fn overlapping_is_the_same_from_both_sides() {
    let boxes = [
        cuboid((0, 0, 0), (10, 10, 10)),
        cuboid((5, 5, 5), (15, 15, 15)),
        cuboid((10, 0, 0), (20, 10, 10)),
        cuboid((9, 9, 9), (11, 11, 11)),
        cuboid((0, 0, 0), (0, 0, 0)),
        cuboid((3, 3, 3), (4, 30, 4)),
    ];
    for a in &boxes {
        for b in &boxes {
            assert_eq!(a.overlaps(b), b.overlaps(a));
        }
    }
}

#[test]
fn spans_cross_only_beyond_the_tolerance() {
    assert!(spans_cross(0, 10, 5, 15));
    assert!(!spans_cross(0, 10, 10, 20));
    assert!(!spans_cross(0, 10, 9, 20));
    assert!(spans_cross(0, 10, 8, 20));
    assert!(!spans_cross(0, 0, 0, 10));
    assert!(!spans_cross(u64::MAX - 1, u64::MAX, u64::MAX, u64::MAX));
}

#[test]
fn lengths_within_the_tolerance_are_the_same_length() {
    assert!(is_within_epsilon(7, 7));
    assert!(!is_within_epsilon(7, 8));
    assert!(!is_within_epsilon(8, 7));
    assert!(is_within_epsilon(0, 0));
    assert!(!is_within_epsilon(0, u64::MAX));
}

#[test]
fn the_four_corner_form_agrees_with_the_box_form() {
    let a = cuboid((0, 0, 0), (50, 50, 50));
    let b = cuboid((40, 40, 40), (90, 90, 90));
    let c = cuboid((50, 0, 0), (100, 50, 50));
    assert!(boxes_overlap(
        &a.start_coordinates,
        &a.end_coordinates,
        &b.start_coordinates,
        &b.end_coordinates
    ));
    assert!(!boxes_overlap(
        &a.start_coordinates,
        &a.end_coordinates,
        &c.start_coordinates,
        &c.end_coordinates
    ));
}

#[test]
fn volume_is_the_product_of_the_extents() {
    assert_eq!(cuboid((1, 2, 3), (3, 5, 7)).volume(), 2 * 3 * 4);
    assert_eq!(cuboid((1, 2, 3), (1, 5, 7)).volume(), 0);
    let unit = UNITS_PER_LENGTH;
    assert_eq!(
        cuboid((0, 0, 0), (5 * unit, 5 * unit, 5 * unit)).volume(),
        125_000_000_000_000_000_000u128
    );
    let limit = COORDINATE_LIMIT;
    assert_eq!(
        cuboid((0, 0, 0), (limit, limit, limit)).volume(),
        (limit as u128) * (limit as u128) * (limit as u128)
    );
}

#[test]
fn well_formed_boxes_have_their_corners_in_order_and_in_range() {
    assert!(cuboid((0, 0, 0), (1, 1, 1)).is_well_formed());
    assert!(cuboid((2, 2, 2), (2, 2, 2)).is_well_formed());
    assert!(!cuboid((2, 0, 0), (1, 1, 1)).is_well_formed());
    assert!(!cuboid((0, 2, 0), (1, 1, 1)).is_well_formed());
    assert!(!cuboid((0, 0, 2), (1, 1, 1)).is_well_formed());
    assert!(cuboid((0, 0, 0), (COORDINATE_LIMIT, 1, 1)).is_well_formed());
    assert!(!cuboid((0, 0, 0), (COORDINATE_LIMIT + 1, 1, 1)).is_well_formed());
}

#[test]
fn a_box_holds_its_near_faces_and_not_its_far_faces() {
    let a = cuboid((10, 10, 10), (20, 20, 20));
    assert!(a.contains_point(&point(10, 10, 10)));
    assert!(a.contains_point(&point(19, 19, 19)));
    assert!(!a.contains_point(&point(20, 15, 15)));
    assert!(!a.contains_point(&point(15, 20, 15)));
    assert!(!a.contains_point(&point(15, 15, 20)));
    assert!(!a.contains_point(&point(9, 15, 15)));
}

#[test]
fn a_box_at_the_opening_is_accessible() {
    let container = Container {
        container_id: "C".to_string(),
        zone: "Z".to_string(),
        width: 100,
        depth: 100,
        height: 100,
        is_waste_container: None,
        max_weight_capacity: None,
    };
    assert!(cuboid((5, 0, 5), (10, 10, 10)).is_accessible(&container));
    assert!(!cuboid((5, 1, 5), (10, 10, 10)).is_accessible(&container));
}
