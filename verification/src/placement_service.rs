//! A second way to place a batch: candidates are the corners that the
//! occupants leave free, the one that is easiest to get at is taken, and
//! room is made by moving occupants of lower priority, one or two at a
//! time.

use crate::accessibility::{calculate_retrieval_steps, retrieval_steps};
use crate::feasibility::{clear_of, feasible, is_clear_of, is_feasible};
use crate::geometry::{Coordinates, Position};
use crate::models::ItemStatus;
use crate::homing::all_well_formed;
use crate::models::{is_served_before, served_before, Container, Item, PlacementResponse, PlacementResult};
use crate::orchestrator::{make_newcomer, newcomer, Outcome};
use crate::placement::{
    describe_unplaced, distinct_identifiers, find_repeated_container, find_repeated_item,
    first_repeated_container, first_repeated_item, lemma_identifiers_distinct, lemma_published,
    name_unplaced, publish, records_apart, records_inside, records_single, reports, start_of,
    transcribe,
};
use vstd::string::StringExecFns;
use crate::rearrangement::rearrangement;
use crate::search::{
    box_at, does_fit, fits, height_scan, make_box, orientation, orientation_of, scan_heights,
};
use crate::simulation::{
    absent, admits, bounded, lawful, lemma_adds_only_admits, lemma_admits_in_turn,
    lemma_put_admits, lemma_put_keeps_absent, lemma_put_upholds, lemma_start_is_lawful,
    lemma_upholds_in_turn, lemma_upholds_itself, no_overlap, put, singular, upholds, within,
    ItemRef, Move, Occupant, Simulation,
};
use vstd::prelude::*;

verus! {

/// The engine that places by free corners.
#[derive(Debug)]
pub struct PlacementService {}

/// The orientations of `dims`, among the first `k`, in which a box does not
/// exceed the container, in their order.
pub open spec fn fitting_orientations(dims: (u64, u64, u64), c: &Container, k: int) -> Seq<
    (u64, u64, u64),
>
    decreases k,
{
    if k <= 0 {
        Seq::empty()
    } else {
        let rest = fitting_orientations(dims, c, k - 1);
        if fits(orientation(dims, k - 1), c) {
            rest.push(orientation(dims, k - 1))
        } else {
            rest
        }
    }
}

/// The point `a` is tried before the point `b`: it is nearer to the
/// opening; of two at the same depth the lower one; of two at the same depth
/// and height the one of lesser width.
pub open spec fn point_before(a: (u64, u64, u64), b: (u64, u64, u64)) -> bool {
    a.1 < b.1 || (a.1 == b.1 && (a.2 < b.2 || (a.2 == b.2 && a.0 < b.0)))
}

/// Decides [`point_before`].
pub fn is_point_before(a: (u64, u64, u64), b: (u64, u64, u64)) -> (r: bool)
    ensures
        r == point_before(a, b),
{
    a.1 < b.1 || (a.1 == b.1 && (a.2 < b.2 || (a.2 == b.2 && a.0 < b.0)))
}

/// The place, from `i` on, of the first point of `s` that `point` is tried
/// before; the length of `s` where there is none.
pub open spec fn point_slot(s: Seq<(u64, u64, u64)>, point: (u64, u64, u64), i: int) -> int
    decreases s.len() - i,
{
    if i < 0 || i >= s.len() {
        s.len() as int
    } else if point_before(point, s[i]) {
        i
    } else {
        point_slot(s, point, i + 1)
    }
}

/// The points of `s` in the order in which they are tried; points that are
/// the same stay in the order that they have in `s`.
pub open spec fn arranged(s: Seq<(u64, u64, u64)>) -> Seq<(u64, u64, u64)>
    decreases s.len(),
{
    if s.len() == 0 {
        s
    } else {
        let head = arranged(s.drop_last());
        head.insert(point_slot(head, s.last(), 0), s.last())
    }
}

/// No point of `s` is tried before an earlier one.
pub open spec fn in_point_order(s: Seq<(u64, u64, u64)>) -> bool {
    forall|i: int, j: int| 0 <= i < j < s.len() ==> !point_before(#[trigger] s[j], #[trigger] s[i])
}

/// Where [`point_slot`] lies.
pub proof fn lemma_point_slot(s: Seq<(u64, u64, u64)>, point: (u64, u64, u64), i: int)
    requires
        0 <= i <= s.len(),
    ensures
        i <= point_slot(s, point, i) <= s.len(),
        forall|j: int| i <= j < point_slot(s, point, i) ==> !point_before(point, #[trigger] s[j]),
        point_slot(s, point, i) < s.len() ==> point_before(point, s[point_slot(s, point, i)]),
    decreases s.len() - i,
{
    if i < s.len() && !point_before(point, s[i]) {
        lemma_point_slot(s, point, i + 1);
    }
}

/// Arranging keeps the points, each as often as before, and puts them in
/// the order in which they are tried.
pub proof fn lemma_arranged(s: Seq<(u64, u64, u64)>)
    ensures
        arranged(s).len() == s.len(),
        arranged(s).to_multiset() == s.to_multiset(),
        in_point_order(arranged(s)),
    decreases s.len(),
{
    if s.len() > 0 {
        let head = arranged(s.drop_last());
        lemma_arranged(s.drop_last());
        lemma_point_slot(head, s.last(), 0);
        let at = point_slot(head, s.last(), 0);
        let r = head.insert(at, s.last());
        vstd::seq_lib::to_multiset_insert(head, at, s.last());
        vstd::seq_lib::to_multiset_build(s.drop_last(), s.last());
        assert(s.drop_last().push(s.last()) =~= s);
        assert forall|i: int, j: int| 0 <= i < j < r.len() implies !point_before(
            #[trigger] r[j],
            #[trigger] r[i],
        ) by {
            if j == at {
                assert(r[i] == head[i]);
            } else if i == at {
                assert(r[j] == head[j - 1]);
                if at < j - 1 {
                    assert(!point_before(head[j - 1], head[at]));
                }
            } else {
                let i0 = if i < at {
                    i
                } else {
                    i - 1
                };
                let j0 = if j < at {
                    j
                } else {
                    j - 1
                };
                assert(r[i] == head[i0]);
                assert(r[j] == head[j0]);
            }
        }
    }
}

/// Puts the points in the order in which they are tried.
pub fn arrange_points(points: &Vec<(u64, u64, u64)>) -> (r: Vec<(u64, u64, u64)>)
    ensures
        r@ == arranged(points@),
        r@.len() == points@.len(),
        in_point_order(r@),
{
    let mut out: Vec<(u64, u64, u64)> = Vec::new();
    let mut n: usize = 0;
    assert(points@.take(0) =~= Seq::<(u64, u64, u64)>::empty());
    while n < points.len()
        invariant
            n <= points.len(),
            out@ == arranged(points@.take(n as int)),
            out@.len() == n,
        decreases points.len() - n,
    {
        let e = points[n];
        let mut at: usize = 0;
        while at < out.len() && !is_point_before(e, out[at])
            invariant
                at <= out.len(),
                point_slot(out@, e, at as int) == point_slot(out@, e, 0),
            decreases out.len() - at,
        {
            at += 1;
        }
        out.insert(at, e);
        proof {
            assert(points@.take(n + 1).drop_last() =~= points@.take(n as int));
            assert(points@.take(n + 1).last() == e);
        }
        n += 1;
    }
    proof {
        assert(points@.take(points.len() as int) =~= points@);
        lemma_arranged(points@);
    }
    out
}

/// The corners of the first `n` occupants at which a box may be tried,
/// after the origin: of each occupant the corner on its top, the one at its
/// right and the one behind it.
pub open spec fn corner_points(existing: Seq<Occupant>, n: int) -> Seq<(u64, u64, u64)>
    decreases n,
{
    if n <= 0 {
        seq![(0u64, 0u64, 0u64)]
    } else {
        let p = existing[n - 1].position;
        corner_points(existing, n - 1).push(
            (p.start_coordinates.width, p.start_coordinates.depth, p.end_coordinates.height),
        ).push(
            (p.end_coordinates.width, p.start_coordinates.depth, p.start_coordinates.height),
        ).push((p.start_coordinates.width, p.end_coordinates.depth, p.start_coordinates.height))
    }
}

/// The point as coordinates.
pub open spec fn as_coordinates(point: (u64, u64, u64)) -> Coordinates {
    Coordinates { width: point.0, depth: point.1, height: point.2 }
}

/// The point lies in none of the occupants.
pub open spec fn free_point(point: (u64, u64, u64), existing: Seq<Occupant>) -> bool {
    forall|j: int|
        0 <= j < existing.len() ==> !(#[trigger] existing[j]).position.contains_point_spec(
            &as_coordinates(point),
        )
}

/// The point lies in none of the occupants, and within the container.
pub open spec fn is_extreme(point: (u64, u64, u64), c: &Container, existing: Seq<Occupant>) -> bool {
    &&& free_point(point, existing)
    &&& point.0 <= c.width
    &&& point.1 <= c.depth
    &&& point.2 <= c.height
}

/// Those of the first `m` points that lie in no occupant and within the
/// container, in their order.
pub open spec fn kept_points(
    points: Seq<(u64, u64, u64)>,
    c: &Container,
    existing: Seq<Occupant>,
    m: int,
) -> Seq<(u64, u64, u64)>
    decreases m,
{
    if m <= 0 {
        Seq::empty()
    } else {
        let rest = kept_points(points, c, existing, m - 1);
        if is_extreme(points[m - 1], c, existing) {
            rest.push(points[m - 1])
        } else {
            rest
        }
    }
}

/// The points at which a box is tried in the container, in the order in
/// which they are tried.
pub open spec fn extreme_points(c: &Container, existing: Seq<Occupant>) -> Seq<(u64, u64, u64)> {
    let corners = corner_points(existing, existing.len() as int);
    arranged(kept_points(corners, c, existing, corners.len() as int))
}

/// The box of the extents `o` with its near-bottom-left corner at the
/// point, where it does not reach beyond the container.
pub open spec fn point_box(o: (u64, u64, u64), c: &Container, point: (u64, u64, u64)) -> Option<
    Position,
> {
    if point.0 + o.0 <= c.width && point.1 + o.1 <= c.depth && point.2 + o.2 <= c.height {
        Some(box_at(o, point.0, point.1, point.2))
    } else {
        None
    }
}

/// The best of the boxes at the first `n` points: a feasible one before
/// which the fewest occupants stand, and of those the one that is tried
/// first; with the number of occupants before it.
pub open spec fn best_among(
    o: (u64, u64, u64),
    c: &Container,
    existing: Seq<Occupant>,
    points: Seq<(u64, u64, u64)>,
    n: int,
) -> Option<(Position, nat)>
    decreases n,
{
    if n <= 0 {
        None
    } else {
        let rest = best_among(o, c, existing, points, n - 1);
        match point_box(o, c, points[n - 1]) {
            Some(p) => if feasible(p, c, existing) && (rest is None || retrieval_steps(p, existing)
                < rest.unwrap().1) {
                Some((p, retrieval_steps(p, existing)))
            } else {
                rest
            },
            None => rest,
        }
    }
}

/// The best of the boxes is at one of the points and feasible, no feasible
/// box at a point has fewer occupants before it, and none that is tried
/// earlier has as few. There is no best box only where no box at a point is
/// feasible.
pub proof fn lemma_best_among(
    o: (u64, u64, u64),
    c: &Container,
    existing: Seq<Occupant>,
    points: Seq<(u64, u64, u64)>,
    n: int,
)
    requires
        0 <= n <= points.len(),
    ensures
        match best_among(o, c, existing, points, n) {
            Some((p, steps)) => {
                &&& steps == retrieval_steps(p, existing)
                &&& feasible(p, c, existing)
                &&& exists|k: int|
                    {
                        &&& 0 <= k < n
                        &&& point_box(o, c, #[trigger] points[k]) == Some(p)
                        &&& forall|j: int|
                            0 <= j < k ==> (point_box(o, c, #[trigger] points[j]) matches Some(q) ==> (feasible(q, c, existing) ==> retrieval_steps(q, existing)
                                > steps))
                    }
                &&& forall|j: int|
                    0 <= j < n ==> (point_box(o, c, #[trigger] points[j]) matches Some(q) ==> (feasible(q, c, existing) ==> retrieval_steps(q, existing) >= steps))
            },
            None => forall|j: int|
                0 <= j < n ==> (point_box(o, c, #[trigger] points[j]) matches Some(q) ==> !feasible(
                    q,
                    c,
                    existing,
                )),
        },
    decreases n,
{
    if n > 0 {
        lemma_best_among(o, c, existing, points, n - 1);
        let rest = best_among(o, c, existing, points, n - 1);
        match best_among(o, c, existing, points, n) {
            Some((p, steps)) => {
                let taken = point_box(o, c, points[n - 1]) matches Some(q) && feasible(
                    q,
                    c,
                    existing,
                ) && (rest is None || retrieval_steps(q, existing) < rest.unwrap().1);
                if taken {
                    assert(point_box(o, c, points[n - 1]) == Some(p));
                } else {
                    let k = choose|k: int|
                        {
                            &&& 0 <= k < n - 1
                            &&& point_box(o, c, #[trigger] points[k]) == Some(p)
                            &&& forall|j: int|
                                0 <= j < k ==> (point_box(o, c, #[trigger] points[j])
                                    matches Some(q) ==> (feasible(q, c, existing) ==> retrieval_steps(q, existing) > steps))
                        };
                    assert(point_box(o, c, points[k]) == Some(p));
                }
            },
            None => {},
        }
    }
}

/// The place for a box of the extents `o`, as they stand, in the container:
/// the best of the boxes at the free corners; where none of them is
/// feasible, the first feasible candidate of the search over the grid, near
/// the opening first. With the number of occupants that stand before it.
pub open spec fn position_for(o: (u64, u64, u64), c: &Container, existing: Seq<Occupant>) -> Option<
    (Position, nat),
> {
    let points = extreme_points(c, existing);
    match best_among(o, c, existing, points, points.len() as int) {
        Some(best) => Some(best),
        None => if fits(o, c) {
            match height_scan(o, c, existing, true, 0) {
                Some(p) => Some((p, retrieval_steps(p, existing))),
                None => None,
            }
        } else {
            None
        },
    }
}

/// The two results are the same.
pub open spec fn same_place(r: Option<(Position, usize)>, s: Option<(Position, nat)>) -> bool {
    match r {
        Some((p, steps)) => s == Some((p, steps as nat)),
        None => s is None,
    }
}

/// The place for the item in the container, trying the orientations from
/// the `j`-th of `orientations` on: the place for the first of them that has
/// one.
pub open spec fn first_place(
    orientations: Seq<(u64, u64, u64)>,
    c: &Container,
    existing: Seq<Occupant>,
    j: int,
) -> Option<(Position, nat)>
    decreases orientations.len() - j,
{
    if j < 0 || j >= orientations.len() {
        None
    } else {
        match position_for(orientations[j], c, existing) {
            Some(found) => Some(found),
            None => first_place(orientations, c, existing, j + 1),
        }
    }
}

/// The place for an item of the extents `dims` in the container: the place
/// for the first orientation that fits and has one.
pub open spec fn container_place(dims: (u64, u64, u64), c: &Container, existing: Seq<Occupant>) -> Option<
    (Position, nat),
> {
    first_place(fitting_orientations(dims, c, 6), c, existing, 0)
}

/// The first container, from the `c`-th on, that lies in the item's zone
/// (or, with `in_zone` false, outside it) and has a place for the item;
/// with the place and the number of occupants before it.
pub open spec fn zone_scan(
    item: &Item,
    containers: Seq<Container>,
    occupancy: Seq<Seq<Occupant>>,
    in_zone: bool,
    c: int,
) -> Option<(usize, Position, nat)>
    decreases containers.len() - c,
{
    if c < 0 || c >= containers.len() {
        None
    } else if (containers[c].zone@ == item.preferred_zone@) == in_zone && container_place(
        item.dims(),
        &containers[c],
        occupancy[c],
    ) is Some {
        let found = container_place(item.dims(), &containers[c], occupancy[c]).unwrap();
        Some((c as usize, found.0, found.1))
    } else {
        zone_scan(item, containers, occupancy, in_zone, c + 1)
    }
}

/// The place that is best for the item: in the first container of its zone
/// that has one; where none has, in the first container of another zone
/// that has one. With the number of occupants before it, and whether it is
/// in the item's zone.
pub open spec fn optimal_place(
    item: &Item,
    containers: Seq<Container>,
    occupancy: Seq<Seq<Occupant>>,
) -> Option<(usize, Position, nat, bool)> {
    match zone_scan(item, containers, occupancy, true, 0) {
        Some((c, p, steps)) => Some((c, p, steps, true)),
        None => match zone_scan(item, containers, occupancy, false, 0) {
            Some((c, p, steps)) => Some((c, p, steps, false)),
            None => None,
        },
    }
}

/// The extents of a box; an extent whose corners are out of order is 0.
pub open spec fn extents_of(p: Position) -> (u64, u64, u64) {
    (
        if p.end_coordinates.width >= p.start_coordinates.width {
            (p.end_coordinates.width - p.start_coordinates.width) as u64
        } else {
            0
        },
        if p.end_coordinates.depth >= p.start_coordinates.depth {
            (p.end_coordinates.depth - p.start_coordinates.depth) as u64
        } else {
            0
        },
        if p.end_coordinates.height >= p.start_coordinates.height {
            (p.end_coordinates.height - p.start_coordinates.height) as u64
        } else {
            0
        },
    )
}

/// The first container, from the `c`-th on and but for the barred one, that
/// has a place for a box of the extents `dims` as they stand; with the
/// place.
pub open spec fn alternative_scan(
    dims: (u64, u64, u64),
    containers: Seq<Container>,
    occupancy: Seq<Seq<Occupant>>,
    barred: usize,
    c: int,
) -> Option<(usize, Position)>
    decreases containers.len() - c,
{
    if c < 0 || c >= containers.len() {
        None
    } else if c != barred && position_for(dims, &containers[c], occupancy[c]) is Some {
        Some((c as usize, position_for(dims, &containers[c], occupancy[c]).unwrap().0))
    } else {
        alternative_scan(dims, containers, occupancy, barred, c + 1)
    }
}

/// The record describes a place for the item in the container.
pub open spec fn describes_place(
    record: &PlacementResult,
    item: &Item,
    c: &Container,
    found: (Position, nat),
    preferred: bool,
) -> bool {
    &&& record.item_id@ == item.item_id@
    &&& record.container_id@ == c.container_id@
    &&& record.position == found.0
    &&& record.retrieval_steps == found.1
    &&& record.is_preferred_zone == preferred
}

/// The place, from `i` on, of the first item in `order` that the `n`-th
/// item is served before; the length of `order` where there is none.
pub open spec fn serve_slot(order: Seq<usize>, items: Seq<Item>, n: usize, i: int) -> int
    decreases order.len() - i,
{
    if i < 0 || i >= order.len() {
        order.len() as int
    } else if served_before(&items[n as int], &items[order[i] as int]) {
        i
    } else {
        serve_slot(order, items, n, i + 1)
    }
}

/// The first `n` items of a request in the order in which they are served;
/// items of which neither is served before the other stay in the order of
/// the request. Each item is given by its place in the request.
pub open spec fn service_order(items: Seq<Item>, n: int) -> Seq<usize>
    decreases n,
{
    if n <= 0 {
        Seq::empty()
    } else {
        let head = service_order(items, n - 1);
        head.insert(serve_slot(head, items, (n - 1) as usize, 0), (n - 1) as usize)
    }
}

/// Where [`serve_slot`] lies.
pub proof fn lemma_serve_slot(order: Seq<usize>, items: Seq<Item>, n: usize, i: int)
    requires
        0 <= i <= order.len(),
    ensures
        i <= serve_slot(order, items, n, i) <= order.len(),
        forall|j: int|
            i <= j < serve_slot(order, items, n, i) ==> !served_before(
                &items[n as int],
                &items[(#[trigger] order[j]) as int],
            ),
    decreases order.len() - i,
{
    if i < order.len() && !served_before(&items[n as int], &items[order[i] as int]) {
        lemma_serve_slot(order, items, n, i + 1);
    }
}

/// The order of service names each of the first `n` items once, and no item
/// stands behind one that it is served before.
pub proof fn lemma_service_order(items: Seq<Item>, n: int)
    requires
        0 <= n <= items.len(),
        n <= usize::MAX,
    ensures
        service_order(items, n).len() == n,
        within(service_order(items, n), n),
        service_order(items, n).no_duplicates(),
    decreases n,
{
    if n > 0 {
        let head = service_order(items, n - 1);
        lemma_service_order(items, n - 1);
        lemma_serve_slot(head, items, (n - 1) as usize, 0);
        let at = serve_slot(head, items, (n - 1) as usize, 0);
        let r = head.insert(at, (n - 1) as usize);
        assert forall|k: int| 0 <= k < r.len() implies (#[trigger] r[k]) < n by {
            if k < at {
                assert(r[k] == head[k]);
            } else if k > at {
                assert(r[k] == head[k - 1]);
            }
        }
        assert forall|i: int, j: int| 0 <= i < r.len() && 0 <= j < r.len() && i != j implies r[i]
            != r[j] by {
            let i0 = if i < at {
                i
            } else {
                i - 1
            };
            let j0 = if j < at {
                j
            } else {
                j - 1
            };
            if i != at {
                assert(r[i] == head[i0]);
            }
            if j != at {
                assert(r[j] == head[j0]);
            }
        }
    }
}

/// One turn of the service for the `n`-th item of the request: the
/// occupancy and the moves after it where the item was placed, `None` where
/// it was not. The item takes the place that is best for it; where it has
/// none, room is made for it, if that can be done.
pub open spec fn service_turn(
    items: Seq<Item>,
    containers: Seq<Container>,
    occupancy: Seq<Seq<Occupant>>,
    moves: Seq<Move>,
    n: usize,
) -> Option<(Seq<Seq<Occupant>>, Seq<Move>)> {
    let item = items[n as int];
    match optimal_place(&item, containers, occupancy) {
        Some((c, p, steps, preferred)) => Some(
            (put(occupancy, c as int, newcomer(n, &item, p, preferred)), moves),
        ),
        None => match rearrangement(&item, n, containers, occupancy, moves) {
            Some(turn) => Some((turn.occupancy, turn.moves)),
            None => None,
        },
    }
}

/// The service from the `k`-th item of `order` on: an item that is marked
/// as waste is passed over; every other takes its turn, and is appended to
/// `unplaced` where it was not placed.
pub open spec fn service_run(
    items: Seq<Item>,
    containers: Seq<Container>,
    occupancy: Seq<Seq<Occupant>>,
    moves: Seq<Move>,
    order: Seq<usize>,
    k: int,
    unplaced: Seq<usize>,
) -> Outcome
    decreases order.len() - k,
{
    if k < 0 || k >= order.len() {
        Outcome { occupancy, moves, unplaced }
    } else if items[order[k] as int].marked_waste() {
        service_run(items, containers, occupancy, moves, order, k + 1, unplaced)
    } else {
        match service_turn(items, containers, occupancy, moves, order[k]) {
            Some((after, moved)) => service_run(
                items,
                containers,
                after,
                moved,
                order,
                k + 1,
                unplaced,
            ),
            None => service_run(
                items,
                containers,
                occupancy,
                moves,
                order,
                k + 1,
                unplaced.push(order[k]),
            ),
        }
    }
}

/// As many empty containers as there are containers.
pub open spec fn vacant(containers: Seq<Container>) -> Seq<Seq<Occupant>> {
    Seq::new(containers.len(), |c: int| Seq::empty())
}

/// The outcome of the service on empty containers.
pub open spec fn service_batch(items: Seq<Item>, containers: Seq<Container>) -> Outcome {
    service_run(
        items,
        containers,
        vacant(containers),
        Seq::empty(),
        service_order(items, items.len() as int),
        0,
        Seq::empty(),
    )
}

/// Computes [`service_order`].
pub fn service_order_of(items: &Vec<Item>) -> (order: Vec<usize>)
    ensures
        order@ == service_order(items@, items@.len() as int),
        order@.len() == items@.len(),
        order@.no_duplicates(),
        within(order@, items@.len() as int),
{
    let mut order: Vec<usize> = Vec::new();
    let mut n: usize = 0;
    while n < items.len()
        invariant
            n <= items.len(),
            order@ == service_order(items@, n as int),
            order@.len() == n,
            within(order@, n as int),
        decreases items.len() - n,
    {
        let mut at: usize = 0;
        while at < order.len() && !is_served_before(&items[n], &items[order[at]])
            invariant
                at <= order.len(),
                n < items.len(),
                within(order@, n as int),
                serve_slot(order@, items@, n, at as int) == serve_slot(order@, items@, n, 0),
            decreases order.len() - at,
        {
            at += 1;
        }
        order.insert(at, n);
        proof {
            lemma_service_order(items@, n + 1);
        }
        n += 1;
    }
    proof {
        lemma_service_order(items@, items@.len() as int);
    }
    order
}

/// The message of a request in which the identifier `id` occurs more than
/// once.
pub open spec fn repeated_message(id: Seq<char>) -> Seq<char> {
    "An identifier occurs more than once: "@ + id
}

/// The response turns the request down for the identifier `id`: nothing is
/// placed, and the message names the identifier.
pub open spec fn turned_down(response: &PlacementResponse, id: Seq<char>) -> bool {
    &&& !response.success
    &&& response.placements@.len() == 0
    &&& response.rearrangements@.len() == 0
    &&& response.unplaced@.len() == 0
    &&& response.error matches Some(msg) && msg@ == repeated_message(id)
}

/// Whether the point lies in none of the occupants.
fn is_free_point(point: (u64, u64, u64), existing: &Vec<Occupant>) -> (r: bool)
    ensures
        r == free_point(point, existing@),
{
    let at = Coordinates { width: point.0, depth: point.1, height: point.2 };
    let mut j: usize = 0;
    while j < existing.len()
        invariant
            j <= existing.len(),
            at == as_coordinates(point),
            forall|k: int|
                0 <= k < j ==> !(#[trigger] existing@[k]).position.contains_point_spec(&at),
        decreases existing.len() - j,
    {
        if existing[j].position.contains_point(&at) {
            return false;
        }
        j += 1;
    }
    true
}

impl PlacementService {
    /// A new engine.
    pub fn new() -> (service: Self) {
        PlacementService {  }
    }

    /// The orientations of the item in which it does not exceed the
    /// container, in the order in which they are tried.
    pub fn get_possible_orientations(&self, item: &Item, container: &Container) -> (r: Vec<
        (u64, u64, u64),
    >)
        ensures
            r@ == fitting_orientations(item.dims(), container, 6),
    {
        let dims = (item.width, item.depth, item.height);
        let mut orientations: Vec<(u64, u64, u64)> = Vec::new();
        let mut k: usize = 0;
        while k < 6
            invariant
                k <= 6,
                dims == item.dims(),
                orientations@ == fitting_orientations(dims, container, k as int),
            decreases 6 - k,
        {
            let o = orientation_of(dims, k);
            if does_fit(o, container) {
                orientations.push(o);
            }
            k += 1;
        }
        orientations
    }

    /// The points at which a box is tried in the container: the origin and
    /// three corners of each occupant, but for those that lie in an occupant
    /// or outside the container; in the order in which they are tried.
    pub fn calculate_extreme_points(&self, container: &Container, existing_items: &Vec<Occupant>) -> (r:
        Vec<(u64, u64, u64)>)
        ensures
            r@ == extreme_points(container, existing_items@),
            in_point_order(r@),
    {
        let mut corners: Vec<(u64, u64, u64)> = Vec::new();
        corners.push((0, 0, 0));
        let mut n: usize = 0;
        assert(corners@ =~= corner_points(existing_items@, 0));
        while n < existing_items.len()
            invariant
                n <= existing_items.len(),
                corners@ == corner_points(existing_items@, n as int),
            decreases existing_items.len() - n,
        {
            let p = existing_items[n].position;
            corners.push(
                (p.start_coordinates.width, p.start_coordinates.depth, p.end_coordinates.height),
            );
            corners.push(
                (p.end_coordinates.width, p.start_coordinates.depth, p.start_coordinates.height),
            );
            corners.push(
                (p.start_coordinates.width, p.end_coordinates.depth, p.start_coordinates.height),
            );
            n += 1;
        }
        let mut kept: Vec<(u64, u64, u64)> = Vec::new();
        let mut m: usize = 0;
        while m < corners.len()
            invariant
                m <= corners.len(),
                kept@ == kept_points(corners@, container, existing_items@, m as int),
            decreases corners.len() - m,
        {
            let point = corners[m];
            if is_free_point(point, existing_items) && point.0 <= container.width && point.1
                <= container.depth && point.2 <= container.height {
                kept.push(point);
            }
            m += 1;
        }
        arrange_points(&kept)
    }

    /// Whether the box overlaps none of the occupants.
    pub fn is_valid_position(&self, position: &Position, existing_items: &Vec<Occupant>) -> (r: bool)
        ensures
            r == clear_of(*position, existing_items@),
    {
        is_clear_of(position, existing_items)
    }

    /// Searches a place for a box of the given extents, as they stand, in
    /// the container. Returns the box and the number of occupants that
    /// stand before it.
    pub fn find_position(
        &self,
        width: u64,
        depth: u64,
        height: u64,
        container: &Container,
        existing_items: &Vec<Occupant>,
    ) -> (r: Option<(Position, usize)>)
        requires
            container.well_formed(),
        ensures
            same_place(r, position_for((width, depth, height), container, existing_items@)),
            r matches Some((p, steps)) ==> {
                &&& feasible(p, container, existing_items@)
                &&& steps == retrieval_steps(p, existing_items@)
                &&& p.start_coordinates.width + width == p.end_coordinates.width
                &&& p.start_coordinates.depth + depth == p.end_coordinates.depth
                &&& p.start_coordinates.height + height == p.end_coordinates.height
            },
    {
        let o = (width, depth, height);
        let points = self.calculate_extreme_points(container, existing_items);
        let mut best: Option<(Position, usize)> = None;
        let mut n: usize = 0;
        while n < points.len()
            invariant
                n <= points.len(),
                o == (width, depth, height),
                same_place(best, best_among(o, container, existing_items@, points@, n as int)),
                best matches Some((p, steps)) ==> {
                    &&& feasible(p, container, existing_items@)
                    &&& steps == retrieval_steps(p, existing_items@)
                    &&& p.start_coordinates.width + width == p.end_coordinates.width
                    &&& p.start_coordinates.depth + depth == p.end_coordinates.depth
                    &&& p.start_coordinates.height + height == p.end_coordinates.height
                },
            decreases points.len() - n,
        {
            let point = points[n];
            if width <= container.width && point.0 <= container.width - width && depth
                <= container.depth && point.1 <= container.depth - depth && height
                <= container.height && point.2 <= container.height - height {
                let p = make_box(o, point.0, point.1, point.2);
                if is_feasible(&p, container, existing_items) {
                    let steps = calculate_retrieval_steps(&p, existing_items);
                    let better = match best {
                        Some((_, least)) => steps < least,
                        None => true,
                    };
                    if better {
                        best = Some((p, steps));
                    }
                }
            }
            n += 1;
        }
        if best.is_some() {
            return best;
        }
        if !does_fit(o, container) {
            return None;
        }
        match scan_heights(o, container, existing_items, true) {
            Some(p) => Some((p, calculate_retrieval_steps(&p, existing_items))),
            None => None,
        }
    }

    /// Searches a place for the item in the container, trying the
    /// orientations that fit, in their order. Returns the record of the
    /// first place found, marked as in the item's zone or not as
    /// `is_preferred_zone` says.
    pub fn try_container_placement(
        &self,
        item: &Item,
        container: &Container,
        existing_items: &Vec<Occupant>,
        is_preferred_zone: bool,
    ) -> (r: Option<PlacementResult>)
        requires
            container.well_formed(),
        ensures
            match r {
                Some(record) => container_place(item.dims(), container, existing_items@)
                    matches Some(found) && describes_place(
                    &record,
                    item,
                    container,
                    found,
                    is_preferred_zone,
                ) && feasible(record.position, container, existing_items@),
                None => container_place(item.dims(), container, existing_items@) is None,
            },
    {
        let orientations = self.get_possible_orientations(item, container);
        let mut j: usize = 0;
        while j < orientations.len()
            invariant
                j <= orientations.len(),
                container.well_formed(),
                orientations@ == fitting_orientations(item.dims(), container, 6),
                first_place(orientations@, container, existing_items@, j as int) == container_place(
                    item.dims(),
                    container,
                    existing_items@,
                ),
            decreases orientations.len() - j,
        {
            let (width, depth, height) = orientations[j];
            if let Some((position, steps)) = self.find_position(
                width,
                depth,
                height,
                container,
                existing_items,
            ) {
                return Some(
                    PlacementResult {
                        item_id: item.item_id.clone(),
                        container_id: container.container_id.clone(),
                        position,
                        retrieval_steps: steps,
                        is_preferred_zone,
                    },
                );
            }
            j += 1;
        }
        None
    }

    /// Searches the place that is best for the item: first in the
    /// containers of its zone, then in the others, each time in the order
    /// of the containers. Returns the number of the container and the
    /// record of the place.
    pub fn find_optimal_placement(&self, item: &Item, containers: &Vec<Container>, sim: &Simulation) -> (r:
        Option<(usize, PlacementResult)>)
        requires
            all_well_formed(containers@),
            sim.occupancy@.len() == containers@.len(),
        ensures
            match r {
                Some((c, record)) => optimal_place(item, containers@, sim.occupants())
                    matches Some(found) && found.0 == c && c < containers@.len() && describes_place(
                    &record,
                    item,
                    &containers@[c as int],
                    (found.1, found.2),
                    found.3,
                ) && feasible(record.position, &containers@[c as int], sim.occupants()[c as int]),
                None => optimal_place(item, containers@, sim.occupants()) is None,
            },
    {
        let mut c: usize = 0;
        while c < containers.len()
            invariant
                c <= containers.len(),
                all_well_formed(containers@),
                sim.occupancy@.len() == containers@.len(),
                zone_scan(item, containers@, sim.occupants(), true, c as int) == zone_scan(
                    item,
                    containers@,
                    sim.occupants(),
                    true,
                    0,
                ),
            decreases containers.len() - c,
        {
            if containers[c].zone == item.preferred_zone {
                if let Some(record) = self.try_container_placement(
                    item,
                    &containers[c],
                    &sim.occupancy[c],
                    true,
                ) {
                    return Some((c, record));
                }
            }
            c += 1;
        }
        let mut d: usize = 0;
        while d < containers.len()
            invariant
                d <= containers.len(),
                all_well_formed(containers@),
                sim.occupancy@.len() == containers@.len(),
                zone_scan(item, containers@, sim.occupants(), true, 0) is None,
                zone_scan(item, containers@, sim.occupants(), false, d as int) == zone_scan(
                    item,
                    containers@,
                    sim.occupants(),
                    false,
                    0,
                ),
            decreases containers.len() - d,
        {
            if containers[d].zone != item.preferred_zone {
                if let Some(record) = self.try_container_placement(
                    item,
                    &containers[d],
                    &sim.occupancy[d],
                    false,
                ) {
                    return Some((d, record));
                }
            }
            d += 1;
        }
        None
    }

    /// Searches a new place for the occupant of the box `current_pos`: a
    /// place for a box of the same extents, as they stand, in the first
    /// container but the barred one that has one. Returns the number of the
    /// container and the place.
    pub fn find_alternative_placement(
        &self,
        current_pos: &Position,
        containers: &Vec<Container>,
        sim: &Simulation,
        barred: usize,
    ) -> (r: Option<(usize, Position)>)
        requires
            all_well_formed(containers@),
            sim.occupancy@.len() == containers@.len(),
        ensures
            r == alternative_scan(extents_of(*current_pos), containers@, sim.occupants(), barred, 0),
            r matches Some((c, p)) ==> c < containers@.len() && c != barred && feasible(
                p,
                &containers@[c as int],
                sim.occupants()[c as int],
            ),
    {
        let width: u64 = if current_pos.end_coordinates.width >= current_pos.start_coordinates.width {
            current_pos.end_coordinates.width - current_pos.start_coordinates.width
        } else {
            0
        };
        let depth: u64 = if current_pos.end_coordinates.depth >= current_pos.start_coordinates.depth {
            current_pos.end_coordinates.depth - current_pos.start_coordinates.depth
        } else {
            0
        };
        let height: u64 = if current_pos.end_coordinates.height
            >= current_pos.start_coordinates.height {
            current_pos.end_coordinates.height - current_pos.start_coordinates.height
        } else {
            0
        };
        let mut c: usize = 0;
        while c < containers.len()
            invariant
                c <= containers.len(),
                all_well_formed(containers@),
                sim.occupancy@.len() == containers@.len(),
                (width, depth, height) == extents_of(*current_pos),
                alternative_scan(
                    (width, depth, height),
                    containers@,
                    sim.occupants(),
                    barred,
                    c as int,
                ) == alternative_scan(
                    (width, depth, height),
                    containers@,
                    sim.occupants(),
                    barred,
                    0,
                ),
            decreases containers.len() - c,
        {
            if c != barred {
                if let Some((position, _)) = self.find_position(
                    width,
                    depth,
                    height,
                    &containers[c],
                    &sim.occupancy[c],
                ) {
                    return Some((c, position));
                }
            }
            c += 1;
        }
        None
    }

    /// Places the items in the containers, which are empty at the start.
    /// Where two containers or two items have the same identifier, nothing
    /// is placed, and the response carries the message that names the
    /// identifier. Otherwise the items are served in the order of their
    /// priority, and of their expiry among those of one priority; an item
    /// that is marked as waste is passed over. Each item takes the place
    /// that is best for it; where it has none, room is made for it; where
    /// that fails too, the item is reported as not placed, and the service
    /// goes on.
    pub fn optimize_placement(&self, items: Vec<Item>, containers: Vec<Container>) -> (r:
        PlacementResponse)
        requires
            all_well_formed(containers@),
        ensures
            match (first_repeated_container(containers@), first_repeated_item(items@)) {
                (Some(c), _) => turned_down(&r, containers@[c as int].container_id@),
                (None, Some(n)) => turned_down(&r, items@[n as int].item_id@),
                (None, None) => {
                    let outcome = service_batch(items@, containers@);
                    &&& reports(&r, outcome, Seq::empty(), items@, containers@)
                    &&& lawful(containers@, vacant(containers@), outcome.occupancy, outcome.moves)
                    &&& no_overlap(outcome.occupancy)
                    &&& bounded(outcome.occupancy, containers@)
                    &&& singular(outcome.occupancy)
                    &&& distinct_identifiers(outcome.occupancy, Seq::empty(), items@)
                    &&& records_apart(r.placements@)
                    &&& records_inside(r.placements@, containers@)
                    &&& records_single(r.placements@)
                },
            },
    {
        if let Some(c) = find_repeated_container(&containers) {
            let mut msg = "An identifier occurs more than once: ".to_owned();
            msg.append(containers[c].container_id.as_str());
            return PlacementResponse::error(msg);
        }
        if let Some(n) = find_repeated_item(&items) {
            let mut msg = "An identifier occurs more than once: ".to_owned();
            msg.append(items[n].item_id.as_str());
            return PlacementResponse::error(msg);
        }
        let order = service_order_of(&items);
        let mut sim = Simulation::new(containers.len());
        let ghost start = sim.occupants();
        proof {
            assert(start =~~= vacant(containers@));
            assert(sim.moves() =~= Seq::<Move>::empty());
            lemma_start_is_lawful(containers@, start);
            lemma_upholds_itself(containers@, start, sim.moves());
        }
        let mut unplaced: Vec<usize> = Vec::new();
        let mut k: usize = 0;
        while k < order.len()
            invariant
                k <= order.len(),
                all_well_formed(containers@),
                sim.occupancy@.len() == containers@.len(),
                order@.no_duplicates(),
                within(order@, items@.len() as int),
                within(unplaced@, items@.len() as int),
                forall|j: int|
                    k <= j < order@.len() ==> absent(
                        sim.occupants(),
                        ItemRef::Requested(#[trigger] order@[j]),
                    ),
                upholds(containers@, start, Seq::empty(), sim.occupants(), sim.moves()),
                admits(start, sim.occupants(), items@.len() as int),
                service_run(
                    items@,
                    containers@,
                    sim.occupants(),
                    sim.moves(),
                    order@,
                    k as int,
                    unplaced@,
                ) == service_run(items@, containers@, start, Seq::empty(), order@, 0, Seq::empty()),
            decreases order.len() - k,
        {
            let n = order[k];
            let item = &items[n];
            let ghost occupancy = sim.occupants();
            let ghost moves = sim.moves();
            let waste = match item.status {
                Some(status) => status == ItemStatus::WASTE_EXPIRED || status
                    == ItemStatus::WASTE_DEPLETED,
                None => false,
            };
            if !waste {
                match self.find_optimal_placement(item, &containers, &sim) {
                    Some((c, record)) => {
                        let o = make_newcomer(n, item, record.position, record.is_preferred_zone);
                        sim.place(c, o);
                        proof {
                            lemma_put_admits(occupancy, c as int, o, items@.len() as int);
                            lemma_admits_in_turn(
                                start,
                                occupancy,
                                sim.occupants(),
                                items@.len() as int,
                            );
                            lemma_put_upholds(
                                containers@,
                                start,
                                Seq::empty(),
                                occupancy,
                                moves,
                                seq![n],
                                0,
                                c as int,
                                o,
                            );
                            assert forall|j: int| k + 1 <= j < order@.len() implies absent(
                                sim.occupants(),
                                ItemRef::Requested(#[trigger] order@[j]),
                            ) by {
                                lemma_put_keeps_absent(
                                    occupancy,
                                    c as int,
                                    o,
                                    ItemRef::Requested(order@[j]),
                                );
                            }
                        }
                    },
                    None => {
                        let made = self.try_rearrangement(item, n, &containers, &mut sim);
                        proof {
                            lemma_adds_only_admits(
                                occupancy,
                                sim.occupants(),
                                n,
                                items@.len() as int,
                            );
                            lemma_admits_in_turn(
                                start,
                                occupancy,
                                sim.occupants(),
                                items@.len() as int,
                            );
                            lemma_upholds_in_turn(
                                containers@,
                                start,
                                Seq::empty(),
                                occupancy,
                                moves,
                                sim.occupants(),
                                sim.moves(),
                            );
                            assert forall|j: int| k + 1 <= j < order@.len() implies absent(
                                sim.occupants(),
                                ItemRef::Requested(#[trigger] order@[j]),
                            ) by {
                                assert(ItemRef::Requested(order@[j]) != ItemRef::Requested(n));
                                assert(absent(occupancy, ItemRef::Requested(order@[j])));
                            }
                        }
                        if made.is_none() {
                            unplaced.push(n);
                        }
                    },
                }
            }
            k += 1;
        }
        let stored: Vec<PlacementResult> = Vec::new();
        let placements = publish(&sim, &stored, &items, &containers);
        proof {
            assert(stored@ =~= Seq::<PlacementResult>::empty());
            assert(containers@.len() == containers.len());
            assert(start_of(Seq::empty(), Seq::empty(), containers@) =~~= start);
            lemma_identifiers_distinct(
                Seq::empty(),
                Seq::empty(),
                items@,
                containers@,
                sim.occupants(),
            );
            lemma_published(placements@, sim.occupants(), Seq::empty(), items@, containers@);
        }
        let rearrangements = transcribe(&sim, &stored, &items, &containers);
        let ids = name_unplaced(&unplaced, &items);
        let success = unplaced.len() == 0;
        let error = if success {
            None
        } else {
            Some(describe_unplaced(&ids))
        };
        assert(stored@ =~= Seq::<PlacementResult>::empty());
        PlacementResponse { success, placements, rearrangements, unplaced: ids, error }
    }
}

} // verus!
