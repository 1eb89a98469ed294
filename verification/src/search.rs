//! The search for a place: candidate boxes for an item in a container, in a
//! fixed order, of which the first feasible one is taken.
//!
//! The order is: the six orientations as [`orientation`] numbers them; for
//! each, the base heights, ascending: the floor, then the tops of the
//! occupants; for each height the depth offsets of a coarse grid, from the
//! opening inwards for an item of high priority and from the back outwards
//! for any other; for each depth the width offsets of such a grid, ascending.

use crate::feasibility::{feasible, is_feasible};
use crate::geometry::{Coordinates, Position, EPSILON};
use crate::models::Container;
use crate::simulation::Occupant;
use vstd::prelude::*;

verus! {

/// The number of steps into which the grid divides an extent of a container.
pub const GRID_DIVISIONS: u64 = 10;

/// The smallest step of the grid.
pub const MIN_GRID_STEP: u64 = 10_000;

/// The `k`-th of the six ways to lay the extents `dims` along width, depth
/// and height.
pub open spec fn orientation(dims: (u64, u64, u64), k: int) -> (u64, u64, u64) {
    let (w, d, h) = dims;
    if k == 0 {
        (w, d, h)
    } else if k == 1 {
        (w, h, d)
    } else if k == 2 {
        (d, w, h)
    } else if k == 3 {
        (d, h, w)
    } else if k == 4 {
        (h, w, d)
    } else {
        (h, d, w)
    }
}

/// Computes [`orientation`].
pub fn orientation_of(dims: (u64, u64, u64), k: usize) -> (o: (u64, u64, u64))
    ensures
        o == orientation(dims, k as int),
{
    let (w, d, h) = dims;
    if k == 0 {
        (w, d, h)
    } else if k == 1 {
        (w, h, d)
    } else if k == 2 {
        (d, w, h)
    } else if k == 3 {
        (d, h, w)
    } else if k == 4 {
        (h, w, d)
    } else {
        (h, d, w)
    }
}

/// A box of the extents `o` does not exceed the container on any axis.
pub open spec fn fits(o: (u64, u64, u64), c: &Container) -> bool {
    &&& o.0 <= c.width + EPSILON
    &&& o.1 <= c.depth + EPSILON
    &&& o.2 <= c.height + EPSILON
}

/// Decides [`fits`].
pub fn does_fit(o: (u64, u64, u64), c: &Container) -> (r: bool)
    ensures
        r == fits(o, c),
{
    (o.0 <= c.width || o.0 - c.width <= EPSILON) && (o.1 <= c.depth || o.1 - c.depth <= EPSILON)
        && (o.2 <= c.height || o.2 - c.height <= EPSILON)
}

/// The step of the grid along an extent of a container: a tenth of it, but
/// no less than [`MIN_GRID_STEP`].
pub open spec fn grid_step(extent: int) -> int {
    if extent / 10 > 10_000 {
        extent / 10
    } else {
        10_000
    }
}

/// Computes [`grid_step`].
pub fn grid_step_of(extent: u64) -> (s: u64)
    ensures
        s == grid_step(extent as int),
{
    let tenth: u64 = extent / GRID_DIVISIONS;
    if tenth > MIN_GRID_STEP {
        tenth
    } else {
        MIN_GRID_STEP
    }
}

/// The number of offsets that the grid has along an extent.
pub open spec fn grid_points(extent: int) -> int {
    extent / grid_step(extent) + 2
}

/// The grid never has more than twelve offsets.
pub proof fn lemma_grid_points_bounded(extent: int)
    requires
        0 <= extent,
    ensures
        2 <= grid_points(extent) <= 12,
{
    let s = grid_step(extent);
    assert(extent < 11 * s);
    assert(0 <= extent / s < 11) by (nonlinear_arith)
        requires
            0 <= extent < 11 * s,
            s > 0,
    ;
}

/// Computes [`grid_points`].
pub fn grid_points_of(extent: u64) -> (n: u64)
    ensures
        n == grid_points(extent as int),
        2 <= n <= 12,
{
    proof {
        lemma_grid_points_bounded(extent as int);
    }
    extent / grid_step_of(extent) + 2
}

/// The `i`-th offset of the grid for a box of extent `size` along an extent
/// `extent` of a container: `i` steps, but no further than the box can go.
pub open spec fn grid_offset(extent: int, size: int, i: int) -> int {
    let room = if extent >= size {
        extent - size
    } else {
        0
    };
    if i * grid_step(extent) < room {
        i * grid_step(extent)
    } else {
        room
    }
}

/// Computes [`grid_offset`].
pub fn grid_offset_of(extent: u64, size: u64, i: u64) -> (r: u64)
    requires
        i < 12,
    ensures
        r == grid_offset(extent as int, size as int, i as int),
        r + size <= extent || (r == 0 && size > extent),
{
    let room: u64 = if extent >= size {
        extent - size
    } else {
        0
    };
    let step: u64 = grid_step_of(extent);
    assert(0 <= i * step <= 12 * 0xffff_ffff_ffff_ffff) by (nonlinear_arith)
        requires
            0 <= i < 12,
            0 <= step <= 0xffff_ffff_ffff_ffff,
    ;
    let raw: u128 = (i as u128) * (step as u128);
    if raw < room as u128 {
        raw as u64
    } else {
        room
    }
}

/// The place in the grid that is tried `t`-th: counted from the front when
/// `ascending`, from the back otherwise.
pub open spec fn scan_index(points: int, t: int, ascending: bool) -> int {
    if ascending {
        t
    } else {
        points - 1 - t
    }
}

/// The box of the extents `o` whose near-bottom-left corner is at width
/// `sw`, depth `sd` and height `sh`.
pub open spec fn box_at(o: (u64, u64, u64), sw: u64, sd: u64, sh: u64) -> Position {
    Position {
        start_coordinates: Coordinates { width: sw, depth: sd, height: sh },
        end_coordinates: Coordinates {
            width: (sw + o.0) as u64,
            depth: (sd + o.1) as u64,
            height: (sh + o.2) as u64,
        },
    }
}

/// Computes [`box_at`].
pub fn make_box(o: (u64, u64, u64), sw: u64, sd: u64, sh: u64) -> (p: Position)
    requires
        sw + o.0 <= u64::MAX,
        sd + o.1 <= u64::MAX,
        sh + o.2 <= u64::MAX,
    ensures
        p == box_at(o, sw, sd, sh),
{
    Position {
        start_coordinates: Coordinates { width: sw, depth: sd, height: sh },
        end_coordinates: Coordinates { width: sw + o.0, depth: sd + o.1, height: sh + o.2 },
    }
}

/// The first feasible box at depth `sd` and height `sh`, going through the
/// width offsets from the `i`-th on.
pub open spec fn row_scan(
    o: (u64, u64, u64),
    c: &Container,
    occupants: Seq<Occupant>,
    sh: u64,
    sd: u64,
    i: int,
) -> Option<Position>
    decreases grid_points(c.width as int) - i,
{
    if i < 0 || i >= grid_points(c.width as int) {
        None
    } else {
        let p = box_at(o, grid_offset(c.width as int, o.0 as int, i) as u64, sd, sh);
        if feasible(p, c, occupants) {
            Some(p)
        } else {
            row_scan(o, c, occupants, sh, sd, i + 1)
        }
    }
}

/// The first feasible box at height `sh`, going through the depth offsets
/// from the one that is tried `t`-th on.
pub open spec fn layer_scan(
    o: (u64, u64, u64),
    c: &Container,
    occupants: Seq<Occupant>,
    sh: u64,
    near_first: bool,
    t: int,
) -> Option<Position>
    decreases grid_points(c.depth as int) - t,
{
    let points = grid_points(c.depth as int);
    if t < 0 || t >= points {
        None
    } else {
        let sd = grid_offset(c.depth as int, o.1 as int, scan_index(points, t, near_first)) as u64;
        match row_scan(o, c, occupants, sh, sd, 0) {
            Some(p) => Some(p),
            None => layer_scan(o, c, occupants, sh, near_first, t + 1),
        }
    }
}

/// The lowest top, among the first `n` occupants, that lies above `h`.
pub open spec fn next_height_among(occupants: Seq<Occupant>, h: u64, n: int) -> Option<u64>
    decreases n,
{
    if n <= 0 {
        None
    } else {
        let rest = next_height_among(occupants, h, n - 1);
        let top = occupants[n - 1].position.end_coordinates.height;
        if top > h && (rest is None || top < rest.unwrap()) {
            Some(top)
        } else {
            rest
        }
    }
}

/// The base height that is tried after `h`: the lowest top of an occupant
/// that lies above `h`.
pub open spec fn next_height(occupants: Seq<Occupant>, h: u64) -> Option<u64> {
    next_height_among(occupants, h, occupants.len() as int)
}

/// [`next_height`] is the least of the tops above `h`, where there is one.
pub proof fn lemma_next_height_among(occupants: Seq<Occupant>, h: u64, n: int)
    requires
        0 <= n <= occupants.len(),
    ensures
        match next_height_among(occupants, h, n) {
            Some(m) => {
                &&& m > h
                &&& exists|i: int|
                    0 <= i < n && (#[trigger] occupants[i]).position.end_coordinates.height == m
                &&& forall|i: int|
                    0 <= i < n && (#[trigger] occupants[i]).position.end_coordinates.height > h
                        ==> occupants[i].position.end_coordinates.height >= m
            },
            None => forall|i: int|
                0 <= i < n ==> (#[trigger] occupants[i]).position.end_coordinates.height <= h,
        },
    decreases n,
{
    if n > 0 {
        lemma_next_height_among(occupants, h, n - 1);
        let rest = next_height_among(occupants, h, n - 1);
        let top = occupants[n - 1].position.end_coordinates.height;
        if top > h && (rest is None || top < rest.unwrap()) {
            assert(occupants[n - 1].position.end_coordinates.height == top);
        } else if rest is Some {
            let i = choose|i: int|
                0 <= i < n - 1 && (#[trigger] occupants[i]).position.end_coordinates.height
                    == rest.unwrap();
            assert(occupants[i].position.end_coordinates.height == rest.unwrap());
        }
    }
}

/// Computes [`next_height`].
pub fn next_base_height(occupants: &Vec<Occupant>, h: u64) -> (r: Option<u64>)
    ensures
        r == next_height(occupants@, h),
        r matches Some(m) ==> m > h,
{
    let mut best: Option<u64> = None;
    let mut n: usize = 0;
    while n < occupants.len()
        invariant
            n <= occupants.len(),
            best == next_height_among(occupants@, h, n as int),
            best matches Some(m) ==> m > h,
        decreases occupants.len() - n,
    {
        let top: u64 = occupants[n].position.end_coordinates.height;
        let lower = match best {
            Some(m) => top < m,
            None => true,
        };
        if top > h && lower {
            best = Some(top);
        }
        n += 1;
    }
    best
}

/// The base `sh` is low enough for a box of height `o.2`.
pub open spec fn layer_fits(o: (u64, u64, u64), c: &Container, sh: u64) -> bool {
    sh + o.2 <= c.height + EPSILON
}

/// The first feasible box, going through the base heights from `sh` on.
pub open spec fn height_scan(
    o: (u64, u64, u64),
    c: &Container,
    occupants: Seq<Occupant>,
    near_first: bool,
    sh: u64,
) -> Option<Position>
    decreases u64::MAX - sh,
{
    let here = if layer_fits(o, c, sh) {
        layer_scan(o, c, occupants, sh, near_first, 0)
    } else {
        None
    };
    match here {
        Some(p) => Some(p),
        None => match next_height(occupants, sh) {
            Some(m) => if m > sh {
                height_scan(o, c, occupants, near_first, m)
            } else {
                None
            },
            None => None,
        },
    }
}

/// The first feasible box with its orientation, going through the
/// orientations from the `k`-th on.
pub open spec fn orientation_scan(
    dims: (u64, u64, u64),
    c: &Container,
    occupants: Seq<Occupant>,
    near_first: bool,
    k: int,
) -> Option<(Position, (u64, u64, u64))>
    decreases 6 - k,
{
    if k < 0 || k >= 6 {
        None
    } else {
        let o = orientation(dims, k);
        let found = if fits(o, c) {
            height_scan(o, c, occupants, near_first, 0)
        } else {
            None
        };
        match found {
            Some(p) => Some((p, o)),
            None => orientation_scan(dims, c, occupants, near_first, k + 1),
        }
    }
}

/// The place that the search finds for an item of the extents `dims` in the
/// container `c` beside `occupants`, with the orientation used: the first
/// feasible candidate in the order of the search, if there is one.
pub open spec fn spot(
    dims: (u64, u64, u64),
    c: &Container,
    occupants: Seq<Occupant>,
    near_first: bool,
) -> Option<(Position, (u64, u64, u64))> {
    orientation_scan(dims, c, occupants, near_first, 0)
}

fn scan_row(o: (u64, u64, u64), c: &Container, occupants: &Vec<Occupant>, sh: u64, sd: u64) -> (r:
    Option<Position>)
    requires
        fits(o, c),
        sd + o.1 <= u64::MAX,
        sh + o.2 <= u64::MAX,
    ensures
        r == row_scan(o, c, occupants@, sh, sd, 0),
        r matches Some(p) ==> feasible(p, c, occupants@) && p.start_coordinates.height == sh
            && p.start_coordinates.width + o.0 == p.end_coordinates.width
            && p.start_coordinates.depth + o.1 == p.end_coordinates.depth
            && p.start_coordinates.height + o.2 == p.end_coordinates.height,
{
    let points: u64 = grid_points_of(c.width);
    let mut i: u64 = 0;
    while i < points
        invariant
            i <= points,
            points == grid_points(c.width as int),
            points <= 12,
            fits(o, c),
            sd + o.1 <= u64::MAX,
            sh + o.2 <= u64::MAX,
            row_scan(o, c, occupants@, sh, sd, i as int) == row_scan(o, c, occupants@, sh, sd, 0),
        decreases points - i,
    {
        let sw: u64 = grid_offset_of(c.width, o.0, i);
        let p = make_box(o, sw, sd, sh);
        if is_feasible(&p, c, occupants) {
            return Some(p);
        }
        i += 1;
    }
    None
}

fn scan_layer(
    o: (u64, u64, u64),
    c: &Container,
    occupants: &Vec<Occupant>,
    sh: u64,
    near_first: bool,
) -> (r: Option<Position>)
    requires
        fits(o, c),
        sh + o.2 <= u64::MAX,
    ensures
        r == layer_scan(o, c, occupants@, sh, near_first, 0),
        r matches Some(p) ==> feasible(p, c, occupants@) && p.start_coordinates.height == sh
            && p.start_coordinates.width + o.0 == p.end_coordinates.width
            && p.start_coordinates.depth + o.1 == p.end_coordinates.depth
            && p.start_coordinates.height + o.2 == p.end_coordinates.height,
{
    let points: u64 = grid_points_of(c.depth);
    let mut t: u64 = 0;
    while t < points
        invariant
            t <= points,
            points == grid_points(c.depth as int),
            points <= 12,
            fits(o, c),
            sh + o.2 <= u64::MAX,
            layer_scan(o, c, occupants@, sh, near_first, t as int) == layer_scan(
                o,
                c,
                occupants@,
                sh,
                near_first,
                0,
            ),
        decreases points - t,
    {
        let j: u64 = if near_first {
            t
        } else {
            points - 1 - t
        };
        let sd: u64 = grid_offset_of(c.depth, o.1, j);
        if let Some(p) = scan_row(o, c, occupants, sh, sd) {
            return Some(p);
        }
        t += 1;
    }
    None
}

/// Searches a place for a box of the extents `o`, as they stand: the first
/// feasible candidate in the order of the search.
pub fn scan_heights(o: (u64, u64, u64), c: &Container, occupants: &Vec<Occupant>, near_first: bool) -> (r:
    Option<Position>)
    requires
        c.well_formed(),
        fits(o, c),
    ensures
        r == height_scan(o, c, occupants@, near_first, 0),
        r matches Some(p) ==> feasible(p, c, occupants@)
            && p.start_coordinates.width + o.0 == p.end_coordinates.width
            && p.start_coordinates.depth + o.1 == p.end_coordinates.depth
            && p.start_coordinates.height + o.2 == p.end_coordinates.height
            && (p.start_coordinates.height == 0 || exists|i: int|
            0 <= i < occupants@.len() && (#[trigger] occupants@[i]).position.end_coordinates.height
                == p.start_coordinates.height),
{
    let mut sh: u64 = 0;
    loop
        invariant
            c.well_formed(),
            fits(o, c),
            height_scan(o, c, occupants@, near_first, sh) == height_scan(
                o,
                c,
                occupants@,
                near_first,
                0,
            ),
            sh == 0 || exists|i: int|
                0 <= i < occupants@.len() && (
                #[trigger] occupants@[i]).position.end_coordinates.height == sh,
        decreases u64::MAX - sh,
    {
        if sh as u128 + o.2 as u128 <= c.height as u128 + EPSILON as u128 {
            if let Some(p) = scan_layer(o, c, occupants, sh, near_first) {
                return Some(p);
            }
        }
        match next_base_height(occupants, sh) {
            Some(m) => {
                proof {
                    lemma_next_height_among(occupants@, sh, occupants@.len() as int);
                }
                sh = m;
            },
            None => {
                return None;
            },
        }
    }
}

/// Searches a place for an item of the extents `item_dims` in `container`,
/// beside the boxes in `current_placements_in_container`. An item of high
/// priority is tried near the opening first, any other at the back first.
/// Returns the box and the orientation used, or `None` where no candidate is
/// feasible.
pub fn find_spot_in_container(
    item_dims: (u64, u64, u64),
    container: &Container,
    current_placements_in_container: &Vec<Occupant>,
    is_high_priority: bool,
) -> (r: Option<(Position, (u64, u64, u64))>)
    requires
        container.well_formed(),
    ensures
        r == spot(item_dims, container, current_placements_in_container@, is_high_priority),
        r matches Some((p, o)) ==> {
            &&& feasible(p, container, current_placements_in_container@)
            &&& exists|k: int| 0 <= k < 6 && o == #[trigger] orientation(item_dims, k)
            &&& fits(o, container)
            &&& p.start_coordinates.width + o.0 == p.end_coordinates.width
            &&& p.start_coordinates.depth + o.1 == p.end_coordinates.depth
            &&& p.start_coordinates.height + o.2 == p.end_coordinates.height
            &&& (p.start_coordinates.height == 0 || exists|i: int|
                0 <= i < current_placements_in_container@.len() && (
                #[trigger] current_placements_in_container@[i]).position.end_coordinates.height
                    == p.start_coordinates.height)
        },
{
    let mut k: usize = 0;
    while k < 6
        invariant
            k <= 6,
            container.well_formed(),
            orientation_scan(
                item_dims,
                container,
                current_placements_in_container@,
                is_high_priority,
                k as int,
            ) == spot(item_dims, container, current_placements_in_container@, is_high_priority),
        decreases 6 - k,
    {
        let o = orientation_of(item_dims, k);
        if does_fit(o, container) {
            if let Some(p) = scan_heights(o, container, current_placements_in_container, is_high_priority) {
                return Some((p, o));
            }
        }
        k += 1;
    }
    None
}


/// `h` is a base height that the search tries: the floor, or the top of an
/// occupant.
pub open spec fn base_height(occupants: Seq<Occupant>, h: u64) -> bool {
    h == 0 || exists|j: int|
        0 <= j < occupants.len() && (#[trigger] occupants[j]).position.end_coordinates.height == h
}

/// The candidate that the search tries in the `k`-th orientation, at the
/// base height `h`, at the depth that is tried `t`-th and at the `i`-th
/// width offset.
pub open spec fn candidate(
    dims: (u64, u64, u64),
    c: &Container,
    near_first: bool,
    k: int,
    h: u64,
    t: int,
    i: int,
) -> Position {
    let o = orientation(dims, k);
    box_at(
        o,
        grid_offset(c.width as int, o.0 as int, i) as u64,
        grid_offset(
            c.depth as int,
            o.1 as int,
            scan_index(grid_points(c.depth as int), t, near_first),
        ) as u64,
        h,
    )
}

/// The search tries the candidate numbered `(k, h, t, i)`, and the
/// candidate is feasible.
pub open spec fn admissible(
    dims: (u64, u64, u64),
    c: &Container,
    occupants: Seq<Occupant>,
    near_first: bool,
    k: int,
    h: u64,
    t: int,
    i: int,
) -> bool {
    &&& 0 <= k < 6
    &&& fits(orientation(dims, k), c)
    &&& base_height(occupants, h)
    &&& layer_fits(orientation(dims, k), c, h)
    &&& 0 <= t < grid_points(c.depth as int)
    &&& 0 <= i < grid_points(c.width as int)
    &&& feasible(candidate(dims, c, near_first, k, h, t, i), c, occupants)
}

/// The candidate numbered `(k, h, t, i)` is tried before the one numbered
/// `(k2, h2, t2, i2)`.
pub open spec fn tried_before(k: int, h: u64, t: int, i: int, k2: int, h2: u64, t2: int, i2: int) -> bool {
    k < k2 || (k == k2 && (h < h2 || (h == h2 && (t < t2 || (t == t2 && i < i2)))))
}

proof fn lemma_row_scan(
    dims: (u64, u64, u64),
    c: &Container,
    occupants: Seq<Occupant>,
    near_first: bool,
    k: int,
    h: u64,
    t: int,
    i: int,
)
    requires
        0 <= i <= grid_points(c.width as int),
    ensures
        ({
            let o = orientation(dims, k);
            let sd = grid_offset(
                c.depth as int,
                o.1 as int,
                scan_index(grid_points(c.depth as int), t, near_first),
            ) as u64;
            match row_scan(o, c, occupants, h, sd, i) {
                Some(p) => exists|i1: int|
                    {
                        &&& i <= i1 < grid_points(c.width as int)
                        &&& p == #[trigger] candidate(dims, c, near_first, k, h, t, i1)
                        &&& feasible(p, c, occupants)
                        &&& forall|i0: int|
                            i <= i0 < i1 ==> !feasible(
                                #[trigger] candidate(dims, c, near_first, k, h, t, i0),
                                c,
                                occupants,
                            )
                    },
                None => forall|i0: int|
                    i <= i0 < grid_points(c.width as int) ==> !feasible(
                        #[trigger] candidate(dims, c, near_first, k, h, t, i0),
                        c,
                        occupants,
                    ),
            }
        }),
    decreases grid_points(c.width as int) - i,
{
    let o = orientation(dims, k);
    let sd = grid_offset(
        c.depth as int,
        o.1 as int,
        scan_index(grid_points(c.depth as int), t, near_first),
    ) as u64;
    if i < grid_points(c.width as int) {
        let p = candidate(dims, c, near_first, k, h, t, i);
        if feasible(p, c, occupants) {
            assert(row_scan(o, c, occupants, h, sd, i) == Some(p));
        } else {
            lemma_row_scan(dims, c, occupants, near_first, k, h, t, i + 1);
            match row_scan(o, c, occupants, h, sd, i + 1) {
                Some(q) => {
                    let i1 = choose|i1: int|
                        {
                            &&& i + 1 <= i1 < grid_points(c.width as int)
                            &&& q == #[trigger] candidate(dims, c, near_first, k, h, t, i1)
                            &&& feasible(q, c, occupants)
                            &&& forall|i0: int|
                                i + 1 <= i0 < i1 ==> !feasible(
                                    #[trigger] candidate(dims, c, near_first, k, h, t, i0),
                                    c,
                                    occupants,
                                )
                        };
                    assert(q == candidate(dims, c, near_first, k, h, t, i1));
                },
                None => {},
            }
        }
    }
}

proof fn lemma_layer_scan(
    dims: (u64, u64, u64),
    c: &Container,
    occupants: Seq<Occupant>,
    near_first: bool,
    k: int,
    h: u64,
    t: int,
)
    requires
        0 <= t <= grid_points(c.depth as int),
    ensures
        match layer_scan(orientation(dims, k), c, occupants, h, near_first, t) {
            Some(p) => exists|t1: int, i1: int|
                {
                    &&& t <= t1 < grid_points(c.depth as int)
                    &&& 0 <= i1 < grid_points(c.width as int)
                    &&& p == #[trigger] candidate(dims, c, near_first, k, h, t1, i1)
                    &&& feasible(p, c, occupants)
                    &&& forall|t0: int, i0: int|
                        t <= t0 && 0 <= i0 < grid_points(c.width as int) && (t0 < t1 || (t0 == t1
                            && i0 < i1)) ==> !feasible(
                            #[trigger] candidate(dims, c, near_first, k, h, t0, i0),
                            c,
                            occupants,
                        )
                },
            None => forall|t0: int, i0: int|
                t <= t0 < grid_points(c.depth as int) && 0 <= i0 < grid_points(c.width as int)
                    ==> !feasible(
                    #[trigger] candidate(dims, c, near_first, k, h, t0, i0),
                    c,
                    occupants,
                ),
        },
    decreases grid_points(c.depth as int) - t,
{
    let o = orientation(dims, k);
    if t < grid_points(c.depth as int) {
        let sd = grid_offset(
            c.depth as int,
            o.1 as int,
            scan_index(grid_points(c.depth as int), t, near_first),
        ) as u64;
        lemma_row_scan(dims, c, occupants, near_first, k, h, t, 0);
        match row_scan(o, c, occupants, h, sd, 0) {
            Some(p) => {
                let i1 = choose|i1: int|
                    {
                        &&& 0 <= i1 < grid_points(c.width as int)
                        &&& p == #[trigger] candidate(dims, c, near_first, k, h, t, i1)
                        &&& feasible(p, c, occupants)
                        &&& forall|i0: int|
                            0 <= i0 < i1 ==> !feasible(
                                #[trigger] candidate(dims, c, near_first, k, h, t, i0),
                                c,
                                occupants,
                            )
                    };
                assert(p == candidate(dims, c, near_first, k, h, t, i1));
            },
            None => {
                lemma_layer_scan(dims, c, occupants, near_first, k, h, t + 1);
                match layer_scan(o, c, occupants, h, near_first, t + 1) {
                    Some(q) => {
                        let (t1, i1) = choose|t1: int, i1: int|
                            {
                                &&& t + 1 <= t1 < grid_points(c.depth as int)
                                &&& 0 <= i1 < grid_points(c.width as int)
                                &&& q == #[trigger] candidate(dims, c, near_first, k, h, t1, i1)
                                &&& feasible(q, c, occupants)
                                &&& forall|t0: int, i0: int|
                                    t + 1 <= t0 && 0 <= i0 < grid_points(c.width as int) && (t0
                                        < t1 || (t0 == t1 && i0 < i1)) ==> !feasible(
                                        #[trigger] candidate(dims, c, near_first, k, h, t0, i0),
                                        c,
                                        occupants,
                                    )
                            };
                        assert(q == candidate(dims, c, near_first, k, h, t1, i1));
                    },
                    None => {},
                }
            },
        }
    }
}


/// The candidate numbered `(k, h, t, i)` is the first feasible one that the
/// search tries among those of the orientations from `k0` on and, in the
/// orientation `k0`, of the base heights from `h0` on.
pub open spec fn first_admissible_from(
    dims: (u64, u64, u64),
    c: &Container,
    occupants: Seq<Occupant>,
    near_first: bool,
    k0: int,
    h0: u64,
    k: int,
    h: u64,
    t: int,
    i: int,
) -> bool {
    &&& admissible(dims, c, occupants, near_first, k, h, t, i)
    &&& k > k0 || (k == k0 && h >= h0)
    &&& forall|k2: int, h2: u64, t2: int, i2: int|
        (k2 > k0 || (k2 == k0 && h2 >= h0)) && tried_before(k2, h2, t2, i2, k, h, t, i)
            ==> !#[trigger] admissible(dims, c, occupants, near_first, k2, h2, t2, i2)
}

/// No feasible candidate is tried among those of the orientations from `k0`
/// on and, in the orientation `k0`, of the base heights from `h0` on.
pub open spec fn none_admissible_from(
    dims: (u64, u64, u64),
    c: &Container,
    occupants: Seq<Occupant>,
    near_first: bool,
    k0: int,
    h0: u64,
) -> bool {
    forall|k2: int, h2: u64, t2: int, i2: int|
        (k2 > k0 || (k2 == k0 && h2 >= h0)) ==> !#[trigger] admissible(
            dims,
            c,
            occupants,
            near_first,
            k2,
            h2,
            t2,
            i2,
        )
}

proof fn lemma_height_scan(
    dims: (u64, u64, u64),
    c: &Container,
    occupants: Seq<Occupant>,
    near_first: bool,
    k: int,
    sh: u64,
)
    requires
        0 <= k < 6,
        fits(orientation(dims, k), c),
        base_height(occupants, sh),
    ensures
        match height_scan(orientation(dims, k), c, occupants, near_first, sh) {
            Some(p) => exists|h1: u64, t1: int, i1: int|
                {
                    &&& #[trigger] admissible(dims, c, occupants, near_first, k, h1, t1, i1)
                    &&& h1 >= sh
                    &&& p == candidate(dims, c, near_first, k, h1, t1, i1)
                    &&& forall|h2: u64, t2: int, i2: int|
                        h2 >= sh && tried_before(k, h2, t2, i2, k, h1, t1, i1) ==> !#[trigger] admissible(
                            dims,
                            c,
                            occupants,
                            near_first,
                            k,
                            h2,
                            t2,
                            i2,
                        )
                },
            None => forall|h2: u64, t2: int, i2: int|
                h2 >= sh ==> !#[trigger] admissible(dims, c, occupants, near_first, k, h2, t2, i2),
        },
    decreases u64::MAX - sh,
{
    let o = orientation(dims, k);
    lemma_next_height_among(occupants, sh, occupants.len() as int);
    let next = next_height(occupants, sh);
    // A base height from `sh` on is `sh` itself, or no lower than the next.
    assert forall|h2: u64| h2 > sh && base_height(occupants, h2) implies next is Some && h2
        >= next.unwrap() by {
        let j = choose|j: int|
            0 <= j < occupants.len() && (#[trigger] occupants[j]).position.end_coordinates.height
                == h2;
        assert(occupants[j].position.end_coordinates.height > sh);
    }
    let here = if layer_fits(o, c, sh) {
        layer_scan(o, c, occupants, sh, near_first, 0)
    } else {
        None
    };
    if layer_fits(o, c, sh) {
        lemma_layer_scan(dims, c, occupants, near_first, k, sh, 0);
    }
    match here {
        Some(p) => {
            let (t1, i1) = choose|t1: int, i1: int|
                {
                    &&& 0 <= t1 < grid_points(c.depth as int)
                    &&& 0 <= i1 < grid_points(c.width as int)
                    &&& p == #[trigger] candidate(dims, c, near_first, k, sh, t1, i1)
                    &&& feasible(p, c, occupants)
                    &&& forall|t0: int, i0: int|
                        0 <= t0 && 0 <= i0 < grid_points(c.width as int) && (t0 < t1 || (t0 == t1
                            && i0 < i1)) ==> !feasible(
                            #[trigger] candidate(dims, c, near_first, k, sh, t0, i0),
                            c,
                            occupants,
                        )
                };
            assert(admissible(dims, c, occupants, near_first, k, sh, t1, i1));
            assert forall|h2: u64, t2: int, i2: int|
                h2 >= sh && tried_before(k, h2, t2, i2, k, sh, t1, i1) implies !#[trigger] admissible(
                dims,
                c,
                occupants,
                near_first,
                k,
                h2,
                t2,
                i2,
            ) by {
                if admissible(dims, c, occupants, near_first, k, h2, t2, i2) {
                    assert(h2 == sh);
                    assert(!feasible(candidate(dims, c, near_first, k, sh, t2, i2), c, occupants));
                }
            }
        },
        None => {
            assert forall|t2: int, i2: int| !#[trigger] admissible(
                dims,
                c,
                occupants,
                near_first,
                k,
                sh,
                t2,
                i2,
            ) by {
                if admissible(dims, c, occupants, near_first, k, sh, t2, i2) {
                    assert(!feasible(candidate(dims, c, near_first, k, sh, t2, i2), c, occupants));
                }
            }
            match next {
                Some(m) => {
                    let j = choose|j: int|
                        0 <= j < occupants.len() && (
                        #[trigger] occupants[j]).position.end_coordinates.height == m;
                    assert(base_height(occupants, m));
                    lemma_height_scan(dims, c, occupants, near_first, k, m);
                    match height_scan(o, c, occupants, near_first, m) {
                        Some(p) => {
                            let (h1, t1, i1) = choose|h1: u64, t1: int, i1: int|
                                {
                                    &&& #[trigger] admissible(
                                        dims,
                                        c,
                                        occupants,
                                        near_first,
                                        k,
                                        h1,
                                        t1,
                                        i1,
                                    )
                                    &&& h1 >= m
                                    &&& p == candidate(dims, c, near_first, k, h1, t1, i1)
                                    &&& forall|h2: u64, t2: int, i2: int|
                                        h2 >= m && tried_before(k, h2, t2, i2, k, h1, t1, i1)
                                            ==> !#[trigger] admissible(
                                            dims,
                                            c,
                                            occupants,
                                            near_first,
                                            k,
                                            h2,
                                            t2,
                                            i2,
                                        )
                                };
                            assert forall|h2: u64, t2: int, i2: int|
                                h2 >= sh && tried_before(
                                    k,
                                    h2,
                                    t2,
                                    i2,
                                    k,
                                    h1,
                                    t1,
                                    i1,
                                ) implies !#[trigger] admissible(
                                dims,
                                c,
                                occupants,
                                near_first,
                                k,
                                h2,
                                t2,
                                i2,
                            ) by {
                                if admissible(dims, c, occupants, near_first, k, h2, t2, i2) {
                                    assert(h2 > sh);
                                    assert(h2 >= m);
                                }
                            }
                        },
                        None => {
                            assert forall|h2: u64, t2: int, i2: int| h2 >= sh implies !#[trigger] admissible(
                                dims,
                                c,
                                occupants,
                                near_first,
                                k,
                                h2,
                                t2,
                                i2,
                            ) by {
                                if admissible(dims, c, occupants, near_first, k, h2, t2, i2) {
                                    assert(h2 > sh);
                                    assert(h2 >= m);
                                }
                            }
                        },
                    }
                },
                None => {
                    assert forall|h2: u64, t2: int, i2: int| h2 >= sh implies !#[trigger] admissible(
                        dims,
                        c,
                        occupants,
                        near_first,
                        k,
                        h2,
                        t2,
                        i2,
                    ) by {
                        if admissible(dims, c, occupants, near_first, k, h2, t2, i2) {
                            assert(h2 == sh);
                        }
                    }
                },
            }
        },
    }
}

proof fn lemma_orientation_scan(
    dims: (u64, u64, u64),
    c: &Container,
    occupants: Seq<Occupant>,
    near_first: bool,
    k: int,
)
    requires
        0 <= k <= 6,
    ensures
        match orientation_scan(dims, c, occupants, near_first, k) {
            Some((p, o)) => exists|k1: int, h1: u64, t1: int, i1: int|
                {
                    &&& #[trigger] first_admissible_from(
                        dims,
                        c,
                        occupants,
                        near_first,
                        k,
                        0,
                        k1,
                        h1,
                        t1,
                        i1,
                    )
                    &&& p == candidate(dims, c, near_first, k1, h1, t1, i1)
                    &&& o == orientation(dims, k1)
                },
            None => none_admissible_from(dims, c, occupants, near_first, k, 0),
        },
    decreases 6 - k,
{
    if k < 6 {
        let o = orientation(dims, k);
        if fits(o, c) {
            lemma_height_scan(dims, c, occupants, near_first, k, 0);
        }
        let found = if fits(o, c) {
            height_scan(o, c, occupants, near_first, 0)
        } else {
            None
        };
        match found {
            Some(p) => {
                let (h1, t1, i1) = choose|h1: u64, t1: int, i1: int|
                    {
                        &&& #[trigger] admissible(dims, c, occupants, near_first, k, h1, t1, i1)
                        &&& h1 >= 0
                        &&& p == candidate(dims, c, near_first, k, h1, t1, i1)
                        &&& forall|h2: u64, t2: int, i2: int|
                            h2 >= 0 && tried_before(k, h2, t2, i2, k, h1, t1, i1) ==> !#[trigger] admissible(
                                dims,
                                c,
                                occupants,
                                near_first,
                                k,
                                h2,
                                t2,
                                i2,
                            )
                    };
                assert(first_admissible_from(dims, c, occupants, near_first, k, 0, k, h1, t1, i1));
            },
            None => {
                lemma_orientation_scan(dims, c, occupants, near_first, k + 1);
                match orientation_scan(dims, c, occupants, near_first, k + 1) {
                    Some((p, o1)) => {
                        let (k1, h1, t1, i1) = choose|k1: int, h1: u64, t1: int, i1: int|
                            {
                                &&& #[trigger] first_admissible_from(
                                    dims,
                                    c,
                                    occupants,
                                    near_first,
                                    k + 1,
                                    0,
                                    k1,
                                    h1,
                                    t1,
                                    i1,
                                )
                                &&& p == candidate(dims, c, near_first, k1, h1, t1, i1)
                                &&& o1 == orientation(dims, k1)
                            };
                        assert(first_admissible_from(
                            dims,
                            c,
                            occupants,
                            near_first,
                            k,
                            0,
                            k1,
                            h1,
                            t1,
                            i1,
                        ));
                    },
                    None => {},
                }
            },
        }
    }
}

/// The search is first-fit: where it finds a place, the place is the first
/// feasible candidate in the order in which the candidates are tried, with
/// the orientation of that candidate; it finds none only where no candidate
/// is feasible.
pub proof fn lemma_spot_is_first_fit(
    dims: (u64, u64, u64),
    c: &Container,
    occupants: Seq<Occupant>,
    near_first: bool,
)
    ensures
        match spot(dims, c, occupants, near_first) {
            Some((p, o)) => exists|k: int, h: u64, t: int, i: int|
                {
                    &&& #[trigger] admissible(dims, c, occupants, near_first, k, h, t, i)
                    &&& p == candidate(dims, c, near_first, k, h, t, i)
                    &&& o == orientation(dims, k)
                    &&& forall|k2: int, h2: u64, t2: int, i2: int|
                        tried_before(k2, h2, t2, i2, k, h, t, i) ==> !#[trigger] admissible(
                            dims,
                            c,
                            occupants,
                            near_first,
                            k2,
                            h2,
                            t2,
                            i2,
                        )
                },
            None => forall|k: int, h: u64, t: int, i: int|
                !#[trigger] admissible(dims, c, occupants, near_first, k, h, t, i),
        },
{
    lemma_orientation_scan(dims, c, occupants, near_first, 0);
    match spot(dims, c, occupants, near_first) {
        Some((p, o)) => {
            let (k, h, t, i) = choose|k: int, h: u64, t: int, i: int|
                {
                    &&& #[trigger] first_admissible_from(
                        dims,
                        c,
                        occupants,
                        near_first,
                        0,
                        0,
                        k,
                        h,
                        t,
                        i,
                    )
                    &&& p == candidate(dims, c, near_first, k, h, t, i)
                    &&& o == orientation(dims, k)
                };
            assert(admissible(dims, c, occupants, near_first, k, h, t, i));
            assert forall|k2: int, h2: u64, t2: int, i2: int|
                tried_before(k2, h2, t2, i2, k, h, t, i) implies !#[trigger] admissible(
                dims,
                c,
                occupants,
                near_first,
                k2,
                h2,
                t2,
                i2,
            ) by {
                if admissible(dims, c, occupants, near_first, k2, h2, t2, i2) {
                    assert(k2 >= 0);
                }
            }
        },
        None => {
            assert forall|k: int, h: u64, t: int, i: int| !#[trigger] admissible(
                dims,
                c,
                occupants,
                near_first,
                k,
                h,
                t,
                i,
            ) by {
                if admissible(dims, c, occupants, near_first, k, h, t, i) {
                    assert(k >= 0);
                }
            }
        },
    }
}

} // verus!
