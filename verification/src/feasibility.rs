//! Whether a box may be put into a container beside the boxes that are there:
//! it must lie inside the container, overlap none of them, and rest on the
//! floor or on one of them.

use crate::geometry::{is_within_epsilon, spans_cross, spans_overlap, within_epsilon};
use crate::geometry::{Position, EPSILON};
use crate::models::Container;
use crate::simulation::Occupant;
use vstd::prelude::*;

verus! {

/// The box has its corners in order on every axis, and does not reach
/// beyond the container's far faces.
pub open spec fn inside(p: Position, c: &Container) -> bool {
    &&& p.start_coordinates.width <= p.end_coordinates.width <= c.width + EPSILON
    &&& p.start_coordinates.depth <= p.end_coordinates.depth <= c.depth + EPSILON
    &&& p.start_coordinates.height <= p.end_coordinates.height <= c.height + EPSILON
}

/// Decides [`inside`].
pub fn is_inside(p: &Position, c: &Container) -> (r: bool)
    ensures
        r == inside(*p, c),
{
    p.start_coordinates.width <= p.end_coordinates.width && p.start_coordinates.depth
        <= p.end_coordinates.depth && p.start_coordinates.height <= p.end_coordinates.height && (
    p.end_coordinates.width <= c.width || p.end_coordinates.width - c.width <= EPSILON) && (
    p.end_coordinates.depth <= c.depth || p.end_coordinates.depth - c.depth <= EPSILON) && (
    p.end_coordinates.height <= c.height || p.end_coordinates.height - c.height <= EPSILON)
}

/// The box overlaps none of the occupants.
pub open spec fn clear_of(p: Position, occupants: Seq<Occupant>) -> bool {
    forall|i: int| 0 <= i < occupants.len() ==> !p.overlaps_spec(&(#[trigger] occupants[i]).position)
}

/// Decides [`clear_of`].
pub fn is_clear_of(p: &Position, occupants: &Vec<Occupant>) -> (r: bool)
    ensures
        r == clear_of(*p, occupants@),
{
    let mut i: usize = 0;
    while i < occupants.len()
        invariant
            i <= occupants.len(),
            forall|j: int| 0 <= j < i ==> !p.overlaps_spec(&(#[trigger] occupants@[j]).position),
        decreases occupants.len() - i,
    {
        if p.overlaps(&occupants[i].position) {
            return false;
        }
        i += 1;
    }
    true
}

/// The top of `below` is at the base of `p`, and their footprints overlap:
/// `p` can rest on `below`.
pub open spec fn bears(below: Position, p: Position) -> bool {
    &&& within_epsilon(below.end_coordinates.height, p.start_coordinates.height)
    &&& spans_overlap(
        p.start_coordinates.width,
        p.end_coordinates.width,
        below.start_coordinates.width,
        below.end_coordinates.width,
    )
    &&& spans_overlap(
        p.start_coordinates.depth,
        p.end_coordinates.depth,
        below.start_coordinates.depth,
        below.end_coordinates.depth,
    )
}

/// Decides [`bears`].
pub fn is_borne_by(p: &Position, below: &Position) -> (r: bool)
    ensures
        r == bears(*below, *p),
{
    is_within_epsilon(below.end_coordinates.height, p.start_coordinates.height) && spans_cross(
        p.start_coordinates.width,
        p.end_coordinates.width,
        below.start_coordinates.width,
        below.end_coordinates.width,
    ) && spans_cross(
        p.start_coordinates.depth,
        p.end_coordinates.depth,
        below.start_coordinates.depth,
        below.end_coordinates.depth,
    )
}

/// The box stands on the container's floor.
pub open spec fn on_floor(p: Position) -> bool {
    p.start_coordinates.height <= EPSILON
}

/// The box stands on the floor or rests on one of the occupants.
pub open spec fn supported(p: Position, occupants: Seq<Occupant>) -> bool {
    on_floor(p) || exists|i: int| 0 <= i < occupants.len() && bears(#[trigger] occupants[i].position, p)
}

/// Decides [`supported`].
pub fn is_supported(p: &Position, occupants: &Vec<Occupant>) -> (r: bool)
    ensures
        r == supported(*p, occupants@),
{
    if p.start_coordinates.height <= EPSILON {
        return true;
    }
    let mut i: usize = 0;
    while i < occupants.len()
        invariant
            i <= occupants.len(),
            forall|j: int| 0 <= j < i ==> !bears(#[trigger] occupants@[j].position, *p),
        decreases occupants.len() - i,
    {
        if is_borne_by(p, &occupants[i].position) {
            return true;
        }
        i += 1;
    }
    false
}

/// The box may be put into the container beside the occupants.
pub open spec fn feasible(p: Position, c: &Container, occupants: Seq<Occupant>) -> bool {
    inside(p, c) && clear_of(p, occupants) && supported(p, occupants)
}

/// Checks a candidate box: bounds, then overlap, then support.
pub fn is_feasible(p: &Position, c: &Container, occupants: &Vec<Occupant>) -> (r: bool)
    ensures
        r == feasible(*p, c, occupants@),
{
    is_inside(p, c) && is_clear_of(p, occupants) && is_supported(p, occupants)
}

} // verus!
