//! Axis-aligned boxes and the predicates on them.
//!
//! A length is a `u64` count of units; [`UNITS_PER_LENGTH`] of them make one
//! length of the outside world. All comparisons of lengths allow for
//! [`EPSILON`], and every other module goes through the predicates of this
//! one, so that the tolerance is decided in a single place.

use crate::models::Container;
use vstd::prelude::*;

verus! {

/// The tolerance: two faces that are at most this far into each other count
/// as touching.
pub const EPSILON: u64 = 1;

/// The number of units in one length of the outside world.
pub const UNITS_PER_LENGTH: u64 = 1_000_000;

/// The largest coordinate that a well-formed box may have.
pub const COORDINATE_LIMIT: u64 = 4_398_046_511_104;

/// A point, or the three extents of a box.
#[derive(Clone, Copy, Debug, PartialEq, Eq, Structural)]
pub struct Coordinates {
    pub width: u64,
    pub depth: u64,
    pub height: u64,
}

/// A box, given by its near-bottom-left and its far-top-right corner.
#[derive(Clone, Copy, Debug, PartialEq, Eq, Structural)]
pub struct Position {
    pub start_coordinates: Coordinates,
    pub end_coordinates: Coordinates,
}

/// Two intervals on one axis reach into each other by more than the tolerance.
pub open spec fn spans_overlap(a_start: u64, a_end: u64, b_start: u64, b_end: u64) -> bool {
    a_end > b_start + EPSILON && b_end > a_start + EPSILON
}

/// Decides [`spans_overlap`].
pub fn spans_cross(a_start: u64, a_end: u64, b_start: u64, b_end: u64) -> (r: bool)
    ensures
        r == spans_overlap(a_start, a_end, b_start, b_end),
{
    a_end > EPSILON && a_end - EPSILON > b_start && b_end > EPSILON && b_end - EPSILON > a_start
}

/// `a` and `b` differ by less than the tolerance.
pub open spec fn within_epsilon(a: u64, b: u64) -> bool {
    a - b < EPSILON && b - a < EPSILON
}

/// Decides [`within_epsilon`].
pub fn is_within_epsilon(a: u64, b: u64) -> (r: bool)
    ensures
        r == within_epsilon(a, b),
{
    if a >= b {
        a - b < EPSILON
    } else {
        b - a < EPSILON
    }
}

impl Position {
    /// The corners are in order on every axis and below the coordinate limit.
    pub open spec fn well_formed(&self) -> bool {
        &&& self.start_coordinates.width <= self.end_coordinates.width <= COORDINATE_LIMIT
        &&& self.start_coordinates.depth <= self.end_coordinates.depth <= COORDINATE_LIMIT
        &&& self.start_coordinates.height <= self.end_coordinates.height <= COORDINATE_LIMIT
    }

    /// Decides [`Position::well_formed`].
    pub fn is_well_formed(&self) -> (r: bool)
        ensures
            r == self.well_formed(),
    {
        self.start_coordinates.width <= self.end_coordinates.width
            && self.end_coordinates.width <= COORDINATE_LIMIT
            && self.start_coordinates.depth <= self.end_coordinates.depth
            && self.end_coordinates.depth <= COORDINATE_LIMIT
            && self.start_coordinates.height <= self.end_coordinates.height
            && self.end_coordinates.height <= COORDINATE_LIMIT
    }

    /// The product of the three extents.
    pub open spec fn volume_spec(&self) -> int {
        (self.end_coordinates.width - self.start_coordinates.width) * (self.end_coordinates.depth
            - self.start_coordinates.depth) * (self.end_coordinates.height
            - self.start_coordinates.height)
    }

    /// The volume of the box, in cubic units.
    pub fn volume(&self) -> (v: u128)
        requires
            self.well_formed(),
        ensures
            v == self.volume_spec(),
    {
        let width: u128 = (self.end_coordinates.width - self.start_coordinates.width) as u128;
        let depth: u128 = (self.end_coordinates.depth - self.start_coordinates.depth) as u128;
        let height: u128 = (self.end_coordinates.height - self.start_coordinates.height) as u128;
        assert(width * depth <= 4_398_046_511_104 * 4_398_046_511_104) by (nonlinear_arith)
            requires
                width <= 4_398_046_511_104,
                depth <= 4_398_046_511_104,
        ;
        let base: u128 = width * depth;
        assert(base * height <= 4_398_046_511_104 * 4_398_046_511_104 * 4_398_046_511_104)
            by (nonlinear_arith)
            requires
                base <= 4_398_046_511_104 * 4_398_046_511_104,
                height <= 4_398_046_511_104,
        ;
        base * height
    }

    /// The two boxes share more than touching faces: their projections
    /// overlap on all three axes.
    pub open spec fn overlaps_spec(&self, other: &Position) -> bool {
        &&& spans_overlap(
            self.start_coordinates.width,
            self.end_coordinates.width,
            other.start_coordinates.width,
            other.end_coordinates.width,
        )
        &&& spans_overlap(
            self.start_coordinates.depth,
            self.end_coordinates.depth,
            other.start_coordinates.depth,
            other.end_coordinates.depth,
        )
        &&& spans_overlap(
            self.start_coordinates.height,
            self.end_coordinates.height,
            other.start_coordinates.height,
            other.end_coordinates.height,
        )
    }

    /// Whether the two boxes overlap.
    #[verifier::when_used_as_spec(overlaps_spec)]
    pub fn overlaps(&self, other: &Position) -> (r: bool)
        ensures
            r == self.overlaps_spec(other),
    {
        spans_cross(
            self.start_coordinates.width,
            self.end_coordinates.width,
            other.start_coordinates.width,
            other.end_coordinates.width,
        ) && spans_cross(
            self.start_coordinates.depth,
            self.end_coordinates.depth,
            other.start_coordinates.depth,
            other.end_coordinates.depth,
        ) && spans_cross(
            self.start_coordinates.height,
            self.end_coordinates.height,
            other.start_coordinates.height,
            other.end_coordinates.height,
        )
    }

    /// The point lies in the box, whose far faces are left out.
    pub open spec fn contains_point_spec(&self, point: &Coordinates) -> bool {
        &&& self.start_coordinates.width <= point.width < self.end_coordinates.width
        &&& self.start_coordinates.depth <= point.depth < self.end_coordinates.depth
        &&& self.start_coordinates.height <= point.height < self.end_coordinates.height
    }

    /// Whether the point lies in the box.
    #[verifier::when_used_as_spec(contains_point_spec)]
    pub fn contains_point(&self, point: &Coordinates) -> (r: bool)
        ensures
            r == self.contains_point_spec(point),
    {
        self.start_coordinates.width <= point.width && point.width < self.end_coordinates.width
            && self.start_coordinates.depth <= point.depth && point.depth
            < self.end_coordinates.depth && self.start_coordinates.height <= point.height
            && point.height < self.end_coordinates.height
    }

    /// The box starts at the open face of its container.
    pub open spec fn at_opening(&self) -> bool {
        self.start_coordinates.depth < EPSILON
    }

    /// Whether the box can be taken out without moving another: whether it
    /// starts at the open face of its container.
    pub fn is_accessible(&self, _container: &Container) -> (r: bool)
        ensures
            r == self.at_opening(),
    {
        self.start_coordinates.depth < EPSILON
    }
}

/// Whether the box from `start1` to `end1` and the box from `start2` to
/// `end2` overlap.
pub fn boxes_overlap(start1: &Coordinates, end1: &Coordinates, start2: &Coordinates, end2: &Coordinates) -> (r:
    bool)
    ensures
        r == (Position { start_coordinates: *start1, end_coordinates: *end1 }).overlaps_spec(
            &(Position { start_coordinates: *start2, end_coordinates: *end2 }),
        ),
{
    let a = Position { start_coordinates: *start1, end_coordinates: *end1 };
    let b = Position { start_coordinates: *start2, end_coordinates: *end2 };
    a.overlaps(&b)
}

/// Overlapping is symmetric.
pub proof fn lemma_overlaps_symmetric(a: Position, b: Position)
    ensures
        a.overlaps_spec(&b) == b.overlaps_spec(&a),
{
}

/// Boxes that share a face, or are apart, on some axis do not overlap.
pub proof fn lemma_touching_is_not_overlapping(a: Position, b: Position)
    requires
        a.end_coordinates.width <= b.start_coordinates.width || a.end_coordinates.depth
            <= b.start_coordinates.depth || a.end_coordinates.height <= b.start_coordinates.height,
    ensures
        !a.overlaps_spec(&b),
        !b.overlaps_spec(&a),
{
}

} // verus!
