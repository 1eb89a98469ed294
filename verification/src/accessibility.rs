//! How many boxes stand between a box and the opening of its container.

use crate::geometry::{spans_cross, spans_overlap, Position};
use crate::simulation::Occupant;
use vstd::prelude::*;

verus! {

/// Seen from the opening, `blocking` covers part of `target`: the two
/// overlap in width and in height.
pub open spec fn covers(blocking: Position, target: Position) -> bool {
    &&& spans_overlap(
        blocking.start_coordinates.width,
        blocking.end_coordinates.width,
        target.start_coordinates.width,
        target.end_coordinates.width,
    )
    &&& spans_overlap(
        blocking.start_coordinates.height,
        blocking.end_coordinates.height,
        target.start_coordinates.height,
        target.end_coordinates.height,
    )
}

/// Whether `blocking_pos` covers part of `target_pos`, seen from the opening.
pub fn blocks_retrieval(blocking_pos: &Position, target_pos: &Position) -> (r: bool)
    ensures
        r == covers(*blocking_pos, *target_pos),
{
    spans_cross(
        blocking_pos.start_coordinates.width,
        blocking_pos.end_coordinates.width,
        target_pos.start_coordinates.width,
        target_pos.end_coordinates.width,
    ) && spans_cross(
        blocking_pos.start_coordinates.height,
        blocking_pos.end_coordinates.height,
        target_pos.start_coordinates.height,
        target_pos.end_coordinates.height,
    )
}

/// `other` has to be moved before `target` can be taken out: it starts
/// nearer to the opening and covers part of `target`.
pub open spec fn obstructs(other: Position, target: Position) -> bool {
    other.start_coordinates.depth < target.start_coordinates.depth && covers(other, target)
}

/// The number of the first `n` occupants that obstruct `target`.
pub open spec fn obstructions_among(target: Position, occupants: Seq<Occupant>, n: int) -> nat
    decreases n,
{
    if n <= 0 {
        0
    } else {
        obstructions_among(target, occupants, n - 1) + if obstructs(
            occupants[n - 1].position,
            target,
        ) {
            1nat
        } else {
            0nat
        }
    }
}

/// The number of occupants that obstruct `target`.
pub open spec fn retrieval_steps(target: Position, occupants: Seq<Occupant>) -> nat {
    obstructions_among(target, occupants, occupants.len() as int)
}

/// There are no more obstructions than occupants.
pub proof fn lemma_obstructions_bounded(target: Position, occupants: Seq<Occupant>, n: int)
    requires
        0 <= n <= occupants.len(),
    ensures
        obstructions_among(target, occupants, n) <= n,
    decreases n,
{
    if n > 0 {
        lemma_obstructions_bounded(target, occupants, n - 1);
    }
}

/// A box at the opening has nothing before it.
pub proof fn lemma_at_opening_is_free(target: Position, occupants: Seq<Occupant>, n: int)
    requires
        target.at_opening(),
    ensures
        obstructions_among(target, occupants, n) == 0,
    decreases n,
{
    if n > 0 {
        lemma_at_opening_is_free(target, occupants, n - 1);
    }
}

/// Counts the boxes among `existing_items` that have to be moved before the
/// box `position` can be taken out of the container.
pub fn calculate_retrieval_steps(position: &Position, existing_items: &Vec<Occupant>) -> (steps:
    usize)
    ensures
        steps == retrieval_steps(*position, existing_items@),
        position.at_opening() ==> steps == 0,
{
    proof {
        if position.at_opening() {
            lemma_at_opening_is_free(*position, existing_items@, existing_items@.len() as int);
        }
    }
    if position.start_coordinates.depth == 0 {
        return 0;
    }
    let mut steps: usize = 0;
    let mut n: usize = 0;
    while n < existing_items.len()
        invariant
            n <= existing_items.len(),
            steps == obstructions_among(*position, existing_items@, n as int),
            steps <= n,
        decreases existing_items.len() - n,
    {
        let other = &existing_items[n].position;
        if other.start_coordinates.depth < position.start_coordinates.depth && blocks_retrieval(
            other,
            position,
        ) {
            steps += 1;
        }
        n += 1;
    }
    steps
}

} // verus!
