//! The state of a batch: which box each item fills in which container, and
//! the moves made so far.
//!
//! The state is changed in two ways only: an item that is not yet placed is
//! put into a container ([`put`]), or an occupant goes to another container
//! ([`relocated`]); a plan that makes room for an item ([`displaced`]) is a
//! relocation, and the item put where the occupant was. What holds of every
//! state that these lead to is stated here, as [`lawful`].

use crate::feasibility::{bears, feasible, inside, on_floor};
use crate::geometry::Position;
use crate::models::Container;
use vstd::prelude::*;

verus! {

/// An item of a batch: one that was stored before the batch, by its place in
/// the list of stored placements, or one that the batch is to place, by its
/// place in the request.
#[derive(Clone, Copy, Debug, PartialEq, Eq, Structural)]
pub enum ItemRef {
    Stored(usize),
    Requested(usize),
}

/// One box in a container, and the item that fills it, with what the engine
/// has to know of the item to move it: its priority and its extents as they
/// were declared, where they are known.
#[derive(Clone, Copy, Debug)]
pub struct Occupant {
    pub item: ItemRef,
    pub position: Position,
    pub is_preferred_zone: bool,
    pub known: bool,
    pub priority: i32,
    pub width: u64,
    pub depth: u64,
    pub height: u64,
}

/// One move of an item from a box in one container to a box in another.
#[derive(Clone, Copy, Debug)]
pub struct Move {
    pub item: ItemRef,
    pub from_container: usize,
    pub from_position: Position,
    pub to_container: usize,
    pub to_position: Position,
}

/// A plan to make room: the occupant `index` of the container `source`
/// goes to the box `evictee_position` in the container `destination`, and
/// the item that room is made for takes the box `target_position` in
/// `source`.
#[derive(Clone, Copy, Debug)]
pub struct Displacement {
    pub source: usize,
    pub index: usize,
    pub target_position: Position,
    pub destination: usize,
    pub evictee_position: Position,
}

/// The occupants of every container, and the moves made so far, in order.
#[derive(Debug)]
pub struct Simulation {
    pub occupancy: Vec<Vec<Occupant>>,
    pub transcript: Vec<Move>,
}

/// The occupants of every container as sequences.
pub open spec fn layout(occupancy: Seq<Vec<Occupant>>) -> Seq<Seq<Occupant>> {
    Seq::new(occupancy.len(), |c: int| occupancy[c]@)
}

/// No container of a layout has more occupants than can be counted.
pub proof fn lemma_layout_countable(occupancy: Seq<Vec<Occupant>>)
    ensures
        forall|c: int|
            0 <= c < layout(occupancy).len() ==> (#[trigger] layout(occupancy)[c]).len()
                <= usize::MAX,
{
    assert forall|c: int| 0 <= c < layout(occupancy).len() implies (#[trigger] layout(
        occupancy,
    )[c]).len() <= usize::MAX by {
        let v = occupancy[c];
        assert(v.len() == v@.len());
    }
}

/// `occupancy` with `o` as the last occupant of the container `c`.
pub open spec fn put(occupancy: Seq<Seq<Occupant>>, c: int, o: Occupant) -> Seq<Seq<Occupant>> {
    occupancy.update(c, occupancy[c].push(o))
}

/// The move that a plan makes.
pub open spec fn move_of(occupancy: Seq<Seq<Occupant>>, plan: Displacement) -> Move {
    let evictee = occupancy[plan.source as int][plan.index as int];
    Move {
        item: evictee.item,
        from_container: plan.source,
        from_position: evictee.position,
        to_container: plan.destination,
        to_position: plan.evictee_position,
    }
}

/// `occupancy` after the plan: the evictee has left its container, the
/// newcomer is the last occupant there, and the evictee is the last occupant
/// of its new container.
pub open spec fn displaced(
    occupancy: Seq<Seq<Occupant>>,
    plan: Displacement,
    newcomer: Occupant,
) -> Seq<Seq<Occupant>> {
    let s = plan.source as int;
    let evictee = occupancy[s][plan.index as int];
    put(
        occupancy.update(s, occupancy[s].remove(plan.index as int).push(newcomer)),
        plan.destination as int,
        rehoused(evictee, plan.evictee_position),
    )
}

/// The plan can be carried out: with the evictee gone the newcomer's box is
/// feasible, and the evictee's new box is feasible in another container.
pub open spec fn sound_plan(
    containers: Seq<Container>,
    occupancy: Seq<Seq<Occupant>>,
    plan: Displacement,
) -> bool {
    let s = plan.source as int;
    let d = plan.destination as int;
    &&& 0 <= s < occupancy.len()
    &&& 0 <= d < occupancy.len()
    &&& s != d
    &&& 0 <= plan.index < occupancy[s].len()
    &&& feasible(plan.target_position, &containers[s], occupancy[s].remove(plan.index as int))
    &&& feasible(plan.evictee_position, &containers[d], occupancy[d])
}

/// No two boxes in one container overlap.
pub open spec fn no_overlap(occupancy: Seq<Seq<Occupant>>) -> bool {
    forall|c: int, i: int, j: int|
        0 <= c < occupancy.len() && 0 <= i < j < occupancy[c].len() ==> !(
        #[trigger] occupancy[c][i]).position.overlaps_spec(&(#[trigger] occupancy[c][j]).position)
}

/// Every box lies inside its container.
pub open spec fn bounded(occupancy: Seq<Seq<Occupant>>, containers: Seq<Container>) -> bool {
    forall|c: int, i: int|
        0 <= c < occupancy.len() && 0 <= i < occupancy[c].len() ==> inside(
            (#[trigger] occupancy[c][i]).position,
            &containers[c],
        )
}

/// The `i`-th of the occupants stands on the floor or rests on another one.
pub open spec fn rests(occupants: Seq<Occupant>, i: int) -> bool {
    on_floor(occupants[i].position) || exists|j: int|
        0 <= j < occupants.len() && j != i && bears(
            (#[trigger] occupants[j]).position,
            occupants[i].position,
        )
}

/// Every box stands on the floor or rests on another box of its container.
pub open spec fn all_supported(occupancy: Seq<Seq<Occupant>>) -> bool {
    forall|c: int, i: int|
        0 <= c < occupancy.len() && 0 <= i < occupancy[c].len() ==> #[trigger] rests(
            occupancy[c],
            i,
        )
}

/// A box that could bear the box `p` was moved out of the container `c`.
pub open spec fn undermined(transcript: Seq<Move>, c: int, p: Position) -> bool {
    exists|m: int|
        0 <= m < transcript.len() && (#[trigger] transcript[m]).from_container == c && bears(
            transcript[m].from_position,
            p,
        )
}

/// Every box stands on the floor, rests on another box of its container, or
/// has lost a box that bore it to a move of the transcript.
pub open spec fn anchored(occupancy: Seq<Seq<Occupant>>, transcript: Seq<Move>) -> bool {
    forall|c: int, i: int|
        0 <= c < occupancy.len() && 0 <= i < occupancy[c].len() ==> #[trigger] rests(
            occupancy[c],
            i,
        ) || undermined(transcript, c, occupancy[c][i].position)
}

/// No occupant is the item `item`.
pub open spec fn absent(occupancy: Seq<Seq<Occupant>>, item: ItemRef) -> bool {
    forall|c: int, i: int|
        0 <= c < occupancy.len() && 0 <= i < occupancy[c].len() ==> (
        #[trigger] occupancy[c][i]).item != item
}

/// No item fills more than one box.
pub open spec fn singular(occupancy: Seq<Seq<Occupant>>) -> bool {
    forall|c: int, i: int, d: int, j: int|
        0 <= c < occupancy.len() && 0 <= i < occupancy[c].len() && 0 <= d < occupancy.len() && 0
            <= j < occupancy[d].len() && (c != d || i != j) ==> (
        #[trigger] occupancy[c][i]).item != (#[trigger] occupancy[d][j]).item
}

/// Every occupant was stored before the batch.
pub open spec fn only_stored(occupancy: Seq<Seq<Occupant>>) -> bool {
    forall|c: int, i: int|
        0 <= c < occupancy.len() && 0 <= i < occupancy[c].len() ==> (
        #[trigger] occupancy[c][i]).item is Stored
}

/// The occupancy as a set of records: the item, the number of its container
/// and its box.
pub open spec fn records(occupancy: Seq<Seq<Occupant>>) -> Set<(ItemRef, int, Position)> {
    Set::new(
        |r: (ItemRef, int, Position)|
            exists|i: int|
                0 <= r.1 < occupancy.len() && 0 <= i < occupancy[r.1].len() && (
                #[trigger] occupancy[r.1][i]).item == r.0 && occupancy[r.1][i].position == r.2,
    )
}

/// The records of the items that were stored before the batch.
pub open spec fn stored_records(occupancy: Seq<Seq<Occupant>>) -> Set<(ItemRef, int, Position)> {
    Set::new(|r: (ItemRef, int, Position)| r.0 is Stored && records(occupancy).contains(r))
}

/// The set of records after the move `m`: where the item is at the place
/// that the move takes it from, it is at the place that the move takes it to
/// instead; else nothing changes.
pub open spec fn replay_move(s: Set<(ItemRef, int, Position)>, m: Move) -> Set<
    (ItemRef, int, Position),
> {
    let from = (m.item, m.from_container as int, m.from_position);
    if s.contains(from) {
        s.remove(from).insert((m.item, m.to_container as int, m.to_position))
    } else {
        s
    }
}

/// The set of records after the moves of the transcript, made in order.
pub open spec fn replay(s: Set<(ItemRef, int, Position)>, transcript: Seq<Move>) -> Set<
    (ItemRef, int, Position),
>
    decreases transcript.len(),
{
    if transcript.len() == 0 {
        s
    } else {
        replay_move(replay(s, transcript.drop_last()), transcript.last())
    }
}

/// What holds of the state of a batch that began with the occupancy `start`
/// and an empty transcript:
/// - where no boxes overlapped at the start, none do;
/// - where every box lay inside its container, every box does;
/// - where every box was supported, every box is, but for those that a move
///   took the support from;
/// - where no item filled two boxes and all were stored items, no item
///   fills two boxes, and making the moves of the transcript on the records
///   of the start gives the records that the stored items have now.
pub open spec fn lawful(
    containers: Seq<Container>,
    start: Seq<Seq<Occupant>>,
    occupancy: Seq<Seq<Occupant>>,
    transcript: Seq<Move>,
) -> bool {
    &&& occupancy.len() == start.len()
    &&& no_overlap(start) ==> no_overlap(occupancy)
    &&& bounded(start, containers) ==> bounded(occupancy, containers)
    &&& all_supported(start) ==> anchored(occupancy, transcript)
    &&& singular(start) && only_stored(start) ==> singular(occupancy) && stored_records(occupancy)
        == replay(records(start), transcript)
}

/// A batch that has made no move has every box supported.
pub proof fn lemma_anchored_without_moves(occupancy: Seq<Seq<Occupant>>, transcript: Seq<Move>)
    requires
        anchored(occupancy, transcript),
        transcript.len() == 0,
    ensures
        all_supported(occupancy),
{
    assert forall|c: int, i: int|
        0 <= c < occupancy.len() && 0 <= i < occupancy[c].len() implies #[trigger] rests(
        occupancy[c],
        i,
    ) by {
        assert(rests(occupancy[c], i) || undermined(transcript, c, occupancy[c][i].position));
    }
}

/// The state at the start of a batch is lawful.
pub proof fn lemma_start_is_lawful(containers: Seq<Container>, start: Seq<Seq<Occupant>>)
    ensures
        lawful(containers, start, start, Seq::<Move>::empty()),
{
    if singular(start) && only_stored(start) {
        assert(stored_records(start) =~= records(start)) by {
            assert forall|r: (ItemRef, int, Position)| records(start).contains(r) implies r.0
                is Stored by {
                let i = choose|i: int|
                    0 <= r.1 < start.len() && 0 <= i < start[r.1].len() && (
                    #[trigger] start[r.1][i]).item == r.0 && start[r.1][i].position == r.2;
                assert(start[r.1][i].item is Stored);
            }
        }
    }
}


/// Putting an item into a container keeps every other item absent that was.
pub proof fn lemma_put_keeps_absent(
    occupancy: Seq<Seq<Occupant>>,
    c: int,
    o: Occupant,
    item: ItemRef,
)
    requires
        0 <= c < occupancy.len(),
        absent(occupancy, item),
        o.item != item,
    ensures
        absent(put(occupancy, c, o), item),
{
    let after = put(occupancy, c, o);
    assert forall|e: int, i: int| 0 <= e < after.len() && 0 <= i < after[e].len() implies (
    #[trigger] after[e][i]).item != item by {
        if e == c && i == occupancy[c].len() {
        } else {
            assert(after[e][i] == occupancy[e][i]);
        }
    }
}

/// Putting an item that is not yet placed into a box that is feasible there
/// leads from a lawful state to a lawful state.
pub proof fn lemma_put_keeps_lawful(
    containers: Seq<Container>,
    start: Seq<Seq<Occupant>>,
    occupancy: Seq<Seq<Occupant>>,
    transcript: Seq<Move>,
    c: int,
    o: Occupant,
)
    requires
        lawful(containers, start, occupancy, transcript),
        0 <= c < occupancy.len(),
        feasible(o.position, &containers[c], occupancy[c]),
        absent(occupancy, o.item),
        o.item is Requested,
    ensures
        lawful(containers, start, put(occupancy, c, o), transcript),
{
    let after = put(occupancy, c, o);
    let last = occupancy[c].len() as int;
    assert(after[c][last] == o);
    assert forall|e: int, i: int| 0 <= e < after.len() && 0 <= i < after[e].len() && !(e == c && i
        == last) implies #[trigger] after[e][i] == occupancy[e][i] by {}
    if no_overlap(start) {
        assert forall|e: int, i: int, j: int|
            0 <= e < after.len() && 0 <= i < j < after[e].len() implies !(
        #[trigger] after[e][i]).position.overlaps_spec(&(#[trigger] after[e][j]).position) by {
            assert(after[e][i] == occupancy[e][i]);
            if e == c && j == last {
                assert(!o.position.overlaps_spec(&occupancy[c][i].position));
            } else {
                assert(after[e][j] == occupancy[e][j]);
            }
        }
    }
    if bounded(start, containers) {
        assert forall|e: int, i: int| 0 <= e < after.len() && 0 <= i < after[e].len() implies inside(
            (#[trigger] after[e][i]).position,
            &containers[e],
        ) by {
            if !(e == c && i == last) {
                assert(after[e][i] == occupancy[e][i]);
            }
        }
    }
    if all_supported(start) {
        assert forall|e: int, i: int|
            0 <= e < after.len() && 0 <= i < after[e].len() implies #[trigger] rests(after[e], i)
            || undermined(transcript, e, after[e][i].position) by {
            if e == c && i == last {
                if !on_floor(o.position) {
                    let j = choose|j: int|
                        0 <= j < occupancy[c].len() && bears(
                            #[trigger] occupancy[c][j].position,
                            o.position,
                        );
                    assert(after[c][j] == occupancy[c][j]);
                    assert(bears(after[c][j].position, after[c][i].position));
                }
            } else {
                assert(after[e][i] == occupancy[e][i]);
                assert(rests(occupancy[e], i) || undermined(
                    transcript,
                    e,
                    occupancy[e][i].position,
                ));
                if rests(occupancy[e], i) && !on_floor(occupancy[e][i].position) {
                    let j = choose|j: int|
                        0 <= j < occupancy[e].len() && j != i && bears(
                            (#[trigger] occupancy[e][j]).position,
                            occupancy[e][i].position,
                        );
                    assert(after[e][j] == occupancy[e][j]);
                    assert(bears(after[e][j].position, after[e][i].position));
                }
            }
        }
    }
    if singular(start) && only_stored(start) {
        assert forall|e: int, i: int, d: int, j: int|
            0 <= e < after.len() && 0 <= i < after[e].len() && 0 <= d < after.len() && 0 <= j
                < after[d].len() && (e != d || i != j) implies (#[trigger] after[e][i]).item != (
        #[trigger] after[d][j]).item by {
            if e == c && i == last {
                assert(after[d][j] == occupancy[d][j]);
            } else if d == c && j == last {
                assert(after[e][i] == occupancy[e][i]);
            } else {
                assert(after[e][i] == occupancy[e][i]);
                assert(after[d][j] == occupancy[d][j]);
            }
        }
        assert(stored_records(after) =~= stored_records(occupancy)) by {
            assert forall|r: (ItemRef, int, Position)|
                stored_records(after).contains(r) implies stored_records(occupancy).contains(r) by {
                let i = choose|i: int|
                    0 <= r.1 < after.len() && 0 <= i < after[r.1].len() && (
                    #[trigger] after[r.1][i]).item == r.0 && after[r.1][i].position == r.2;
                assert(after[r.1][i] == occupancy[r.1][i]);
            }
            assert forall|r: (ItemRef, int, Position)|
                stored_records(occupancy).contains(r) implies stored_records(after).contains(r) by {
                let i = choose|i: int|
                    0 <= r.1 < occupancy.len() && 0 <= i < occupancy[r.1].len() && (
                    #[trigger] occupancy[r.1][i]).item == r.0 && occupancy[r.1][i].position == r.2;
                assert(after[r.1][i] == occupancy[r.1][i]);
            }
        }
    }
}


/// The going of one occupant to another container: the occupant `index` of
/// the container `source` goes to the box `position` in the container
/// `destination`.
#[derive(Clone, Copy, Debug)]
pub struct Relocation {
    pub source: usize,
    pub index: usize,
    pub destination: usize,
    pub position: Position,
}

/// The occupant at its new place. It is no longer in a zone that was chosen
/// for it.
pub open spec fn rehoused(evictee: Occupant, position: Position) -> Occupant {
    Occupant { position, is_preferred_zone: false, ..evictee }
}

/// `occupancy` after the relocation: the occupant has left its container
/// and is the last occupant of its new one.
pub open spec fn relocated(occupancy: Seq<Seq<Occupant>>, r: Relocation) -> Seq<Seq<Occupant>> {
    let s = r.source as int;
    put(
        occupancy.update(s, occupancy[s].remove(r.index as int)),
        r.destination as int,
        rehoused(occupancy[s][r.index as int], r.position),
    )
}

/// The move that a relocation makes.
pub open spec fn relocation_move(occupancy: Seq<Seq<Occupant>>, r: Relocation) -> Move {
    let evictee = occupancy[r.source as int][r.index as int];
    Move {
        item: evictee.item,
        from_container: r.source,
        from_position: evictee.position,
        to_container: r.destination,
        to_position: r.position,
    }
}

/// The relocation can be made: the occupant is there, and its new box is
/// feasible in another container.
pub open spec fn sound_relocation(
    containers: Seq<Container>,
    occupancy: Seq<Seq<Occupant>>,
    r: Relocation,
) -> bool {
    let s = r.source as int;
    let d = r.destination as int;
    &&& 0 <= s < occupancy.len()
    &&& 0 <= d < occupancy.len()
    &&& s != d
    &&& 0 <= r.index < occupancy[s].len()
    &&& feasible(r.position, &containers[d], occupancy[d])
}

/// The relocation that is part of a plan.
pub open spec fn relocation_of(plan: Displacement) -> Relocation {
    Relocation {
        source: plan.source,
        index: plan.index,
        destination: plan.destination,
        position: plan.evictee_position,
    }
}

/// The place that the occupant at the `k`-th place of a container had
/// before the occupant at the place `index` left it.
pub open spec fn place_before(index: usize, k: int) -> int {
    if k < index {
        k
    } else {
        k + 1
    }
}

/// How the occupancy after a relocation is made up of the occupancy before
/// it.
pub proof fn lemma_relocated_shape(occupancy: Seq<Seq<Occupant>>, r: Relocation)
    requires
        0 <= r.source < occupancy.len(),
        0 <= r.destination < occupancy.len(),
        r.source != r.destination,
        0 <= r.index < occupancy[r.source as int].len(),
    ensures
        relocated(occupancy, r).len() == occupancy.len(),
        forall|c: int|
            0 <= c < occupancy.len() && c != r.source && c != r.destination ==> (
            #[trigger] relocated(occupancy, r)[c]) == occupancy[c],
        relocated(occupancy, r)[r.source as int] == occupancy[r.source as int].remove(
            r.index as int,
        ),
        relocated(occupancy, r)[r.source as int].len() == occupancy[r.source as int].len() - 1,
        forall|k: int|
            0 <= k < occupancy[r.source as int].len() - 1 ==> (#[trigger] relocated(
                occupancy,
                r,
            )[r.source as int][k]) == occupancy[r.source as int][place_before(r.index, k)],
        relocated(occupancy, r)[r.destination as int] == occupancy[r.destination as int].push(
            rehoused(occupancy[r.source as int][r.index as int], r.position),
        ),
{
}

/// A plan is a relocation, and the newcomer put where the occupant was.
pub proof fn lemma_displaced_in_two(
    occupancy: Seq<Seq<Occupant>>,
    plan: Displacement,
    newcomer: Occupant,
)
    requires
        0 <= plan.source < occupancy.len(),
        0 <= plan.destination < occupancy.len(),
        plan.source != plan.destination,
        0 <= plan.index < occupancy[plan.source as int].len(),
    ensures
        displaced(occupancy, plan, newcomer) == put(
            relocated(occupancy, relocation_of(plan)),
            plan.source as int,
            newcomer,
        ),
        move_of(occupancy, plan) == relocation_move(occupancy, relocation_of(plan)),
{
    assert(displaced(occupancy, plan, newcomer) =~~= put(
        relocated(occupancy, relocation_of(plan)),
        plan.source as int,
        newcomer,
    ));
}

/// A relocation keeps every item absent that was.
pub proof fn lemma_relocated_keeps_absent(occupancy: Seq<Seq<Occupant>>, r: Relocation, item: ItemRef)
    requires
        0 <= r.source < occupancy.len(),
        0 <= r.destination < occupancy.len(),
        r.source != r.destination,
        0 <= r.index < occupancy[r.source as int].len(),
        absent(occupancy, item),
    ensures
        absent(relocated(occupancy, r), item),
{
    let after = relocated(occupancy, r);
    let s = r.source as int;
    let d = r.destination as int;
    lemma_relocated_shape(occupancy, r);
    assert(occupancy[s][r.index as int].item != item);
    assert forall|e: int, i: int| 0 <= e < after.len() && 0 <= i < after[e].len() implies (
    #[trigger] after[e][i]).item != item by {
        if e == s {
            assert(after[s][i] == occupancy[s][place_before(r.index, i)]);
        } else if e == d {
            if i < occupancy[d].len() {
                assert(after[d][i] == occupancy[d][i]);
            }
        } else {
            assert(after[e] == occupancy[e]);
        }
    }
}

proof fn lemma_relocated_no_overlap(
    containers: Seq<Container>,
    occupancy: Seq<Seq<Occupant>>,
    r: Relocation,
)
    requires
        sound_relocation(containers, occupancy, r),
        no_overlap(occupancy),
    ensures
        no_overlap(relocated(occupancy, r)),
{
    let after = relocated(occupancy, r);
    let s = r.source as int;
    let d = r.destination as int;
    lemma_relocated_shape(occupancy, r);
    assert forall|e: int, i: int, j: int| 0 <= e < after.len() && 0 <= i < j < after[e].len() implies !(
    #[trigger] after[e][i]).position.overlaps_spec(&(#[trigger] after[e][j]).position) by {
        if e == s {
            assert(after[s][i] == occupancy[s][place_before(r.index, i)]);
            assert(after[s][j] == occupancy[s][place_before(r.index, j)]);
        } else if e == d {
            assert(after[d][i] == occupancy[d][i]);
            if j == occupancy[d].len() {
                assert(!r.position.overlaps_spec(&occupancy[d][i].position));
            } else {
                assert(after[d][j] == occupancy[d][j]);
            }
        } else {
            assert(after[e] == occupancy[e]);
        }
    }
}

proof fn lemma_relocated_bounded(
    containers: Seq<Container>,
    occupancy: Seq<Seq<Occupant>>,
    r: Relocation,
)
    requires
        sound_relocation(containers, occupancy, r),
        bounded(occupancy, containers),
    ensures
        bounded(relocated(occupancy, r), containers),
{
    let after = relocated(occupancy, r);
    let s = r.source as int;
    let d = r.destination as int;
    lemma_relocated_shape(occupancy, r);
    assert forall|e: int, i: int| 0 <= e < after.len() && 0 <= i < after[e].len() implies inside(
        (#[trigger] after[e][i]).position,
        &containers[e],
    ) by {
        if e == s {
            assert(after[s][i] == occupancy[s][place_before(r.index, i)]);
        } else if e == d {
            if i < occupancy[d].len() {
                assert(after[d][i] == occupancy[d][i]);
            }
        } else {
            assert(after[e] == occupancy[e]);
        }
    }
}

proof fn lemma_undermined_grows(transcript: Seq<Move>, m: Move, c: int, p: Position)
    requires
        undermined(transcript, c, p),
    ensures
        undermined(transcript.push(m), c, p),
{
    let k = choose|k: int|
        0 <= k < transcript.len() && (#[trigger] transcript[k]).from_container == c && bears(
            transcript[k].from_position,
            p,
        );
    assert(transcript.push(m)[k] == transcript[k]);
}

proof fn lemma_relocated_anchored(
    containers: Seq<Container>,
    occupancy: Seq<Seq<Occupant>>,
    transcript: Seq<Move>,
    r: Relocation,
)
    requires
        sound_relocation(containers, occupancy, r),
        anchored(occupancy, transcript),
    ensures
        anchored(relocated(occupancy, r), transcript.push(relocation_move(occupancy, r))),
{
    let after = relocated(occupancy, r);
    let s = r.source as int;
    let d = r.destination as int;
    let x = r.index as int;
    let m = relocation_move(occupancy, r);
    let moves = transcript.push(m);
    lemma_relocated_shape(occupancy, r);
    assert(moves[transcript.len() as int] == m);
    assert forall|e: int, i: int|
        0 <= e < after.len() && 0 <= i < after[e].len() implies #[trigger] rests(after[e], i)
        || undermined(moves, e, after[e][i].position) by {
        let p = after[e][i].position;
        if e == d && i == occupancy[d].len() {
            if !on_floor(p) {
                let j = choose|j: int|
                    0 <= j < occupancy[d].len() && bears(
                        #[trigger] occupancy[d][j].position,
                        r.position,
                    );
                assert(after[d][j] == occupancy[d][j]);
                assert(bears(after[d][j].position, p));
            }
        } else {
            let i0 = if e == s {
                place_before(r.index, i)
            } else {
                i
            };
            assert(after[e][i] == occupancy[e][i0]) by {
                if e != s && e != d {
                    assert(after[e] == occupancy[e]);
                }
            }
            assert(rests(occupancy[e], i0) || undermined(transcript, e, occupancy[e][i0].position));
            if undermined(transcript, e, p) {
                lemma_undermined_grows(transcript, m, e, p);
            } else if !on_floor(p) {
                let j0 = choose|j: int|
                    0 <= j < occupancy[e].len() && j != i0 && bears(
                        (#[trigger] occupancy[e][j]).position,
                        occupancy[e][i0].position,
                    );
                if e == s && j0 == x {
                    assert(moves[transcript.len() as int].from_container == e);
                    assert(bears(moves[transcript.len() as int].from_position, p));
                } else {
                    let j = if e == s && j0 > x {
                        j0 - 1
                    } else {
                        j0
                    };
                    assert(after[e][j] == occupancy[e][j0]) by {
                        if e == s {
                            assert(place_before(r.index, j) == j0);
                        } else if e != d {
                            assert(after[e] == occupancy[e]);
                        }
                    }
                    assert(j != i);
                    assert(bears(after[e][j].position, after[e][i].position));
                }
            }
        }
    }
}

proof fn lemma_relocated_singular(
    containers: Seq<Container>,
    occupancy: Seq<Seq<Occupant>>,
    r: Relocation,
)
    requires
        sound_relocation(containers, occupancy, r),
        singular(occupancy),
    ensures
        singular(relocated(occupancy, r)),
{
    let after = relocated(occupancy, r);
    let s = r.source as int;
    let d = r.destination as int;
    let x = r.index as int;
    lemma_relocated_shape(occupancy, r);
    // Every occupant after the relocation has the item of one occupant
    // before it, and no two have that of the same one.
    let old_c = |e: int, i: int|
        if e == d && i == occupancy[d].len() {
            s
        } else {
            e
        };
    let old_i = |e: int, i: int|
        if e == d && i == occupancy[d].len() {
            x
        } else if e == s {
            place_before(r.index, i)
        } else {
            i
        };
    assert forall|e: int, i: int| 0 <= e < after.len() && 0 <= i < after[e].len() implies 0
        <= old_c(e, i) < occupancy.len() && 0 <= old_i(e, i) < occupancy[old_c(e, i)].len() && (
    #[trigger] after[e][i]).item == occupancy[old_c(e, i)][old_i(e, i)].item by {
        if e == d && i == occupancy[d].len() {
        } else if e == s {
            assert(after[s][i] == occupancy[s][place_before(r.index, i)]);
        } else if e == d {
            assert(after[d][i] == occupancy[d][i]);
        } else {
            assert(after[e] == occupancy[e]);
        }
    }
    assert forall|e: int, i: int, f: int, j: int|
        0 <= e < after.len() && 0 <= i < after[e].len() && 0 <= f < after.len() && 0 <= j
            < after[f].len() && (e != f || i != j) implies (#[trigger] after[e][i]).item != (
    #[trigger] after[f][j]).item by {
        assert(after[e][i].item == occupancy[old_c(e, i)][old_i(e, i)].item);
        assert(after[f][j].item == occupancy[old_c(f, j)][old_i(f, j)].item);
        assert(old_c(e, i) != old_c(f, j) || old_i(e, i) != old_i(f, j));
    }
}

proof fn lemma_relocated_replay(
    containers: Seq<Container>,
    occupancy: Seq<Seq<Occupant>>,
    r: Relocation,
)
    requires
        sound_relocation(containers, occupancy, r),
        singular(occupancy),
    ensures
        stored_records(relocated(occupancy, r)) == replay_move(
            stored_records(occupancy),
            relocation_move(occupancy, r),
        ),
{
    let after = relocated(occupancy, r);
    let s = r.source as int;
    let d = r.destination as int;
    let x = r.index as int;
    let evictee = occupancy[s][x];
    let m = relocation_move(occupancy, r);
    let from = (m.item, m.from_container as int, m.from_position);
    let to = (m.item, m.to_container as int, m.to_position);
    let replayed = replay_move(stored_records(occupancy), m);
    lemma_relocated_shape(occupancy, r);
    assert(records(occupancy).contains(from)) by {
        assert(occupancy[from.1][x].item == from.0);
    }
    assert(after[d][occupancy[d].len() as int] == rehoused(evictee, r.position));
    assert forall|rec: (ItemRef, int, Position)| stored_records(after).contains(rec) implies replayed.contains(
        rec,
    ) by {
        let i = choose|i: int|
            0 <= rec.1 < after.len() && 0 <= i < after[rec.1].len() && (
            #[trigger] after[rec.1][i]).item == rec.0 && after[rec.1][i].position == rec.2;
        if rec.1 == d && i == occupancy[d].len() {
            assert(rec == to);
        } else {
            let i0 = if rec.1 == s {
                place_before(r.index, i)
            } else {
                i
            };
            assert(after[rec.1][i] == occupancy[rec.1][i0]) by {
                if rec.1 != s && rec.1 != d {
                    assert(after[rec.1] == occupancy[rec.1]);
                }
            }
            assert(occupancy[rec.1][i0].item == rec.0);
            assert(records(occupancy).contains(rec));
            assert(occupancy[rec.1][i0].item != occupancy[s][x].item);
        }
    }
    assert forall|rec: (ItemRef, int, Position)| replayed.contains(rec) implies stored_records(
        after,
    ).contains(rec) by {
        if evictee.item is Stored && rec == to {
            assert(after[d][occupancy[d].len() as int].item == rec.0);
        } else {
            assert(stored_records(occupancy).contains(rec));
            assert(rec != from);
            let i0 = choose|i: int|
                0 <= rec.1 < occupancy.len() && 0 <= i < occupancy[rec.1].len() && (
                #[trigger] occupancy[rec.1][i]).item == rec.0 && occupancy[rec.1][i].position
                    == rec.2;
            assert(!(rec.1 == s && i0 == x));
            let i = if rec.1 == s && i0 > x {
                i0 - 1
            } else {
                i0
            };
            assert(after[rec.1][i] == occupancy[rec.1][i0]) by {
                if rec.1 == s {
                    assert(place_before(r.index, i) == i0);
                } else if rec.1 != d {
                    assert(after[rec.1] == occupancy[rec.1]);
                }
            }
            assert(after[rec.1][i].item == rec.0);
        }
    }
    assert(stored_records(after) =~= replayed);
}

/// A sound relocation leads from a lawful state to a lawful state.
pub proof fn lemma_relocated_keeps_lawful(
    containers: Seq<Container>,
    start: Seq<Seq<Occupant>>,
    occupancy: Seq<Seq<Occupant>>,
    transcript: Seq<Move>,
    r: Relocation,
)
    requires
        lawful(containers, start, occupancy, transcript),
        sound_relocation(containers, occupancy, r),
    ensures
        lawful(
            containers,
            start,
            relocated(occupancy, r),
            transcript.push(relocation_move(occupancy, r)),
        ),
{
    let moves = transcript.push(relocation_move(occupancy, r));
    lemma_relocated_shape(occupancy, r);
    if no_overlap(start) {
        lemma_relocated_no_overlap(containers, occupancy, r);
    }
    if bounded(start, containers) {
        lemma_relocated_bounded(containers, occupancy, r);
    }
    if all_supported(start) {
        lemma_relocated_anchored(containers, occupancy, transcript, r);
    }
    if singular(start) && only_stored(start) {
        lemma_relocated_singular(containers, occupancy, r);
        lemma_relocated_replay(containers, occupancy, r);
        assert(moves.drop_last() =~= transcript);
    }
}

/// Carrying out a plan keeps every other item absent that was.
pub proof fn lemma_displaced_keeps_absent(
    occupancy: Seq<Seq<Occupant>>,
    plan: Displacement,
    newcomer: Occupant,
    item: ItemRef,
)
    requires
        0 <= plan.source < occupancy.len(),
        0 <= plan.destination < occupancy.len(),
        plan.source != plan.destination,
        0 <= plan.index < occupancy[plan.source as int].len(),
        absent(occupancy, item),
        newcomer.item != item,
    ensures
        absent(displaced(occupancy, plan, newcomer), item),
{
    lemma_displaced_in_two(occupancy, plan, newcomer);
    lemma_relocated_shape(occupancy, relocation_of(plan));
    lemma_relocated_keeps_absent(occupancy, relocation_of(plan), item);
    lemma_put_keeps_absent(
        relocated(occupancy, relocation_of(plan)),
        plan.source as int,
        newcomer,
        item,
    );
}

/// Carrying out a sound plan for an item that is not yet placed leads from a
/// lawful state to a lawful state.
pub proof fn lemma_displaced_keeps_lawful(
    containers: Seq<Container>,
    start: Seq<Seq<Occupant>>,
    occupancy: Seq<Seq<Occupant>>,
    transcript: Seq<Move>,
    plan: Displacement,
    newcomer: Occupant,
)
    requires
        lawful(containers, start, occupancy, transcript),
        sound_plan(containers, occupancy, plan),
        newcomer.position == plan.target_position,
        absent(occupancy, newcomer.item),
        newcomer.item is Requested,
    ensures
        lawful(
            containers,
            start,
            displaced(occupancy, plan, newcomer),
            transcript.push(move_of(occupancy, plan)),
        ),
{
    let r = relocation_of(plan);
    lemma_displaced_in_two(occupancy, plan, newcomer);
    lemma_relocated_shape(occupancy, r);
    lemma_relocated_keeps_lawful(containers, start, occupancy, transcript, r);
    lemma_relocated_keeps_absent(occupancy, r, newcomer.item);
    lemma_put_keeps_lawful(
        containers,
        start,
        relocated(occupancy, r),
        transcript.push(relocation_move(occupancy, r)),
        plan.source as int,
        newcomer,
    );
}

/// Whatever lawful start led to the state `before`, it leads to the state
/// `after` too.
pub open spec fn upholds(
    containers: Seq<Container>,
    before: Seq<Seq<Occupant>>,
    moves_before: Seq<Move>,
    after: Seq<Seq<Occupant>>,
    moves_after: Seq<Move>,
) -> bool {
    forall|start: Seq<Seq<Occupant>>| #[trigger]
        lawful(containers, start, before, moves_before) ==> lawful(
            containers,
            start,
            after,
            moves_after,
        )
}

/// The items of `queue` are different items, and none of them is placed.
pub open spec fn waiting(occupancy: Seq<Seq<Occupant>>, queue: Seq<usize>) -> bool {
    &&& queue.no_duplicates()
    &&& forall|k: int| 0 <= k < queue.len() ==> absent(occupancy, ItemRef::Requested(#[trigger] queue[k]))
}

/// Every item but `item` that was absent before is absent after.
pub open spec fn adds_only(
    before: Seq<Seq<Occupant>>,
    after: Seq<Seq<Occupant>>,
    item: ItemRef,
) -> bool {
    forall|other: ItemRef| other != item && absent(before, other) ==> #[trigger] absent(after, other)
}

/// The only items that are placed after and were not before are items of
/// the request, among its first `count`.
pub open spec fn admits(before: Seq<Seq<Occupant>>, after: Seq<Seq<Occupant>>, count: int) -> bool {
    forall|other: ItemRef|
        absent(before, other) && !(other is Requested && other->Requested_0 < count)
            ==> #[trigger] absent(after, other)
}

/// A step that places but one of the first `count` items of the request
/// admits no other item.
pub proof fn lemma_adds_only_admits(
    before: Seq<Seq<Occupant>>,
    after: Seq<Seq<Occupant>>,
    n: usize,
    count: int,
)
    requires
        adds_only(before, after, ItemRef::Requested(n)),
        n < count,
    ensures
        admits(before, after, count),
{
}

/// What is admitted step by step is admitted on the whole.
pub proof fn lemma_admits_in_turn(
    first: Seq<Seq<Occupant>>,
    second: Seq<Seq<Occupant>>,
    third: Seq<Seq<Occupant>>,
    count: int,
)
    requires
        admits(first, second, count),
        admits(second, third, count),
    ensures
        admits(first, third, count),
{
    assert forall|other: ItemRef|
        absent(first, other) && !(other is Requested && other->Requested_0
            < count) implies #[trigger] absent(third, other) by {
        assert(absent(second, other));
    }
}

/// Putting one of the first `count` items of the request into a container
/// admits no other item.
pub proof fn lemma_put_admits(occupancy: Seq<Seq<Occupant>>, c: int, o: Occupant, count: int)
    requires
        0 <= c < occupancy.len(),
        o.item is Requested,
        o.item->Requested_0 < count,
    ensures
        admits(occupancy, put(occupancy, c, o), count),
        adds_only(occupancy, put(occupancy, c, o), o.item),
{
    assert forall|other: ItemRef| other != o.item && absent(occupancy, other) implies #[trigger] absent(
        put(occupancy, c, o),
        other,
    ) by {
        lemma_put_keeps_absent(occupancy, c, o, other);
    }
}

/// Carrying out a plan for one of the first `count` items of the request
/// admits no other item.
pub proof fn lemma_displaced_admits(
    occupancy: Seq<Seq<Occupant>>,
    plan: Displacement,
    newcomer: Occupant,
    count: int,
)
    requires
        0 <= plan.source < occupancy.len(),
        0 <= plan.destination < occupancy.len(),
        plan.source != plan.destination,
        0 <= plan.index < occupancy[plan.source as int].len(),
        newcomer.item is Requested,
        newcomer.item->Requested_0 < count,
    ensures
        admits(occupancy, displaced(occupancy, plan, newcomer), count),
        adds_only(occupancy, displaced(occupancy, plan, newcomer), newcomer.item),
{
    assert forall|other: ItemRef|
        other != newcomer.item && absent(occupancy, other) implies #[trigger] absent(
        displaced(occupancy, plan, newcomer),
        other,
    ) by {
        lemma_displaced_keeps_absent(occupancy, plan, newcomer, other);
    }
}

/// Every item that was placed before is placed after.
pub open spec fn keeps(before: Seq<Seq<Occupant>>, after: Seq<Seq<Occupant>>) -> bool {
    forall|item: ItemRef| !absent(before, item) ==> !#[trigger] absent(after, item)
}

/// What is kept step by step is kept on the whole.
pub proof fn lemma_keeps_in_turn(
    first: Seq<Seq<Occupant>>,
    second: Seq<Seq<Occupant>>,
    third: Seq<Seq<Occupant>>,
)
    requires
        keeps(first, second),
        keeps(second, third),
    ensures
        keeps(first, third),
{
    assert forall|item: ItemRef| !absent(first, item) implies !#[trigger] absent(third, item) by {
        assert(!absent(second, item));
    }
}

/// Putting an item into a container places it, and keeps what was placed.
pub proof fn lemma_put_keeps(occupancy: Seq<Seq<Occupant>>, c: int, o: Occupant)
    requires
        0 <= c < occupancy.len(),
    ensures
        keeps(occupancy, put(occupancy, c, o)),
        !absent(put(occupancy, c, o), o.item),
{
    let after = put(occupancy, c, o);
    assert(after[c][occupancy[c].len() as int] == o);
    assert forall|item: ItemRef| !absent(occupancy, item) implies !#[trigger] absent(after, item) by {
        let (e, i) = choose|e: int, i: int|
            0 <= e < occupancy.len() && 0 <= i < occupancy[e].len() && (
            #[trigger] occupancy[e][i]).item == item;
        assert(after[e][i] == occupancy[e][i]);
    }
}

/// A relocation keeps what was placed.
pub proof fn lemma_relocated_keeps(occupancy: Seq<Seq<Occupant>>, r: Relocation)
    requires
        0 <= r.source < occupancy.len(),
        0 <= r.destination < occupancy.len(),
        r.source != r.destination,
        0 <= r.index < occupancy[r.source as int].len(),
    ensures
        keeps(occupancy, relocated(occupancy, r)),
{
    let after = relocated(occupancy, r);
    let s = r.source as int;
    let d = r.destination as int;
    lemma_relocated_shape(occupancy, r);
    assert(after[d][occupancy[d].len() as int].item == occupancy[s][r.index as int].item);
    assert forall|item: ItemRef| !absent(occupancy, item) implies !#[trigger] absent(after, item) by {
        let (e, i) = choose|e: int, i: int|
            0 <= e < occupancy.len() && 0 <= i < occupancy[e].len() && (
            #[trigger] occupancy[e][i]).item == item;
        if e == s {
            if i < r.index {
                assert(after[s][i] == occupancy[s][place_before(r.index, i)]);
            } else if i > r.index {
                assert(after[s][i - 1] == occupancy[s][place_before(r.index, i - 1)]);
            }
        } else if e == d {
            assert(after[d][i] == occupancy[d][i]);
        } else {
            assert(after[e] == occupancy[e]);
            assert(after[e][i] == occupancy[e][i]);
        }
    }
}

/// Carrying out a plan places the newcomer, and keeps what was placed.
pub proof fn lemma_displaced_keeps(
    occupancy: Seq<Seq<Occupant>>,
    plan: Displacement,
    newcomer: Occupant,
)
    requires
        0 <= plan.source < occupancy.len(),
        0 <= plan.destination < occupancy.len(),
        plan.source != plan.destination,
        0 <= plan.index < occupancy[plan.source as int].len(),
    ensures
        keeps(occupancy, displaced(occupancy, plan, newcomer)),
        !absent(displaced(occupancy, plan, newcomer), newcomer.item),
{
    let r = relocation_of(plan);
    lemma_displaced_in_two(occupancy, plan, newcomer);
    lemma_relocated_shape(occupancy, r);
    lemma_relocated_keeps(occupancy, r);
    lemma_put_keeps(relocated(occupancy, r), plan.source as int, newcomer);
    lemma_keeps_in_turn(occupancy, relocated(occupancy, r), displaced(occupancy, plan, newcomer));
}

/// Every one of the first `k` items of `queue` is placed or is one of the
/// items of `out`.
pub open spec fn settled_upto(
    occupancy: Seq<Seq<Occupant>>,
    queue: Seq<usize>,
    k: int,
    out: Seq<usize>,
) -> bool {
    forall|j: int|
        0 <= j < k && j < queue.len() ==> out.contains(#[trigger] queue[j]) || !absent(
            occupancy,
            ItemRef::Requested(queue[j]),
        )
}

/// Every item of `queue` is placed or is one of the items of `out`.
pub open spec fn settled(occupancy: Seq<Seq<Occupant>>, queue: Seq<usize>, out: Seq<usize>) -> bool {
    settled_upto(occupancy, queue, queue.len() as int, out)
}

/// Every one of the first `count` items of the request is placed or is one
/// of the items of `out`, and none is both.
pub open spec fn accounted(occupancy: Seq<Seq<Occupant>>, out: Seq<usize>, count: int) -> bool {
    forall|n: usize|
        n < count ==> (out.contains(n) <==> #[trigger] absent(occupancy, ItemRef::Requested(n)))
}

/// Where the next item of the queue has been placed, one more item is
/// settled.
pub proof fn lemma_settled_placed(
    before: Seq<Seq<Occupant>>,
    after: Seq<Seq<Occupant>>,
    queue: Seq<usize>,
    k: int,
    out: Seq<usize>,
)
    requires
        0 <= k < queue.len(),
        settled_upto(before, queue, k, out),
        keeps(before, after),
        !absent(after, ItemRef::Requested(queue[k])),
    ensures
        settled_upto(after, queue, k + 1, out),
{
    assert forall|j: int| 0 <= j < k + 1 && j < queue.len() implies out.contains(
        #[trigger] queue[j],
    ) || !absent(after, ItemRef::Requested(queue[j])) by {
        if j < k && !out.contains(queue[j]) {
            assert(!absent(before, ItemRef::Requested(queue[j])));
        }
    }
}

/// Where the next item of the queue has been put out, one more item is
/// settled.
pub proof fn lemma_settled_out(
    occupancy: Seq<Seq<Occupant>>,
    queue: Seq<usize>,
    k: int,
    out: Seq<usize>,
)
    requires
        0 <= k < queue.len(),
        settled_upto(occupancy, queue, k, out),
    ensures
        settled_upto(occupancy, queue, k + 1, out.push(queue[k])),
{
    let more = out.push(queue[k]);
    assert(more[out.len() as int] == queue[k]);
    assert forall|j: int| 0 <= j < k + 1 && j < queue.len() implies more.contains(
        #[trigger] queue[j],
    ) || !absent(occupancy, ItemRef::Requested(queue[j])) by {
        if j < k && out.contains(queue[j]) {
            let i = choose|i: int| 0 <= i < out.len() && out[i] == queue[j];
            assert(more[i] == queue[j]);
        }
    }
}

/// What one step settles of a queue, and the next settles of what the first
/// put out, the two settle of the queue together.
pub proof fn lemma_settled_in_turn(
    middle: Seq<Seq<Occupant>>,
    after: Seq<Seq<Occupant>>,
    queue: Seq<usize>,
    between: Seq<usize>,
    out: Seq<usize>,
)
    requires
        settled(middle, queue, between),
        settled(after, between, out),
        keeps(middle, after),
    ensures
        settled(after, queue, out),
{
    assert forall|j: int| 0 <= j < queue.len() implies out.contains(#[trigger] queue[j]) || !absent(
        after,
        ItemRef::Requested(queue[j]),
    ) by {
        if between.contains(queue[j]) {
            let i = choose|i: int| 0 <= i < between.len() && between[i] == queue[j];
            assert(out.contains(between[i]) || !absent(after, ItemRef::Requested(between[i])));
        } else {
            assert(!absent(middle, ItemRef::Requested(queue[j])));
        }
    }
}

/// Every lawful state upholds itself.
pub proof fn lemma_upholds_itself(
    containers: Seq<Container>,
    occupancy: Seq<Seq<Occupant>>,
    moves: Seq<Move>,
)
    ensures
        upholds(containers, occupancy, moves, occupancy, moves),
{
}

/// What two steps uphold one after the other, they uphold together.
pub proof fn lemma_upholds_in_turn(
    containers: Seq<Container>,
    first: Seq<Seq<Occupant>>,
    first_moves: Seq<Move>,
    second: Seq<Seq<Occupant>>,
    second_moves: Seq<Move>,
    third: Seq<Seq<Occupant>>,
    third_moves: Seq<Move>,
)
    requires
        upholds(containers, first, first_moves, second, second_moves),
        upholds(containers, second, second_moves, third, third_moves),
    ensures
        upholds(containers, first, first_moves, third, third_moves),
{
    assert forall|start: Seq<Seq<Occupant>>| #[trigger]
        lawful(containers, start, first, first_moves) implies lawful(
        containers,
        start,
        third,
        third_moves,
    ) by {
        assert(lawful(containers, start, second, second_moves));
    }
}

/// Every item of `queue` is one of the first `count` items of the request.
pub open spec fn within(queue: Seq<usize>, count: int) -> bool {
    forall|k: int| 0 <= k < queue.len() ==> (#[trigger] queue[k]) < count
}

/// A lawful state stays one when an item that waits is put into a box that
/// is feasible there, and the others go on waiting.
pub proof fn lemma_put_upholds(
    containers: Seq<Container>,
    before: Seq<Seq<Occupant>>,
    moves_before: Seq<Move>,
    occupancy: Seq<Seq<Occupant>>,
    moves: Seq<Move>,
    queue: Seq<usize>,
    at: int,
    c: int,
    o: Occupant,
)
    requires
        upholds(containers, before, moves_before, occupancy, moves),
        waiting(occupancy, queue),
        0 <= at < queue.len(),
        o.item == ItemRef::Requested(queue[at]),
        0 <= c < occupancy.len(),
        feasible(o.position, &containers[c], occupancy[c]),
    ensures
        upholds(containers, before, moves_before, put(occupancy, c, o), moves),
        waiting(put(occupancy, c, o), queue.remove(at)),
{
    assert forall|start: Seq<Seq<Occupant>>| #[trigger]
        lawful(containers, start, before, moves_before) implies lawful(
        containers,
        start,
        put(occupancy, c, o),
        moves,
    ) by {
        lemma_put_keeps_lawful(containers, start, occupancy, moves, c, o);
    }
    let rest = queue.remove(at);
    assert forall|k: int| 0 <= k < rest.len() implies absent(
        put(occupancy, c, o),
        ItemRef::Requested(#[trigger] rest[k]),
    ) by {
        let k0 = if k < at {
            k
        } else {
            k + 1
        };
        assert(rest[k] == queue[k0]);
        lemma_put_keeps_absent(occupancy, c, o, ItemRef::Requested(queue[k0]));
    }
    assert forall|i: int, j: int| 0 <= i < rest.len() && 0 <= j < rest.len() && i != j implies rest[i]
        != rest[j] by {
        let i0 = if i < at {
            i
        } else {
            i + 1
        };
        let j0 = if j < at {
            j
        } else {
            j + 1
        };
        assert(rest[i] == queue[i0] && rest[j] == queue[j0]);
    }
}

/// A lawful state stays one when a sound plan is carried out for an item
/// that waits, and the others go on waiting.
pub proof fn lemma_displaced_upholds(
    containers: Seq<Container>,
    before: Seq<Seq<Occupant>>,
    moves_before: Seq<Move>,
    occupancy: Seq<Seq<Occupant>>,
    moves: Seq<Move>,
    queue: Seq<usize>,
    at: int,
    plan: Displacement,
    newcomer: Occupant,
)
    requires
        upholds(containers, before, moves_before, occupancy, moves),
        waiting(occupancy, queue),
        0 <= at < queue.len(),
        newcomer.item == ItemRef::Requested(queue[at]),
        newcomer.position == plan.target_position,
        sound_plan(containers, occupancy, plan),
    ensures
        upholds(
            containers,
            before,
            moves_before,
            displaced(occupancy, plan, newcomer),
            moves.push(move_of(occupancy, plan)),
        ),
        waiting(displaced(occupancy, plan, newcomer), queue.remove(at)),
{
    assert forall|start: Seq<Seq<Occupant>>| #[trigger]
        lawful(containers, start, before, moves_before) implies lawful(
        containers,
        start,
        displaced(occupancy, plan, newcomer),
        moves.push(move_of(occupancy, plan)),
    ) by {
        lemma_displaced_keeps_lawful(containers, start, occupancy, moves, plan, newcomer);
    }
    let rest = queue.remove(at);
    assert forall|k: int| 0 <= k < rest.len() implies absent(
        displaced(occupancy, plan, newcomer),
        ItemRef::Requested(#[trigger] rest[k]),
    ) by {
        let k0 = if k < at {
            k
        } else {
            k + 1
        };
        assert(rest[k] == queue[k0]);
        lemma_displaced_keeps_absent(occupancy, plan, newcomer, ItemRef::Requested(queue[k0]));
    }
    assert forall|i: int, j: int| 0 <= i < rest.len() && 0 <= j < rest.len() && i != j implies rest[i]
        != rest[j] by {
        let i0 = if i < at {
            i
        } else {
            i + 1
        };
        let j0 = if j < at {
            j
        } else {
            j + 1
        };
        assert(rest[i] == queue[i0] && rest[j] == queue[j0]);
    }
}

/// A lawful state stays one when a sound relocation is made, and the items
/// that wait go on waiting.
pub proof fn lemma_relocated_upholds(
    containers: Seq<Container>,
    before: Seq<Seq<Occupant>>,
    moves_before: Seq<Move>,
    occupancy: Seq<Seq<Occupant>>,
    moves: Seq<Move>,
    queue: Seq<usize>,
    r: Relocation,
)
    requires
        upholds(containers, before, moves_before, occupancy, moves),
        waiting(occupancy, queue),
        sound_relocation(containers, occupancy, r),
    ensures
        upholds(
            containers,
            before,
            moves_before,
            relocated(occupancy, r),
            moves.push(relocation_move(occupancy, r)),
        ),
        waiting(relocated(occupancy, r), queue),
{
    assert forall|start: Seq<Seq<Occupant>>| #[trigger]
        lawful(containers, start, before, moves_before) implies lawful(
        containers,
        start,
        relocated(occupancy, r),
        moves.push(relocation_move(occupancy, r)),
    ) by {
        lemma_relocated_keeps_lawful(containers, start, occupancy, moves, r);
    }
    assert forall|k: int| 0 <= k < queue.len() implies absent(
        relocated(occupancy, r),
        ItemRef::Requested(#[trigger] queue[k]),
    ) by {
        lemma_relocated_keeps_absent(occupancy, r, ItemRef::Requested(queue[k]));
    }
}

impl Simulation {
    /// The occupants of every container.
    pub open spec fn occupants(&self) -> Seq<Seq<Occupant>> {
        layout(self.occupancy@)
    }

    /// The moves made so far.
    pub open spec fn moves(&self) -> Seq<Move> {
        self.transcript@
    }

    /// A state with `containers` empty containers and no moves.
    pub fn new(containers: usize) -> (sim: Simulation)
        ensures
            sim.occupants().len() == containers,
            forall|c: int| 0 <= c < containers ==> (#[trigger] sim.occupants()[c]).len() == 0,
            sim.moves().len() == 0,
    {
        let mut occupancy: Vec<Vec<Occupant>> = Vec::new();
        let mut c: usize = 0;
        while c < containers
            invariant
                c <= containers,
                occupancy@.len() == c,
                forall|e: int| 0 <= e < c ==> (#[trigger] occupancy@[e])@.len() == 0,
            decreases containers - c,
        {
            occupancy.push(Vec::new());
            c += 1;
        }
        Simulation { occupancy, transcript: Vec::new() }
    }

    /// Makes `o` the last occupant of the container `c`.
    pub fn place(&mut self, c: usize, o: Occupant)
        requires
            c < old(self).occupancy@.len(),
        ensures
            final(self).occupants() == put(old(self).occupants(), c as int, o),
            final(self).moves() == old(self).moves(),
            final(self).occupancy@.len() == old(self).occupancy@.len(),
    {
        self.occupancy[c].push(o);
        assert(self.occupants() =~= put(old(self).occupants(), c as int, o));
    }

    /// Carries out a plan: the evictee leaves its container for its new box,
    /// the newcomer takes its box there, and the move is written down.
    pub fn carry_out(&mut self, plan: &Displacement, newcomer: Occupant)
        requires
            plan.source < old(self).occupancy@.len(),
            plan.destination < old(self).occupancy@.len(),
            plan.source != plan.destination,
            plan.index < old(self).occupancy@[plan.source as int]@.len(),
        ensures
            final(self).occupants() == displaced(old(self).occupants(), *plan, newcomer),
            final(self).moves() == old(self).moves().push(move_of(old(self).occupants(), *plan)),
            final(self).occupancy@.len() == old(self).occupancy@.len(),
    {
        let evictee = self.occupancy[plan.source].remove(plan.index);
        self.occupancy[plan.source].push(newcomer);
        self.occupancy[plan.destination].push(
            Occupant {
                item: evictee.item,
                position: plan.evictee_position,
                is_preferred_zone: false,
                known: evictee.known,
                priority: evictee.priority,
                width: evictee.width,
                depth: evictee.depth,
                height: evictee.height,
            },
        );
        self.transcript.push(
            Move {
                item: evictee.item,
                from_container: plan.source,
                from_position: evictee.position,
                to_container: plan.destination,
                to_position: plan.evictee_position,
            },
        );
        assert(self.occupants() =~= displaced(old(self).occupants(), *plan, newcomer));
    }

    /// Makes a relocation: the occupant leaves its container for its new
    /// box, and the move is written down.
    pub fn relocate(&mut self, r: &Relocation)
        requires
            r.source < old(self).occupancy@.len(),
            r.destination < old(self).occupancy@.len(),
            r.source != r.destination,
            r.index < old(self).occupancy@[r.source as int]@.len(),
        ensures
            final(self).occupants() == relocated(old(self).occupants(), *r),
            final(self).moves() == old(self).moves().push(
                relocation_move(old(self).occupants(), *r),
            ),
            final(self).occupancy@.len() == old(self).occupancy@.len(),
    {
        let evictee = self.occupancy[r.source].remove(r.index);
        self.occupancy[r.destination].push(
            Occupant {
                item: evictee.item,
                position: r.position,
                is_preferred_zone: false,
                known: evictee.known,
                priority: evictee.priority,
                width: evictee.width,
                depth: evictee.depth,
                height: evictee.height,
            },
        );
        self.transcript.push(
            Move {
                item: evictee.item,
                from_container: r.source,
                from_position: evictee.position,
                to_container: r.destination,
                to_position: r.position,
            },
        );
        assert(self.occupants() =~~= relocated(old(self).occupants(), *r));
    }

    /// A copy of the state.
    pub fn snapshot(&self) -> (copy: Simulation)
        ensures
            copy.occupants() == self.occupants(),
            copy.moves() == self.moves(),
            copy.occupancy@.len() == self.occupancy@.len(),
    {
        let mut occupancy: Vec<Vec<Occupant>> = Vec::new();
        let mut c: usize = 0;
        while c < self.occupancy.len()
            invariant
                c <= self.occupancy@.len(),
                occupancy@.len() == c,
                forall|e: int| 0 <= e < c ==> (#[trigger] occupancy@[e])@ == self.occupancy@[e]@,
            decreases self.occupancy@.len() - c,
        {
            let mut occupants: Vec<Occupant> = Vec::new();
            let mut i: usize = 0;
            while i < self.occupancy[c].len()
                invariant
                    c < self.occupancy@.len(),
                    i <= self.occupancy@[c as int]@.len(),
                    occupants@ == self.occupancy@[c as int]@.take(i as int),
                decreases self.occupancy@[c as int]@.len() - i,
            {
                occupants.push(self.occupancy[c][i]);
                assert(self.occupancy@[c as int]@.take(i + 1) =~= self.occupancy@[c as int]@.take(
                    i as int,
                ).push(self.occupancy@[c as int]@[i as int]));
                i += 1;
            }
            assert(self.occupancy@[c as int]@.take(i as int) =~= self.occupancy@[c as int]@);
            occupancy.push(occupants);
            c += 1;
        }
        let mut transcript: Vec<Move> = Vec::new();
        let mut k: usize = 0;
        while k < self.transcript.len()
            invariant
                k <= self.transcript@.len(),
                transcript@ == self.transcript@.take(k as int),
            decreases self.transcript@.len() - k,
        {
            transcript.push(self.transcript[k]);
            assert(self.transcript@.take(k + 1) =~= self.transcript@.take(k as int).push(
                self.transcript@[k as int],
            ));
            k += 1;
        }
        assert(self.transcript@.take(k as int) =~= self.transcript@);
        let copy = Simulation { occupancy, transcript };
        assert(copy.occupants() =~~= self.occupants());
        copy
    }
}

} // verus!
