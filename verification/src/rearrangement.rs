//! Making room in the service: one occupant of lower priority in a
//! container of the item's zone, or two of them in one such container, go
//! to other containers, and the item takes a place in theirs. The
//! occupants are tried from the lowest priority up.

use crate::displacement::{
    candidates, collect_candidates, displaceable, is_displacee, same_place, without,
};
use crate::feasibility::feasible;
use crate::geometry::Position;
use crate::homing::all_well_formed;
use crate::models::{Container, Item, PlacementResult};
use crate::orchestrator::{make_newcomer, newcomer};
use crate::placement_service::{
    alternative_scan, container_place, describes_place, extents_of, PlacementService,
};
use crate::ranking::Ranked;
use crate::simulation::{
    absent, adds_only, displaced, lemma_displaced_keeps_absent, lemma_displaced_upholds,
    lemma_put_keeps_absent, lemma_put_upholds, lemma_relocated_keeps_absent,
    lemma_relocated_shape, lemma_relocated_upholds, lemma_upholds_itself, move_of, put,
    relocated, relocation_move, sound_plan, sound_relocation, upholds, Displacement, ItemRef,
    Move, Occupant, Relocation, Simulation,
};
use vstd::prelude::*;

verus! {

/// The plan that moves the occupant for which `candidate` stands, for the
/// item: with the occupant gone, the item has a place in the occupant's
/// container; and the occupant has a place in another container. With the
/// number of occupants that stand before the item's place.
pub open spec fn single_plan(
    item: &Item,
    containers: Seq<Container>,
    occupancy: Seq<Seq<Occupant>>,
    candidate: Ranked,
) -> Option<(Displacement, nat)> {
    let c = candidate.container as int;
    let i = candidate.index as int;
    match container_place(item.dims(), &containers[c], occupancy[c].remove(i)) {
        None => None,
        Some((target_position, steps)) => match alternative_scan(
            extents_of(occupancy[c][i].position),
            containers,
            occupancy,
            candidate.container,
            0,
        ) {
            None => None,
            Some((destination, evictee_position)) => Some(
                (
                    Displacement {
                        source: candidate.container,
                        index: candidate.index,
                        target_position,
                        destination,
                        evictee_position,
                    },
                    steps,
                ),
            ),
        },
    }
}

/// The plan for the first of the candidates, from the `k`-th on, that has
/// one.
pub open spec fn single_among(
    item: &Item,
    containers: Seq<Container>,
    occupancy: Seq<Seq<Occupant>>,
    candidates: Seq<Ranked>,
    k: int,
) -> Option<(Displacement, nat)>
    decreases candidates.len() - k,
{
    if k < 0 || k >= candidates.len() {
        None
    } else {
        match single_plan(item, containers, occupancy, candidates[k]) {
            Some(plan) => Some(plan),
            None => single_among(item, containers, occupancy, candidates, k + 1),
        }
    }
}

/// The plan to move one occupant for the item: the plan for the first of
/// the item's candidates that has one. The candidates are the occupants of
/// the containers of the item's zone whose priority is known and strictly
/// lower than the item's, the one of the lowest priority first.
pub open spec fn single_scan(
    item: &Item,
    containers: Seq<Container>,
    occupancy: Seq<Seq<Occupant>>,
) -> Option<(Displacement, nat)> {
    single_among(item, containers, occupancy, candidates(item, containers, occupancy), 0)
}

/// A plan to make room by moving two occupants of one container: the two
/// relocations, in their order, and the place that the item takes.
#[derive(Clone, Copy, Debug)]
pub struct PairPlan {
    pub first: Relocation,
    pub second: Relocation,
    pub target_position: Position,
}

/// The place that the occupant `i2` of a container has once the occupant
/// `i1` has left it.
pub open spec fn place_after(i1: usize, i2: usize) -> usize {
    if i2 > i1 {
        (i2 - 1) as usize
    } else {
        i2
    }
}

/// The plan that moves the two occupants for which `one` and `two` stand,
/// for the item: with both gone, the item has a place in their container;
/// the first has a place in another container; and, once the first is
/// there, the second has a place in another container too.
pub open spec fn pair_plan(
    item: &Item,
    containers: Seq<Container>,
    occupancy: Seq<Seq<Occupant>>,
    one: Ranked,
    two: Ranked,
) -> Option<(PairPlan, nat)> {
    let c = one.container as int;
    let j2 = place_after(one.index, two.index);
    let rest = occupancy[c].remove(one.index as int).remove(j2 as int);
    match container_place(item.dims(), &containers[c], rest) {
        None => None,
        Some((target_position, steps)) => match alternative_scan(
            extents_of(occupancy[c][one.index as int].position),
            containers,
            occupancy,
            one.container,
            0,
        ) {
            None => None,
            Some((d1, p1)) => {
                let first = Relocation {
                    source: one.container,
                    index: one.index,
                    destination: d1,
                    position: p1,
                };
                match alternative_scan(
                    extents_of(occupancy[c][two.index as int].position),
                    containers,
                    relocated(occupancy, first),
                    one.container,
                    0,
                ) {
                    None => None,
                    Some((d2, p2)) => Some(
                        (
                            PairPlan {
                                first,
                                second: Relocation {
                                    source: one.container,
                                    index: j2,
                                    destination: d2,
                                    position: p2,
                                },
                                target_position,
                            },
                            steps,
                        ),
                    ),
                }
            },
        },
    }
}

/// The plan for the first pair, of the candidate `a` and a candidate of the
/// same container from the `b`-th on, that has one.
pub open spec fn pair_among_second(
    item: &Item,
    containers: Seq<Container>,
    occupancy: Seq<Seq<Occupant>>,
    candidates: Seq<Ranked>,
    a: int,
    b: int,
) -> Option<(PairPlan, nat)>
    decreases candidates.len() - b,
{
    if b < 0 || b >= candidates.len() {
        None
    } else if candidates[b].container == candidates[a].container && pair_plan(
        item,
        containers,
        occupancy,
        candidates[a],
        candidates[b],
    ) is Some {
        pair_plan(item, containers, occupancy, candidates[a], candidates[b])
    } else {
        pair_among_second(item, containers, occupancy, candidates, a, b + 1)
    }
}

/// The plan for the first pair of candidates that has one, the earlier of
/// the two being the `a`-th candidate or a later one.
pub open spec fn pair_among(
    item: &Item,
    containers: Seq<Container>,
    occupancy: Seq<Seq<Occupant>>,
    candidates: Seq<Ranked>,
    a: int,
) -> Option<(PairPlan, nat)>
    decreases candidates.len() - a,
{
    if a < 0 || a >= candidates.len() {
        None
    } else {
        match pair_among_second(item, containers, occupancy, candidates, a, a + 1) {
            Some(plan) => Some(plan),
            None => pair_among(item, containers, occupancy, candidates, a + 1),
        }
    }
}

/// The plan to move two occupants of one container for the item: the plan
/// for the first pair of the item's candidates that has one, the pairs
/// being tried from the lowest priorities up.
pub open spec fn pair_scan(
    item: &Item,
    containers: Seq<Container>,
    occupancy: Seq<Seq<Occupant>>,
) -> Option<(PairPlan, nat)> {
    pair_among(item, containers, occupancy, candidates(item, containers, occupancy), 0)
}

/// `occupancy` after a plan for two: both occupants have gone to their new
/// containers, and the newcomer is the last occupant of theirs.
pub open spec fn paired(
    occupancy: Seq<Seq<Occupant>>,
    plan: PairPlan,
    newcomer: Occupant,
) -> Seq<Seq<Occupant>> {
    put(
        relocated(relocated(occupancy, plan.first), plan.second),
        plan.first.source as int,
        newcomer,
    )
}

/// The moves after a plan for two.
pub open spec fn pair_moves(occupancy: Seq<Seq<Occupant>>, moves: Seq<Move>, plan: PairPlan) -> Seq<
    Move,
> {
    moves.push(relocation_move(occupancy, plan.first)).push(
        relocation_move(relocated(occupancy, plan.first), plan.second),
    )
}

/// What making room for the `n`-th item of the request comes to: the
/// occupancy and the moves after it, the container and the place that the
/// item takes, and the number of occupants before it.
pub struct Turn {
    pub occupancy: Seq<Seq<Occupant>>,
    pub moves: Seq<Move>,
    pub container: usize,
    pub position: Position,
    pub steps: nat,
}

/// Making room for the item by moving one occupant.
pub open spec fn single_turn(
    item: &Item,
    n: usize,
    containers: Seq<Container>,
    occupancy: Seq<Seq<Occupant>>,
    moves: Seq<Move>,
) -> Option<Turn> {
    match single_scan(item, containers, occupancy) {
        Some((plan, steps)) => Some(
            Turn {
                occupancy: displaced(occupancy, plan, newcomer(n, item, plan.target_position, true)),
                moves: moves.push(move_of(occupancy, plan)),
                container: plan.source,
                position: plan.target_position,
                steps,
            },
        ),
        None => None,
    }
}

/// Making room for the item by moving two occupants.
pub open spec fn pair_turn(
    item: &Item,
    n: usize,
    containers: Seq<Container>,
    occupancy: Seq<Seq<Occupant>>,
    moves: Seq<Move>,
) -> Option<Turn> {
    match pair_scan(item, containers, occupancy) {
        Some((plan, steps)) => Some(
            Turn {
                occupancy: paired(occupancy, plan, newcomer(n, item, plan.target_position, true)),
                moves: pair_moves(occupancy, moves, plan),
                container: plan.first.source,
                position: plan.target_position,
                steps,
            },
        ),
        None => None,
    }
}

/// Making room for the item: by moving one occupant, where that can be
/// done, else by moving two.
pub open spec fn rearrangement(
    item: &Item,
    n: usize,
    containers: Seq<Container>,
    occupancy: Seq<Seq<Occupant>>,
    moves: Seq<Move>,
) -> Option<Turn> {
    match single_turn(item, n, containers, occupancy, moves) {
        Some(turn) => Some(turn),
        None => pair_turn(item, n, containers, occupancy, moves),
    }
}

/// The record and the state are those of the turn; without a turn there is
/// no record, and the state is as it was.
pub open spec fn takes_turn(
    r: Option<PlacementResult>,
    turn: Option<Turn>,
    item: &Item,
    containers: Seq<Container>,
    before: &Simulation,
    after: &Simulation,
) -> bool {
    match r {
        Some(record) => turn matches Some(t) && after.occupants() == t.occupancy && after.moves()
            == t.moves && t.container < containers.len() && describes_place(
            &record,
            item,
            &containers[t.container as int],
            (t.position, t.steps),
            true,
        ),
        None => turn is None && after.occupants() == before.occupants() && after.moves()
            == before.moves(),
    }
}

/// The plan for two can be carried out: each relocation can be made in its
/// turn, and with both made the item's place is feasible in the container
/// that the two have left.
pub open spec fn sound_pair(
    containers: Seq<Container>,
    occupancy: Seq<Seq<Occupant>>,
    plan: PairPlan,
) -> bool {
    &&& plan.second.source == plan.first.source
    &&& sound_relocation(containers, occupancy, plan.first)
    &&& sound_relocation(containers, relocated(occupancy, plan.first), plan.second)
    &&& feasible(
        plan.target_position,
        &containers[plan.first.source as int],
        relocated(relocated(occupancy, plan.first), plan.second)[plan.first.source as int],
    )
}

/// The two occupants that the plan moves are occupants that an item of the
/// priority `floor` may displace.
pub open spec fn displaces_weaker(
    occupancy: Seq<Seq<Occupant>>,
    plan: PairPlan,
    floor: i32,
) -> bool {
    let s = plan.first.source as int;
    &&& displaceable(occupancy[s][plan.first.index as int], floor)
    &&& displaceable(relocated(occupancy, plan.first)[s][plan.second.index as int], floor)
}

impl PlacementService {
    /// Plans the move of the occupant for which `candidate` stands.
    fn plan_for_one(
        &self,
        item: &Item,
        containers: &Vec<Container>,
        sim: &Simulation,
        candidate: Ranked,
    ) -> (r: Option<(Displacement, PlacementResult)>)
        requires
            all_well_formed(containers@),
            sim.occupancy@.len() == containers@.len(),
            candidate.container < containers@.len(),
            candidate.index < sim.occupants()[candidate.container as int].len(),
        ensures
            match r {
                Some((plan, record)) => single_plan(item, containers@, sim.occupants(), candidate)
                    matches Some(found) && found.0 == plan && plan.source == candidate.container
                    && plan.index == candidate.index && describes_place(
                    &record,
                    item,
                    &containers@[plan.source as int],
                    (plan.target_position, found.1),
                    true,
                ) && sound_plan(containers@, sim.occupants(), plan),
                None => single_plan(item, containers@, sim.occupants(), candidate) is None,
            },
    {
        let c = candidate.container;
        let rest = without(&sim.occupancy[c], candidate.index);
        match self.try_container_placement(item, &containers[c], &rest, true) {
            None => None,
            Some(record) => {
                let evictee = sim.occupancy[c][candidate.index];
                match self.find_alternative_placement(&evictee.position, containers, sim, c) {
                    None => None,
                    Some((destination, evictee_position)) => Some(
                        (
                            Displacement {
                                source: c,
                                index: candidate.index,
                                target_position: record.position,
                                destination,
                                evictee_position,
                            },
                            record,
                        ),
                    ),
                }
            },
        }
    }

    /// Plans the move of one occupant for the item: of the first of the
    /// occupants of lower priority in the containers of the item's zone,
    /// the lowest priority first, whose leaving lets the item into its
    /// container and who has a place in another container. The state is not
    /// changed.
    pub fn plan_single(&self, item: &Item, containers: &Vec<Container>, sim: &Simulation) -> (r:
        Option<(Displacement, PlacementResult)>)
        requires
            all_well_formed(containers@),
            sim.occupancy@.len() == containers@.len(),
        ensures
            match r {
                Some((plan, record)) => single_scan(item, containers@, sim.occupants())
                    matches Some(found) && found.0 == plan && plan.source < containers@.len()
                    && describes_place(
                    &record,
                    item,
                    &containers@[plan.source as int],
                    (plan.target_position, found.1),
                    true,
                ) && sound_plan(containers@, sim.occupants(), plan) && containers@[plan.source as int].zone@
                    == item.preferred_zone@ && displaceable(
                    sim.occupants()[plan.source as int][plan.index as int],
                    item.priority,
                ),
                None => single_scan(item, containers@, sim.occupants()) is None,
            },
    {
        let found = collect_candidates(item, containers, sim);
        let mut k: usize = 0;
        while k < found.len()
            invariant
                k <= found.len(),
                all_well_formed(containers@),
                sim.occupancy@.len() == containers@.len(),
                found@ == candidates(item, containers@, sim.occupants()),
                forall|j: int|
                    0 <= j < found@.len() ==> is_displacee(
                        containers@,
                        sim.occupants(),
                        item.preferred_zone@,
                        item.priority,
                        #[trigger] found@[j],
                    ),
                single_among(item, containers@, sim.occupants(), found@, k as int) == single_scan(
                    item,
                    containers@,
                    sim.occupants(),
                ),
            decreases found.len() - k,
        {
            let candidate = found[k];
            assert(is_displacee(
                containers@,
                sim.occupants(),
                item.preferred_zone@,
                item.priority,
                found@[k as int],
            ));
            if let Some(plan) = self.plan_for_one(item, containers, sim, candidate) {
                return Some(plan);
            }
            k += 1;
        }
        None
    }

    /// Plans the move of the two occupants for which `one` and `two` stand.
    fn plan_for_two(
        &self,
        item: &Item,
        containers: &Vec<Container>,
        sim: &Simulation,
        one: Ranked,
        two: Ranked,
    ) -> (r: Option<(PairPlan, PlacementResult)>)
        requires
            all_well_formed(containers@),
            sim.occupancy@.len() == containers@.len(),
            one.container < containers@.len(),
            two.container == one.container,
            one.index < sim.occupants()[one.container as int].len(),
            two.index < sim.occupants()[one.container as int].len(),
            one.index != two.index,
        ensures
            match r {
                Some((plan, record)) => pair_plan(item, containers@, sim.occupants(), one, two)
                    matches Some(found) && found.0 == plan && plan.first.source == one.container
                    && plan.first.index == one.index && plan.second.index == place_after(
                    one.index,
                    two.index,
                ) && describes_place(
                    &record,
                    item,
                    &containers@[plan.first.source as int],
                    (plan.target_position, found.1),
                    true,
                ) && sound_pair(containers@, sim.occupants(), plan),
                None => pair_plan(item, containers@, sim.occupants(), one, two) is None,
            },
    {
        let c = one.container;
        let j2: usize = if two.index > one.index {
            two.index - 1
        } else {
            two.index
        };
        let without_one = without(&sim.occupancy[c], one.index);
        let rest = without(&without_one, j2);
        match self.try_container_placement(item, &containers[c], &rest, true) {
            None => None,
            Some(record) => {
                let e1 = sim.occupancy[c][one.index];
                let e2 = sim.occupancy[c][two.index];
                match self.find_alternative_placement(&e1.position, containers, sim, c) {
                    None => None,
                    Some((d1, p1)) => {
                        let first = Relocation {
                            source: c,
                            index: one.index,
                            destination: d1,
                            position: p1,
                        };
                        let mut copy = sim.snapshot();
                        copy.relocate(&first);
                        proof {
                            lemma_relocated_shape(sim.occupants(), first);
                        }
                        match self.find_alternative_placement(&e2.position, containers, &copy, c) {
                            None => None,
                            Some((d2, p2)) => {
                                let second = Relocation {
                                    source: c,
                                    index: j2,
                                    destination: d2,
                                    position: p2,
                                };
                                proof {
                                    lemma_relocated_shape(relocated(sim.occupants(), first), second);
                                }
                                Some((PairPlan { first, second, target_position: record.position }, record))
                            },
                        }
                    },
                }
            },
        }
    }

    /// Plans the move of two occupants of one container for the item: of
    /// the first pair of occupants of lower priority in a container of the
    /// item's zone, the lowest priorities first, whose leaving lets the item
    /// into their container and who have places in other containers. The
    /// state is not changed.
    pub fn plan_pair(&self, item: &Item, containers: &Vec<Container>, sim: &Simulation) -> (r: Option<
        (PairPlan, PlacementResult),
    >)
        requires
            all_well_formed(containers@),
            sim.occupancy@.len() == containers@.len(),
        ensures
            match r {
                Some((plan, record)) => pair_scan(item, containers@, sim.occupants())
                    matches Some(found) && found.0 == plan && plan.first.source < containers@.len()
                    && describes_place(
                    &record,
                    item,
                    &containers@[plan.first.source as int],
                    (plan.target_position, found.1),
                    true,
                ) && sound_pair(containers@, sim.occupants(), plan) && containers@[plan.first.source as int].zone@
                    == item.preferred_zone@ && displaces_weaker(
                    sim.occupants(),
                    plan,
                    item.priority,
                ),
                None => pair_scan(item, containers@, sim.occupants()) is None,
            },
    {
        let found = collect_candidates(item, containers, sim);
        let mut a: usize = 0;
        while a < found.len()
            invariant
                a <= found.len(),
                all_well_formed(containers@),
                sim.occupancy@.len() == containers@.len(),
                found@ == candidates(item, containers@, sim.occupants()),
                forall|j: int|
                    0 <= j < found@.len() ==> is_displacee(
                        containers@,
                        sim.occupants(),
                        item.preferred_zone@,
                        item.priority,
                        #[trigger] found@[j],
                    ),
                forall|i: int, j: int|
                    0 <= i < found@.len() && 0 <= j < found@.len() && i != j ==> !same_place(
                        #[trigger] found@[i],
                        #[trigger] found@[j],
                    ),
                pair_among(item, containers@, sim.occupants(), found@, a as int) == pair_scan(
                    item,
                    containers@,
                    sim.occupants(),
                ),
            decreases found.len() - a,
        {
            let mut b: usize = a + 1;
            while b < found.len()
                invariant
                    a < b <= found.len(),
                    all_well_formed(containers@),
                    sim.occupancy@.len() == containers@.len(),
                    found@ == candidates(item, containers@, sim.occupants()),
                    forall|j: int|
                        0 <= j < found@.len() ==> is_displacee(
                            containers@,
                            sim.occupants(),
                            item.preferred_zone@,
                            item.priority,
                            #[trigger] found@[j],
                        ),
                    forall|i: int, j: int|
                        0 <= i < found@.len() && 0 <= j < found@.len() && i != j ==> !same_place(
                            #[trigger] found@[i],
                            #[trigger] found@[j],
                        ),
                    pair_among_second(
                        item,
                        containers@,
                        sim.occupants(),
                        found@,
                        a as int,
                        b as int,
                    ) == pair_among_second(
                        item,
                        containers@,
                        sim.occupants(),
                        found@,
                        a as int,
                        a + 1,
                    ),
                    pair_among(item, containers@, sim.occupants(), found@, a as int) == pair_scan(
                        item,
                        containers@,
                        sim.occupants(),
                    ),
                decreases found.len() - b,
            {
                let one = found[a];
                let two = found[b];
                assert(is_displacee(
                    containers@,
                    sim.occupants(),
                    item.preferred_zone@,
                    item.priority,
                    found@[a as int],
                ));
                assert(is_displacee(
                    containers@,
                    sim.occupants(),
                    item.preferred_zone@,
                    item.priority,
                    found@[b as int],
                ));
                assert(!same_place(found@[a as int], found@[b as int]));
                if two.container == one.container {
                    if let Some(plan) = self.plan_for_two(item, containers, sim, one, two) {
                        proof {
                            let first = plan.0.first;
                            lemma_relocated_shape(sim.occupants(), first);
                            let left = relocated(sim.occupants(), first)[one.container as int];
                            assert(left[plan.0.second.index as int] == sim.occupants()[one.container as int][two.index as int]);
                        }
                        return Some(plan);
                    }
                }
                b += 1;
            }
            a += 1;
        }
        None
    }

    /// Moves one occupant for the `n`-th item of the request, if a plan is
    /// found, and puts the item in the occupant's container.
    fn move_one(&self, item: &Item, n: usize, containers: &Vec<Container>, sim: &mut Simulation) -> (r:
        Option<PlacementResult>)
        requires
            all_well_formed(containers@),
            old(sim).occupancy@.len() == containers@.len(),
            absent(old(sim).occupants(), ItemRef::Requested(n)),
        ensures
            takes_turn(
                r,
                single_turn(item, n, containers@, old(sim).occupants(), old(sim).moves()),
                item,
                containers@,
                old(sim),
                final(sim),
            ),
            final(sim).occupancy@.len() == containers@.len(),
            upholds(
                containers@,
                old(sim).occupants(),
                old(sim).moves(),
                final(sim).occupants(),
                final(sim).moves(),
            ),
            adds_only(old(sim).occupants(), final(sim).occupants(), ItemRef::Requested(n)),
    {
        let ghost occupancy = sim.occupants();
        let ghost moves = sim.moves();
        proof {
            lemma_upholds_itself(containers@, occupancy, moves);
        }
        match self.plan_single(item, containers, sim) {
            None => None,
            Some((plan, record)) => {
                let o = make_newcomer(n, item, plan.target_position, true);
                sim.carry_out(&plan, o);
                proof {
                    lemma_displaced_upholds(
                        containers@,
                        occupancy,
                        moves,
                        occupancy,
                        moves,
                        seq![n],
                        0,
                        plan,
                        o,
                    );
                    assert forall|other: ItemRef|
                        other != ItemRef::Requested(n) && absent(
                            occupancy,
                            other,
                        ) implies #[trigger] absent(sim.occupants(), other) by {
                        lemma_displaced_keeps_absent(occupancy, plan, o, other);
                    }
                }
                Some(record)
            },
        }
    }

    /// Moves two occupants of one container for the `n`-th item of the
    /// request, if a plan is found, and puts the item in their container.
    fn move_two(&self, item: &Item, n: usize, containers: &Vec<Container>, sim: &mut Simulation) -> (r:
        Option<PlacementResult>)
        requires
            all_well_formed(containers@),
            old(sim).occupancy@.len() == containers@.len(),
            absent(old(sim).occupants(), ItemRef::Requested(n)),
        ensures
            takes_turn(
                r,
                pair_turn(item, n, containers@, old(sim).occupants(), old(sim).moves()),
                item,
                containers@,
                old(sim),
                final(sim),
            ),
            final(sim).occupancy@.len() == containers@.len(),
            upholds(
                containers@,
                old(sim).occupants(),
                old(sim).moves(),
                final(sim).occupants(),
                final(sim).moves(),
            ),
            adds_only(old(sim).occupants(), final(sim).occupants(), ItemRef::Requested(n)),
    {
        let ghost occupancy = sim.occupants();
        let ghost moves = sim.moves();
        proof {
            lemma_upholds_itself(containers@, occupancy, moves);
        }
        match self.plan_pair(item, containers, sim) {
            None => None,
            Some((plan, record)) => {
                let o = make_newcomer(n, item, plan.target_position, true);
                proof {
                    lemma_relocated_shape(occupancy, plan.first);
                    lemma_relocated_shape(relocated(occupancy, plan.first), plan.second);
                }
                sim.relocate(&plan.first);
                sim.relocate(&plan.second);
                sim.place(plan.first.source, o);
                proof {
                    let queue = seq![n];
                    let once = relocated(occupancy, plan.first);
                    let twice = relocated(once, plan.second);
                    let moved = moves.push(relocation_move(occupancy, plan.first));
                    lemma_relocated_upholds(
                        containers@,
                        occupancy,
                        moves,
                        occupancy,
                        moves,
                        queue,
                        plan.first,
                    );
                    lemma_relocated_upholds(
                        containers@,
                        occupancy,
                        moves,
                        once,
                        moved,
                        queue,
                        plan.second,
                    );
                    lemma_put_upholds(
                        containers@,
                        occupancy,
                        moves,
                        twice,
                        moved.push(relocation_move(once, plan.second)),
                        queue,
                        0,
                        plan.first.source as int,
                        o,
                    );
                    assert forall|other: ItemRef|
                        other != ItemRef::Requested(n) && absent(
                            occupancy,
                            other,
                        ) implies #[trigger] absent(sim.occupants(), other) by {
                        lemma_relocated_keeps_absent(occupancy, plan.first, other);
                        lemma_relocated_keeps_absent(once, plan.second, other);
                        lemma_put_keeps_absent(twice, plan.first.source as int, o, other);
                    }
                }
                Some(record)
            },
        }
    }

    /// Makes room for the `n`-th item of the request among the occupants of
    /// lower priority in the containers of its zone, the lowest priority
    /// first: by moving one of them to another container; where no single
    /// one can be moved, by moving two of one container. The item is put in
    /// the container that they leave. Returns the record of the item's
    /// place; where no room can be made, nothing changes.
    pub fn try_complex_rearrangement(
        &self,
        item: &Item,
        n: usize,
        containers: &Vec<Container>,
        sim: &mut Simulation,
    ) -> (r: Option<PlacementResult>)
        requires
            all_well_formed(containers@),
            old(sim).occupancy@.len() == containers@.len(),
            absent(old(sim).occupants(), ItemRef::Requested(n)),
        ensures
            takes_turn(
                r,
                rearrangement(item, n, containers@, old(sim).occupants(), old(sim).moves()),
                item,
                containers@,
                old(sim),
                final(sim),
            ),
            final(sim).occupancy@.len() == containers@.len(),
            upholds(
                containers@,
                old(sim).occupants(),
                old(sim).moves(),
                final(sim).occupants(),
                final(sim).moves(),
            ),
            adds_only(old(sim).occupants(), final(sim).occupants(), ItemRef::Requested(n)),
    {
        match self.move_one(item, n, containers, sim) {
            Some(record) => Some(record),
            None => self.move_two(item, n, containers, sim),
        }
    }

    /// Makes room for the `n`-th item of the request by moving one occupant
    /// of lower priority in a container of its zone to another container,
    /// the lowest priority first, and puts the item in the occupant's
    /// container; where no single occupant can be moved, it goes on as
    /// [`PlacementService::try_complex_rearrangement`] does. Returns the
    /// record of the item's place; where no room can be made, nothing
    /// changes.
    pub fn try_rearrangement(
        &self,
        item: &Item,
        n: usize,
        containers: &Vec<Container>,
        sim: &mut Simulation,
    ) -> (r: Option<PlacementResult>)
        requires
            all_well_formed(containers@),
            old(sim).occupancy@.len() == containers@.len(),
            absent(old(sim).occupants(), ItemRef::Requested(n)),
        ensures
            takes_turn(
                r,
                rearrangement(item, n, containers@, old(sim).occupants(), old(sim).moves()),
                item,
                containers@,
                old(sim),
                final(sim),
            ),
            final(sim).occupancy@.len() == containers@.len(),
            upholds(
                containers@,
                old(sim).occupants(),
                old(sim).moves(),
                final(sim).occupants(),
                final(sim).moves(),
            ),
            adds_only(old(sim).occupants(), final(sim).occupants(), ItemRef::Requested(n)),
    {
        match self.move_one(item, n, containers, sim) {
            Some(record) => Some(record),
            None => self.try_complex_rearrangement(item, n, containers, sim),
        }
    }
}

} // verus!
