//! Making room: an item that finds no place in the containers of its zone
//! may take the place of an occupant of lower priority there, if that
//! occupant can go to another container.
//!
//! The planner only reads the state. It returns a plan, which is carried
//! out by [`Simulation::carry_out`].

use crate::homing::{all_well_formed, find_home, home};
use crate::models::{Container, Item};
use crate::ranking::{lemma_ranked_same_entries, ranked, sort_ranked, Ranked};
use crate::search::{find_spot_in_container, spot};
use crate::simulation::{lemma_layout_countable, sound_plan, Displacement, Occupant, Simulation};
use vstd::prelude::*;

verus! {

/// The occupant may be displaced by an item of the priority `floor`: its
/// priority is known and strictly lower.
pub open spec fn displaceable(o: Occupant, floor: i32) -> bool {
    o.known && o.priority < floor
}

/// The displaceable ones among the first `n` occupants of the container `c`,
/// in their order, each with its priority as its rank.
pub open spec fn displacees_within(occupants: Seq<Occupant>, c: usize, floor: i32, n: int) -> Seq<
    Ranked,
>
    decreases n,
{
    if n <= 0 {
        Seq::empty()
    } else {
        let rest = displacees_within(occupants, c, floor, n - 1);
        if displaceable(occupants[n - 1], floor) {
            rest.push(
                Ranked { rank: occupants[n - 1].priority as i128, container: c, index: (n - 1) as usize },
            )
        } else {
            rest
        }
    }
}

/// The displaceable occupants of those of the first `m` containers that lie
/// in the zone `zone`, container by container.
pub open spec fn displacees(
    containers: Seq<Container>,
    occupancy: Seq<Seq<Occupant>>,
    zone: Seq<char>,
    floor: i32,
    m: int,
) -> Seq<Ranked>
    decreases m,
{
    if m <= 0 {
        Seq::empty()
    } else {
        let rest = displacees(containers, occupancy, zone, floor, m - 1);
        if containers[m - 1].zone@ == zone {
            rest + displacees_within(
                occupancy[m - 1],
                (m - 1) as usize,
                floor,
                occupancy[m - 1].len() as int,
            )
        } else {
            rest
        }
    }
}

/// The entry `a` stands for an occupant of an earlier container than `b`,
/// or of an earlier place in the same container.
pub open spec fn stands_before(a: Ranked, b: Ranked) -> bool {
    a.container < b.container || (a.container == b.container && a.index < b.index)
}

/// The two entries stand for the same occupant.
pub open spec fn same_place(a: Ranked, b: Ranked) -> bool {
    a.container == b.container && a.index == b.index
}

/// The entry stands for a displaceable occupant of a container of the zone.
pub open spec fn is_displacee(
    containers: Seq<Container>,
    occupancy: Seq<Seq<Occupant>>,
    zone: Seq<char>,
    floor: i32,
    e: Ranked,
) -> bool {
    &&& e.container < occupancy.len()
    &&& e.index < occupancy[e.container as int].len()
    &&& containers[e.container as int].zone@ == zone
    &&& displaceable(occupancy[e.container as int][e.index as int], floor)
    &&& e.rank == occupancy[e.container as int][e.index as int].priority
}

/// The plan that displaces the occupant for which `candidate` stands, for an
/// item of the extents `dims`: with the occupant gone, the search finds a
/// place for the item in the occupant's container, near the opening first;
/// and it finds a place for the occupant, by its declared extents and at the
/// back first, in another container. `None` where either fails.
pub open spec fn eviction(
    dims: (u64, u64, u64),
    containers: Seq<Container>,
    occupancy: Seq<Seq<Occupant>>,
    candidate: Ranked,
) -> Option<Displacement> {
    let c = candidate.container as int;
    let i = candidate.index as int;
    let evictee = occupancy[c][i];
    match spot(dims, &containers[c], occupancy[c].remove(i), true) {
        None => None,
        Some((target_position, _)) => match home(
            (evictee.width, evictee.depth, evictee.height),
            containers,
            occupancy,
            false,
            None,
            Some(candidate.container),
        ) {
            None => None,
            Some((destination, evictee_position)) => Some(
                Displacement {
                    source: candidate.container,
                    index: candidate.index,
                    target_position,
                    destination,
                    evictee_position,
                },
            ),
        },
    }
}

/// The plan for the first of the candidates, from the `k`-th on, that can be
/// displaced.
pub open spec fn first_eviction(
    dims: (u64, u64, u64),
    containers: Seq<Container>,
    occupancy: Seq<Seq<Occupant>>,
    candidates: Seq<Ranked>,
    k: int,
) -> Option<Displacement>
    decreases candidates.len() - k,
{
    if k < 0 || k >= candidates.len() {
        None
    } else {
        match eviction(dims, containers, occupancy, candidates[k]) {
            Some(plan) => Some(plan),
            None => first_eviction(dims, containers, occupancy, candidates, k + 1),
        }
    }
}

/// The occupants that the item `target` may displace, the one of the lowest
/// priority first; those of one priority in the order of their containers
/// and, within a container, of their places.
pub open spec fn candidates(
    target: &Item,
    containers: Seq<Container>,
    occupancy: Seq<Seq<Occupant>>,
) -> Seq<Ranked> {
    ranked(
        displacees(
            containers,
            occupancy,
            target.preferred_zone@,
            target.priority,
            containers.len() as int,
        ),
        false,
    )
}

/// The plan that makes room for the item `target`: the plan for the first
/// of its candidates that can be displaced.
pub open spec fn displacement(
    target: &Item,
    containers: Seq<Container>,
    occupancy: Seq<Seq<Occupant>>,
) -> Option<Displacement> {
    first_eviction(target.dims(), containers, occupancy, candidates(target, containers, occupancy), 0)
}

/// Every entry among the displacees of a container stands for a displaceable
/// occupant of it.
pub proof fn lemma_displacees_within(occupants: Seq<Occupant>, c: usize, floor: i32, n: int)
    requires
        0 <= n <= occupants.len(),
        n <= usize::MAX,
    ensures
        forall|k: int|
            0 <= k < displacees_within(occupants, c, floor, n).len() ==> {
                let e = #[trigger] displacees_within(occupants, c, floor, n)[k];
                &&& e.container == c
                &&& e.index < n
                &&& displaceable(occupants[e.index as int], floor)
                &&& e.rank == occupants[e.index as int].priority
            },
        forall|k: int, l: int|
            0 <= k < l < displacees_within(occupants, c, floor, n).len() ==> (
            #[trigger] displacees_within(occupants, c, floor, n)[k]).index < (
            #[trigger] displacees_within(occupants, c, floor, n)[l]).index,
    decreases n,
{
    if n > 0 {
        lemma_displacees_within(occupants, c, floor, n - 1);
    }
}

/// Every entry among the displacees stands for a displaceable occupant of a
/// container of the zone.
pub proof fn lemma_displacees(
    containers: Seq<Container>,
    occupancy: Seq<Seq<Occupant>>,
    zone: Seq<char>,
    floor: i32,
    m: int,
)
    requires
        0 <= m <= containers.len(),
        containers.len() == occupancy.len(),
        containers.len() <= usize::MAX,
        forall|c: int| 0 <= c < occupancy.len() ==> (#[trigger] occupancy[c]).len() <= usize::MAX,
    ensures
        forall|k: int|
            0 <= k < displacees(containers, occupancy, zone, floor, m).len() ==> is_displacee(
                containers,
                occupancy,
                zone,
                floor,
                #[trigger] displacees(containers, occupancy, zone, floor, m)[k],
            ),
        forall|k: int|
            0 <= k < displacees(containers, occupancy, zone, floor, m).len() ==> (
            #[trigger] displacees(containers, occupancy, zone, floor, m)[k]).container < m,
        forall|k: int, l: int|
            0 <= k < l < displacees(containers, occupancy, zone, floor, m).len() ==> stands_before(
                #[trigger] displacees(containers, occupancy, zone, floor, m)[k],
                #[trigger] displacees(containers, occupancy, zone, floor, m)[l],
            ),
    decreases m,
{
    if m > 0 {
        lemma_displacees(containers, occupancy, zone, floor, m - 1);
        if containers[m - 1].zone@ == zone {
            let within = displacees_within(
                occupancy[m - 1],
                (m - 1) as usize,
                floor,
                occupancy[m - 1].len() as int,
            );
            lemma_displacees_within(
                occupancy[m - 1],
                (m - 1) as usize,
                floor,
                occupancy[m - 1].len() as int,
            );
            let rest = displacees(containers, occupancy, zone, floor, m - 1);
            assert forall|k: int| 0 <= k < (rest + within).len() implies is_displacee(
                containers,
                occupancy,
                zone,
                floor,
                #[trigger] (rest + within)[k],
            ) by {
                if k >= rest.len() {
                    assert((rest + within)[k] == within[k - rest.len()]);
                } else {
                    assert((rest + within)[k] == rest[k]);
                }
            }
            assert forall|k: int| 0 <= k < (rest + within).len() implies (#[trigger] (rest
                + within)[k]).container < m by {
                if k >= rest.len() {
                    assert((rest + within)[k] == within[k - rest.len()]);
                } else {
                    assert((rest + within)[k] == rest[k]);
                }
            }
            assert forall|k: int, l: int| 0 <= k < l < (rest + within).len() implies stands_before(
                #[trigger] (rest + within)[k],
                #[trigger] (rest + within)[l],
            ) by {
                if l < rest.len() {
                    assert((rest + within)[k] == rest[k]);
                    assert((rest + within)[l] == rest[l]);
                } else if k < rest.len() {
                    assert((rest + within)[k] == rest[k]);
                    assert((rest + within)[l] == within[l - rest.len()]);
                } else {
                    assert((rest + within)[k] == within[k - rest.len()]);
                    assert((rest + within)[l] == within[l - rest.len()]);
                }
            }
        }
    }
}

/// What the candidates of an item are: each stands for an occupant of a
/// container of the item's zone that the item may displace; no two stand
/// for the same occupant; and none of lower priority stands behind one of
/// higher priority.
pub proof fn lemma_candidates(
    target: &Item,
    containers: Seq<Container>,
    occupancy: Seq<Seq<Occupant>>,
)
    requires
        containers.len() == occupancy.len(),
        containers.len() <= usize::MAX,
        forall|c: int| 0 <= c < occupancy.len() ==> (#[trigger] occupancy[c]).len() <= usize::MAX,
    ensures
        forall|k: int|
            0 <= k < candidates(target, containers, occupancy).len() ==> is_displacee(
                containers,
                occupancy,
                target.preferred_zone@,
                target.priority,
                #[trigger] candidates(target, containers, occupancy)[k],
            ),
        forall|a: int, b: int|
            0 <= a < candidates(target, containers, occupancy).len() && 0 <= b < candidates(
                target,
                containers,
                occupancy,
            ).len() && a != b ==> !same_place(
                #[trigger] candidates(target, containers, occupancy)[a],
                #[trigger] candidates(target, containers, occupancy)[b],
            ),
        crate::ranking::in_rank_order(candidates(target, containers, occupancy), false),
{
    let zone = target.preferred_zone@;
    let floor = target.priority;
    let found = displacees(containers, occupancy, zone, floor, containers.len() as int);
    let r = candidates(target, containers, occupancy);
    lemma_displacees(containers, occupancy, zone, floor, containers.len() as int);
    lemma_ranked_same_entries(found, false);
    crate::ranking::lemma_ranked_permutes(found, false);
    crate::ranking::lemma_ranked_in_order(found, false);
    assert forall|i: int, j: int| 0 <= i < found.len() && 0 <= j < found.len() && i != j implies found[i]
        != found[j] by {
        if i < j {
            assert(stands_before(found[i], found[j]));
        } else {
            assert(stands_before(found[j], found[i]));
        }
    }
    crate::ranking::lemma_ranked_no_duplicates(found, false);
    assert forall|k: int| 0 <= k < r.len() implies is_displacee(
        containers,
        occupancy,
        zone,
        floor,
        #[trigger] r[k],
    ) by {
        assert(found.contains(r[k]));
        let j = choose|j: int| 0 <= j < found.len() && found[j] == r[k];
        assert(is_displacee(containers, occupancy, zone, floor, found[j]));
    }
    assert forall|a: int, b: int| 0 <= a < r.len() && 0 <= b < r.len() && a != b implies !same_place(
        #[trigger] r[a],
        #[trigger] r[b],
    ) by {
        assert(r[a] != r[b]);
        assert(is_displacee(containers, occupancy, zone, floor, r[a]));
        assert(is_displacee(containers, occupancy, zone, floor, r[b]));
    }
}

/// The occupants but the `i`-th.
pub fn without(occupants: &Vec<Occupant>, i: usize) -> (r: Vec<Occupant>)
    requires
        i < occupants@.len(),
    ensures
        r@ == occupants@.remove(i as int),
{
    let mut r: Vec<Occupant> = Vec::new();
    let mut k: usize = 0;
    while k < occupants.len()
        invariant
            k <= occupants.len(),
            i < occupants@.len(),
            r@.len() == if k <= i {
                k as int
            } else {
                k - 1
            },
            forall|j: int| 0 <= j < r@.len() ==> #[trigger] r@[j] == occupants@.remove(i as int)[j],
        decreases occupants.len() - k,
    {
        if k != i {
            r.push(occupants[k]);
        }
        k += 1;
    }
    assert(r@ =~= occupants@.remove(i as int));
    r
}

/// Collects the occupants that `target` may displace, in the order in which
/// they are to be tried.
pub fn collect_candidates(target: &Item, containers: &Vec<Container>, sim: &Simulation) -> (r: Vec<
    Ranked,
>)
    requires
        sim.occupancy@.len() == containers@.len(),
    ensures
        r@ == candidates(target, containers@, sim.occupants()),
        forall|k: int|
            0 <= k < r@.len() ==> is_displacee(
                containers@,
                sim.occupants(),
                target.preferred_zone@,
                target.priority,
                #[trigger] r@[k],
            ),
        forall|a: int, b: int|
            0 <= a < r@.len() && 0 <= b < r@.len() && a != b ==> !same_place(
                #[trigger] r@[a],
                #[trigger] r@[b],
            ),
{
    let ghost zone = target.preferred_zone@;
    let floor = target.priority;
    let mut found: Vec<Ranked> = Vec::new();
    let mut c: usize = 0;
    while c < containers.len()
        invariant
            c <= containers.len(),
            sim.occupancy@.len() == containers@.len(),
            zone == target.preferred_zone@,
            floor == target.priority,
            found@ == displacees(containers@, sim.occupants(), zone, floor, c as int),
        decreases containers.len() - c,
    {
        if containers[c].zone == target.preferred_zone {
            let ghost base = found@;
            let occupants = &sim.occupancy[c];
            let mut i: usize = 0;
            while i < occupants.len()
                invariant
                    i <= occupants.len(),
                    occupants@ == sim.occupants()[c as int],
                    found@ == base + displacees_within(occupants@, c, floor, i as int),
                decreases occupants.len() - i,
            {
                let o = occupants[i];
                if o.known && o.priority < floor {
                    found.push(Ranked { rank: o.priority as i128, container: c, index: i });
                    assert(found@ =~= base + displacees_within(occupants@, c, floor, i + 1));
                }
                i += 1;
            }
        }
        c += 1;
    }
    proof {
        lemma_layout_countable(sim.occupancy@);
        assert(containers@.len() == containers.len());
        lemma_candidates(target, containers@, sim.occupants());
    }
    sort_ranked(&found, false)
}

/// Plans the displacement of an occupant for the item `target`. The
/// candidates are the occupants of the containers of the item's zone whose
/// priority is known and strictly lower than the item's, the one of the
/// lowest priority first. The first of them is taken whose leaving lets the
/// item into its container and who can itself go to another container.
/// The state is not changed.
pub fn attempt_displacement(target: &Item, containers: &Vec<Container>, sim: &Simulation) -> (r:
    Option<Displacement>)
    requires
        all_well_formed(containers@),
        sim.occupancy@.len() == containers@.len(),
    ensures
        r == displacement(target, containers@, sim.occupants()),
        r matches Some(plan) ==> {
            &&& sound_plan(containers@, sim.occupants(), plan)
            &&& containers@[plan.source as int].zone@ == target.preferred_zone@
            &&& displaceable(
                sim.occupants()[plan.source as int][plan.index as int],
                target.priority,
            )
        },
{
    let dims = (target.width, target.depth, target.height);
    let found = collect_candidates(target, containers, sim);
    let mut k: usize = 0;
    while k < found.len()
        invariant
            k <= found.len(),
            all_well_formed(containers@),
            sim.occupancy@.len() == containers@.len(),
            dims == target.dims(),
            found@ == candidates(target, containers@, sim.occupants()),
            forall|j: int|
                0 <= j < found@.len() ==> is_displacee(
                    containers@,
                    sim.occupants(),
                    target.preferred_zone@,
                    target.priority,
                    #[trigger] found@[j],
                ),
            first_eviction(dims, containers@, sim.occupants(), found@, k as int) == displacement(
                target,
                containers@,
                sim.occupants(),
            ),
        decreases found.len() - k,
    {
        let candidate = found[k];
        assert(is_displacee(
            containers@,
            sim.occupants(),
            target.preferred_zone@,
            target.priority,
            found@[k as int],
        ));
        let c = candidate.container;
        let rest = without(&sim.occupancy[c], candidate.index);
        if let Some((target_position, _)) = find_spot_in_container(dims, &containers[c], &rest, true) {
            let evictee = sim.occupancy[c][candidate.index];
            if let Some((destination, evictee_position)) = find_home(
                (evictee.width, evictee.depth, evictee.height),
                containers,
                sim,
                false,
                None,
                Some(c),
            ) {
                return Some(
                    Displacement {
                        source: c,
                        index: candidate.index,
                        target_position,
                        destination,
                        evictee_position,
                    },
                );
            }
        }
        k += 1;
    }
    None
}

} // verus!
