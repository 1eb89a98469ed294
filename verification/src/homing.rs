//! The search for a place in one of several containers: the containers are
//! tried in the order in which they were given, and the first one in which
//! the search finds a place is taken.

use crate::feasibility::feasible;
use crate::geometry::Position;
use crate::models::Container;
use crate::search::{find_spot_in_container, spot};
use crate::simulation::{Occupant, Simulation};
use vstd::prelude::*;

verus! {

/// Every container has positive extents within the limit.
pub open spec fn all_well_formed(containers: Seq<Container>) -> bool {
    forall|c: int| 0 <= c < containers.len() ==> (#[trigger] containers[c]).well_formed()
}

/// Decides [`all_well_formed`].
pub fn are_well_formed(containers: &Vec<Container>) -> (r: bool)
    ensures
        r == all_well_formed(containers@),
{
    let mut c: usize = 0;
    while c < containers.len()
        invariant
            c <= containers.len(),
            forall|e: int| 0 <= e < c ==> (#[trigger] containers@[e]).well_formed(),
        decreases containers.len() - c,
    {
        if !containers[c].is_well_formed() {
            return false;
        }
        c += 1;
    }
    true
}

/// The text of a zone that is asked for, if one is.
pub open spec fn zone_text(zone: Option<&String>) -> Option<Seq<char>> {
    match zone {
        Some(z) => Some(z@),
        None => None,
    }
}

/// The container `c` may be tried: it lies in the zone that is asked for,
/// if one is, and it is not the barred one.
pub open spec fn eligible(
    containers: Seq<Container>,
    c: int,
    zone: Option<Seq<char>>,
    barred: Option<usize>,
) -> bool {
    &&& zone matches Some(z) ==> containers[c].zone@ == z
    &&& barred matches Some(b) ==> c != b
}

/// Some container lies in the zone.
pub open spec fn zone_known(containers: Seq<Container>, zone: Seq<char>) -> bool {
    exists|c: int| 0 <= c < containers.len() && (#[trigger] containers[c]).zone@ == zone
}

/// Decides [`zone_known`].
pub fn is_zone_known(containers: &Vec<Container>, zone: &String) -> (r: bool)
    ensures
        r == zone_known(containers@, zone@),
{
    let mut c: usize = 0;
    while c < containers.len()
        invariant
            c <= containers.len(),
            forall|e: int| 0 <= e < c ==> (#[trigger] containers@[e]).zone@ != zone@,
        decreases containers.len() - c,
    {
        if containers[c].zone == *zone {
            return true;
        }
        c += 1;
    }
    false
}

/// The first eligible container, from the `c`-th on, in which the search
/// finds a place for an item of the extents `dims`, and that place.
pub open spec fn home_scan(
    dims: (u64, u64, u64),
    containers: Seq<Container>,
    occupancy: Seq<Seq<Occupant>>,
    near_first: bool,
    zone: Option<Seq<char>>,
    barred: Option<usize>,
    c: int,
) -> Option<(usize, Position)>
    decreases containers.len() - c,
{
    if c < 0 || c >= containers.len() {
        None
    } else if eligible(containers, c, zone, barred) && spot(
        dims,
        &containers[c],
        occupancy[c],
        near_first,
    ) is Some {
        Some((c as usize, spot(dims, &containers[c], occupancy[c], near_first).unwrap().0))
    } else {
        home_scan(dims, containers, occupancy, near_first, zone, barred, c + 1)
    }
}

/// The first eligible container in which the search finds a place for an
/// item of the extents `dims`, and that place.
pub open spec fn home(
    dims: (u64, u64, u64),
    containers: Seq<Container>,
    occupancy: Seq<Seq<Occupant>>,
    near_first: bool,
    zone: Option<Seq<char>>,
    barred: Option<usize>,
) -> Option<(usize, Position)> {
    home_scan(dims, containers, occupancy, near_first, zone, barred, 0)
}

/// The home is in the first container that may be tried and has a place:
/// it is the place that the search finds there, and the search finds none
/// in any eligible container before it. There is no home only where the
/// search finds no place in any eligible container.
pub proof fn lemma_home_is_first(
    dims: (u64, u64, u64),
    containers: Seq<Container>,
    occupancy: Seq<Seq<Occupant>>,
    near_first: bool,
    zone: Option<Seq<char>>,
    barred: Option<usize>,
    c: int,
)
    requires
        0 <= c,
        containers.len() <= usize::MAX,
    ensures
        match home_scan(dims, containers, occupancy, near_first, zone, barred, c) {
            Some((found, p)) => {
                &&& c <= found < containers.len()
                &&& eligible(containers, found as int, zone, barred)
                &&& spot(dims, &containers[found as int], occupancy[found as int], near_first)
                    matches Some(place) && place.0 == p
                &&& forall|e: int|
                    c <= e < found && eligible(containers, e, zone, barred) ==> (#[trigger] spot(
                        dims,
                        &containers[e],
                        occupancy[e],
                        near_first,
                    )) is None
            },
            None => forall|e: int|
                c <= e < containers.len() && eligible(containers, e, zone, barred) ==> (
                #[trigger] spot(dims, &containers[e], occupancy[e], near_first)) is None,
        },
    decreases containers.len() - c,
{
    if c < containers.len() && !(eligible(containers, c, zone, barred) && spot(
        dims,
        &containers[c],
        occupancy[c],
        near_first,
    ) is Some) {
        lemma_home_is_first(dims, containers, occupancy, near_first, zone, barred, c + 1);
    }
}

/// Searches a place for an item of the extents `dims`, container by
/// container: only in those of the zone `zone`, where one is given, and not
/// in the container `barred`, where one is. Returns the number of the first
/// container in which a place is found, and the place.
pub fn find_home(
    dims: (u64, u64, u64),
    containers: &Vec<Container>,
    sim: &Simulation,
    near_first: bool,
    zone: Option<&String>,
    barred: Option<usize>,
) -> (r: Option<(usize, Position)>)
    requires
        all_well_formed(containers@),
        sim.occupancy@.len() == containers@.len(),
    ensures
        r == home(dims, containers@, sim.occupants(), near_first, zone_text(zone), barred),
        r matches Some((c, p)) ==> {
            &&& c < containers@.len()
            &&& eligible(containers@, c as int, zone_text(zone), barred)
            &&& feasible(p, &containers@[c as int], sim.occupants()[c as int])
        },
{
    let mut c: usize = 0;
    while c < containers.len()
        invariant
            c <= containers.len(),
            all_well_formed(containers@),
            sim.occupancy@.len() == containers@.len(),
            home_scan(
                dims,
                containers@,
                sim.occupants(),
                near_first,
                zone_text(zone),
                barred,
                c as int,
            ) == home(dims, containers@, sim.occupants(), near_first, zone_text(zone), barred),
        decreases containers.len() - c,
    {
        let in_zone = match zone {
            Some(z) => containers[c].zone == *z,
            None => true,
        };
        let free = match barred {
            Some(b) => c != b,
            None => true,
        };
        if in_zone && free {
            if let Some((p, _)) = find_spot_in_container(
                dims,
                &containers[c],
                &sim.occupancy[c],
                near_first,
            ) {
                return Some((c, p));
            }
        }
        c += 1;
    }
    None
}

} // verus!
