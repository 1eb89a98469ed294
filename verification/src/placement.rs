//! A batch from the request to the response: the stored placements become
//! the state at the start, the batch is run, and the state at the end is
//! reported.

use crate::accessibility::{calculate_retrieval_steps, retrieval_steps};
use crate::homing::all_well_formed;
use crate::models::{
    Container, Item, PlacementRequest, PlacementResponse, PlacementResult, RearrangementStep,
};
use crate::orchestrator::{batch, run_batch, Outcome};
use crate::feasibility::inside;
use crate::simulation::{
    absent, accounted, admits, bounded, lawful, lemma_start_is_lawful, no_overlap, only_stored, put,
    singular, ItemRef, Move, Occupant, Simulation,
};
use vstd::prelude::*;
use vstd::string::StringExecFns;

verus! {

/// Why a batch was turned down as a whole.
#[derive(Debug)]
pub enum PlacementError {
    /// An item of the request is stored already; the identifier is its own.
    AlreadyPlaced(String),
    /// Two items of the request have this identifier.
    RepeatedItem(String),
    /// Two containers of the request have this identifier.
    RepeatedContainer(String),
}

/// The first of the containers, from the `c`-th on, that has the
/// identifier `id`.
pub open spec fn container_scan(containers: Seq<Container>, id: Seq<char>, c: int) -> Option<usize>
    decreases containers.len() - c,
{
    if c < 0 || c >= containers.len() {
        None
    } else if containers[c].container_id@ == id {
        Some(c as usize)
    } else {
        container_scan(containers, id, c + 1)
    }
}

/// The first of the containers that has the identifier `id`.
pub open spec fn container_number(containers: Seq<Container>, id: Seq<char>) -> Option<usize> {
    container_scan(containers, id, 0)
}

/// Finds the first container that has the identifier `id`.
pub fn find_container(containers: &Vec<Container>, id: &String) -> (r: Option<usize>)
    ensures
        r == container_number(containers@, id@),
        r matches Some(c) ==> c < containers@.len() && containers@[c as int].container_id@ == id@,
        r is None ==> forall|c: int|
            0 <= c < containers@.len() ==> (#[trigger] containers@[c]).container_id@ != id@,
{
    let mut c: usize = 0;
    while c < containers.len()
        invariant
            c <= containers.len(),
            container_scan(containers@, id@, c as int) == container_number(containers@, id@),
            forall|e: int| 0 <= e < c ==> (#[trigger] containers@[e]).container_id@ != id@,
        decreases containers.len() - c,
    {
        if containers[c].container_id == *id {
            return Some(c);
        }
        c += 1;
    }
    None
}

/// The first of the items, from the `n`-th on, that has the identifier `id`.
pub open spec fn item_scan(items: Seq<Item>, id: Seq<char>, n: int) -> Option<usize>
    decreases items.len() - n,
{
    if n < 0 || n >= items.len() {
        None
    } else if items[n].item_id@ == id {
        Some(n as usize)
    } else {
        item_scan(items, id, n + 1)
    }
}

/// The first of the items that has the identifier `id`.
pub open spec fn item_number(items: Seq<Item>, id: Seq<char>) -> Option<usize> {
    item_scan(items, id, 0)
}

/// Finds the first item that has the identifier `id`.
pub fn find_item(items: &Vec<Item>, id: &String) -> (r: Option<usize>)
    ensures
        r == item_number(items@, id@),
        r matches Some(n) ==> n < items@.len() && items@[n as int].item_id@ == id@,
        r is None ==> forall|n: int| 0 <= n < items@.len() ==> (#[trigger] items@[n]).item_id@ != id@,
{
    let mut n: usize = 0;
    while n < items.len()
        invariant
            n <= items.len(),
            item_scan(items@, id@, n as int) == item_number(items@, id@),
            forall|e: int| 0 <= e < n ==> (#[trigger] items@[e]).item_id@ != id@,
        decreases items.len() - n,
    {
        if items[n].item_id == *id {
            return Some(n);
        }
        n += 1;
    }
    None
}

/// No two items of the request have the same identifier.
pub open spec fn distinct_item_ids(items: Seq<Item>) -> bool {
    forall|a: int, b: int|
        0 <= a < b < items.len() ==> (#[trigger] items[a]).item_id@ != (#[trigger] items[b]).item_id@
}

/// No two containers have the same identifier.
pub open spec fn distinct_container_ids(containers: Seq<Container>) -> bool {
    forall|a: int, b: int|
        0 <= a < b < containers.len() ==> (#[trigger] containers[a]).container_id@ != (
        #[trigger] containers[b]).container_id@
}

/// The first of the items, from the `n`-th on, that is not the first item
/// of its identifier.
pub open spec fn repeated_item_scan(items: Seq<Item>, n: int) -> Option<usize>
    decreases items.len() - n,
{
    if n < 0 || n >= items.len() {
        None
    } else if item_number(items, items[n].item_id@) != Some(n as usize) {
        Some(n as usize)
    } else {
        repeated_item_scan(items, n + 1)
    }
}

/// The first item whose identifier an earlier item has.
pub open spec fn first_repeated_item(items: Seq<Item>) -> Option<usize> {
    repeated_item_scan(items, 0)
}

/// Finds the first item whose identifier an earlier item has.
pub fn find_repeated_item(items: &Vec<Item>) -> (r: Option<usize>)
    ensures
        r == first_repeated_item(items@),
        r matches Some(n) ==> n < items@.len(),
        r is None <==> distinct_item_ids(items@),
{
    let mut n: usize = 0;
    while n < items.len()
        invariant
            n <= items.len(),
            repeated_item_scan(items@, n as int) == first_repeated_item(items@),
            forall|k: int|
                0 <= k < n ==> item_number(items@, (#[trigger] items@[k]).item_id@) == Some(
                    k as usize,
                ),
        decreases items.len() - n,
    {
        let first = find_item(items, &items[n].item_id);
        let repeated = match first {
            Some(m) => m != n,
            None => true,
        };
        if repeated {
            proof {
                let m = first->Some_0;
                assert(items@[m as int].item_id@ == items@[n as int].item_id@);
                if m < n {
                    assert(items@[m as int].item_id@ == items@[n as int].item_id@);
                }
            }
            return Some(n);
        }
        n += 1;
    }
    assert forall|a: int, b: int| 0 <= a < b < items@.len() implies (#[trigger] items@[a]).item_id@
        != (#[trigger] items@[b]).item_id@ by {
        assert(item_number(items@, items@[a].item_id@) == Some(a as usize));
        assert(item_number(items@, items@[b].item_id@) == Some(b as usize));
    }
    None
}

/// The first of the containers, from the `c`-th on, that is not the first
/// container of its identifier.
pub open spec fn repeated_container_scan(containers: Seq<Container>, c: int) -> Option<usize>
    decreases containers.len() - c,
{
    if c < 0 || c >= containers.len() {
        None
    } else if container_number(containers, containers[c].container_id@) != Some(c as usize) {
        Some(c as usize)
    } else {
        repeated_container_scan(containers, c + 1)
    }
}

/// The first container whose identifier an earlier container has.
pub open spec fn first_repeated_container(containers: Seq<Container>) -> Option<usize> {
    repeated_container_scan(containers, 0)
}

/// Finds the first container whose identifier an earlier container has.
pub fn find_repeated_container(containers: &Vec<Container>) -> (r: Option<usize>)
    ensures
        r == first_repeated_container(containers@),
        r matches Some(c) ==> c < containers@.len(),
        r is None <==> distinct_container_ids(containers@),
{
    let mut c: usize = 0;
    while c < containers.len()
        invariant
            c <= containers.len(),
            repeated_container_scan(containers@, c as int) == first_repeated_container(containers@),
            forall|k: int|
                0 <= k < c ==> container_number(
                    containers@,
                    (#[trigger] containers@[k]).container_id@,
                ) == Some(k as usize),
        decreases containers.len() - c,
    {
        let first = find_container(containers, &containers[c].container_id);
        let repeated = match first {
            Some(m) => m != c,
            None => true,
        };
        if repeated {
            proof {
                let m = first->Some_0;
                assert(containers@[m as int].container_id@ == containers@[c as int].container_id@);
            }
            return Some(c);
        }
        c += 1;
    }
    assert forall|a: int, b: int| 0 <= a < b < containers@.len() implies (
    #[trigger] containers@[a]).container_id@ != (#[trigger] containers@[b]).container_id@ by {
        assert(container_number(containers@, containers@[a].container_id@) == Some(a as usize));
        assert(container_number(containers@, containers@[b].container_id@) == Some(b as usize));
    }
    None
}

/// The stored placement stands in the way of the request: its item is one
/// of the request's items, whatever container it lies in.
pub open spec fn clashes(record: &PlacementResult, items: Seq<Item>) -> bool {
    item_number(items, record.item_id@) is Some
}

/// The first of the stored placements, from the `j`-th on, that stands in
/// the way of the request.
pub open spec fn clash_scan(stored: Seq<PlacementResult>, items: Seq<Item>, j: int) -> Option<usize>
    decreases stored.len() - j,
{
    if j < 0 || j >= stored.len() {
        None
    } else if clashes(&stored[j], items) {
        Some(j as usize)
    } else {
        clash_scan(stored, items, j + 1)
    }
}

/// The first of the stored placements that stands in the way of the
/// request.
pub open spec fn first_clash(stored: Seq<PlacementResult>, items: Seq<Item>) -> Option<usize> {
    clash_scan(stored, items, 0)
}

/// Finds the first stored placement that stands in the way of the request.
pub fn find_clash(stored: &Vec<PlacementResult>, items: &Vec<Item>) -> (r: Option<usize>)
    ensures
        r == first_clash(stored@, items@),
        r matches Some(j) ==> j < stored@.len() && clashes(&stored@[j as int], items@),
        r is None ==> forall|j: int|
            0 <= j < stored@.len() ==> !clashes(&#[trigger] stored@[j], items@),
{
    let mut j: usize = 0;
    while j < stored.len()
        invariant
            j <= stored.len(),
            clash_scan(stored@, items@, j as int) == first_clash(stored@, items@),
            forall|e: int| 0 <= e < j ==> !clashes(&#[trigger] stored@[e], items@),
        decreases stored.len() - j,
    {
        if find_item(items, &stored[j].item_id).is_some() {
            return Some(j);
        }
        j += 1;
    }
    None
}

/// The occupant that the `j`-th stored placement stands for. Its priority
/// and its declared extents are those of the first known item with its
/// identifier; where there is none they are not known.
pub open spec fn stored_occupant(j: usize, record: &PlacementResult, known_items: Seq<Item>) -> Occupant {
    match item_number(known_items, record.item_id@) {
        Some(k) => Occupant {
            item: ItemRef::Stored(j),
            position: record.position,
            is_preferred_zone: record.is_preferred_zone,
            known: true,
            priority: known_items[k as int].priority,
            width: known_items[k as int].width,
            depth: known_items[k as int].depth,
            height: known_items[k as int].height,
        },
        None => Occupant {
            item: ItemRef::Stored(j),
            position: record.position,
            is_preferred_zone: record.is_preferred_zone,
            known: false,
            priority: 0,
            width: 0,
            depth: 0,
            height: 0,
        },
    }
}

/// The occupancy that the first `j` stored placements make up: each is the
/// next occupant of the container that it names; one that names none of the
/// containers is left out.
pub open spec fn seeded(
    stored: Seq<PlacementResult>,
    known_items: Seq<Item>,
    containers: Seq<Container>,
    j: int,
) -> Seq<Seq<Occupant>>
    decreases j,
{
    if j <= 0 {
        Seq::new(containers.len(), |c: int| Seq::empty())
    } else {
        let rest = seeded(stored, known_items, containers, j - 1);
        match container_number(containers, stored[j - 1].container_id@) {
            Some(c) => put(
                rest,
                c as int,
                stored_occupant((j - 1) as usize, &stored[j - 1], known_items),
            ),
            None => rest,
        }
    }
}

/// The occupancy at the start of a batch.
pub open spec fn start_of(
    stored: Seq<PlacementResult>,
    known_items: Seq<Item>,
    containers: Seq<Container>,
) -> Seq<Seq<Occupant>> {
    seeded(stored, known_items, containers, stored.len() as int)
}

/// Every occupant is one of the first `j` stored items.
pub open spec fn stored_below(occupancy: Seq<Seq<Occupant>>, j: int) -> bool {
    forall|c: int, i: int|
        0 <= c < occupancy.len() && 0 <= i < occupancy[c].len() ==> (
        #[trigger] occupancy[c][i]).item is Stored && occupancy[c][i].item->Stored_0 < j
}

/// Builds the state at the start of a batch from the stored placements.
pub fn seed(stored: &Vec<PlacementResult>, known_items: &Vec<Item>, containers: &Vec<Container>) -> (sim:
    Simulation)
    ensures
        sim.occupants() == start_of(stored@, known_items@, containers@),
        sim.moves().len() == 0,
        sim.occupancy@.len() == containers@.len(),
        only_stored(sim.occupants()),
        singular(sim.occupants()),
{
    let mut sim = Simulation::new(containers.len());
    let mut j: usize = 0;
    assert(sim.occupants() =~~= seeded(stored@, known_items@, containers@, 0));
    while j < stored.len()
        invariant
            j <= stored.len(),
            sim.occupants() == seeded(stored@, known_items@, containers@, j as int),
            sim.moves().len() == 0,
            sim.occupancy@.len() == containers@.len(),
        decreases stored.len() - j,
    {
        let record = &stored[j];
        if let Some(c) = find_container(containers, &record.container_id) {
            let o = match find_item(known_items, &record.item_id) {
                Some(k) => Occupant {
                    item: ItemRef::Stored(j),
                    position: record.position,
                    is_preferred_zone: record.is_preferred_zone,
                    known: true,
                    priority: known_items[k].priority,
                    width: known_items[k].width,
                    depth: known_items[k].depth,
                    height: known_items[k].height,
                },
                None => Occupant {
                    item: ItemRef::Stored(j),
                    position: record.position,
                    is_preferred_zone: record.is_preferred_zone,
                    known: false,
                    priority: 0,
                    width: 0,
                    depth: 0,
                    height: 0,
                },
            };
            sim.place(c, o);
        }
        j += 1;
    }
    proof {
        assert(stored@.len() == stored.len());
        assert(containers@.len() == containers.len());
        lemma_seeded(stored@, known_items@, containers@, stored@.len() as int);
    }
    sim
}

/// Every occupant is one of the stored placements, and lies in the
/// container that its placement names.
pub open spec fn drawn_from_stored(
    occupancy: Seq<Seq<Occupant>>,
    stored: Seq<PlacementResult>,
    containers: Seq<Container>,
) -> bool {
    forall|c: int, i: int|
        0 <= c < occupancy.len() && 0 <= i < occupancy[c].len() ==> {
            let o = #[trigger] occupancy[c][i];
            &&& o.item is Stored
            &&& o.item->Stored_0 < stored.len()
            &&& container_number(containers, stored[o.item->Stored_0 as int].container_id@)
                == Some(c as usize)
            &&& o.position == stored[o.item->Stored_0 as int].position
        }
}

/// Every stored placement, among the first `j`, that names a container of
/// the request is an occupant.
pub open spec fn holds_stored(
    occupancy: Seq<Seq<Occupant>>,
    stored: Seq<PlacementResult>,
    containers: Seq<Container>,
    j: int,
) -> bool {
    forall|l: int|
        0 <= l < j && container_number(containers, (#[trigger] stored[l]).container_id@) is Some
            ==> !absent(occupancy, ItemRef::Stored(l as usize))
}

/// Where [`container_scan`] finds a container, the container is in range.
pub proof fn lemma_container_scan(containers: Seq<Container>, id: Seq<char>, c: int)
    requires
        0 <= c,
        containers.len() <= usize::MAX,
    ensures
        container_scan(containers, id, c) matches Some(found) ==> c <= found < containers.len()
            && containers[found as int].container_id@ == id,
    decreases containers.len() - c,
{
    if c < containers.len() && containers[c].container_id@ != id {
        lemma_container_scan(containers, id, c + 1);
    }
}

/// Where [`item_scan`] finds no item, no item from the `n`-th on has the
/// identifier.
pub proof fn lemma_item_scan(items: Seq<Item>, id: Seq<char>, n: int)
    requires
        0 <= n,
    ensures
        item_scan(items, id, n) is None ==> forall|k: int|
            n <= k < items.len() ==> (#[trigger] items[k]).item_id@ != id,
    decreases items.len() - n,
{
    if n < items.len() && items[n].item_id@ != id {
        lemma_item_scan(items, id, n + 1);
    }
}

/// Where [`clash_scan`] finds no placement, no stored placement from the
/// `j`-th on stands in the way of the request.
pub proof fn lemma_clash_scan(stored: Seq<PlacementResult>, items: Seq<Item>, j: int)
    requires
        0 <= j,
    ensures
        clash_scan(stored, items, j) is None ==> forall|k: int|
            j <= k < stored.len() ==> !clashes(&#[trigger] stored[k], items),
    decreases stored.len() - j,
{
    if j < stored.len() && !clashes(&stored[j], items) {
        lemma_clash_scan(stored, items, j + 1);
    }
}

/// What the occupancy of the first `j` stored placements is like: it has
/// the containers of the request; its occupants are stored items, each in
/// the container that its placement names; and no item fills two boxes.
pub proof fn lemma_seeded(
    stored: Seq<PlacementResult>,
    known_items: Seq<Item>,
    containers: Seq<Container>,
    j: int,
)
    requires
        0 <= j <= stored.len(),
        stored.len() <= usize::MAX,
        containers.len() <= usize::MAX,
    ensures
        seeded(stored, known_items, containers, j).len() == containers.len(),
        stored_below(seeded(stored, known_items, containers, j), j),
        drawn_from_stored(seeded(stored, known_items, containers, j), stored, containers),
        holds_stored(seeded(stored, known_items, containers, j), stored, containers, j),
        only_stored(seeded(stored, known_items, containers, j)),
        singular(seeded(stored, known_items, containers, j)),
    decreases j,
{
    if j > 0 {
        lemma_seeded(stored, known_items, containers, j - 1);
        let rest = seeded(stored, known_items, containers, j - 1);
        lemma_container_scan(containers, stored[j - 1].container_id@, 0);
        match container_number(containers, stored[j - 1].container_id@) {
            Some(c) => {
                let o = stored_occupant((j - 1) as usize, &stored[j - 1], known_items);
                let after = put(rest, c as int, o);
                assert(o.item == ItemRef::Stored((j - 1) as usize));
                assert forall|e: int, i: int|
                    0 <= e < after.len() && 0 <= i < after[e].len() && !(e == c && i
                        == rest[c as int].len()) implies #[trigger] after[e][i] == rest[e][i] by {}
                assert(after[c as int][rest[c as int].len() as int] == o);
                assert forall|e: int, i: int|
                    0 <= e < after.len() && 0 <= i < after[e].len() implies {
                    let x = #[trigger] after[e][i];
                    &&& x.item is Stored
                    &&& x.item->Stored_0 < j
                    &&& x.item->Stored_0 < stored.len()
                    &&& container_number(containers, stored[x.item->Stored_0 as int].container_id@)
                        == Some(e as usize)
                    &&& x.position == stored[x.item->Stored_0 as int].position
                } by {
                    if !(e == c && i == rest[c as int].len()) {
                        assert(after[e][i] == rest[e][i]);
                    }
                }
                assert forall|e: int, i: int, f: int, k: int|
                    0 <= e < after.len() && 0 <= i < after[e].len() && 0 <= f < after.len() && 0
                        <= k < after[f].len() && (e != f || i != k) implies (
                #[trigger] after[e][i]).item != (#[trigger] after[f][k]).item by {
                    if e == c && i == rest[c as int].len() {
                        assert(after[f][k] == rest[f][k]);
                    } else if f == c && k == rest[c as int].len() {
                        assert(after[e][i] == rest[e][i]);
                    } else {
                        assert(after[e][i] == rest[e][i]);
                        assert(after[f][k] == rest[f][k]);
                    }
                }
                assert forall|l: int|
                    0 <= l < j && container_number(
                        containers,
                        (#[trigger] stored[l]).container_id@,
                    ) is Some implies !absent(after, ItemRef::Stored(l as usize)) by {
                    if l == j - 1 {
                        assert(after[c as int][rest[c as int].len() as int].item == ItemRef::Stored(
                            l as usize,
                        ));
                    } else {
                        assert(!absent(rest, ItemRef::Stored(l as usize)));
                        let (e, i) = choose|e: int, i: int|
                            0 <= e < rest.len() && 0 <= i < rest[e].len() && (
                            #[trigger] rest[e][i]).item == ItemRef::Stored(l as usize);
                        assert(after[e][i] == rest[e][i]);
                    }
                }
            },
            None => {},
        }
    }
}

/// No two stored placements in containers of the request are of items with
/// the same identifier.
pub open spec fn distinct_stored_ids(stored: Seq<PlacementResult>, containers: Seq<Container>) -> bool {
    forall|a: int, b: int|
        0 <= a < b < stored.len() && container_number(
            containers,
            (#[trigger] stored[a]).container_id@,
        ) is Some && container_number(containers, (#[trigger] stored[b]).container_id@) is Some
            ==> stored[a].item_id@ != stored[b].item_id@
}

/// The identifier of an item of the batch. An item that neither list holds
/// has the empty identifier.
pub open spec fn item_id_of(item: ItemRef, stored: Seq<PlacementResult>, items: Seq<Item>) -> Seq<char> {
    match item {
        ItemRef::Stored(j) => if j < stored.len() {
            stored[j as int].item_id@
        } else {
            Seq::empty()
        },
        ItemRef::Requested(n) => if n < items.len() {
            items[n as int].item_id@
        } else {
            Seq::empty()
        },
    }
}

/// Computes [`item_id_of`].
pub fn name_item(item: ItemRef, stored: &Vec<PlacementResult>, items: &Vec<Item>) -> (id: String)
    ensures
        id@ == item_id_of(item, stored@, items@),
{
    match item {
        ItemRef::Stored(j) => if j < stored.len() {
            stored[j].item_id.clone()
        } else {
            String::new()
        },
        ItemRef::Requested(n) => if n < items.len() {
            items[n].item_id.clone()
        } else {
            String::new()
        },
    }
}

/// The identifier of the `c`-th container; the empty one where there is no
/// such container.
pub open spec fn container_id_of(containers: Seq<Container>, c: usize) -> Seq<char> {
    if c < containers.len() {
        containers[c as int].container_id@
    } else {
        Seq::empty()
    }
}

/// Computes [`container_id_of`].
pub fn name_container(containers: &Vec<Container>, c: usize) -> (id: String)
    ensures
        id@ == container_id_of(containers@, c),
{
    if c < containers.len() {
        containers[c].container_id.clone()
    } else {
        String::new()
    }
}

/// The number of occupants in the first `c` containers.
pub open spec fn offset(occupancy: Seq<Seq<Occupant>>, c: int) -> int
    decreases c,
{
    if c <= 0 {
        0
    } else {
        offset(occupancy, c - 1) + occupancy[c - 1].len()
    }
}

/// The record describes the `i`-th occupant of the `c`-th container: its
/// item and container by their identifiers, its box, the number of
/// occupants of the container that stand before it, and whether it is in a
/// zone chosen for it.
pub open spec fn describes(
    record: &PlacementResult,
    c: int,
    i: int,
    occupancy: Seq<Seq<Occupant>>,
    stored: Seq<PlacementResult>,
    items: Seq<Item>,
    containers: Seq<Container>,
) -> bool {
    let o = occupancy[c][i];
    &&& record.item_id@ == item_id_of(o.item, stored, items)
    &&& record.container_id@ == containers[c].container_id@
    &&& record.position == o.position
    &&& record.retrieval_steps == retrieval_steps(o.position, occupancy[c])
    &&& record.is_preferred_zone == o.is_preferred_zone
}

/// The records describe the occupancy: container by container, and in each
/// container occupant by occupant.
pub open spec fn publishes(
    records: Seq<PlacementResult>,
    occupancy: Seq<Seq<Occupant>>,
    stored: Seq<PlacementResult>,
    items: Seq<Item>,
    containers: Seq<Container>,
) -> bool {
    &&& records.len() == offset(occupancy, occupancy.len() as int)
    &&& forall|c: int, i: int|
        0 <= c < occupancy.len() && 0 <= i < occupancy[c].len() ==> #[trigger] describes(
            &records[offset(occupancy, c) + i],
            c,
            i,
            occupancy,
            stored,
            items,
            containers,
        )
}

/// Describes the occupancy of the state in records.
pub fn publish(
    sim: &Simulation,
    stored: &Vec<PlacementResult>,
    items: &Vec<Item>,
    containers: &Vec<Container>,
) -> (records: Vec<PlacementResult>)
    requires
        sim.occupancy@.len() == containers@.len(),
    ensures
        publishes(records@, sim.occupants(), stored@, items@, containers@),
{
    let mut records: Vec<PlacementResult> = Vec::new();
    let mut c: usize = 0;
    while c < sim.occupancy.len()
        invariant
            c <= sim.occupancy@.len(),
            sim.occupancy@.len() == containers@.len(),
            records@.len() == offset(sim.occupants(), c as int),
            forall|e: int, i: int|
                0 <= e < c && 0 <= i < sim.occupants()[e].len() ==> #[trigger] describes(
                    &records@[offset(sim.occupants(), e) + i],
                    e,
                    i,
                    sim.occupants(),
                    stored@,
                    items@,
                    containers@,
                ),
        decreases sim.occupancy@.len() - c,
    {
        let occupants = &sim.occupancy[c];
        let mut i: usize = 0;
        while i < occupants.len()
            invariant
                i <= occupants@.len(),
                c < sim.occupancy@.len(),
                sim.occupancy@.len() == containers@.len(),
                occupants@ == sim.occupants()[c as int],
                records@.len() == offset(sim.occupants(), c as int) + i,
                forall|e: int, k: int|
                    0 <= e < c && 0 <= k < sim.occupants()[e].len() ==> #[trigger] describes(
                        &records@[offset(sim.occupants(), e) + k],
                        e,
                        k,
                        sim.occupants(),
                        stored@,
                        items@,
                        containers@,
                    ),
                forall|k: int|
                    0 <= k < i ==> #[trigger] describes(
                        &records@[offset(sim.occupants(), c as int) + k],
                        c as int,
                        k,
                        sim.occupants(),
                        stored@,
                        items@,
                        containers@,
                    ),
            decreases occupants@.len() - i,
        {
            let o = occupants[i];
            let ghost before = records@;
            proof {
                lemma_offset_grows(sim.occupants(), c as int);
            }
            records.push(
                PlacementResult {
                    item_id: name_item(o.item, stored, items),
                    container_id: containers[c].container_id.clone(),
                    position: o.position,
                    retrieval_steps: calculate_retrieval_steps(&o.position, occupants),
                    is_preferred_zone: o.is_preferred_zone,
                },
            );
            proof {
                assert forall|e: int, k: int|
                    0 <= e < c && 0 <= k < sim.occupants()[e].len() implies #[trigger] describes(
                    &records@[offset(sim.occupants(), e) + k],
                    e,
                    k,
                    sim.occupants(),
                    stored@,
                    items@,
                    containers@,
                ) by {
                    lemma_offset_grows(sim.occupants(), e);
                    lemma_offset_ordered(sim.occupants(), e + 1, c as int);
                    assert(records@[offset(sim.occupants(), e) + k] == before[offset(
                        sim.occupants(),
                        e,
                    ) + k]);
                    assert(describes(
                        &before[offset(sim.occupants(), e) + k],
                        e,
                        k,
                        sim.occupants(),
                        stored@,
                        items@,
                        containers@,
                    ));
                }
                assert forall|k: int| 0 <= k < i + 1 implies #[trigger] describes(
                    &records@[offset(sim.occupants(), c as int) + k],
                    c as int,
                    k,
                    sim.occupants(),
                    stored@,
                    items@,
                    containers@,
                ) by {
                    if k < i {
                        assert(records@[offset(sim.occupants(), c as int) + k] == before[offset(
                            sim.occupants(),
                            c as int,
                        ) + k]);
                        assert(describes(
                            &before[offset(sim.occupants(), c as int) + k],
                            c as int,
                            k,
                            sim.occupants(),
                            stored@,
                            items@,
                            containers@,
                        ));
                    }
                }
            }
            i += 1;
        }
        c += 1;
    }
    records
}

/// The offsets of the containers grow by the numbers of their occupants.
pub proof fn lemma_offset_grows(occupancy: Seq<Seq<Occupant>>, c: int)
    requires
        0 <= c < occupancy.len(),
    ensures
        0 <= offset(occupancy, c),
        offset(occupancy, c + 1) == offset(occupancy, c) + occupancy[c].len(),
    decreases c,
{
    if c > 0 {
        lemma_offset_grows(occupancy, c - 1);
    }
}

/// A later container has no smaller offset.
pub proof fn lemma_offset_ordered(occupancy: Seq<Seq<Occupant>>, c: int, d: int)
    requires
        0 <= c <= d <= occupancy.len(),
    ensures
        offset(occupancy, c) <= offset(occupancy, d),
    decreases d - c,
{
    if c < d {
        lemma_offset_ordered(occupancy, c, d - 1);
    }
}


/// No two occupants are items with the same identifier.
pub open spec fn distinct_identifiers(
    occupancy: Seq<Seq<Occupant>>,
    stored: Seq<PlacementResult>,
    items: Seq<Item>,
) -> bool {
    forall|c: int, i: int, d: int, j: int|
        0 <= c < occupancy.len() && 0 <= i < occupancy[c].len() && 0 <= d < occupancy.len() && 0
            <= j < occupancy[d].len() && (c != d || i != j) ==> item_id_of(
            (#[trigger] occupancy[c][i]).item,
            stored,
            items,
        ) != item_id_of((#[trigger] occupancy[d][j]).item, stored, items)
}

/// The item is a stored placement in a container of the request, or an
/// item of the request.
pub open spec fn known_item(
    item: ItemRef,
    stored: Seq<PlacementResult>,
    items: Seq<Item>,
    containers: Seq<Container>,
) -> bool {
    match item {
        ItemRef::Stored(j) => j < stored.len() && container_number(
            containers,
            stored[j as int].container_id@,
        ) is Some,
        ItemRef::Requested(n) => n < items.len(),
    }
}

/// Every occupant of a state that admits none but items of the request
/// beside those of the start is a stored placement in a container of the
/// request, or an item of the request.
pub proof fn lemma_known_items(
    stored: Seq<PlacementResult>,
    known_items: Seq<Item>,
    items: Seq<Item>,
    containers: Seq<Container>,
    occupancy: Seq<Seq<Occupant>>,
)
    requires
        stored.len() <= usize::MAX,
        containers.len() <= usize::MAX,
        admits(start_of(stored, known_items, containers), occupancy, items.len() as int),
    ensures
        forall|c: int, i: int|
            0 <= c < occupancy.len() && 0 <= i < occupancy[c].len() ==> known_item(
                (#[trigger] occupancy[c][i]).item,
                stored,
                items,
                containers,
            ),
{
    let start = start_of(stored, known_items, containers);
    lemma_seeded(stored, known_items, containers, stored.len() as int);
    assert forall|c: int, i: int|
        0 <= c < occupancy.len() && 0 <= i < occupancy[c].len() implies known_item(
        (#[trigger] occupancy[c][i]).item,
        stored,
        items,
        containers,
    ) by {
        let x = occupancy[c][i].item;
        if !(x is Requested && x->Requested_0 < items.len()) {
            if absent(start, x) {
                assert(absent(occupancy, x));
                assert(occupancy[c][i].item != x);
            }
            let (e, k) = choose|e: int, k: int|
                0 <= e < start.len() && 0 <= k < start[e].len() && (#[trigger] start[e][k]).item
                    == x;
            assert(start[e][k].item is Stored);
        }
    }
}

/// Of every item of the request there is a record exactly where the item is
/// not among those that found no place.
pub open spec fn records_account(
    records: Seq<PlacementResult>,
    items: Seq<Item>,
    unplaced: Seq<usize>,
) -> bool {
    forall|n: usize|
        n < items.len() ==> (!unplaced.contains(n) <==> exists|k: int|
            0 <= k < records.len() && (#[trigger] records[k]).item_id@ == (
            #[trigger] items[n as int]).item_id@)
}

/// The records account for the items of the request: where the occupancy
/// accounts for them, the items have identifiers of their own, and no
/// stored placement stands in the way of the request.
pub proof fn lemma_records_account(
    records: Seq<PlacementResult>,
    stored: Seq<PlacementResult>,
    known_items: Seq<Item>,
    items: Seq<Item>,
    containers: Seq<Container>,
    occupancy: Seq<Seq<Occupant>>,
    unplaced: Seq<usize>,
)
    requires
        stored.len() <= usize::MAX,
        containers.len() <= usize::MAX,
        occupancy.len() == containers.len(),
        publishes(records, occupancy, stored, items, containers),
        admits(start_of(stored, known_items, containers), occupancy, items.len() as int),
        accounted(occupancy, unplaced, items.len() as int),
        first_clash(stored, items) is None,
        distinct_item_ids(items),
    ensures
        records_account(records, items, unplaced),
{
    let total = occupancy.len() as int;
    lemma_known_items(stored, known_items, items, containers, occupancy);
    lemma_clash_scan(stored, items, 0);
    assert forall|n: usize| n < items.len() implies (!unplaced.contains(n) <==> exists|k: int|
        0 <= k < records.len() && (#[trigger] records[k]).item_id@ == (
        #[trigger] items[n as int]).item_id@) by {
        let id = items[n as int].item_id@;
        if !unplaced.contains(n) {
            assert(!absent(occupancy, ItemRef::Requested(n)));
            let (c, i) = choose|c: int, i: int|
                0 <= c < occupancy.len() && 0 <= i < occupancy[c].len() && (
                #[trigger] occupancy[c][i]).item == ItemRef::Requested(n);
            let k = offset(occupancy, c) + i;
            lemma_offset_grows(occupancy, c);
            lemma_offset_ordered(occupancy, c + 1, total);
            assert(describes(&records[k], c, i, occupancy, stored, items, containers));
            assert(records[k].item_id@ == items[n as int].item_id@);
        }
        if exists|k: int|
            0 <= k < records.len() && (#[trigger] records[k]).item_id@ == (
            #[trigger] items[n as int]).item_id@ {
            let k = choose|k: int|
                0 <= k < records.len() && (#[trigger] records[k]).item_id@ == (
                #[trigger] items[n as int]).item_id@;
            let (c, i) = lemma_locate(occupancy, k, total);
            assert(describes(&records[k], c, i, occupancy, stored, items, containers));
            let x = occupancy[c][i].item;
            assert(known_item(x, stored, items, containers));
            match x {
                ItemRef::Stored(j) => {
                    assert(!clashes(&stored[j as int], items));
                    lemma_item_scan(items, stored[j as int].item_id@, 0);
                    assert(items[n as int].item_id@ != stored[j as int].item_id@);
                },
                ItemRef::Requested(m) => {
                    if m < n {
                        assert(items[m as int].item_id@ != items[n as int].item_id@);
                    } else if n < m {
                        assert(items[n as int].item_id@ != items[m as int].item_id@);
                    }
                    assert(m == n);
                    assert(!absent(occupancy, ItemRef::Requested(n)));
                },
            }
        }
    }
}

/// After a batch no identifier belongs to two occupants: where no two items
/// of the request and no two stored placements have the same identifier,
/// and no stored placement stands in the way of the request, no two
/// occupants of a state are items with the same identifier, so long as the
/// state admits none but items of the request beside those of the start, and
/// no item fills two boxes in it.
pub proof fn lemma_identifiers_distinct(
    stored: Seq<PlacementResult>,
    known_items: Seq<Item>,
    items: Seq<Item>,
    containers: Seq<Container>,
    occupancy: Seq<Seq<Occupant>>,
)
    requires
        stored.len() <= usize::MAX,
        containers.len() <= usize::MAX,
        admits(start_of(stored, known_items, containers), occupancy, items.len() as int),
        singular(occupancy),
        first_clash(stored, items) is None,
        distinct_item_ids(items),
        distinct_stored_ids(stored, containers),
    ensures
        distinct_identifiers(occupancy, stored, items),
{
    lemma_known_items(stored, known_items, items, containers, occupancy);
    lemma_clash_scan(stored, items, 0);
    assert forall|c: int, i: int, d: int, j: int|
        0 <= c < occupancy.len() && 0 <= i < occupancy[c].len() && 0 <= d < occupancy.len() && 0
            <= j < occupancy[d].len() && (c != d || i != j) implies item_id_of(
        (#[trigger] occupancy[c][i]).item,
        stored,
        items,
    ) != item_id_of((#[trigger] occupancy[d][j]).item, stored, items) by {
        let x = occupancy[c][i].item;
        let y = occupancy[d][j].item;
        assert(x != y);
        assert(known_item(x, stored, items, containers));
        assert(known_item(y, stored, items, containers));
        match (x, y) {
            (ItemRef::Stored(a), ItemRef::Stored(b)) => {
                if a < b {
                    assert(stored[a as int].item_id@ != stored[b as int].item_id@);
                } else {
                    assert(stored[b as int].item_id@ != stored[a as int].item_id@);
                }
            },
            (ItemRef::Requested(a), ItemRef::Requested(b)) => {
                if a < b {
                    assert(items[a as int].item_id@ != items[b as int].item_id@);
                } else {
                    assert(items[b as int].item_id@ != items[a as int].item_id@);
                }
            },
            (ItemRef::Stored(a), ItemRef::Requested(b)) => {
                assert(!clashes(&stored[a as int], items));
                lemma_item_scan(items, stored[a as int].item_id@, 0);
                assert(items[b as int].item_id@ != stored[a as int].item_id@);
            },
            (ItemRef::Requested(a), ItemRef::Stored(b)) => {
                assert(!clashes(&stored[b as int], items));
                lemma_item_scan(items, stored[b as int].item_id@, 0);
                assert(items[a as int].item_id@ != stored[b as int].item_id@);
            },
        }
    }
}

/// The container and the place, among the first `m` containers, of the
/// occupant that the `k`-th record describes.
pub proof fn lemma_locate(occupancy: Seq<Seq<Occupant>>, k: int, m: int) -> (r: (int, int))
    requires
        0 <= m <= occupancy.len(),
        0 <= k < offset(occupancy, m),
    ensures
        0 <= r.0 < m,
        0 <= r.1 < occupancy[r.0].len(),
        k == offset(occupancy, r.0) + r.1,
    decreases m,
{
    if k >= offset(occupancy, m - 1) {
        (m - 1, k - offset(occupancy, m - 1))
    } else {
        lemma_locate(occupancy, k, m - 1)
    }
}

/// No two records are of items with the same identifier.
pub open spec fn records_single(records: Seq<PlacementResult>) -> bool {
    forall|k: int, l: int|
        0 <= k < l < records.len() ==> (#[trigger] records[k]).item_id@ != (
        #[trigger] records[l]).item_id@
}

/// The box of every record has its corners in order and lies inside a
/// container that has the identifier that the record names.
pub open spec fn records_inside(records: Seq<PlacementResult>, containers: Seq<Container>) -> bool {
    forall|k: int|
        0 <= k < records.len() ==> exists|c: int|
            0 <= c < containers.len() && (#[trigger] containers[c]).container_id@ == (
            #[trigger] records[k]).container_id@ && inside(records[k].position, &containers[c])
}

/// No boxes of two records that name the same container overlap.
pub open spec fn records_apart(records: Seq<PlacementResult>) -> bool {
    forall|k: int, l: int|
        0 <= k < l < records.len() && (#[trigger] records[k]).container_id@ == (
        #[trigger] records[l]).container_id@ ==> !records[k].position.overlaps_spec(
            &records[l].position,
        )
}

/// What holds of the occupancy holds of the records that describe it:
/// - where no two occupants are items with the same identifier, no two
///   records are of the same item;
/// - where every box lies inside its container, the box of every record
///   lies inside the container that the record names;
/// - where no boxes of one container overlap, and the containers have
///   identifiers of their own, no boxes of two records with the same
///   container overlap.
pub proof fn lemma_published(
    records: Seq<PlacementResult>,
    occupancy: Seq<Seq<Occupant>>,
    stored: Seq<PlacementResult>,
    items: Seq<Item>,
    containers: Seq<Container>,
)
    requires
        publishes(records, occupancy, stored, items, containers),
        occupancy.len() == containers.len(),
    ensures
        distinct_identifiers(occupancy, stored, items) ==> records_single(records),
        bounded(occupancy, containers) ==> records_inside(records, containers),
        no_overlap(occupancy) && distinct_container_ids(containers) ==> records_apart(records),
{
    let total = occupancy.len() as int;
    if distinct_identifiers(occupancy, stored, items) {
        assert forall|k: int, l: int| 0 <= k < l < records.len() implies (
        #[trigger] records[k]).item_id@ != (#[trigger] records[l]).item_id@ by {
            let (c, i) = lemma_locate(occupancy, k, total);
            let (d, j) = lemma_locate(occupancy, l, total);
            assert(describes(&records[k], c, i, occupancy, stored, items, containers));
            assert(describes(&records[l], d, j, occupancy, stored, items, containers));
            assert(occupancy[c][i].item == occupancy[c][i].item);
            assert(occupancy[d][j].item == occupancy[d][j].item);
        }
    }
    if bounded(occupancy, containers) {
        assert forall|k: int| 0 <= k < records.len() implies exists|c: int|
            0 <= c < containers.len() && (#[trigger] containers[c]).container_id@ == (
            #[trigger] records[k]).container_id@ && inside(records[k].position, &containers[c]) by {
            let (c, i) = lemma_locate(occupancy, k, total);
            assert(describes(&records[k], c, i, occupancy, stored, items, containers));
            assert(inside(occupancy[c][i].position, &containers[c]));
            assert(containers[c].container_id@ == records[k].container_id@);
        }
    }
    if no_overlap(occupancy) && distinct_container_ids(containers) {
        assert forall|k: int, l: int|
            0 <= k < l < records.len() && (#[trigger] records[k]).container_id@ == (
            #[trigger] records[l]).container_id@ implies !records[k].position.overlaps_spec(
            &records[l].position,
        ) by {
            let (c, i) = lemma_locate(occupancy, k, total);
            let (d, j) = lemma_locate(occupancy, l, total);
            assert(describes(&records[k], c, i, occupancy, stored, items, containers));
            assert(describes(&records[l], d, j, occupancy, stored, items, containers));
            if c < d {
                assert(containers[c].container_id@ != containers[d].container_id@);
            } else if d < c {
                assert(containers[d].container_id@ != containers[c].container_id@);
            } else if i < j {
                assert(!occupancy[c][i].position.overlaps_spec(&occupancy[c][j].position));
            } else {
                assert(i != j);
                assert(!occupancy[c][j].position.overlaps_spec(&occupancy[c][i].position));
            }
        }
    }
}

/// The two records are of the same item, in the same container and box.
pub open spec fn same_record(a: &PlacementResult, b: &PlacementResult) -> bool {
    a.item_id@ == b.item_id@ && a.container_id@ == b.container_id@ && a.position == b.position
}

/// The two lists hold the same records: every record of either is one of
/// the other.
pub open spec fn same_records(a: Seq<PlacementResult>, b: Seq<PlacementResult>) -> bool {
    &&& forall|k: int| 0 <= k < a.len() ==> exists|l: int| 0 <= l < b.len() && same_record(#[trigger] &a[k], #[trigger] &b[l])
    &&& forall|l: int| 0 <= l < b.len() ==> exists|k: int| 0 <= k < a.len() && same_record(#[trigger] &a[k], #[trigger] &b[l])
}

/// Every stored placement names a container of the request.
pub open spec fn all_listed(stored: Seq<PlacementResult>, containers: Seq<Container>) -> bool {
    forall|j: int|
        0 <= j < stored.len() ==> container_number(
            containers,
            (#[trigger] stored[j]).container_id@,
        ) is Some
}

/// The records that describe the occupancy at the start of a batch are the
/// stored placements, where each of these names a container of the request.
pub proof fn lemma_start_published(
    records: Seq<PlacementResult>,
    stored: Seq<PlacementResult>,
    known_items: Seq<Item>,
    items: Seq<Item>,
    containers: Seq<Container>,
)
    requires
        stored.len() <= usize::MAX,
        containers.len() <= usize::MAX,
        publishes(records, start_of(stored, known_items, containers), stored, items, containers),
        all_listed(stored, containers),
    ensures
        same_records(records, stored),
{
    let start = start_of(stored, known_items, containers);
    let total = start.len() as int;
    lemma_seeded(stored, known_items, containers, stored.len() as int);
    assert forall|k: int| 0 <= k < records.len() implies exists|l: int|
        0 <= l < stored.len() && same_record(#[trigger] &records[k], #[trigger] &stored[l]) by {
        let (c, i) = lemma_locate(start, k, total);
        assert(describes(&records[k], c, i, start, stored, items, containers));
        let o = start[c][i];
        let l = o.item->Stored_0 as int;
        lemma_container_scan(containers, stored[l].container_id@, 0);
        assert(same_record(&records[k], &stored[l]));
    }
    assert forall|l: int| 0 <= l < stored.len() implies exists|k: int|
        0 <= k < records.len() && same_record(#[trigger] &records[k], #[trigger] &stored[l]) by {
        assert(container_number(containers, stored[l].container_id@) is Some);
        assert(!absent(start, ItemRef::Stored(l as usize)));
        let (c, i) = choose|c: int, i: int|
            0 <= c < start.len() && 0 <= i < start[c].len() && (#[trigger] start[c][i]).item
                == ItemRef::Stored(l as usize);
        let k = offset(start, c) + i;
        lemma_offset_grows(start, c);
        lemma_offset_ordered(start, c + 1, total);
        assert(describes(&records[k], c, i, start, stored, items, containers));
        lemma_container_scan(containers, stored[l].container_id@, 0);
        assert(same_record(&records[k], &stored[l]));
    }
}

/// The box of every stored placement that names a container of the request
/// has its corners in order and lies inside that container.
pub open spec fn stored_inside(stored: Seq<PlacementResult>, containers: Seq<Container>) -> bool {
    forall|j: int|
        0 <= j < stored.len() ==> (container_number(
            containers,
            (#[trigger] stored[j]).container_id@,
        ) matches Some(c) ==> inside(stored[j].position, &containers[c as int]))
}

/// What holds of the stored placements holds of the occupancy at the start
/// of a batch: where no boxes of two stored placements with the same
/// container overlap, no boxes of one container overlap; and where the
/// boxes of the stored placements lie inside their containers, every box
/// lies inside its container.
pub proof fn lemma_start_settled(
    stored: Seq<PlacementResult>,
    known_items: Seq<Item>,
    containers: Seq<Container>,
)
    requires
        stored.len() <= usize::MAX,
        containers.len() <= usize::MAX,
    ensures
        records_apart(stored) ==> no_overlap(start_of(stored, known_items, containers)),
        stored_inside(stored, containers) ==> bounded(
            start_of(stored, known_items, containers),
            containers,
        ),
{
    let start = start_of(stored, known_items, containers);
    lemma_seeded(stored, known_items, containers, stored.len() as int);
    if records_apart(stored) {
        assert forall|c: int, i: int, j: int|
            0 <= c < start.len() && 0 <= i < j < start[c].len() implies !(
        #[trigger] start[c][i]).position.overlaps_spec(&(#[trigger] start[c][j]).position) by {
            let a = start[c][i].item->Stored_0 as int;
            let b = start[c][j].item->Stored_0 as int;
            assert(start[c][i].item != start[c][j].item);
            lemma_container_scan(containers, stored[a].container_id@, 0);
            lemma_container_scan(containers, stored[b].container_id@, 0);
            if a < b {
                assert(!stored[a].position.overlaps_spec(&stored[b].position));
            } else {
                assert(!stored[b].position.overlaps_spec(&stored[a].position));
            }
        }
    }
    if stored_inside(stored, containers) {
        assert forall|c: int, i: int| 0 <= c < start.len() && 0 <= i < start[c].len() implies inside(
            (#[trigger] start[c][i]).position,
            &containers[c],
        ) by {
            let a = start[c][i].item->Stored_0 as int;
            assert(container_number(containers, stored[a].container_id@) == Some(c as usize));
        }
    }
}

/// The step describes the `k`-th move of a batch: its items and containers
/// by their identifiers. Steps are counted from 1.
pub open spec fn transcribes(
    step: &RearrangementStep,
    k: int,
    m: Move,
    stored: Seq<PlacementResult>,
    items: Seq<Item>,
    containers: Seq<Container>,
) -> bool {
    &&& step.step == k + 1
    &&& step.action@ == "move"@
    &&& step.item_id@ == item_id_of(m.item, stored, items)
    &&& step.from_container matches Some(id) && id@ == container_id_of(containers, m.from_container)
    &&& step.to_container matches Some(id) && id@ == container_id_of(containers, m.to_container)
    &&& step.from_position == Some(m.from_position)
    &&& step.to_position == Some(m.to_position)
}

/// The steps describe the moves, in their order.
pub open spec fn recounts(
    steps: Seq<RearrangementStep>,
    moves: Seq<Move>,
    stored: Seq<PlacementResult>,
    items: Seq<Item>,
    containers: Seq<Container>,
) -> bool {
    &&& steps.len() == moves.len()
    &&& forall|k: int|
        0 <= k < moves.len() ==> transcribes(
            &#[trigger] steps[k],
            k,
            moves[k],
            stored,
            items,
            containers,
        )
}

/// Describes the moves of the state in steps.
pub fn transcribe(
    sim: &Simulation,
    stored: &Vec<PlacementResult>,
    items: &Vec<Item>,
    containers: &Vec<Container>,
) -> (steps: Vec<RearrangementStep>)
    ensures
        recounts(steps@, sim.moves(), stored@, items@, containers@),
{
    let mut steps: Vec<RearrangementStep> = Vec::new();
    let mut k: usize = 0;
    while k < sim.transcript.len()
        invariant
            k <= sim.transcript@.len(),
            steps@.len() == k,
            forall|j: int|
                0 <= j < k ==> transcribes(
                    &#[trigger] steps@[j],
                    j,
                    sim.moves()[j],
                    stored@,
                    items@,
                    containers@,
                ),
        decreases sim.transcript@.len() - k,
    {
        let m = sim.transcript[k];
        steps.push(
            RearrangementStep {
                step: k + 1,
                action: "move".to_owned(),
                item_id: name_item(m.item, stored, items),
                from_container: Some(name_container(containers, m.from_container)),
                to_container: Some(name_container(containers, m.to_container)),
                from_position: Some(m.from_position),
                to_position: Some(m.to_position),
            },
        );
        k += 1;
    }
    steps
}

/// The identifiers are those of the items of `unplaced`, in their order.
pub open spec fn names(ids: Seq<String>, unplaced: Seq<usize>, items: Seq<Item>) -> bool {
    &&& ids.len() == unplaced.len()
    &&& forall|k: int|
        0 <= k < unplaced.len() ==> (#[trigger] ids[k])@ == items[unplaced[k] as int].item_id@
}

/// Gives the identifiers of the items of `unplaced`.
pub fn name_unplaced(unplaced: &Vec<usize>, items: &Vec<Item>) -> (ids: Vec<String>)
    requires
        crate::simulation::within(unplaced@, items@.len() as int),
    ensures
        names(ids@, unplaced@, items@),
{
    let mut ids: Vec<String> = Vec::new();
    let mut k: usize = 0;
    while k < unplaced.len()
        invariant
            k <= unplaced@.len(),
            crate::simulation::within(unplaced@, items@.len() as int),
            ids@.len() == k,
            forall|j: int| 0 <= j < k ==> (#[trigger] ids@[j])@ == items@[unplaced@[j] as int].item_id@,
        decreases unplaced@.len() - k,
    {
        ids.push(items[unplaced[k]].item_id.clone());
        k += 1;
    }
    ids
}

/// The first `n` identifiers, with a comma and a blank between them.
pub open spec fn listed(ids: Seq<String>, n: int) -> Seq<char>
    decreases n,
{
    if n <= 0 {
        Seq::empty()
    } else if n == 1 {
        ids[0]@
    } else {
        listed(ids, n - 1) + ", "@ + ids[n - 1]@
    }
}

/// The message of a batch that could not place the items with the
/// identifiers `ids`.
pub open spec fn incomplete_message(ids: Seq<String>) -> Seq<char> {
    "Placement incomplete. Could not place items: "@ + listed(ids, ids.len() as int)
}

/// Writes the message of a batch that could not place the items with the
/// identifiers `ids`.
pub fn describe_unplaced(ids: &Vec<String>) -> (msg: String)
    ensures
        msg@ == incomplete_message(ids@),
{
    let mut msg = "Placement incomplete. Could not place items: ".to_owned();
    let mut n: usize = 0;
    assert(msg@ =~= "Placement incomplete. Could not place items: "@ + listed(ids@, 0));
    while n < ids.len()
        invariant
            n <= ids@.len(),
            msg@ == "Placement incomplete. Could not place items: "@ + listed(ids@, n as int),
        decreases ids@.len() - n,
    {
        if n > 0 {
            msg.append(", ");
        }
        msg.append(ids[n].as_str());
        assert(msg@ =~= "Placement incomplete. Could not place items: "@ + listed(ids@, n + 1));
        n += 1;
    }
    msg
}

/// The response reports the outcome: the occupancy in records, the moves in
/// steps, the items that found no place by their identifiers; it is a
/// success where every item found a place, and else carries the message
/// that names those that did not.
pub open spec fn reports(
    response: &PlacementResponse,
    outcome: Outcome,
    stored: Seq<PlacementResult>,
    items: Seq<Item>,
    containers: Seq<Container>,
) -> bool {
    &&& response.success == (outcome.unplaced.len() == 0)
    &&& publishes(response.placements@, outcome.occupancy, stored, items, containers)
    &&& recounts(response.rearrangements@, outcome.moves, stored, items, containers)
    &&& names(response.unplaced@, outcome.unplaced, items)
    &&& match response.error {
        Some(msg) => !response.success && msg@ == incomplete_message(response.unplaced@),
        None => response.success,
    }
}

/// Places the items of the request in its containers, beside what is stored
/// there.
///
/// `stored` holds the stored placements, and `known_items` what is known of
/// the stored items. The batch is turned down as a whole, before anything
/// is tried, where two containers or two items of the request have the same
/// identifier, and where an item of the request is stored already, in
/// whatever container; the error names the identifier. Otherwise the batch
/// is run beside the stored placements that lie in containers of the
/// request, and the response reports the state at its end; items that
/// found no place make the response incomplete, not an error.
pub fn optimize_placement(
    request: &PlacementRequest,
    stored: &Vec<PlacementResult>,
    known_items: &Vec<Item>,
) -> (r: Result<PlacementResponse, PlacementError>)
    requires
        all_well_formed(request.containers@),
    ensures
        match r {
            Err(PlacementError::RepeatedContainer(id)) => first_repeated_container(
                request.containers@,
            ) matches Some(c) && id@ == request.containers@[c as int].container_id@,
            Err(PlacementError::RepeatedItem(id)) => {
                &&& first_repeated_container(request.containers@) is None
                &&& first_repeated_item(request.items@) matches Some(n) && id@
                    == request.items@[n as int].item_id@
            },
            Err(PlacementError::AlreadyPlaced(id)) => {
                &&& first_repeated_container(request.containers@) is None
                &&& first_repeated_item(request.items@) is None
                &&& first_clash(stored@, request.items@) matches Some(j) && id@
                    == stored@[j as int].item_id@
            },
            Ok(response) => {
                let start = start_of(stored@, known_items@, request.containers@);
                let outcome = batch(request.items@, request.containers@, start, Seq::empty());
                &&& first_repeated_container(request.containers@) is None
                &&& first_repeated_item(request.items@) is None
                &&& first_clash(stored@, request.items@) is None
                &&& reports(&response, outcome, stored@, request.items@, request.containers@)
                &&& lawful(request.containers@, start, outcome.occupancy, outcome.moves)
                &&& admits(start, outcome.occupancy, request.items@.len() as int)
                &&& accounted(outcome.occupancy, outcome.unplaced, request.items@.len() as int)
                &&& records_account(response.placements@, request.items@, outcome.unplaced)
                &&& no_overlap(start) || records_apart(stored@) ==> records_apart(
                    response.placements@,
                )
                &&& bounded(start, request.containers@) || stored_inside(
                    stored@,
                    request.containers@,
                ) ==> records_inside(response.placements@, request.containers@)
                &&& distinct_stored_ids(stored@, request.containers@) ==> distinct_identifiers(
                    outcome.occupancy,
                    stored@,
                    request.items@,
                ) && records_single(response.placements@)
                &&& request.items@.len() == 0 ==> outcome.occupancy == start && outcome.moves.len()
                    == 0 && response.success && response.rearrangements@.len() == 0
                &&& request.items@.len() == 0 && all_listed(stored@, request.containers@)
                    ==> same_records(response.placements@, stored@)
            },
        },
{
    if let Some(c) = find_repeated_container(&request.containers) {
        return Err(PlacementError::RepeatedContainer(request.containers[c].container_id.clone()));
    }
    if let Some(n) = find_repeated_item(&request.items) {
        return Err(PlacementError::RepeatedItem(request.items[n].item_id.clone()));
    }
    if let Some(j) = find_clash(stored, &request.items) {
        return Err(PlacementError::AlreadyPlaced(stored[j].item_id.clone()));
    }
    let mut sim = seed(stored, known_items, &request.containers);
    let ghost start = sim.occupants();
    proof {
        lemma_start_is_lawful(request.containers@, start);
        assert(sim.moves() =~= Seq::<Move>::empty());
        assert forall|n: usize| n < request.items@.len() implies #[trigger] absent(
            start,
            ItemRef::Requested(n),
        ) by {
            assert forall|c: int, i: int|
                0 <= c < start.len() && 0 <= i < start[c].len() implies (#[trigger] start[c][i]).item
                != ItemRef::Requested(n) by {
                assert(start[c][i].item is Stored);
            }
        }
    }
    let unplaced = run_batch(&request.items, &request.containers, &mut sim);
    let placements = publish(&sim, stored, &request.items, &request.containers);
    proof {
        assert(stored@.len() == stored.len());
        assert(request.containers@.len() == request.containers.len());
        if distinct_stored_ids(stored@, request.containers@) {
            lemma_identifiers_distinct(
                stored@,
                known_items@,
                request.items@,
                request.containers@,
                sim.occupants(),
            );
        }
        lemma_start_settled(stored@, known_items@, request.containers@);
        lemma_published(
            placements@,
            sim.occupants(),
            stored@,
            request.items@,
            request.containers@,
        );
        lemma_records_account(
            placements@,
            stored@,
            known_items@,
            request.items@,
            request.containers@,
            sim.occupants(),
            unplaced@,
        );
        if request.items@.len() == 0 && all_listed(stored@, request.containers@) {
            lemma_start_published(
                placements@,
                stored@,
                known_items@,
                request.items@,
                request.containers@,
            );
        }
    }
    let rearrangements = transcribe(&sim, stored, &request.items, &request.containers);
    let ids = name_unplaced(&unplaced, &request.items);
    let success = unplaced.len() == 0;
    let error = if success {
        None
    } else {
        Some(describe_unplaced(&ids))
    };
    Ok(PlacementResponse { success, placements, rearrangements, unplaced: ids, error })
}

} // verus!
