//! A batch, phase by phase: every item is first tried in the containers of
//! its zone; for those that found no place there, room is made by
//! displacing occupants of lower priority, pass after pass, as long as a
//! pass places an item; what is left is tried in every container.

use crate::displacement::{attempt_displacement, displacement};
use crate::geometry::Position;
use crate::homing::{all_well_formed, find_home, home, is_zone_known, zone_known};
use crate::models::{Container, Item};
use crate::ranking::{
    lemma_ranked_no_duplicates, lemma_ranked_same_entries, ranked, sort_ranked,
    Ranked,
};
use crate::simulation::{
    absent, accounted, admits, displaced, keeps, lemma_admits_in_turn, lemma_displaced_admits,
    lemma_displaced_keeps, lemma_displaced_upholds, lemma_keeps_in_turn, lemma_put_admits,
    lemma_put_keeps, lemma_put_upholds, lemma_settled_in_turn, lemma_settled_out,
    lemma_settled_placed, move_of, put, settled, settled_upto, upholds, waiting, within, ItemRef,
    Move, Occupant, Simulation,
};
use vstd::prelude::*;

verus! {

/// One entry for each of the first `n` items, with the item's priority as
/// its rank and the item's place in the request as its number.
pub open spec fn entries(items: Seq<Item>, n: int) -> Seq<Ranked>
    decreases n,
{
    if n <= 0 {
        Seq::empty()
    } else {
        entries(items, n - 1).push(
            Ranked { rank: items[n - 1].priority as i128, container: 0, index: (n - 1) as usize },
        )
    }
}

/// The items of a request in the order in which they are served: the
/// higher priority first, items of one priority in the order of the request.
/// Each item is given by its place in the request.
pub open spec fn priority_order(items: Seq<Item>) -> Seq<usize> {
    ranked(entries(items, items.len() as int), true).map_values(|e: Ranked| e.index)
}

/// What the entries of a request are.
pub proof fn lemma_entries(items: Seq<Item>, n: int)
    requires
        0 <= n <= items.len(),
        n <= usize::MAX,
    ensures
        entries(items, n).len() == n,
        forall|k: int|
            0 <= k < n ==> #[trigger] entries(items, n)[k] == (Ranked {
                rank: items[k].priority as i128,
                container: 0,
                index: k as usize,
            }),
    decreases n,
{
    if n > 0 {
        lemma_entries(items, n - 1);
    }
}

/// The order of service names every item of the request once, and no item
/// of higher priority stands behind one of lower priority.
pub proof fn lemma_priority_order(items: Seq<Item>)
    requires
        items.len() <= usize::MAX,
    ensures
        priority_order(items).len() == items.len(),
        priority_order(items).no_duplicates(),
        within(priority_order(items), items.len() as int),
        forall|m: usize| m < items.len() ==> #[trigger] priority_order(items).contains(m),
        forall|i: int, j: int|
            0 <= i < j < items.len() ==> items[(#[trigger] priority_order(items)[i]) as int].priority
                >= items[(#[trigger] priority_order(items)[j]) as int].priority,
{
    let n = items.len() as int;
    let given = entries(items, n);
    let sorted = ranked(given, true);
    let order = priority_order(items);
    lemma_entries(items, n);
    assert(given.no_duplicates());
    lemma_ranked_no_duplicates(given, true);
    lemma_ranked_same_entries(given, true);
    crate::ranking::lemma_ranked_permutes(given, true);
    crate::ranking::lemma_ranked_in_order(given, true);
    assert forall|k: int| 0 <= k < n implies {
        &&& (#[trigger] sorted[k]).index < n
        &&& sorted[k].rank == items[sorted[k].index as int].priority
        &&& sorted[k] == given[sorted[k].index as int]
    } by {
        assert(given.contains(sorted[k]));
        let j = choose|j: int| 0 <= j < given.len() && given[j] == sorted[k];
        assert(given[j].index == j);
    }
    assert forall|m: usize| m < items.len() implies #[trigger] order.contains(m) by {
        assert(sorted.contains(given[m as int]));
        let k = choose|k: int| 0 <= k < sorted.len() && sorted[k] == given[m as int];
        assert(order[k] == m);
    }
    assert forall|i: int, j: int| 0 <= i < n && 0 <= j < n && i != j implies order[i] != order[j] by {
        assert(sorted[i] != sorted[j]);
        assert(sorted[i] == given[sorted[i].index as int]);
        assert(sorted[j] == given[sorted[j].index as int]);
    }
    assert forall|i: int, j: int| 0 <= i < j < n implies items[(#[trigger] order[i]) as int].priority
        >= items[(#[trigger] order[j]) as int].priority by {
        assert(!crate::ranking::outranks(sorted[j].rank, sorted[i].rank, true));
    }
}

/// Computes [`priority_order`].
pub fn priority_order_of(items: &Vec<Item>) -> (order: Vec<usize>)
    ensures
        order@ == priority_order(items@),
        order@.len() == items@.len(),
        order@.no_duplicates(),
        within(order@, items@.len() as int),
        forall|n: usize| n < items@.len() ==> #[trigger] order@.contains(n),
{
    let mut given: Vec<Ranked> = Vec::new();
    let mut n: usize = 0;
    while n < items.len()
        invariant
            n <= items.len(),
            given@ == entries(items@, n as int),
        decreases items.len() - n,
    {
        given.push(Ranked { rank: items[n].priority as i128, container: 0, index: n });
        n += 1;
    }
    let sorted = sort_ranked(&given, true);
    let mut order: Vec<usize> = Vec::new();
    let mut k: usize = 0;
    while k < sorted.len()
        invariant
            k <= sorted.len(),
            order@.len() == k,
            forall|j: int| 0 <= j < k ==> #[trigger] order@[j] == sorted@[j].index,
        decreases sorted.len() - k,
    {
        order.push(sorted[k].index);
        k += 1;
    }
    proof {
        assert(order@ =~= priority_order(items@));
        lemma_priority_order(items@);
    }
    order
}

/// The occupant that the `n`-th item of the request becomes in the box `p`.
pub open spec fn newcomer(n: usize, item: &Item, p: Position, preferred: bool) -> Occupant {
    Occupant {
        item: ItemRef::Requested(n),
        position: p,
        is_preferred_zone: preferred,
        known: true,
        priority: item.priority,
        width: item.width,
        depth: item.depth,
        height: item.height,
    }
}

/// Computes [`newcomer`].
pub fn make_newcomer(n: usize, item: &Item, p: Position, preferred: bool) -> (o: Occupant)
    ensures
        o == newcomer(n, item, p, preferred),
{
    Occupant {
        item: ItemRef::Requested(n),
        position: p,
        is_preferred_zone: preferred,
        known: true,
        priority: item.priority,
        width: item.width,
        depth: item.depth,
        height: item.height,
    }
}

/// The first phase from the `k`-th item of the queue on: each item is put
/// into the first container of its zone in which the search finds a place;
/// an item that finds none is appended to `pending`. Gives the occupancy
/// and the pending items at the end.
pub open spec fn direct_phase(
    items: Seq<Item>,
    containers: Seq<Container>,
    occupancy: Seq<Seq<Occupant>>,
    queue: Seq<usize>,
    k: int,
    pending: Seq<usize>,
) -> (Seq<Seq<Occupant>>, Seq<usize>)
    decreases queue.len() - k,
{
    if k < 0 || k >= queue.len() {
        (occupancy, pending)
    } else {
        let n = queue[k];
        let item = items[n as int];
        match home(
            item.dims(),
            containers,
            occupancy,
            item.high_priority(),
            Some(item.preferred_zone@),
            None,
        ) {
            Some((c, p)) => direct_phase(
                items,
                containers,
                put(occupancy, c as int, newcomer(n, &item, p, true)),
                queue,
                k + 1,
                pending,
            ),
            None => direct_phase(items, containers, occupancy, queue, k + 1, pending.push(n)),
        }
    }
}

/// Runs the first phase on the items of `queue`, in their order. Returns
/// the items that found no place in a container of their zone.
pub fn place_in_preferred_zones(
    items: &Vec<Item>,
    containers: &Vec<Container>,
    sim: &mut Simulation,
    queue: &Vec<usize>,
) -> (pending: Vec<usize>)
    requires
        all_well_formed(containers@),
        old(sim).occupancy@.len() == containers@.len(),
        within(queue@, items@.len() as int),
        waiting(old(sim).occupants(), queue@),
    ensures
        (final(sim).occupants(), pending@) == direct_phase(
            items@,
            containers@,
            old(sim).occupants(),
            queue@,
            0,
            Seq::empty(),
        ),
        final(sim).moves() == old(sim).moves(),
        final(sim).occupancy@.len() == containers@.len(),
        upholds(
            containers@,
            old(sim).occupants(),
            old(sim).moves(),
            final(sim).occupants(),
            final(sim).moves(),
        ),
        waiting(final(sim).occupants(), pending@),
        within(pending@, items@.len() as int),
        admits(old(sim).occupants(), final(sim).occupants(), items@.len() as int),
        keeps(old(sim).occupants(), final(sim).occupants()),
        settled(final(sim).occupants(), queue@, pending@),
{
    let ghost before = sim.occupants();
    let ghost moves_before = sim.moves();
    let mut pending: Vec<usize> = Vec::new();
    let mut k: usize = 0;
    assert(pending@ + queue@.subrange(0, queue@.len() as int) =~= queue@);
    while k < queue.len()
        invariant
            k <= queue.len(),
            all_well_formed(containers@),
            sim.occupancy@.len() == containers@.len(),
            within(queue@, items@.len() as int),
            sim.moves() == moves_before,
            direct_phase(items@, containers@, sim.occupants(), queue@, k as int, pending@)
                == direct_phase(items@, containers@, before, queue@, 0, Seq::empty()),
            upholds(containers@, before, moves_before, sim.occupants(), sim.moves()),
            waiting(sim.occupants(), pending@ + queue@.subrange(k as int, queue@.len() as int)),
            within(pending@, items@.len() as int),
            admits(before, sim.occupants(), items@.len() as int),
            keeps(before, sim.occupants()),
            settled_upto(sim.occupants(), queue@, k as int, pending@),
        decreases queue.len() - k,
    {
        let n = queue[k];
        let item = &items[n];
        let ghost line = pending@ + queue@.subrange(k as int, queue@.len() as int);
        let ghost occupancy = sim.occupants();
        assert(line[pending@.len() as int] == n);
        match find_home(
            (item.width, item.depth, item.height),
            containers,
            sim,
            item.is_high_priority(),
            Some(&item.preferred_zone),
            None,
        ) {
            Some((c, p)) => {
                let o = make_newcomer(n, item, p, true);
                sim.place(c, o);
                proof {
                    lemma_put_keeps(occupancy, c as int, o);
                    lemma_keeps_in_turn(before, occupancy, sim.occupants());
                    lemma_settled_placed(occupancy, sim.occupants(), queue@, k as int, pending@);
                    lemma_put_admits(occupancy, c as int, o, items@.len() as int);
                    lemma_admits_in_turn(before, occupancy, sim.occupants(), items@.len() as int);
                    lemma_put_upholds(
                        containers@,
                        before,
                        moves_before,
                        occupancy,
                        moves_before,
                        line,
                        pending@.len() as int,
                        c as int,
                        o,
                    );
                    assert(line.remove(pending@.len() as int) =~= pending@ + queue@.subrange(
                        k + 1,
                        queue@.len() as int,
                    ));
                }
            },
            None => {
                proof {
                    lemma_settled_out(sim.occupants(), queue@, k as int, pending@);
                }
                pending.push(n);
                assert(line =~= pending@ + queue@.subrange(k + 1, queue@.len() as int));
            },
        }
        k += 1;
    }
    assert(pending@ + queue@.subrange(k as int, queue@.len() as int) =~= pending@);
    pending
}


/// One turn of the second phase for the `n`-th item of the request: the
/// occupancy and the moves after it where the item was placed, `None` where
/// it was not. An item whose zone no container lies in is left alone.
/// Any other is tried in the containers of its zone once more, near the
/// opening first; where that fails, room is made for it, if a plan is found.
pub open spec fn cascade_turn(
    items: Seq<Item>,
    containers: Seq<Container>,
    occupancy: Seq<Seq<Occupant>>,
    moves: Seq<Move>,
    n: usize,
) -> Option<(Seq<Seq<Occupant>>, Seq<Move>)> {
    let item = items[n as int];
    if !zone_known(containers, item.preferred_zone@) {
        None
    } else {
        match home(item.dims(), containers, occupancy, true, Some(item.preferred_zone@), None) {
            Some((c, p)) => Some((put(occupancy, c as int, newcomer(n, &item, p, true)), moves)),
            None => match displacement(&item, containers, occupancy) {
                Some(plan) => Some(
                    (
                        displaced(occupancy, plan, newcomer(n, &item, plan.target_position, true)),
                        moves.push(move_of(occupancy, plan)),
                    ),
                ),
                None => None,
            },
        }
    }
}

/// One pass of the second phase from the `k`-th item of the queue on, with
/// the items kept for the next pass so far, and whether the pass has placed
/// an item so far. Gives the occupancy, the moves, the items kept and
/// whether an item was placed.
pub open spec fn cascade_pass(
    items: Seq<Item>,
    containers: Seq<Container>,
    occupancy: Seq<Seq<Occupant>>,
    moves: Seq<Move>,
    queue: Seq<usize>,
    k: int,
    kept: Seq<usize>,
    progress: bool,
) -> (Seq<Seq<Occupant>>, Seq<Move>, Seq<usize>, bool)
    decreases queue.len() - k,
{
    if k < 0 || k >= queue.len() {
        (occupancy, moves, kept, progress)
    } else {
        match cascade_turn(items, containers, occupancy, moves, queue[k]) {
            Some((after, moved)) => cascade_pass(
                items,
                containers,
                after,
                moved,
                queue,
                k + 1,
                kept,
                true,
            ),
            None => cascade_pass(
                items,
                containers,
                occupancy,
                moves,
                queue,
                k + 1,
                kept.push(queue[k]),
                progress,
            ),
        }
    }
}

/// The second phase: passes over the queue, each over the items that the
/// one before kept, until a pass places no item; at most `rounds` passes.
/// Gives the occupancy, the moves and the items still kept.
pub open spec fn cascade(
    items: Seq<Item>,
    containers: Seq<Container>,
    occupancy: Seq<Seq<Occupant>>,
    moves: Seq<Move>,
    queue: Seq<usize>,
    rounds: nat,
) -> (Seq<Seq<Occupant>>, Seq<Move>, Seq<usize>)
    decreases rounds,
{
    if rounds == 0 {
        (occupancy, moves, queue)
    } else {
        let (after, moved, kept, progress) = cascade_pass(
            items,
            containers,
            occupancy,
            moves,
            queue,
            0,
            Seq::empty(),
            false,
        );
        if progress {
            cascade(items, containers, after, moved, kept, (rounds - 1) as nat)
        } else {
            (after, moved, kept)
        }
    }
}

/// Takes one turn of the second phase for the item `queue[k]`. Returns
/// whether the item was placed.
fn take_turn(
    items: &Vec<Item>,
    containers: &Vec<Container>,
    sim: &mut Simulation,
    queue: &Vec<usize>,
    k: usize,
    Ghost(line): Ghost<Seq<usize>>,
    Ghost(at): Ghost<int>,
) -> (placed: bool)
    requires
        all_well_formed(containers@),
        old(sim).occupancy@.len() == containers@.len(),
        k < queue@.len(),
        queue@[k as int] < items@.len(),
        waiting(old(sim).occupants(), line),
        0 <= at < line.len(),
        line[at] == queue@[k as int],
    ensures
        cascade_turn(items@, containers@, old(sim).occupants(), old(sim).moves(), queue@[k as int])
            == if placed {
            Some((final(sim).occupants(), final(sim).moves()))
        } else {
            None
        },
        !placed ==> final(sim).occupants() == old(sim).occupants() && final(sim).moves() == old(
            sim,
        ).moves(),
        final(sim).occupancy@.len() == containers@.len(),
        forall|before: Seq<Seq<Occupant>>, moves_before: Seq<Move>|
            upholds(containers@, before, moves_before, old(sim).occupants(), old(sim).moves())
                ==> #[trigger] upholds(
                containers@,
                before,
                moves_before,
                final(sim).occupants(),
                final(sim).moves(),
            ),
        placed ==> waiting(final(sim).occupants(), line.remove(at)),
        placed ==> final(sim).moves().len() <= old(sim).moves().len() + 1,
        admits(old(sim).occupants(), final(sim).occupants(), items@.len() as int),
        keeps(old(sim).occupants(), final(sim).occupants()),
        placed ==> !absent(final(sim).occupants(), ItemRef::Requested(queue@[k as int])),
{
    let n = queue[k];
    let item = &items[n];
    let ghost occupancy = sim.occupants();
    let ghost moves = sim.moves();
    if !is_zone_known(containers, &item.preferred_zone) {
        return false;
    }
    match find_home(
        (item.width, item.depth, item.height),
        containers,
        sim,
        true,
        Some(&item.preferred_zone),
        None,
    ) {
        Some((c, p)) => {
            let o = make_newcomer(n, item, p, true);
            sim.place(c, o);
            proof {
                lemma_put_keeps(occupancy, c as int, o);
                lemma_put_admits(occupancy, c as int, o, items@.len() as int);
                assert forall|before: Seq<Seq<Occupant>>, moves_before: Seq<Move>|
                    upholds(containers@, before, moves_before, occupancy, moves) implies #[trigger] upholds(
                    containers@,
                    before,
                    moves_before,
                    sim.occupants(),
                    sim.moves(),
                ) by {
                    lemma_put_upholds(
                        containers@,
                        before,
                        moves_before,
                        occupancy,
                        moves,
                        line,
                        at,
                        c as int,
                        o,
                    );
                }
                lemma_put_upholds(
                    containers@,
                    occupancy,
                    moves,
                    occupancy,
                    moves,
                    line,
                    at,
                    c as int,
                    o,
                );
            }
            true
        },
        None => match attempt_displacement(item, containers, sim) {
            Some(plan) => {
                let o = make_newcomer(n, item, plan.target_position, true);
                sim.carry_out(&plan, o);
                proof {
                    lemma_displaced_keeps(occupancy, plan, o);
                    lemma_displaced_admits(occupancy, plan, o, items@.len() as int);
                    assert forall|before: Seq<Seq<Occupant>>, moves_before: Seq<Move>|
                        upholds(
                            containers@,
                            before,
                            moves_before,
                            occupancy,
                            moves,
                        ) implies #[trigger] upholds(
                        containers@,
                        before,
                        moves_before,
                        sim.occupants(),
                        sim.moves(),
                    ) by {
                        lemma_displaced_upholds(
                            containers@,
                            before,
                            moves_before,
                            occupancy,
                            moves,
                            line,
                            at,
                            plan,
                            o,
                        );
                    }
                    lemma_displaced_upholds(
                        containers@,
                        occupancy,
                        moves,
                        occupancy,
                        moves,
                        line,
                        at,
                        plan,
                        o,
                    );
                }
                true
            },
            None => false,
        },
    }
}

/// Makes one pass of the second phase over the items of `queue`. Returns
/// the items that are kept for the next pass, and whether an item was
/// placed.
fn make_pass(
    items: &Vec<Item>,
    containers: &Vec<Container>,
    sim: &mut Simulation,
    queue: &Vec<usize>,
) -> (r: (Vec<usize>, bool))
    requires
        all_well_formed(containers@),
        old(sim).occupancy@.len() == containers@.len(),
        within(queue@, items@.len() as int),
        waiting(old(sim).occupants(), queue@),
    ensures
        (final(sim).occupants(), final(sim).moves(), r.0@, r.1) == cascade_pass(
            items@,
            containers@,
            old(sim).occupants(),
            old(sim).moves(),
            queue@,
            0,
            Seq::empty(),
            false,
        ),
        final(sim).occupancy@.len() == containers@.len(),
        upholds(
            containers@,
            old(sim).occupants(),
            old(sim).moves(),
            final(sim).occupants(),
            final(sim).moves(),
        ),
        waiting(final(sim).occupants(), r.0@),
        within(r.0@, items@.len() as int),
        admits(old(sim).occupants(), final(sim).occupants(), items@.len() as int),
        keeps(old(sim).occupants(), final(sim).occupants()),
        settled(final(sim).occupants(), queue@, r.0@),
        r.0@.len() <= queue@.len(),
        r.1 ==> r.0@.len() < queue@.len(),
        !r.1 ==> final(sim).occupants() == old(sim).occupants() && final(sim).moves() == old(
            sim,
        ).moves() && r.0@ == queue@,
{
    let ghost before = sim.occupants();
    let ghost moves_before = sim.moves();
    let mut kept: Vec<usize> = Vec::new();
    let mut progress = false;
    let mut k: usize = 0;
    assert(kept@ + queue@.subrange(0, queue@.len() as int) =~= queue@);
    assert(queue@.subrange(0, 0) =~= kept@);
    while k < queue.len()
        invariant
            k <= queue.len(),
            all_well_formed(containers@),
            sim.occupancy@.len() == containers@.len(),
            within(queue@, items@.len() as int),
            cascade_pass(
                items@,
                containers@,
                sim.occupants(),
                sim.moves(),
                queue@,
                k as int,
                kept@,
                progress,
            ) == cascade_pass(
                items@,
                containers@,
                before,
                moves_before,
                queue@,
                0,
                Seq::empty(),
                false,
            ),
            upholds(containers@, before, moves_before, sim.occupants(), sim.moves()),
            waiting(sim.occupants(), kept@ + queue@.subrange(k as int, queue@.len() as int)),
            within(kept@, items@.len() as int),
            kept@.len() <= k,
            admits(before, sim.occupants(), items@.len() as int),
            keeps(before, sim.occupants()),
            settled_upto(sim.occupants(), queue@, k as int, kept@),
            progress ==> kept@.len() < k,
            !progress ==> sim.occupants() == before && sim.moves() == moves_before && kept@
                == queue@.subrange(0, k as int),
        decreases queue.len() - k,
    {
        let ghost line = kept@ + queue@.subrange(k as int, queue@.len() as int);
        let ghost occupancy = sim.occupants();
        assert(line[kept@.len() as int] == queue@[k as int]);
        let placed = take_turn(
            items,
            containers,
            sim,
            queue,
            k,
            Ghost(line),
            Ghost(kept@.len() as int),
        );
        proof {
            lemma_admits_in_turn(before, occupancy, sim.occupants(), items@.len() as int);
            lemma_keeps_in_turn(before, occupancy, sim.occupants());
            if placed {
                lemma_settled_placed(occupancy, sim.occupants(), queue@, k as int, kept@);
            } else {
                lemma_settled_out(sim.occupants(), queue@, k as int, kept@);
            }
        }
        if placed {
            progress = true;
            assert(line.remove(kept@.len() as int) =~= kept@ + queue@.subrange(
                k + 1,
                queue@.len() as int,
            ));
        } else {
            kept.push(queue[k]);
            assert(line =~= kept@ + queue@.subrange(k + 1, queue@.len() as int));
            assert(!progress ==> kept@ =~= queue@.subrange(0, k + 1));
        }
        k += 1;
    }
    assert(kept@ + queue@.subrange(k as int, queue@.len() as int) =~= kept@);
    assert(queue@.subrange(0, queue@.len() as int) =~= queue@);
    (kept, progress)
}

/// Runs the second phase on the items of `queue`: passes are made until one
/// places no item. Returns the items that are still not placed.
pub fn run_cascade(
    items: &Vec<Item>,
    containers: &Vec<Container>,
    sim: &mut Simulation,
    queue: &Vec<usize>,
) -> (pending: Vec<usize>)
    requires
        all_well_formed(containers@),
        old(sim).occupancy@.len() == containers@.len(),
        within(queue@, items@.len() as int),
        waiting(old(sim).occupants(), queue@),
    ensures
        (final(sim).occupants(), final(sim).moves(), pending@) == cascade(
            items@,
            containers@,
            old(sim).occupants(),
            old(sim).moves(),
            queue@,
            queue@.len() + 1,
        ),
        final(sim).occupancy@.len() == containers@.len(),
        upholds(
            containers@,
            old(sim).occupants(),
            old(sim).moves(),
            final(sim).occupants(),
            final(sim).moves(),
        ),
        waiting(final(sim).occupants(), pending@),
        within(pending@, items@.len() as int),
        admits(old(sim).occupants(), final(sim).occupants(), items@.len() as int),
        keeps(old(sim).occupants(), final(sim).occupants()),
        settled(final(sim).occupants(), queue@, pending@),
        cascade_pass(
            items@,
            containers@,
            final(sim).occupants(),
            final(sim).moves(),
            pending@,
            0,
            Seq::empty(),
            false,
        ) == (final(sim).occupants(), final(sim).moves(), pending@, false),
{
    let ghost before = sim.occupants();
    let ghost moves_before = sim.moves();
    let ghost whole = cascade(
        items@,
        containers@,
        before,
        moves_before,
        queue@,
        queue@.len() + 1,
    );
    let (first, first_progress) = make_pass(items, containers, sim, queue);
    let mut pending = first;
    let mut progress = first_progress;
    proof {
        if progress {
            lemma_spare_rounds(
                items@,
                containers@,
                sim.occupants(),
                sim.moves(),
                pending@,
                pending@.len() + 1,
                queue@.len() as nat,
            );
        }
    }
    while progress
        invariant
            all_well_formed(containers@),
            sim.occupancy@.len() == containers@.len(),
            within(pending@, items@.len() as int),
            waiting(sim.occupants(), pending@),
            upholds(containers@, before, moves_before, sim.occupants(), sim.moves()),
            admits(before, sim.occupants(), items@.len() as int),
            keeps(before, sim.occupants()),
            settled(sim.occupants(), queue@, pending@),
            progress ==> whole == cascade(
                items@,
                containers@,
                sim.occupants(),
                sim.moves(),
                pending@,
                pending@.len() + 1,
            ),
            !progress ==> whole == (sim.occupants(), sim.moves(), pending@),
            !progress ==> cascade_pass(
                items@,
                containers@,
                sim.occupants(),
                sim.moves(),
                pending@,
                0,
                Seq::empty(),
                false,
            ) == (sim.occupants(), sim.moves(), pending@, false),
        decreases pending@.len() + if progress { 1nat } else { 0nat },
    {
        let ghost line = pending@;
        let ghost occupancy = sim.occupants();
        let (kept, again) = make_pass(items, containers, sim, &pending);
        proof {
            lemma_admits_in_turn(before, occupancy, sim.occupants(), items@.len() as int);
            lemma_keeps_in_turn(before, occupancy, sim.occupants());
            lemma_settled_in_turn(occupancy, sim.occupants(), queue@, line, kept@);
            if again {
                lemma_spare_rounds(
                    items@,
                    containers@,
                    sim.occupants(),
                    sim.moves(),
                    kept@,
                    kept@.len() + 1,
                    line.len() as nat,
                );
            }
        }
        pending = kept;
        progress = again;
    }
    pending
}

/// Rounds beyond one more than there are items in the queue are not used:
/// every pass but the last places an item, and there is none to place once
/// the queue is empty.
pub proof fn lemma_spare_rounds(
    items: Seq<Item>,
    containers: Seq<Container>,
    occupancy: Seq<Seq<Occupant>>,
    moves: Seq<Move>,
    queue: Seq<usize>,
    rounds: nat,
    more: nat,
)
    requires
        queue.len() < rounds <= more,
    ensures
        cascade(items, containers, occupancy, moves, queue, more) == cascade(
            items,
            containers,
            occupancy,
            moves,
            queue,
            rounds,
        ),
    decreases rounds,
{
    let (after, moved, kept, progress) = cascade_pass(
        items,
        containers,
        occupancy,
        moves,
        queue,
        0,
        Seq::empty(),
        false,
    );
    lemma_pass_shortens(items, containers, occupancy, moves, queue, 0, Seq::empty(), false);
    if progress {
        lemma_spare_rounds(
            items,
            containers,
            after,
            moved,
            kept,
            (rounds - 1) as nat,
            (more - 1) as nat,
        );
    }
}

/// A pass keeps no more items than it goes through, and fewer where it
/// places one.
pub proof fn lemma_pass_shortens(
    items: Seq<Item>,
    containers: Seq<Container>,
    occupancy: Seq<Seq<Occupant>>,
    moves: Seq<Move>,
    queue: Seq<usize>,
    k: int,
    kept: Seq<usize>,
    progress: bool,
)
    requires
        0 <= k <= queue.len(),
        kept.len() <= k,
        progress ==> kept.len() < k,
    ensures
        ({
            let r = cascade_pass(items, containers, occupancy, moves, queue, k, kept, progress);
            r.2.len() <= queue.len() && (r.3 ==> r.2.len() < queue.len())
        }),
    decreases queue.len() - k,
{
    if k < queue.len() {
        match cascade_turn(items, containers, occupancy, moves, queue[k]) {
            Some((after, moved)) => {
                lemma_pass_shortens(items, containers, after, moved, queue, k + 1, kept, true);
            },
            None => {
                lemma_pass_shortens(
                    items,
                    containers,
                    occupancy,
                    moves,
                    queue,
                    k + 1,
                    kept.push(queue[k]),
                    progress,
                );
            },
        }
    }
}


/// The third phase from the `k`-th item of the queue on: each item is put
/// into the first container, of whatever zone, in which the search finds a
/// place, and is marked as being in its zone or not; an item that finds no
/// place is appended to `unplaced`. Gives the occupancy and the unplaced
/// items at the end.
pub open spec fn fallback_phase(
    items: Seq<Item>,
    containers: Seq<Container>,
    occupancy: Seq<Seq<Occupant>>,
    queue: Seq<usize>,
    k: int,
    unplaced: Seq<usize>,
) -> (Seq<Seq<Occupant>>, Seq<usize>)
    decreases queue.len() - k,
{
    if k < 0 || k >= queue.len() {
        (occupancy, unplaced)
    } else {
        let n = queue[k];
        let item = items[n as int];
        match home(item.dims(), containers, occupancy, item.high_priority(), None, None) {
            Some((c, p)) => fallback_phase(
                items,
                containers,
                put(
                    occupancy,
                    c as int,
                    newcomer(n, &item, p, containers[c as int].zone@ == item.preferred_zone@),
                ),
                queue,
                k + 1,
                unplaced,
            ),
            None => fallback_phase(items, containers, occupancy, queue, k + 1, unplaced.push(n)),
        }
    }
}

/// Runs the third phase on the items of `queue`, in their order. Returns
/// the items that found no place at all.
pub fn place_anywhere(
    items: &Vec<Item>,
    containers: &Vec<Container>,
    sim: &mut Simulation,
    queue: &Vec<usize>,
) -> (unplaced: Vec<usize>)
    requires
        all_well_formed(containers@),
        old(sim).occupancy@.len() == containers@.len(),
        within(queue@, items@.len() as int),
        waiting(old(sim).occupants(), queue@),
    ensures
        (final(sim).occupants(), unplaced@) == fallback_phase(
            items@,
            containers@,
            old(sim).occupants(),
            queue@,
            0,
            Seq::empty(),
        ),
        final(sim).moves() == old(sim).moves(),
        final(sim).occupancy@.len() == containers@.len(),
        upholds(
            containers@,
            old(sim).occupants(),
            old(sim).moves(),
            final(sim).occupants(),
            final(sim).moves(),
        ),
        waiting(final(sim).occupants(), unplaced@),
        within(unplaced@, items@.len() as int),
        admits(old(sim).occupants(), final(sim).occupants(), items@.len() as int),
        keeps(old(sim).occupants(), final(sim).occupants()),
        settled(final(sim).occupants(), queue@, unplaced@),
{
    let ghost before = sim.occupants();
    let ghost moves_before = sim.moves();
    let mut unplaced: Vec<usize> = Vec::new();
    let mut k: usize = 0;
    assert(unplaced@ + queue@.subrange(0, queue@.len() as int) =~= queue@);
    while k < queue.len()
        invariant
            k <= queue.len(),
            all_well_formed(containers@),
            sim.occupancy@.len() == containers@.len(),
            within(queue@, items@.len() as int),
            sim.moves() == moves_before,
            fallback_phase(items@, containers@, sim.occupants(), queue@, k as int, unplaced@)
                == fallback_phase(items@, containers@, before, queue@, 0, Seq::empty()),
            upholds(containers@, before, moves_before, sim.occupants(), sim.moves()),
            waiting(sim.occupants(), unplaced@ + queue@.subrange(k as int, queue@.len() as int)),
            within(unplaced@, items@.len() as int),
            admits(before, sim.occupants(), items@.len() as int),
            keeps(before, sim.occupants()),
            settled_upto(sim.occupants(), queue@, k as int, unplaced@),
        decreases queue.len() - k,
    {
        let n = queue[k];
        let item = &items[n];
        let ghost line = unplaced@ + queue@.subrange(k as int, queue@.len() as int);
        let ghost occupancy = sim.occupants();
        assert(line[unplaced@.len() as int] == n);
        match find_home(
            (item.width, item.depth, item.height),
            containers,
            sim,
            item.is_high_priority(),
            None,
            None,
        ) {
            Some((c, p)) => {
                let preferred = containers[c].zone == item.preferred_zone;
                let o = make_newcomer(n, item, p, preferred);
                sim.place(c, o);
                proof {
                    lemma_put_keeps(occupancy, c as int, o);
                    lemma_keeps_in_turn(before, occupancy, sim.occupants());
                    lemma_settled_placed(occupancy, sim.occupants(), queue@, k as int, unplaced@);
                    lemma_put_admits(occupancy, c as int, o, items@.len() as int);
                    lemma_admits_in_turn(before, occupancy, sim.occupants(), items@.len() as int);
                    lemma_put_upholds(
                        containers@,
                        before,
                        moves_before,
                        occupancy,
                        moves_before,
                        line,
                        unplaced@.len() as int,
                        c as int,
                        o,
                    );
                    assert(line.remove(unplaced@.len() as int) =~= unplaced@ + queue@.subrange(
                        k + 1,
                        queue@.len() as int,
                    ));
                }
            },
            None => {
                proof {
                    lemma_settled_out(sim.occupants(), queue@, k as int, unplaced@);
                }
                unplaced.push(n);
                assert(line =~= unplaced@ + queue@.subrange(k + 1, queue@.len() as int));
            },
        }
        k += 1;
    }
    assert(unplaced@ + queue@.subrange(k as int, queue@.len() as int) =~= unplaced@);
    unplaced
}

/// What a batch comes to: the occupancy, the moves made, and the items of
/// the request that found no place.
pub struct Outcome {
    pub occupancy: Seq<Seq<Occupant>>,
    pub moves: Seq<Move>,
    pub unplaced: Seq<usize>,
}

/// The outcome of a batch that starts with the occupancy `start` and the
/// moves `moves`: the three phases, over the items in the order of their
/// priority.
pub open spec fn batch(
    items: Seq<Item>,
    containers: Seq<Container>,
    start: Seq<Seq<Occupant>>,
    moves: Seq<Move>,
) -> Outcome {
    let (direct, pending) = direct_phase(
        items,
        containers,
        start,
        priority_order(items),
        0,
        Seq::empty(),
    );
    let (cascaded, moved, left) = cascade(
        items,
        containers,
        direct,
        moves,
        pending,
        pending.len() + 1,
    );
    let (occupancy, unplaced) = fallback_phase(items, containers, cascaded, left, 0, Seq::empty());
    Outcome { occupancy, moves: moved, unplaced }
}

/// No item of the request is placed yet.
pub open spec fn untouched(occupancy: Seq<Seq<Occupant>>, count: int) -> bool {
    forall|n: usize| n < count ==> #[trigger] absent(occupancy, ItemRef::Requested(n))
}

/// A batch without items changes nothing.
pub proof fn lemma_empty_batch(
    items: Seq<Item>,
    containers: Seq<Container>,
    start: Seq<Seq<Occupant>>,
    moves: Seq<Move>,
)
    requires
        items.len() == 0,
    ensures
        batch(items, containers, start, moves) == (Outcome {
            occupancy: start,
            moves,
            unplaced: Seq::empty(),
        }),
{
    assert(priority_order(items).len() == 0) by {
        crate::ranking::lemma_ranked_permutes(entries(items, 0), true);
    }
    assert(priority_order(items) =~= Seq::<usize>::empty());
    let pending = Seq::<usize>::empty();
    assert(direct_phase(items, containers, start, priority_order(items), 0, Seq::empty()) == (
        start,
        pending,
    ));
    assert(cascade_pass(items, containers, start, moves, pending, 0, Seq::empty(), false) == (
        start,
        moves,
        pending,
        false,
    ));
    assert(cascade(items, containers, start, moves, pending, 1) == (start, moves, pending));
    assert(fallback_phase(items, containers, start, pending, 0, Seq::empty()) == (start, pending));
}

/// Runs a batch on the state `sim`: places the items of the request, in the
/// three phases. Returns the items that found no place.
pub fn run_batch(items: &Vec<Item>, containers: &Vec<Container>, sim: &mut Simulation) -> (unplaced:
    Vec<usize>)
    requires
        all_well_formed(containers@),
        old(sim).occupancy@.len() == containers@.len(),
        untouched(old(sim).occupants(), items@.len() as int),
    ensures
        batch(items@, containers@, old(sim).occupants(), old(sim).moves()) == (Outcome {
            occupancy: final(sim).occupants(),
            moves: final(sim).moves(),
            unplaced: unplaced@,
        }),
        final(sim).occupancy@.len() == containers@.len(),
        upholds(
            containers@,
            old(sim).occupants(),
            old(sim).moves(),
            final(sim).occupants(),
            final(sim).moves(),
        ),
        waiting(final(sim).occupants(), unplaced@),
        within(unplaced@, items@.len() as int),
        admits(old(sim).occupants(), final(sim).occupants(), items@.len() as int),
        keeps(old(sim).occupants(), final(sim).occupants()),
        accounted(final(sim).occupants(), unplaced@, items@.len() as int),
        items@.len() == 0 ==> final(sim).occupants() == old(sim).occupants() && final(sim).moves()
            == old(sim).moves() && unplaced@.len() == 0,
{
    let order = priority_order_of(items);
    proof {
        lemma_empty_or_not(items@, containers@, sim.occupants(), sim.moves());
        assert forall|k: int| 0 <= k < order@.len() implies absent(
            sim.occupants(),
            ItemRef::Requested(#[trigger] order@[k]),
        ) by {
            assert(order@[k] < items@.len());
        }
    }
    let ghost start = sim.occupants();
    let pending = place_in_preferred_zones(items, containers, sim, &order);
    let ghost direct = sim.occupants();
    let left = run_cascade(items, containers, sim, &pending);
    let ghost cascaded = sim.occupants();
    let unplaced = place_anywhere(items, containers, sim, &left);
    proof {
        lemma_admits_in_turn(start, direct, cascaded, items@.len() as int);
        lemma_admits_in_turn(start, cascaded, sim.occupants(), items@.len() as int);
        lemma_keeps_in_turn(start, direct, cascaded);
        lemma_keeps_in_turn(start, cascaded, sim.occupants());
        lemma_settled_in_turn(direct, cascaded, order@, pending@, left@);
        lemma_settled_in_turn(cascaded, sim.occupants(), order@, left@, unplaced@);
        assert forall|n: usize| n < items@.len() implies (unplaced@.contains(n) <==> #[trigger] absent(
            sim.occupants(),
            ItemRef::Requested(n),
        )) by {
            assert(order@.contains(n));
            let k = choose|k: int| 0 <= k < order@.len() && order@[k] == n;
            assert(unplaced@.contains(order@[k]) || !absent(
                sim.occupants(),
                ItemRef::Requested(order@[k]),
            ));
            if unplaced@.contains(n) {
                let j = choose|j: int| 0 <= j < unplaced@.len() && unplaced@[j] == n;
                assert(absent(sim.occupants(), ItemRef::Requested(unplaced@[j])));
            }
        }
    }
    unplaced
}

proof fn lemma_empty_or_not(
    items: Seq<Item>,
    containers: Seq<Container>,
    start: Seq<Seq<Occupant>>,
    moves: Seq<Move>,
)
    ensures
        items.len() == 0 ==> batch(items, containers, start, moves) == (Outcome {
            occupancy: start,
            moves,
            unplaced: Seq::empty(),
        }),
{
    if items.len() == 0 {
        lemma_empty_batch(items, containers, start, moves);
    }
}

} // verus!
