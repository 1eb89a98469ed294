//! Putting entries in the order of their rank, entries of one rank staying
//! in the order in which they came.

use vstd::prelude::*;

verus! {

/// An entry to be ranked: a rank, and the place of what is ranked, as a
/// container's number and a number within it.
#[derive(Clone, Copy, Debug)]
pub struct Ranked {
    pub rank: i128,
    pub container: usize,
    pub index: usize,
}

/// An entry of rank `a` has to stand before one of rank `b`.
pub open spec fn outranks(a: i128, b: i128, descending: bool) -> bool {
    if descending {
        a > b
    } else {
        a < b
    }
}

/// Decides [`outranks`].
pub fn does_outrank(a: i128, b: i128, descending: bool) -> (r: bool)
    ensures
        r == outranks(a, b, descending),
{
    if descending {
        a > b
    } else {
        a < b
    }
}

/// No entry of `s` has to stand before an earlier one.
pub open spec fn in_rank_order(s: Seq<Ranked>, descending: bool) -> bool {
    forall|i: int, j: int|
        0 <= i < j < s.len() ==> !outranks(
            (#[trigger] s[j]).rank,
            (#[trigger] s[i]).rank,
            descending,
        )
}

/// The place, from `i` on, of the first entry of `s` that an entry of rank
/// `rank` has to stand before; the length of `s` where there is none.
pub open spec fn insert_point(s: Seq<Ranked>, rank: i128, descending: bool, i: int) -> int
    decreases s.len() - i,
{
    if i < 0 || i >= s.len() {
        s.len() as int
    } else if outranks(rank, s[i].rank, descending) {
        i
    } else {
        insert_point(s, rank, descending, i + 1)
    }
}

/// The entries of `s` in the order of their rank, ascending or descending;
/// entries of the same rank stay in the order that they have in `s`.
pub open spec fn ranked(s: Seq<Ranked>, descending: bool) -> Seq<Ranked>
    decreases s.len(),
{
    if s.len() == 0 {
        s
    } else {
        let head = ranked(s.drop_last(), descending);
        head.insert(insert_point(head, s.last().rank, descending, 0), s.last())
    }
}

/// Where [`insert_point`] lies: within the sequence, behind every entry that
/// the new one need not stand before, and at one that it has to stand before.
pub proof fn lemma_insert_point(s: Seq<Ranked>, rank: i128, descending: bool, i: int)
    requires
        0 <= i <= s.len(),
    ensures
        i <= insert_point(s, rank, descending, i) <= s.len(),
        forall|j: int|
            i <= j < insert_point(s, rank, descending, i) ==> !outranks(
                rank,
                (#[trigger] s[j]).rank,
                descending,
            ),
        insert_point(s, rank, descending, i) < s.len() ==> outranks(
            rank,
            s[insert_point(s, rank, descending, i)].rank,
            descending,
        ),
    decreases s.len() - i,
{
    if i < s.len() && !outranks(rank, s[i].rank, descending) {
        lemma_insert_point(s, rank, descending, i + 1);
    }
}

/// Ranking keeps the entries: the same ones, each as often as before.
pub proof fn lemma_ranked_permutes(s: Seq<Ranked>, descending: bool)
    ensures
        ranked(s, descending).len() == s.len(),
        ranked(s, descending).to_multiset() == s.to_multiset(),
    decreases s.len(),
{
    if s.len() > 0 {
        let head = ranked(s.drop_last(), descending);
        lemma_ranked_permutes(s.drop_last(), descending);
        lemma_insert_point(head, s.last().rank, descending, 0);
        let at = insert_point(head, s.last().rank, descending, 0);
        vstd::seq_lib::to_multiset_insert(head, at, s.last());
        vstd::seq_lib::to_multiset_build(s.drop_last(), s.last());
        assert(s.drop_last().push(s.last()) =~= s);
    }
}

/// Every ranked entry is one of the entries that were given, and the other
/// way round.
pub proof fn lemma_ranked_same_entries(s: Seq<Ranked>, descending: bool)
    ensures
        forall|i: int|
            0 <= i < ranked(s, descending).len() ==> s.contains(#[trigger] ranked(s, descending)[i]),
        forall|i: int| 0 <= i < s.len() ==> ranked(s, descending).contains(#[trigger] s[i]),
{
    broadcast use vstd::seq_lib::to_multiset_contains;

    lemma_ranked_permutes(s, descending);
    let r = ranked(s, descending);
    assert forall|i: int| 0 <= i < r.len() implies s.contains(#[trigger] r[i]) by {
        assert(r.contains(r[i]));
        assert(r.to_multiset().contains(r[i]));
    }
    assert forall|i: int| 0 <= i < s.len() implies r.contains(#[trigger] s[i]) by {
        assert(s.contains(s[i]));
        assert(s.to_multiset().contains(s[i]));
    }
}

/// Ranking entries that differ from each other gives entries that differ
/// from each other.
pub proof fn lemma_ranked_no_duplicates(s: Seq<Ranked>, descending: bool)
    requires
        s.no_duplicates(),
    ensures
        ranked(s, descending).no_duplicates(),
{
    lemma_ranked_permutes(s, descending);
    s.lemma_multiset_has_no_duplicates();
    ranked(s, descending).lemma_multiset_has_no_duplicates_conv();
}

/// The ranked entries are in the order of their rank.
pub proof fn lemma_ranked_in_order(s: Seq<Ranked>, descending: bool)
    ensures
        in_rank_order(ranked(s, descending), descending),
    decreases s.len(),
{
    if s.len() > 0 {
        let head = ranked(s.drop_last(), descending);
        lemma_ranked_in_order(s.drop_last(), descending);
        lemma_insert_point(head, s.last().rank, descending, 0);
        let at = insert_point(head, s.last().rank, descending, 0);
        let r = head.insert(at, s.last());
        assert forall|i: int, j: int| 0 <= i < j < r.len() implies !outranks(
            (#[trigger] r[j]).rank,
            (#[trigger] r[i]).rank,
            descending,
        ) by {
            if j == at {
                assert(r[i] == head[i]);
            } else if i == at {
                assert(r[j] == head[j - 1]);
                if at < j - 1 {
                    assert(!outranks(head[j - 1].rank, head[at].rank, descending));
                }
            } else {
                let i0 = if i < at {
                    i
                } else {
                    i - 1
                };
                let j0 = if j < at {
                    j
                } else {
                    j - 1
                };
                assert(r[i] == head[i0]);
                assert(r[j] == head[j0]);
            }
        }
    }
}

/// The entries of `s` that have the rank `rank`, in their order.
pub open spec fn of_rank(s: Seq<Ranked>, rank: i128) -> Seq<Ranked>
    decreases s.len(),
{
    if s.len() == 0 {
        s
    } else if s.last().rank == rank {
        of_rank(s.drop_last(), rank).push(s.last())
    } else {
        of_rank(s.drop_last(), rank)
    }
}

/// Putting an entry into a sequence leaves the entries of every other rank
/// as they are; it makes the entry the last of its own rank where no entry
/// of that rank stands behind it.
pub proof fn lemma_of_rank_insert(s: Seq<Ranked>, at: int, e: Ranked, rank: i128)
    requires
        0 <= at <= s.len(),
        forall|j: int| at <= j < s.len() ==> (#[trigger] s[j]).rank != e.rank,
    ensures
        of_rank(s.insert(at, e), rank) == if e.rank == rank {
            of_rank(s, rank).push(e)
        } else {
            of_rank(s, rank)
        },
    decreases s.len() - at,
{
    let r = s.insert(at, e);
    if at == s.len() {
        assert(r.drop_last() =~= s);
        assert(r.last() == e);
    } else {
        assert(r.drop_last() =~= s.drop_last().insert(at, e));
        assert(r.last() == s.last());
        assert forall|j: int| at <= j < s.drop_last().len() implies (
        #[trigger] s.drop_last()[j]).rank != e.rank by {
            assert(s.drop_last()[j] == s[j]);
        }
        lemma_of_rank_insert(s.drop_last(), at, e, rank);
        assert(s[s.len() - 1].rank != e.rank);
    }
}

/// Ranking is stable: the entries of one rank stand in the order in which
/// they were given.
pub proof fn lemma_ranked_stable(s: Seq<Ranked>, descending: bool, rank: i128)
    ensures
        of_rank(ranked(s, descending), rank) == of_rank(s, rank),
    decreases s.len(),
{
    if s.len() > 0 {
        let head = ranked(s.drop_last(), descending);
        let e = s.last();
        lemma_ranked_stable(s.drop_last(), descending, rank);
        lemma_ranked_in_order(s.drop_last(), descending);
        lemma_insert_point(head, e.rank, descending, 0);
        let at = insert_point(head, e.rank, descending, 0);
        assert forall|j: int| at <= j < head.len() implies (#[trigger] head[j]).rank != e.rank by {
            if at < j {
                assert(!outranks(head[j].rank, head[at].rank, descending));
            }
        }
        lemma_of_rank_insert(head, at, e, rank);
    }
}

/// Puts the entries in the order of their rank.
pub fn sort_ranked(entries: &Vec<Ranked>, descending: bool) -> (r: Vec<Ranked>)
    ensures
        r@ == ranked(entries@, descending),
        r@.len() == entries@.len(),
        in_rank_order(r@, descending),
{
    let mut out: Vec<Ranked> = Vec::new();
    let mut n: usize = 0;
    assert(entries@.take(0) =~= Seq::<Ranked>::empty());
    while n < entries.len()
        invariant
            n <= entries.len(),
            out@ == ranked(entries@.take(n as int), descending),
            out@.len() == n,
        decreases entries.len() - n,
    {
        let e = entries[n];
        let mut at: usize = 0;
        while at < out.len() && !does_outrank(e.rank, out[at].rank, descending)
            invariant
                at <= out.len(),
                insert_point(out@, e.rank, descending, at as int) == insert_point(
                    out@,
                    e.rank,
                    descending,
                    0,
                ),
            decreases out.len() - at,
        {
            at += 1;
        }
        out.insert(at, e);
        proof {
            assert(entries@.take(n + 1).drop_last() =~= entries@.take(n as int));
            assert(entries@.take(n + 1).last() == e);
        }
        n += 1;
    }
    proof {
        assert(entries@.take(entries.len() as int) =~= entries@);
        lemma_ranked_in_order(entries@, descending);
    }
    out
}

} // verus!
