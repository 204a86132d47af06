//! Tuning the weights: which of the tried ones are bred from, and which is the best so far.

use crate::score::{at_most, orderly, Score};
use vstd::prelude::*;

verus! {

/// Puts `i` into the ranking, behind everything that it does not beat.
pub open spec fn put_in_rank<S: Score>(order: Seq<usize>, fits: Seq<S>, i: usize) -> Seq<usize>
    decreases order.len(),
{
    if order.len() > 0 && S::above(fits[i as int], fits[order.last() as int]) {
        put_in_rank(order.drop_last(), fits, i).push(order.last())
    } else {
        order.push(i)
    }
}

/// The first `n` of the tried ones, the fittest first, and among equals the one tried first.
pub open spec fn ranking<S: Score>(fits: Seq<S>, n: int) -> Seq<usize>
    decreases n,
{
    if n <= 0 {
        Seq::empty()
    } else {
        put_in_rank(ranking(fits, n - 1), fits, (n - 1) as usize)
    }
}

proof fn lemma_put_in_rank<S: Score>(order: Seq<usize>, fits: Seq<S>, i: usize)
    ensures
        put_in_rank(order, fits, i).to_multiset() =~= order.to_multiset().insert(i),
        put_in_rank(order, fits, i).len() == order.len() + 1,
    decreases order.len(),
{
    broadcast use vstd::seq_lib::group_to_multiset_ensures;

    if order.len() > 0 && S::above(fits[i as int], fits[order.last() as int]) {
        lemma_put_in_rank(order.drop_last(), fits, i);
        assert(order.drop_last().push(order.last()) =~= order);
    }
}

/// The numbers below `n`.
pub open spec fn numbers_below(n: int) -> Seq<usize> {
    Seq::new(n as nat, |i: int| i as usize)
}

/// A ranking holds each of the tried ones once.
pub proof fn a_ranking_holds_each_once<S: Score>(fits: Seq<S>, n: int)
    requires
        0 <= n <= fits.len() <= usize::MAX,
    ensures
        ranking(fits, n).len() == n,
        ranking(fits, n).to_multiset() == numbers_below(n).to_multiset(),
    decreases n,
{
    broadcast use vstd::seq_lib::group_to_multiset_ensures;

    if n > 0 {
        a_ranking_holds_each_once(fits, n - 1);
        lemma_put_in_rank(ranking(fits, n - 1), fits, (n - 1) as usize);
        assert(numbers_below(n) =~= numbers_below(n - 1).push((n - 1) as usize));
    } else {
        assert(numbers_below(n) =~= Seq::empty());
        assert(ranking(fits, n) =~= Seq::<usize>::empty());
    }
}

/// Nobody stands behind one that it beats.
pub open spec fn is_ranked<S: Score>(order: Seq<usize>, fits: Seq<S>) -> bool {
    forall|a: int, b: int|
        0 <= a < b < order.len() ==> at_most(
            fits[#[trigger] order[b] as int],
            fits[#[trigger] order[a] as int],
        )
}

/// Everything in the ranking was tried, and is finite.
pub open spec fn all_finite<S: Score>(order: Seq<usize>, fits: Seq<S>) -> bool {
    forall|a: int|
        0 <= a < order.len() ==> (#[trigger] order[a]) < fits.len() && S::finite(
            fits[order[a] as int],
        )
}

/// What stands in the ranking stood there before, or is what was put in.
proof fn lemma_nobody_else<S: Score>(order: Seq<usize>, fits: Seq<S>, i: usize)
    ensures
        forall|a: int|
            0 <= a < put_in_rank(order, fits, i).len() ==> #[trigger] put_in_rank(order, fits, i)[a]
                == i || order.contains(put_in_rank(order, fits, i)[a]),
    decreases order.len(),
{
    let placed = put_in_rank(order, fits, i);
    if order.len() > 0 && S::above(fits[i as int], fits[order.last() as int]) {
        let inner = put_in_rank(order.drop_last(), fits, i);
        lemma_nobody_else(order.drop_last(), fits, i);
        assert forall|a: int| 0 <= a < placed.len() implies #[trigger] placed[a] == i
            || order.contains(placed[a]) by {
            if a < inner.len() {
                assert(placed[a] == inner[a]);
                if inner[a] != i {
                    let k = order.drop_last().index_of(inner[a]);
                    assert(order[k] == inner[a]);
                }
            } else {
                assert(placed[a] == order[order.len() - 1]);
            }
        }
    } else {
        assert forall|a: int| 0 <= a < placed.len() implies #[trigger] placed[a] == i
            || order.contains(placed[a]) by {
            if a < order.len() {
                assert(placed[a] == order[a]);
            }
        }
    }
}

proof fn lemma_rank_is_kept<S: Score>(order: Seq<usize>, fits: Seq<S>, i: usize)
    requires
        orderly::<S>(),
        all_finite(order, fits),
        is_ranked(order, fits),
        i < fits.len(),
        S::finite(fits[i as int]),
    ensures
        is_ranked(put_in_rank(order, fits, i), fits),
        all_finite(put_in_rank(order, fits, i), fits),
    decreases order.len(),
{
    let placed = put_in_rank(order, fits, i);
    lemma_nobody_else(order, fits, i);
    assert forall|a: int| 0 <= a < placed.len() implies (#[trigger] placed[a]) < fits.len()
        && S::finite(fits[placed[a] as int]) by {
        if placed[a] != i {
            let k = order.index_of(placed[a]);
            assert(order[k] == placed[a]);
        }
    }
    if order.len() > 0 && S::above(fits[i as int], fits[order.last() as int]) {
        let shorter = order.drop_last();
        let last = order.last();
        let inner = put_in_rank(shorter, fits, i);
        assert(all_finite(shorter, fits));
        assert(is_ranked(shorter, fits)) by {
            assert forall|a: int, b: int| 0 <= a < b < shorter.len() implies at_most(
                fits[#[trigger] shorter[b] as int],
                fits[#[trigger] shorter[a] as int],
            ) by {
                assert(shorter[a] == order[a] && shorter[b] == order[b]);
            }
        }
        lemma_rank_is_kept(shorter, fits, i);
        lemma_nobody_else(shorter, fits, i);
        assert(order[order.len() - 1] == last);
        assert forall|a: int, b: int| 0 <= a < b < placed.len() implies at_most(
            fits[#[trigger] placed[b] as int],
            fits[#[trigger] placed[a] as int],
        ) by {
            assert(placed[a] == inner[a]);
            if b < inner.len() {
                assert(placed[b] == inner[b]);
            } else {
                assert(placed[b] == last);
                if inner[a] == i {
                    assert(S::above(fits[i as int], fits[last as int]));
                } else {
                    let k = shorter.index_of(inner[a]);
                    assert(order[k] == inner[a]);
                    assert(at_most(fits[order[order.len() - 1] as int], fits[order[k] as int]));
                }
            }
        }
    } else {
        assert forall|a: int, b: int| 0 <= a < b < placed.len() implies at_most(
            fits[#[trigger] placed[b] as int],
            fits[#[trigger] placed[a] as int],
        ) by {
            assert(placed[a] == order[a]);
            if b < order.len() {
                assert(placed[b] == order[b]);
            } else {
                let last = order.last();
                assert(order[order.len() - 1] == last);
                assert(at_most(fits[i as int], fits[last as int]));
                if a < order.len() - 1 {
                    assert(at_most(fits[order[order.len() - 1] as int], fits[order[a] as int]));
                }
            }
        }
    }
}

/// A ranking goes from the fittest down: nobody stands behind one that it beats.
pub proof fn a_ranking_goes_down<S: Score>(fits: Seq<S>, n: int)
    requires
        orderly::<S>(),
        0 <= n <= fits.len() <= usize::MAX,
        forall|i: int| 0 <= i < fits.len() ==> S::finite(#[trigger] fits[i]),
    ensures
        is_ranked(ranking(fits, n), fits),
        all_finite(ranking(fits, n), fits),
    decreases n,
{
    if n > 0 {
        a_ranking_goes_down(fits, n - 1);
        lemma_rank_is_kept(ranking(fits, n - 1), fits, (n - 1) as usize);
    }
}

/// The order in which the tried ones are bred from: the fittest first, and among equals the one
/// tried first.
pub fn rank<S: Score>(fits: &Vec<S>) -> (order: Vec<usize>)
    ensures
        order@ == ranking(fits@, fits@.len() as int),
        order@.len() == fits@.len(),
        forall|a: int| 0 <= a < order@.len() ==> #[trigger] order@[a] < fits@.len(),
{
    let n: usize = fits.len();
    let mut order: Vec<usize> = Vec::new();
    let mut i: usize = 0;
    while i < n
        invariant
            i <= n,
            n == fits@.len(),
            order@ == ranking(fits@, i as int),
            order@.len() == i,
            forall|a: int| 0 <= a < order@.len() ==> #[trigger] order@[a] < i,
        decreases n - i,
    {
        let ghost before = order@;
        let mut at: usize = order.len();
        proof {
            assert(before.take(at as int) =~= before);
            assert(before.skip(at as int) =~= Seq::<usize>::empty());
            assert(put_in_rank(before, fits@, i) =~= put_in_rank(
                before.take(at as int),
                fits@,
                i,
            ) + before.skip(at as int));
        }
        while at > 0 && fits[i].exceeds(fits[order[at - 1]])
            invariant
                at <= before.len(),
                i < n,
                n == fits@.len(),
                order@ == before,
                forall|a: int| 0 <= a < before.len() ==> #[trigger] before[a] < i,
                put_in_rank(before, fits@, i) =~= put_in_rank(before.take(at as int), fits@, i)
                    + before.skip(at as int),
            ensures
                at <= before.len(),
                order@ == before,
                at == 0 || !S::above(fits@[i as int], fits@[before[at - 1] as int]),
                put_in_rank(before, fits@, i) =~= put_in_rank(before.take(at as int), fits@, i)
                    + before.skip(at as int),
            decreases at,
        {
            proof {
                let front = before.take(at as int);
                assert(front.last() == before[at - 1]);
                assert(front.drop_last() =~= before.take(at - 1));
                assert(seq![before[at - 1]] + before.skip(at as int) =~= before.skip(at - 1));
                assert(put_in_rank(front, fits@, i) + before.skip(at as int) =~= put_in_rank(
                    before.take(at - 1),
                    fits@,
                    i,
                ) + before.skip(at - 1));
            }
            at = at - 1;
        }
        proof {
            let front = before.take(at as int);
            if at > 0 {
                assert(front.last() == before[at - 1]);
            }
            assert(put_in_rank(front, fits@, i) == front.push(i));
            assert(before.insert(at as int, i) =~= front.push(i) + before.skip(at as int));
        }
        order.insert(at, i);
        i = i + 1;
        proof {
            assert forall|a: int| 0 <= a < order@.len() implies #[trigger] order@[a] < i by {
                if a < at {
                    assert(order@[a] == before[a]);
                } else if a > at {
                    assert(order@[a] == before[a - 1]);
                }
            }
        }
    }
    order
}

/// The best so far: one that was tried takes its place where it is fitter.
pub fn improves<S: Score>(best: S, fit: S) -> (r: bool)
    ensures
        r == S::above(fit, best),
{
    fit.exceeds(best)
}

/// Of any two in the ranking, the one that stands first is fitter or was tried first.
pub open spec fn is_stable<S: Score>(order: Seq<usize>, fits: Seq<S>) -> bool {
    forall|a: int, b: int|
        0 <= a < b < order.len() ==> S::above(
            fits[#[trigger] order[a] as int],
            fits[#[trigger] order[b] as int],
        ) || order[a] < order[b]
}

proof fn lemma_rank_is_stable<S: Score>(order: Seq<usize>, fits: Seq<S>, i: usize)
    requires
        is_stable(order, fits),
        forall|a: int| 0 <= a < order.len() ==> #[trigger] order[a] < i,
    ensures
        is_stable(put_in_rank(order, fits, i), fits),
    decreases order.len(),
{
    let placed = put_in_rank(order, fits, i);
    if order.len() > 0 && S::above(fits[i as int], fits[order.last() as int]) {
        let shorter = order.drop_last();
        let last = order.last();
        let inner = put_in_rank(shorter, fits, i);
        assert forall|a: int, b: int| 0 <= a < b < shorter.len() implies S::above(
            fits[#[trigger] shorter[a] as int],
            fits[#[trigger] shorter[b] as int],
        ) || shorter[a] < shorter[b] by {
            assert(shorter[a] == order[a] && shorter[b] == order[b]);
        }
        assert forall|a: int| 0 <= a < shorter.len() implies #[trigger] shorter[a] < i by {
            assert(shorter[a] == order[a]);
        }
        lemma_rank_is_stable(shorter, fits, i);
        lemma_nobody_else(shorter, fits, i);
        assert forall|a: int, b: int| 0 <= a < b < placed.len() implies S::above(
            fits[#[trigger] placed[a] as int],
            fits[#[trigger] placed[b] as int],
        ) || placed[a] < placed[b] by {
            assert(placed[a] == inner[a]);
            if b < inner.len() {
                assert(placed[b] == inner[b]);
            } else {
                assert(placed[b] == last);
                if inner[a] != i {
                    let k = shorter.index_of(inner[a]);
                    assert(order[k] == inner[a]);
                    assert(order[order.len() - 1] == last);
                }
            }
        }
    } else {
        assert forall|a: int, b: int| 0 <= a < b < placed.len() implies S::above(
            fits[#[trigger] placed[a] as int],
            fits[#[trigger] placed[b] as int],
        ) || placed[a] < placed[b] by {
            assert(placed[a] == order[a]);
            if b < order.len() {
                assert(placed[b] == order[b]);
            }
        }
    }
}

proof fn lemma_ranking_is_stable<S: Score>(fits: Seq<S>, n: int)
    requires
        0 <= n <= fits.len() <= usize::MAX,
    ensures
        is_stable(ranking(fits, n), fits),
        forall|a: int| 0 <= a < ranking(fits, n).len() ==> #[trigger] ranking(fits, n)[a] < n,
    decreases n,
{
    if n > 0 {
        lemma_ranking_is_stable(fits, n - 1);
        let order = ranking(fits, n - 1);
        lemma_rank_is_stable(order, fits, (n - 1) as usize);
        lemma_nobody_else(order, fits, (n - 1) as usize);
        let placed = ranking(fits, n);
        assert forall|a: int| 0 <= a < placed.len() implies #[trigger] placed[a] < n by {
            if placed[a] != n - 1 {
                let k = order.index_of(placed[a]);
                assert(order[k] == placed[a]);
            }
        }
    }
}

/// The ranking holds each of the tried ones once; nobody stands behind one that it beats; and of
/// equals the one tried first stands first.
pub proof fn the_fittest_rank_first<S: Score>(fits: Vec<S>, order: Vec<usize>)
    requires
        orderly::<S>(),
        forall|i: int| 0 <= i < fits@.len() ==> S::finite(#[trigger] fits@[i]),
        call_ensures(rank::<S>, (&fits,), order),
    ensures
        order@.len() == fits@.len(),
        order@.to_multiset() == Seq::new(fits@.len(), |i: int| i as usize).to_multiset(),
        forall|a: int, b: int|
            0 <= a < b < order@.len() ==> !S::above(
                fits@[#[trigger] order@[b] as int],
                fits@[#[trigger] order@[a] as int],
            ),
        forall|a: int, b: int|
            0 <= a < b < order@.len() ==> S::above(
                fits@[#[trigger] order@[a] as int],
                fits@[#[trigger] order@[b] as int],
            ) || order@[a] < order@[b],
{
    assert(fits@.len() == fits.len());
    a_ranking_holds_each_once(fits@, fits@.len() as int);
    a_ranking_goes_down(fits@, fits@.len() as int);
    lemma_ranking_is_stable(fits@, fits@.len() as int);
    assert(numbers_below(fits@.len() as int) =~= Seq::new(fits@.len(), |i: int| i as usize));
}

} // verus!
