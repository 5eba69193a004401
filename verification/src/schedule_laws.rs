//! What a schedule is, in terms of the weights and the order alone: how often each backend stands in
//! it, and whose turn it is at each place.

use crate::gcd::divides;
use crate::schedule::{
    common_gcd, credit, is_next_pick, is_schedule, is_smooth, law_schedule_is_proportional,
    law_schedule_serves_positive_weights, law_shares_are_in_lowest_terms, lemma_share_sum_positive,
    occurrences, shares, standing, sum,
};
use vstd::arithmetic::div_mod::lemma_fundamental_div_mod;
use vstd::prelude::*;
use vstd::seq_lib::{group_to_multiset_ensures, to_multiset_build};

verus! {

pub proof fn lemma_occurrences_are_counted(picks: Seq<usize>, i: usize)
    ensures
        occurrences(picks, i as int) == picks.to_multiset().count(i),
    decreases picks.len(),
{
    broadcast use group_to_multiset_ensures;

    if picks.len() > 0 {
        let before = picks.drop_last();
        lemma_occurrences_are_counted(before, i);
        assert(picks == before.push(picks.last()));
        to_multiset_build(before, picks.last());
    } else {
        assert(!picks.contains(i));
    }
}

/// In one cycle, backends stand in the order in the ratio of their weights. While some weight is
/// positive, exactly the backends of positive weight are in it.
pub proof fn law_cycle_has_the_ratio_of_the_weights(weights: Seq<u32>, order: Seq<usize>)
    requires
        is_schedule(weights, order),
        exists|i: int| 0 <= i < weights.len() && #[trigger] weights[i] > 0,
        weights.len() <= usize::MAX,
    ensures
        forall|i: int, j: int|
            #![trigger weights[i], weights[j]]
            0 <= i < weights.len() && 0 <= j < weights.len() ==> order.to_multiset().count(
                i as usize,
            ) * weights[j] == order.to_multiset().count(j as usize) * weights[i],
        forall|i: int|
            0 <= i < weights.len() ==> (#[trigger] weights[i] > 0 <==> order.contains(i as usize)),
        forall|k: int| 0 <= k < order.len() ==> #[trigger] order[k] < weights.len(),
{
    broadcast use group_to_multiset_ensures;

    let g = common_gcd(weights);
    law_schedule_is_proportional(weights, order);
    law_schedule_serves_positive_weights(weights, order);
    assert forall|i: int| 0 <= i < weights.len() implies order.to_multiset().count(i as usize)
        == #[trigger] occurrences(order, i) by {
        lemma_occurrences_are_counted(order, i as usize);
    }
    assert forall|i: int, j: int|
        #![trigger weights[i], weights[j]]
        0 <= i < weights.len() && 0 <= j < weights.len() implies order.to_multiset().count(
        i as usize,
    ) * weights[j] == order.to_multiset().count(j as usize) * weights[i] by {
        let (x, y) = (occurrences(order, i), occurrences(order, j));
        assert(x * g == weights[i] && y * g == weights[j]);
        assert(x * (y * g) == y * (x * g)) by (nonlinear_arith);
    }
    assert forall|i: int| 0 <= i < weights.len() implies (#[trigger] weights[i] > 0
        <==> order.contains(i as usize)) by {
        assert(occurrences(order, i) > 0 <==> weights[i] > 0);
    }
}

/// The cycle is the shortest with its ratio: nothing but 1 divides the numbers of times that the
/// backends stand in it.
pub proof fn law_cycle_is_in_lowest_terms(weights: Seq<u32>, order: Seq<usize>, d: nat)
    requires
        is_schedule(weights, order),
        exists|i: int| 0 <= i < weights.len() && #[trigger] weights[i] > 0,
        weights.len() <= usize::MAX,
        d > 0,
        forall|i: usize|
            0 <= i < weights.len() ==> #[trigger] order.to_multiset().count(i) % d == 0,
    ensures
        d == 1,
{
    law_schedule_is_proportional(weights, order);
    assert forall|i: int| 0 <= i < weights.len() implies divides(
        d,
        #[trigger] shares(weights)[i] as nat,
    ) by {
        let x = occurrences(order, i);
        lemma_occurrences_are_counted(order, i as usize);
        assert(x == shares(weights)[i]);
        assert(order.to_multiset().count(i as usize) % d == 0);
        lemma_fundamental_div_mod(x as int, d as int);
        assert(x == (x / d) * d) by (nonlinear_arith)
            requires
                x == d * (x / d) + 0,
        ;
    }
    law_shares_are_in_lowest_terms(weights, d);
}

/// Every place of the cycle goes to whoever is furthest behind at that point. With `n` for how often
/// a backend stands in the whole cycle and `got` for how often before the place `k`, it is behind by
/// `(k + 1) * n - len * got`, where `len` is the cycle's length. Nobody in the cycle is further
/// behind than the one whose turn it is, and nobody listed before that one is as far.
pub proof fn law_turn_is_of_the_furthest_behind(
    weights: Seq<u32>,
    order: Seq<usize>,
    k: int,
    i: usize,
)
    requires
        is_schedule(weights, order),
        exists|j: int| 0 <= j < weights.len() && #[trigger] weights[j] > 0,
        0 <= k < order.len(),
        order.contains(i),
    ensures
        ({
            let all = order.to_multiset();
            let before = order.take(k).to_multiset();
            let behind = (k + 1) * all.count(order[k]) - order.len() * before.count(order[k]);
            let other = (k + 1) * all.count(i) - order.len() * before.count(i);
            &&& other <= behind
            &&& i < order[k] ==> other < behind
        }),
{
    let sh = shares(weights);
    let picks = order.take(k);
    law_schedule_is_proportional(weights, order);
    law_schedule_serves_positive_weights(weights, order);
    lemma_occurrences_are_counted(order, i);
    lemma_occurrences_are_counted(order, order[k]);
    lemma_occurrences_are_counted(picks, i);
    lemma_occurrences_are_counted(picks, order[k]);
    let at = choose|at: int| 0 <= at < order.len() && order[at] == i;
    assert(order[at] < weights.len());
    assert(order[k] < weights.len());
    order.to_multiset_ensures();
    assert(order.contains(order[k]));
    assert(occurrences(order, i as int) == sh[i as int]);
    assert(occurrences(order, order[k] as int) == sh[order[k] as int]);
    lemma_schedule_length(weights, order);
    assert(is_next_pick(sh, picks, order[k] as int));
    assert(sh[i as int] > 0);
    lemma_credit(sh, picks, i as int);
    lemma_credit(sh, picks, order[k] as int);
}

proof fn lemma_credit(sh: Seq<int>, picks: Seq<usize>, i: int)
    ensures
        credit(sh, picks, i) == (picks.len() + 1) * sh[i] - sum(sh) * occurrences(picks, i),
{
    let n = picks.len() as int;
    let s = sh[i];
    assert((n + 1) * s == n * s + s) by (nonlinear_arith);
    assert(standing(sh, picks, i) == n * s - sum(sh) * occurrences(picks, i));
}

proof fn lemma_schedule_length(weights: Seq<u32>, order: Seq<usize>)
    requires
        is_schedule(weights, order),
        exists|j: int| 0 <= j < weights.len() && #[trigger] weights[j] > 0,
    ensures
        order.len() == sum(shares(weights)),
        is_smooth(shares(weights), order),
{
    lemma_share_sum_positive(weights);
}

} // verus!
