//! What changes with a change of the pool and what stays, in terms of what is in the pool alone.

use crate::backend::{
    law_connections_and_weight_change_alone, law_new_backend_is_healthy_and_idle, BackendView,
};
use crate::pool::{fresh_backends, PoolView};
use crate::pool_laws::lemma_filter_contains;
use crate::schedule::lemma_share_sum_positive;
use crate::schedule_laws::{
    law_cycle_has_the_ratio_of_the_weights, law_turn_is_of_the_furthest_behind,
};
use vstd::prelude::*;

verus! {

/// A pool starts with the backends that it is given, in their order, each with its address and its
/// weight, healthy and idle.
pub proof fn law_pool_starts_with_what_it_is_given(backends: Seq<(String, u32)>, i: int)
    requires
        0 <= i < backends.len(),
    ensures
        fresh_backends(backends).len() == backends.len(),
        fresh_backends(backends)[i].addr == backends[i].0@,
        fresh_backends(backends)[i].weight == backends[i].1,
        fresh_backends(backends)[i].healthy,
        fresh_backends(backends)[i].active_conns == 0,
        fresh_backends(backends)[i].consecutive_fails == 0,
        fresh_backends(backends)[i].consecutive_oks == 0,
{
    law_new_backend_is_healthy_and_idle(backends[i].0@, backends[i].1);
}

/// An address is in the pool if and only if a member has it; a removed backend does not count.
pub proof fn law_pool_has_the_addresses_of_members(v: PoolView, addr: Seq<char>)
    ensures
        v.has(addr) <==> exists|p: int|
            0 <= p < v.members.len() && v.slots[#[trigger] v.members[p] as int].addr == addr,
{
    if v.has(addr) {
        let p = choose|p: int| 0 <= p < v.members.len() && (#[trigger] v.member(p)).addr == addr;
        assert(v.slots[v.members[p] as int].addr == addr);
    }
    if exists|p: int|
        0 <= p < v.members.len() && v.slots[#[trigger] v.members[p] as int].addr == addr {
        let p = choose|p: int|
            0 <= p < v.members.len() && v.slots[#[trigger] v.members[p] as int].addr == addr;
        assert(v.member(p).addr == addr);
    }
}

/// A new state of one backend touches nobody else, and neither the members nor their schedule.
pub proof fn law_one_backend_changes_alone(v: PoolView, slot: usize, backend: BackendView)
    requires
        slot < v.slots.len(),
    ensures
        v.with_slot(slot, backend).slots.len() == v.slots.len(),
        v.with_slot(slot, backend).slots[slot as int] == backend,
        forall|other: int|
            0 <= other < v.slots.len() && other != slot ==> #[trigger] v.with_slot(
                slot,
                backend,
            ).slots[other] == v.slots[other],
        v.with_slot(slot, backend).members == v.members,
        v.with_slot(slot, backend).schedule == v.schedule,
        v.with_slot(slot, backend).strategy == v.strategy,
        v.with_slot(slot, backend).cursor == v.cursor,
{
}

/// A backend that is added joins behind all others, healthy and idle, with the address and weight
/// that it is given. Nobody else changes, and round robin goes on where it was.
pub proof fn law_added_joins_behind_the_others(
    v: PoolView,
    addr: Seq<char>,
    weight: u32,
    after: PoolView,
)
    requires
        v.wf(),
        v.is_added(addr, weight, after),
    ensures
        after.members.len() == v.members.len() + 1,
        after.slots.len() == v.slots.len() + 1,
        forall|p: int| 0 <= p < v.members.len() ==> #[trigger] after.members[p] == v.members[p],
        forall|slot: int|
            0 <= slot < v.slots.len() ==> #[trigger] after.slots[slot] == v.slots[slot],
        after.members[v.members.len() as int] == v.slots.len(),
        after.slots[v.slots.len() as int].addr == addr,
        after.slots[v.slots.len() as int].weight == weight,
        after.slots[v.slots.len() as int].healthy,
        after.slots[v.slots.len() as int].active_conns == 0,
        after.slots[v.slots.len() as int].consecutive_fails == 0,
        after.slots[v.slots.len() as int].consecutive_oks == 0,
        after.strategy == v.strategy,
        after.cursor == v.cursor,
{
    law_new_backend_is_healthy_and_idle(addr, weight);
    assert(after.slots.len() == v.slots.len() + 1);
    assert(after.slots.len() <= usize::MAX);
}

proof fn lemma_filter_order(
    s: Seq<usize>,
    pred: spec_fn(usize) -> bool,
    x: int,
    y: int,
    p: int,
    q: int,
)
    requires
        s.no_duplicates(),
        0 <= x < y < s.filter(pred).len(),
        0 <= p < s.len(),
        0 <= q < s.len(),
        s[p] == s.filter(pred)[x],
        s[q] == s.filter(pred)[y],
    ensures
        p < q,
    decreases s.len(),
{
    reveal(Seq::filter);
    let before = s.drop_last();
    let kept = before.filter(pred);
    let last = s.len() - 1;
    assert(before.no_duplicates());
    assert(kept[x] == s[p]) by {
        assert(x < kept.len());
    }
    lemma_filter_contains(before, pred, kept[x]);
    assert(kept.contains(kept[x]));
    let i = choose|i: int| 0 <= i < before.len() && before[i] == kept[x];
    assert(s[i] == s[p]);
    assert(p < last);
    if q < last {
        if y == kept.len() {
            assert(s.filter(pred)[y] == s[last]);
            assert(s[q] == s[last]);
        }
        assert(before[p] == s[p] && before[q] == s[q]);
        lemma_filter_order(before, pred, x, y, p, q);
    }
}

/// Removing an address takes away exactly the members that have it. All others stay, in their
/// order; no backend changes, also none that leaves, and round robin goes on where it was.
pub proof fn law_remove_keeps_the_others_in_order(v: PoolView, addr: Seq<char>, after: PoolView)
    requires
        v.wf(),
        v.is_removed(addr, after),
    ensures
        after.slots == v.slots,
        after.strategy == v.strategy,
        after.cursor == v.cursor,
        after.members.no_duplicates(),
        forall|slot: usize| #[trigger]
            after.members.contains(slot) <==> v.members.contains(slot) && v.slots[slot as int].addr
                != addr,
        forall|x: int, y: int, p: int, q: int|
            #![trigger after.members[x], after.members[y], v.members[p], v.members[q]]
            0 <= x < y < after.members.len() && 0 <= p < v.members.len() && 0 <= q
                < v.members.len() && v.members[p] == after.members[x] && v.members[q]
                == after.members[y] ==> p < q,
{
    let keeps = |m: usize| v.slots[m as int].addr != addr;
    assert forall|slot: usize| #[trigger] after.members.contains(slot) <==> v.members.contains(slot)
        && v.slots[slot as int].addr != addr by {
        lemma_filter_contains(v.members, keeps, slot);
    }
    assert forall|x: int, y: int, p: int, q: int|
        #![trigger after.members[x], after.members[y], v.members[p], v.members[q]]
        0 <= x < y < after.members.len() && 0 <= p < v.members.len() && 0 <= q < v.members.len()
            && v.members[p] == after.members[x] && v.members[q] == after.members[y] implies p
        < q by {
        lemma_filter_order(v.members, keeps, x, y, p, q);
    }
}

/// A new weight goes to the first member that has the address, and changes nothing else about it,
/// nobody else, and not who is a member. Round robin goes on where it was.
pub proof fn law_reweighting_touches_one_backend(
    v: PoolView,
    addr: Seq<char>,
    p: int,
    weight: u32,
    after: PoolView,
)
    requires
        v.wf(),
        v.is_first_with(addr, p),
        v.is_reweighted(p, weight, after),
    ensures
        0 <= p < v.members.len(),
        v.slots[v.members[p] as int].addr == addr,
        forall|q: int| 0 <= q < p ==> v.slots[#[trigger] v.members[q] as int].addr != addr,
        after.slots.len() == v.slots.len(),
        after.slots[v.members[p] as int] == (BackendView {
            weight,
            ..v.slots[v.members[p] as int]
        }),
        forall|slot: int|
            0 <= slot < v.slots.len() && slot != v.members[p] ==> #[trigger] after.slots[slot]
                == v.slots[slot],
        after.members == v.members,
        after.strategy == v.strategy,
        after.cursor == v.cursor,
{
    law_connections_and_weight_change_alone(v.slots[v.members[p] as int], weight);
    assert forall|q: int| 0 <= q < p implies v.slots[#[trigger] v.members[q] as int].addr
        != addr by {
        assert(v.member(q).addr != addr);
    }
    assert(v.member(p) == v.slots[v.members[p] as int]);
}

/// The schedule of a pool serves its members in the ratio of the weights that they have now. A
/// member without weight is not served while another has one.
pub proof fn law_members_are_served_by_weight(v: PoolView, p: usize, q: usize)
    requires
        v.wf(),
        p < v.members.len(),
        q < v.members.len(),
        v.members.len() <= usize::MAX,
        exists|r: int|
            0 <= r < v.members.len() && v.slots[#[trigger] v.members[r] as int].weight > 0,
    ensures
        v.schedule.to_multiset().count(p) * v.slots[v.members[q as int] as int].weight
            == v.schedule.to_multiset().count(q) * v.slots[v.members[p as int] as int].weight,
        v.schedule.contains(p) <==> v.slots[v.members[p as int] as int].weight > 0,
{
    let weights = v.weights();
    let r = choose|r: int|
        0 <= r < v.members.len() && v.slots[#[trigger] v.members[r] as int].weight > 0;
    assert(weights[r] > 0);
    law_cycle_has_the_ratio_of_the_weights(weights, v.schedule);
    assert(weights[p as int] == v.slots[v.members[p as int] as int].weight);
    assert(weights[q as int] == v.slots[v.members[q as int] as int].weight);
}

/// With no weight at all in the pool, everybody is served once, in the order of joining.
pub proof fn law_members_without_weight_take_turns(v: PoolView)
    requires
        v.wf(),
        forall|p: int|
            0 <= p < v.members.len() ==> v.slots[#[trigger] v.members[p] as int].weight == 0,
    ensures
        v.schedule.len() == v.members.len(),
        forall|k: int| 0 <= k < v.schedule.len() ==> #[trigger] v.schedule[k] == k,
{
    let weights = v.weights();
    assert forall|p: int| 0 <= p < weights.len() implies #[trigger] weights[p] == 0 by {
        assert(v.slots[v.members[p] as int].weight == 0);
    }
    lemma_share_sum_positive(weights);
}

/// At each place of a pool's schedule stands whoever is furthest behind there, as
/// `law_turn_is_of_the_furthest_behind` has it.
pub proof fn law_members_are_served_smoothly(v: PoolView, k: int, p: usize)
    requires
        v.wf(),
        exists|r: int|
            0 <= r < v.members.len() && v.slots[#[trigger] v.members[r] as int].weight > 0,
        0 <= k < v.schedule.len(),
        v.schedule.contains(p),
    ensures
        ({
            let all = v.schedule.to_multiset();
            let before = v.schedule.take(k).to_multiset();
            let turn = v.schedule[k];
            let behind = (k + 1) * all.count(turn) - v.schedule.len() * before.count(turn);
            let other = (k + 1) * all.count(p) - v.schedule.len() * before.count(p);
            &&& other <= behind
            &&& p < turn ==> other < behind
        }),
{
    let r = choose|r: int|
        0 <= r < v.members.len() && v.slots[#[trigger] v.members[r] as int].weight > 0;
    assert(v.weights()[r] > 0);
    law_turn_is_of_the_furthest_behind(v.weights(), v.schedule, k, p);
}

} // verus!
