//! Who serves the next request, in terms of what is in the pool alone.

use crate::config::Strategy;
use crate::pool::PoolView;
use crate::pool_laws::{lemma_window_of_cycle, window};
use crate::schedule::{law_schedule_serves_positive_weights, occurrences};
use crate::schedule_laws::lemma_occurrences_are_counted;
use vstd::arithmetic::div_mod::{
    lemma_add_mod_noop, lemma_fundamental_div_mod, lemma_mod_add_multiples_vanish, lemma_mod_mod,
    lemma_mod_self_0, lemma_small_mod,
};
use vstd::prelude::*;
use vstd::seq_lib::{group_to_multiset_ensures, seq_to_set_is_finite, to_multiset_build};
use vstd::set_lib::{lemma_int_range, lemma_len_subset, lemma_map_size, set_int_range};

verus! {

/// A pick changes nothing but the cursor, and that only under round robin with somebody in the
/// pool, where it moves on by one whoever is up or down. It starts over at the end of its range.
pub proof fn law_pick_moves_the_cursor_on(v: PoolView)
    ensures
        v.after_pick().slots == v.slots,
        v.after_pick().members == v.members,
        v.after_pick().schedule == v.schedule,
        v.after_pick().strategy == v.strategy,
        v.after_pick().cursor == if v.strategy == Strategy::RoundRobin && v.members.len() > 0 {
            (v.cursor + 1) % (usize::MAX + 1)
        } else {
            v.cursor as int
        },
{
    let range = usize::MAX + 1;
    if v.cursor < usize::MAX {
        lemma_small_mod((v.cursor + 1) as nat, range as nat);
    } else {
        lemma_mod_self_0(range);
    }
}

/// Round robin gives everybody their turn: if the member that the schedule names at the cursor's
/// place is up, it is picked, whatever the health of the others and whoever is busy.
pub proof fn law_turn_at_the_cursor_is_served(v: PoolView, pick: Option<usize>)
    requires
        v.wf(),
        v.strategy == Strategy::RoundRobin,
        v.is_pick(pick),
        v.members.len() > 0,
        v.slots[v.members[v.schedule[v.cursor as int % v.schedule.len() as int] as int] as int].healthy,
    ensures
        pick == Some(v.members[v.schedule[v.cursor as int % v.schedule.len() as int] as int]),
{
    law_schedule_serves_positive_weights(v.weights(), v.schedule);
    assert(v.turn(0) == v.members[v.schedule[v.cursor as int % v.schedule.len() as int] as int]);
    assert(v.is_up(v.turn(0)));
}

/// Round robin skips those that are down: if the member at the cursor's place is down, the pick is
/// the one that the next place gives, and so on round the schedule.
pub proof fn law_turn_of_the_down_passes_on(v: PoolView, next: usize, pick: Option<usize>)
    requires
        v.wf(),
        v.strategy == Strategy::RoundRobin,
        v.members.len() > 0,
        !v.slots[v.members[v.schedule[v.cursor as int % v.schedule.len() as int] as int] as int].healthy,
        next as int % v.schedule.len() as int == (v.cursor + 1) % v.schedule.len() as int,
    ensures
        v.is_pick(pick) <==> (PoolView { cursor: next, ..v }).is_pick(pick),
{
    law_schedule_serves_positive_weights(v.weights(), v.schedule);
    let len = v.schedule.len() as int;
    let w = PoolView { cursor: next, ..v };
    assert forall|i: int| #[trigger] w.turn(i) == v.turn(i + 1) by {
        lemma_add_mod_noop(next as int, i, len);
        lemma_add_mod_noop(v.cursor + 1, i, len);
        assert(v.cursor + 1 + i == v.cursor + (i + 1));
    }
    assert(v.turn(len) == v.turn(0)) by {
        lemma_mod_add_multiples_vanish(v.cursor as int, len);
    }
    assert(!v.is_up(v.turn(0)));
    assert forall|slot: usize| w.is_up(slot) == #[trigger] v.is_up(slot) by {}
    if v.is_pick(pick) {
        match pick {
            Some(slot) => {
                let i = choose|i: int|
                    {
                        &&& 0 <= i < len
                        &&& slot == #[trigger] v.turn(i)
                        &&& v.is_up(slot)
                        &&& forall|j: int| 0 <= j < i ==> !v.is_up(#[trigger] v.turn(j))
                    };
                assert(i > 0);
                assert(w.turn(i - 1) == v.turn(i - 1 + 1));
                assert forall|j: int| 0 <= j < i - 1 implies !w.is_up(#[trigger] w.turn(j)) by {
                    assert(!v.is_up(v.turn(j + 1)));
                }
            },
            None => {
                assert forall|j: int| 0 <= j < len implies !w.is_up(#[trigger] w.turn(j)) by {
                    if j < len - 1 {
                        assert(!v.is_up(v.turn(j + 1)));
                    }
                }
            },
        }
    }
    if w.is_pick(pick) {
        match pick {
            Some(slot) => {
                let i = choose|i: int|
                    {
                        &&& 0 <= i < len
                        &&& slot == #[trigger] w.turn(i)
                        &&& w.is_up(slot)
                        &&& forall|j: int| 0 <= j < i ==> !w.is_up(#[trigger] w.turn(j))
                    };
                assert(v.turn(i + 1) == slot);
                assert(i < len - 1);
                assert forall|j: int| 0 <= j < i + 1 implies !v.is_up(#[trigger] v.turn(j)) by {
                    if j > 0 {
                        assert(w.turn(j - 1) == v.turn(j - 1 + 1));
                        assert(!w.is_up(w.turn(j - 1)));
                    }
                }
            },
            None => {
                assert forall|j: int| 0 <= j < len implies !v.is_up(#[trigger] v.turn(j)) by {
                    if j > 0 {
                        assert(w.turn(j - 1) == v.turn(j - 1 + 1));
                        assert(!w.is_up(w.turn(j - 1)));
                    }
                }
            },
        }
    }
}

/// Whoever is picked, by whatever strategy, is a member that is up.
pub proof fn law_pick_is_a_member_that_is_up(v: PoolView, slot: usize)
    requires
        v.wf(),
        v.is_pick(Some(slot)),
    ensures
        v.members.contains(slot),
        slot < v.slots.len(),
        v.slots[slot as int].healthy,
        v.strategy == Strategy::RoundRobin ==> exists|k: int|
            0 <= k < v.schedule.len() && v.members[#[trigger] v.schedule[k] as int] == slot,
{
    match v.strategy {
        Strategy::RoundRobin => {
            law_schedule_serves_positive_weights(v.weights(), v.schedule);
            let i = choose|i: int|
                0 <= i < v.schedule.len() && slot == #[trigger] v.turn(i) && v.is_up(slot);
            let k = (v.cursor + i) % v.schedule.len() as int;
            assert(0 <= k < v.schedule.len());
            assert(v.members[v.schedule[k] as int] == slot);
        },
        Strategy::LeastConnections => {
            let p = choose|p: int|
                0 <= p < v.members.len() && slot == v.members[p] && (#[trigger] v.member(
                    p,
                )).healthy;
            assert(v.members[p] == slot);
        },
    }
}

/// Nobody is picked only if everybody who could be is down: under round robin those in the
/// schedule, under least connections all members.
pub proof fn law_somebody_up_is_picked(v: PoolView, k: int)
    requires
        v.wf(),
        v.strategy == Strategy::RoundRobin ==> 0 <= k < v.schedule.len()
            && v.slots[v.members[v.schedule[k] as int] as int].healthy,
        v.strategy == Strategy::LeastConnections ==> 0 <= k < v.members.len()
            && v.slots[v.members[k] as int].healthy,
    ensures
        !v.is_pick(None),
{
    match v.strategy {
        Strategy::RoundRobin => {
            let len = v.schedule.len() as int;
            let i = (k - v.cursor) % len;
            lemma_add_mod_noop(v.cursor as int, k - v.cursor, len);
            lemma_add_mod_noop(v.cursor as int, i, len);
            lemma_small_mod(k as nat, len as nat);
            lemma_small_mod(i as nat, len as nat);
            assert(v.turn(i) == v.members[v.schedule[k] as int]);
            assert(v.is_up(v.turn(i)));
        },
        Strategy::LeastConnections => {
            assert(v.member(k).healthy);
        },
    }
}

/// Least connections picks whoever is least busy: nobody in the pool that is up has fewer
/// connections, and nobody that joined before has as few.
pub proof fn law_least_busy_is_picked(v: PoolView, slot: usize, p: int, q: int)
    requires
        v.wf(),
        v.strategy == Strategy::LeastConnections,
        v.is_pick(Some(slot)),
        0 <= p < v.members.len(),
        v.members[p] == slot,
        0 <= q < v.members.len(),
        v.slots[v.members[q] as int].healthy,
    ensures
        v.slots[slot as int].active_conns <= v.slots[v.members[q] as int].active_conns,
        q < p ==> v.slots[slot as int].active_conns < v.slots[v.members[q] as int].active_conns,
{
    let at = choose|at: int|
        {
            &&& 0 <= at < v.members.len()
            &&& slot == v.members[at]
            &&& (#[trigger] v.member(at)).healthy
            &&& forall|r: int|
                0 <= r < v.members.len() && (#[trigger] v.member(r)).healthy ==> {
                    &&& v.member(at).active_conns <= v.member(r).active_conns
                    &&& r < at ==> v.member(at).active_conns < v.member(r).active_conns
                }
        };
    assert(at == p);
    assert(v.member(q).healthy);
}

proof fn lemma_at_least_as_often<A>(names: Seq<usize>, p: usize, picks: Seq<A>, x: A)
    requires
        names.len() == picks.len(),
        forall|j: int| 0 <= j < names.len() && #[trigger] names[j] == p ==> picks[j] == x,
    ensures
        picks.to_multiset().count(x) >= occurrences(names, p as int),
    decreases names.len(),
{
    broadcast use group_to_multiset_ensures;

    if names.len() > 0 {
        let (a, b) = (names.drop_last(), picks.drop_last());
        assert forall|j: int| 0 <= j < a.len() && #[trigger] a[j] == p implies b[j] == x by {
            assert(names[j] == p);
        }
        lemma_at_least_as_often(a, p, b, x);
        assert(picks == b.push(picks.last()));
        to_multiset_build(b, picks.last());
        assert(names[names.len() - 1] == names.last());
    }
}

/// Round robin with some members down: over one whole cycle of picks in which nobody's health
/// changes, each member that is up is picked at least as often as it stands in the schedule, one
/// that is down not once, and every pick comes to somebody as long as anybody in the schedule is
/// up. (The cursor must not start over meanwhile, unless whole cycles fit its range.)
pub proof fn law_cycle_serves_all_that_are_up(v: PoolView, picks: Seq<Option<usize>>, p: int)
    requires
        v.wf(),
        v.strategy == Strategy::RoundRobin,
        picks.len() == v.schedule.len(),
        v.cursor + picks.len() <= usize::MAX + 1 || (usize::MAX + 1) % v.schedule.len() as int
            == 0,
        forall|n: int|
            0 <= n < picks.len() ==> (PoolView {
                cursor: ((v.cursor + n) % (usize::MAX + 1)) as usize,
                ..v
            }).is_pick(#[trigger] picks[n]),
        0 <= p < v.members.len(),
    ensures
        v.slots[v.members[p] as int].healthy ==> picks.to_multiset().count(Some(v.members[p]))
            >= v.schedule.to_multiset().count(p as usize),
        !v.slots[v.members[p] as int].healthy ==> picks.to_multiset().count(Some(v.members[p]))
            == 0,
        v.slots[v.members[p] as int].healthy && v.schedule.contains(p as usize) ==> forall|n: int|
            0 <= n < picks.len() ==> (#[trigger] picks[n]) is Some,
{
    broadcast use group_to_multiset_ensures;

    let len = v.schedule.len() as int;
    let c = v.cursor as int;
    let range = usize::MAX + 1;
    law_schedule_serves_positive_weights(v.weights(), v.schedule);
    assert(len > 0);
    assert(p <= usize::MAX) by {
        lemma_members_fit(v);
    }
    let names = window(v.schedule, c, v.schedule.len());
    lemma_window_of_cycle(v.schedule, c, p);
    lemma_occurrences_are_counted(v.schedule, p as usize);
    if v.slots[v.members[p] as int].healthy {
        assert forall|n: int| 0 <= n < names.len() && #[trigger] names[n] == p as usize implies picks[n]
            == Some(v.members[p]) by {
            let now = PoolView { cursor: ((c + n) % range) as usize, ..v };
            assert(now.is_pick(picks[n]));
            assert(now.weights() == v.weights());
            assert(((c + n) % range) % len == (c + n) % len) by {
                if c + n < range {
                    lemma_small_mod((c + n) as nat, range as nat);
                } else {
                    lemma_fundamental_div_mod(range, len);
                    let cycles = range / len;
                    assert(cycles > 0) by (nonlinear_arith)
                        requires
                            range == len * cycles,
                            range > 0,
                            len > 0,
                    ;
                    lemma_mod_mod(c + n, len, cycles);
                }
            }
            law_turn_at_the_cursor_is_served(now, picks[n]);
        }
        lemma_at_least_as_often(names, p as usize, picks, Some(v.members[p]));
        if v.schedule.contains(p as usize) {
            let k = choose|k: int| 0 <= k < len && v.schedule[k] == p as usize;
            assert forall|n: int| 0 <= n < picks.len() implies (#[trigger] picks[n]) is Some by {
                let now = PoolView { cursor: ((c + n) % range) as usize, ..v };
                assert(now.is_pick(picks[n]));
                assert(now.weights() == v.weights());
                law_somebody_up_is_picked(now, k);
            }
        }
    } else if picks.contains(Some(v.members[p])) {
        let n = choose|n: int| 0 <= n < picks.len() && picks[n] == Some(v.members[p]);
        let now = PoolView { cursor: ((c + n) % range) as usize, ..v };
        assert(now.is_pick(picks[n]));
        assert(now.weights() == v.weights());
        law_pick_is_a_member_that_is_up(now, v.members[p]);
    }
}

/// There are no more members than slot numbers.
proof fn lemma_members_fit(v: PoolView)
    requires
        v.wf(),
    ensures
        v.members.len() <= v.slots.len(),
{
    seq_to_set_is_finite(v.members);
    v.members.unique_seq_to_set();
    let bound = set_int_range(0, v.slots.len() as int);
    lemma_int_range(0, v.slots.len() as int);
    let numbers = v.members.to_set().map(|m: usize| m as int);
    assert(numbers.subset_of(bound)) by {
        assert forall|x: int| numbers.contains(x) implies bound.contains(x) by {
            let m = choose|m: usize| v.members.to_set().contains(m) && m as int == x;
            let i = choose|i: int| 0 <= i < v.members.len() && v.members[i] == m;
            assert(v.members[i] < v.slots.len());
        }
    }
    lemma_len_subset(numbers, bound);
    lemma_map_size(v.members.to_set(), numbers, |m: usize| m as int);
}

} // verus!
