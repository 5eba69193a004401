//! What holds of a pool across operations.

use crate::backend::{law_connections_balance, BackendView};
use crate::config::Strategy;
use crate::pool::PoolView;
use crate::schedule::{
    common_gcd, is_schedule, law_equal_weights_take_turns, law_schedule_is_proportional,
    law_schedule_is_unique, law_schedule_serves_positive_weights, lemma_occurrences_concat,
    occurrences,
};
use vstd::arithmetic::div_mod::{
    lemma_add_mod_noop, lemma_add_mod_noop_right, lemma_fundamental_div_mod,
    lemma_mod_add_multiples_vanish, lemma_mod_mod, lemma_small_mod,
};
use vstd::prelude::*;

verus! {

impl PoolView {
    /// The `p`-th member is in line for picks. For least connections every member is. Round robin
    /// leaves members of weight 0 out, unless all are.
    pub open spec fn is_in_line(self, p: int) -> bool {
        ||| self.strategy == Strategy::LeastConnections
        ||| self.member(p).weight > 0
        ||| forall|q: int|
            0 <= q < self.members.len() ==> (#[trigger] self.member(q)).weight == 0
    }

    /// Where the cursor of round robin stands after `n` picks. It counts picks, and starts over
    /// when it has no more room.
    pub open spec fn cursor_after(self, n: nat) -> int {
        (self.cursor + n) % (usize::MAX + 1)
    }
}

proof fn lemma_occurs_at(picks: Seq<usize>, i: int) -> (k: int)
    requires
        occurrences(picks, i) > 0,
    ensures
        0 <= k < picks.len(),
        picks[k] == i,
    decreases picks.len(),
{
    if picks.last() == i {
        picks.len() - 1
    } else {
        lemma_occurs_at(picks.drop_last(), i)
    }
}

proof fn lemma_occurs(picks: Seq<usize>, k: int)
    requires
        0 <= k < picks.len(),
    ensures
        occurrences(picks, picks[k] as int) > 0,
    decreases picks.len(),
{
    if k < picks.len() - 1 {
        assert(picks.drop_last()[k] == picks[k]);
        lemma_occurs(picks.drop_last(), k);
    }
}

/// The schedule holds exactly the positions of the members that are in line.
proof fn lemma_schedule_is_the_line(v: PoolView)
    requires
        v.wf(),
        v.strategy == Strategy::RoundRobin,
    ensures
        forall|k: int|
            0 <= k < v.schedule.len() ==> #[trigger] v.schedule[k] < v.members.len()
                && v.is_in_line(v.schedule[k] as int),
        forall|p: int|
            0 <= p < v.members.len() && #[trigger] v.is_in_line(p) ==> occurrences(v.schedule, p)
                > 0,
{
    let w = v.weights();
    law_schedule_serves_positive_weights(w, v.schedule);
    assert forall|q: int| 0 <= q < v.members.len() implies w[q] == (#[trigger] v.member(
        q,
    )).weight by {}
    assert forall|k: int| 0 <= k < v.schedule.len() implies #[trigger] v.schedule[k]
        < v.members.len() && v.is_in_line(v.schedule[k] as int) by {
        lemma_occurs(v.schedule, k);
        let p = v.schedule[k] as int;
        if exists|j: int| 0 <= j < w.len() && #[trigger] w[j] > 0 {
            assert(w[p] == v.member(p).weight);
        }
    }
    assert forall|p: int| 0 <= p < v.members.len() && #[trigger] v.is_in_line(p) implies occurrences(
        v.schedule,
        p,
    ) > 0 by {
        if exists|j: int| 0 <= j < w.len() && #[trigger] w[j] > 0 {
            let j = choose|j: int| 0 <= j < w.len() && #[trigger] w[j] > 0;
            assert(v.member(j).weight > 0);
            assert(w[p] == v.member(p).weight);
        } else {
            assert forall|j: int| 0 <= j < w.len() implies #[trigger] w[j] == 0 by {}
        }
    }
}

/// Who is picked is up, is a member, and is in line: an unhealthy backend gets no traffic, and
/// under round robin neither does one that was drained with weight 0.
pub proof fn law_pick_is_up_and_in_line(v: PoolView, slot: usize)
    requires
        v.wf(),
        v.is_pick(Some(slot)),
    ensures
        v.is_up(slot),
        exists|p: int|
            0 <= p < v.members.len() && v.members[p] == slot && #[trigger] v.is_in_line(p),
{
    match v.strategy {
        Strategy::RoundRobin => {
            lemma_schedule_is_the_line(v);
            let i = choose|i: int|
                0 <= i < v.schedule.len() && slot == #[trigger] v.turn(i) && v.is_up(slot);
            let n = v.schedule.len() as int;
            let at = (v.cursor + i) % n;
            assert(0 <= at < n);
            assert(v.is_in_line(v.schedule[at] as int));
        },
        Strategy::LeastConnections => {
            let p = choose|p: int|
                0 <= p < v.members.len() && slot == v.members[p] && (#[trigger] v.member(
                    p,
                )).healthy;
            assert(v.is_in_line(p));
        },
    }
}

/// Every position of the schedule is reached within one round.
proof fn lemma_turn_reaches(v: PoolView, k: int) -> (i: int)
    requires
        0 <= k < v.schedule.len(),
    ensures
        0 <= i < v.schedule.len(),
        v.turn(i) == v.members[v.schedule[k] as int],
{
    let n = v.schedule.len() as int;
    let c = v.cursor as int;
    let i = (k - c) % n;
    assert(0 <= i < n);
    lemma_add_mod_noop_right(c, k - c, n);
    assert((c + i) % n == k % n);
    lemma_small_mod(k as nat, n as nat);
    i
}

/// Nobody is picked exactly if nobody in line is up.
pub proof fn law_no_pick_means_nobody_up(v: PoolView)
    requires
        v.wf(),
    ensures
        v.is_pick(None) <==> forall|p: int|
            0 <= p < v.members.len() && #[trigger] v.is_in_line(p) ==> !v.member(p).healthy,
{
    match v.strategy {
        Strategy::RoundRobin => {
            lemma_schedule_is_the_line(v);
            if v.is_pick(None) {
                assert forall|p: int|
                    0 <= p < v.members.len() && #[trigger] v.is_in_line(p) implies !v.member(
                    p,
                ).healthy by {
                    let k = lemma_occurs_at(v.schedule, p);
                    let i = lemma_turn_reaches(v, k);
                    assert(!v.is_up(v.turn(i)));
                }
            }
            if forall|p: int|
                0 <= p < v.members.len() && #[trigger] v.is_in_line(p) ==> !v.member(p).healthy {
                assert forall|i: int| 0 <= i < v.schedule.len() implies !v.is_up(
                    #[trigger] v.turn(i),
                ) by {
                    let n = v.schedule.len() as int;
                    let at = (v.cursor + i) % n;
                    assert(0 <= at < n);
                    assert(v.is_in_line(v.schedule[at] as int));
                }
            }
        },
        Strategy::LeastConnections => {
            if v.is_pick(None) {
                assert forall|p: int|
                    0 <= p < v.members.len() && #[trigger] v.is_in_line(p) implies !v.member(
                    p,
                ).healthy by {}
            }
            if forall|p: int|
                0 <= p < v.members.len() && #[trigger] v.is_in_line(p) ==> !v.member(p).healthy {
                assert forall|p: int| 0 <= p < v.members.len() implies !(#[trigger] v.member(
                    p,
                )).healthy by {
                    assert(v.is_in_line(p));
                }
            }
        },
    }
}

/// A pool in a given state has one pick only.
pub proof fn law_pick_is_determined(v: PoolView, a: Option<usize>, b: Option<usize>)
    requires
        v.is_pick(a),
        v.is_pick(b),
    ensures
        a == b,
{
    match v.strategy {
        Strategy::RoundRobin => {
            if a is Some && b is Some {
                let i = choose|i: int|
                    {
                        &&& 0 <= i < v.schedule.len()
                        &&& a->0 == #[trigger] v.turn(i)
                        &&& v.is_up(a->0)
                        &&& forall|j: int| 0 <= j < i ==> !v.is_up(#[trigger] v.turn(j))
                    };
                let k = choose|k: int|
                    {
                        &&& 0 <= k < v.schedule.len()
                        &&& b->0 == #[trigger] v.turn(k)
                        &&& v.is_up(b->0)
                        &&& forall|j: int| 0 <= j < k ==> !v.is_up(#[trigger] v.turn(j))
                    };
                assert(i == k);
            }
        },
        Strategy::LeastConnections => {},
    }
}

proof fn lemma_after_picks(v: PoolView, n: nat)
    requires
        v.strategy == Strategy::RoundRobin,
        v.members.len() > 0,
    ensures
        v.after_picks(n) == (PoolView { cursor: v.cursor_after(n) as usize, ..v }),
        0 <= v.cursor_after(n) <= usize::MAX,
    decreases n,
{
    let range = usize::MAX + 1;
    if n > 0 {
        lemma_after_picks(v, (n - 1) as nat);
        lemma_add_mod_noop(v.cursor + n - 1, 1, range);
        lemma_small_mod(1, range as nat);
        let before = v.cursor_after((n - 1) as nat);
        if before < usize::MAX {
            lemma_small_mod((before + 1) as nat, range as nat);
        }
    } else {
        lemma_small_mod(v.cursor as nat, range as nat);
    }
}

/// The cursor leads to the place that is `n` places on, if it does not start over before, or does
/// so where a cycle of the schedule does.
proof fn lemma_cursor_keeps_pace(v: PoolView, n: nat)
    requires
        v.schedule.len() > 0,
        v.cursor + n <= usize::MAX || (usize::MAX + 1) % v.schedule.len() as int == 0,
    ensures
        v.cursor_after(n) % v.schedule.len() as int == (v.cursor + n) % v.schedule.len() as int,
{
    let range = usize::MAX + 1;
    let len = v.schedule.len() as int;
    if v.cursor + n <= usize::MAX {
        lemma_small_mod((v.cursor + n) as nat, range as nat);
    } else {
        lemma_fundamental_div_mod(range, len);
        let cycles = range / len;
        assert(cycles > 0) by (nonlinear_arith)
            requires
                range == len * cycles,
                range > 0,
                len > 0,
        ;
        lemma_mod_mod((v.cursor + n) as int, len, cycles);
    }
}

/// While everybody is up, round robin walks the schedule: the pick after `n` others goes to the
/// member at the place where `n` steps of the cursor lead.
pub proof fn law_round_robin_walks_schedule(v: PoolView, n: nat, pick: Option<usize>)
    requires
        v.wf(),
        v.strategy == Strategy::RoundRobin,
        v.members.len() > 0,
        forall|p: int| 0 <= p < v.members.len() ==> (#[trigger] v.member(p)).healthy,
        v.after_picks(n).is_pick(pick),
    ensures
        pick == Some(
            v.members[v.schedule[v.cursor_after(n) % v.schedule.len() as int] as int],
        ),
{
    lemma_after_picks(v, n);
    lemma_schedule_is_the_line(v);
    law_schedule_serves_positive_weights(v.weights(), v.schedule);
    let now = v.after_picks(n);
    let len = v.schedule.len() as int;
    let at = v.cursor_after(n) % len;
    assert(0 <= at < len);
    assert(v.member(v.schedule[at] as int).healthy);
    assert(now.turn(0) == v.members[v.schedule[at] as int]);
    assert(now.is_up(now.turn(0)));
    assert(now.is_pick(Some(now.turn(0))));
    law_pick_is_determined(now, pick, Some(now.turn(0)));
}

/// With everybody up and of equal weight, round robin goes round the members in the order in which
/// they joined.
pub proof fn law_round_robin_cycles(v: PoolView, n: nat, pick: Option<usize>)
    requires
        v.wf(),
        v.strategy == Strategy::RoundRobin,
        v.members.len() > 0,
        forall|p: int| 0 <= p < v.members.len() ==> (#[trigger] v.member(p)).healthy,
        forall|p: int, q: int|
            0 <= p < v.members.len() && 0 <= q < v.members.len() ==> (#[trigger] v.member(
                p,
            )).weight == (#[trigger] v.member(q)).weight,
        v.members.len() <= usize::MAX,
        v.after_picks(n).is_pick(pick),
    ensures
        pick == Some(v.members[v.cursor_after(n) % v.members.len() as int]),
{
    let weights = v.weights();
    assert forall|p: int, q: int| 0 <= p < weights.len() && 0 <= q < weights.len() implies
        #[trigger] weights[p] == #[trigger] weights[q] by {
        assert(v.member(p).weight == v.member(q).weight);
    }
    law_equal_weights_take_turns(weights, v.schedule);
    law_round_robin_walks_schedule(v, n, pick);
}

/// `n` consecutive entries of the schedule, repeated without end, from place `from` on.
pub open spec fn window(schedule: Seq<usize>, from: int, n: nat) -> Seq<usize> {
    Seq::new(n, |j: int| schedule[(from + j) % schedule.len() as int])
}

/// A window of one cycle's length holds the same entries wherever it begins.
pub proof fn lemma_window_of_cycle(schedule: Seq<usize>, from: int, i: int)
    requires
        schedule.len() > 0,
        from >= 0,
    ensures
        occurrences(window(schedule, from, schedule.len()), i) == occurrences(schedule, i),
    decreases from,
{
    let n = schedule.len();
    let w = window(schedule, from, n);
    if from == 0 {
        assert forall|j: int| 0 <= j < n implies w[j] == schedule[j] by {
            lemma_small_mod(j as nat, n);
        }
        assert(w == schedule);
    } else {
        lemma_window_of_cycle(schedule, from - 1, i);
        let earlier = window(schedule, from - 1, n);
        let first = seq![earlier[0]];
        let common = w.drop_last();
        assert(earlier == first + common) by {
            assert forall|j: int| 0 <= j < n implies earlier[j] == (first + common)[j] by {
                if j > 0 {
                    assert((from - 1) + j == from + (j - 1));
                }
            }
        }
        let last = seq![w.last()];
        assert(w == common + last);
        assert(w.last() == earlier[0]) by {
            lemma_mod_add_multiples_vanish(from - 1, n as int);
            assert(from + (n - 1) == n + (from - 1));
        }
        assert(first == last);
        lemma_occurrences_concat(first, common, i);
        lemma_occurrences_concat(common, last, i);
    }
}

proof fn lemma_window_of_cycles(schedule: Seq<usize>, from: int, cycles: nat, i: int)
    requires
        schedule.len() > 0,
        from >= 0,
    ensures
        occurrences(window(schedule, from, cycles * schedule.len()), i) == cycles * occurrences(
            schedule,
            i,
        ),
    decreases cycles,
{
    let n = schedule.len();
    let got = occurrences(schedule, i);
    if cycles == 0 {
        assert(0 * n == 0 && 0 * got == 0) by (nonlinear_arith);
    } else {
        let fewer = (cycles - 1) as nat;
        assert(cycles * n == fewer * n + n) by (nonlinear_arith)
            requires
                cycles == fewer + 1,
        ;
        assert(cycles * got == fewer * got + got) by (nonlinear_arith)
            requires
                cycles == fewer + 1,
        ;
        lemma_window_of_cycles(schedule, from, fewer, i);
        assert(from + fewer * n >= 0);
        lemma_window_of_cycle(schedule, (from + fewer * n) as int, i);
        let a = window(schedule, from, fewer * n);
        let b = window(schedule, (from + fewer * n) as int, n);
        assert(window(schedule, from, cycles * n) == a + b) by {
            assert forall|j: int| 0 <= j < cycles * n implies window(
                schedule,
                from,
                cycles * n,
            )[j] == (a + b)[j] by {
                if j >= fewer * n {
                    assert(from + j == (from + fewer * n) + (j - fewer * n));
                }
            }
        }
        lemma_occurrences_concat(a, b, i);
    }
}

/// Picks that name members by slot, where `positions` names them by position, name each as often.
proof fn lemma_occurrences_by_slot(
    members: Seq<usize>,
    positions: Seq<usize>,
    picks: Seq<usize>,
    p: int,
)
    requires
        members.no_duplicates(),
        0 <= p < members.len(),
        positions.len() == picks.len(),
        forall|j: int|
            0 <= j < picks.len() ==> 0 <= #[trigger] positions[j] < members.len() && picks[j]
                == members[positions[j] as int],
    ensures
        occurrences(picks, members[p] as int) == occurrences(positions, p),
    decreases picks.len(),
{
    if picks.len() > 0 {
        let (x, y) = (positions.drop_last(), picks.drop_last());
        assert forall|j: int| 0 <= j < y.len() implies 0 <= #[trigger] x[j] < members.len()
            && y[j] == members[x[j] as int] by {
            assert(x[j] == positions[j]);
        }
        lemma_occurrences_by_slot(members, x, y, p);
        let last = picks.len() - 1;
        assert(0 <= positions[last] < members.len());
        assert(picks[last] == members[positions[last] as int]);
    }
}

/// Weighted round robin hands out picks in exact proportion to the weights: over any whole number
/// of cycles in which everybody is up, wherever the cursor stands, a member's picks, times the
/// common divisor of the weights, are its weight times the number of cycles. When no weight is
/// positive, everybody gets one pick per cycle. (The cursor must not start over meanwhile, unless
/// whole cycles fit its range, so that it starts over where a cycle does.)
pub proof fn law_round_robin_is_proportional(v: PoolView, picks: Seq<usize>, cycles: nat)
    requires
        v.wf(),
        v.strategy == Strategy::RoundRobin,
        forall|p: int| 0 <= p < v.members.len() ==> (#[trigger] v.member(p)).healthy,
        picks.len() == cycles * v.schedule.len(),
        v.cursor + picks.len() <= usize::MAX + 1 || (usize::MAX + 1) % v.schedule.len() as int
            == 0,
        forall|n: int|
            0 <= n < picks.len() ==> v.after_picks(n as nat).is_pick(Some(#[trigger] picks[n])),
    ensures
        (exists|q: int| 0 <= q < v.members.len() && (#[trigger] v.member(q)).weight > 0)
            ==> forall|p: int|
            0 <= p < v.members.len() ==> #[trigger] occurrences(picks, v.members[p] as int)
                * common_gcd(v.weights()) == cycles * v.member(p).weight,
        (forall|q: int| 0 <= q < v.members.len() ==> (#[trigger] v.member(q)).weight == 0)
            ==> forall|p: int|
            0 <= p < v.members.len() ==> #[trigger] occurrences(picks, v.members[p] as int)
                == cycles,
{
    let w = v.weights();
    let c = v.cursor as int;
    let len = v.schedule.len() as int;
    law_schedule_serves_positive_weights(w, v.schedule);
    if v.members.len() > 0 {
        let positions = window(v.schedule, c, picks.len());
        assert forall|j: int| 0 <= j < picks.len() implies 0 <= #[trigger] positions[j]
            < v.members.len() && picks[j] == v.members[positions[j] as int] by {
            assert(v.after_picks(j as nat).is_pick(Some(picks[j])));
            law_round_robin_walks_schedule(v, j as nat, Some(picks[j]));
            lemma_cursor_keeps_pace(v, j as nat);
            let at = (c + j) % len;
            assert(0 <= at < len);
            assert(v.schedule[at] < w.len());
        }
        assert forall|p: int| 0 <= p < v.members.len() implies #[trigger] occurrences(
            picks,
            v.members[p] as int,
        ) == cycles * occurrences(v.schedule, p) by {
            lemma_occurrences_by_slot(v.members, positions, picks, p);
            lemma_window_of_cycles(v.schedule, c, cycles, p);
        }
        if exists|q: int| 0 <= q < v.members.len() && (#[trigger] v.member(q)).weight > 0 {
            let q = choose|q: int| 0 <= q < v.members.len() && (#[trigger] v.member(q)).weight > 0;
            assert(w[q] > 0);
            law_schedule_is_proportional(w, v.schedule);
            assert forall|p: int| 0 <= p < v.members.len() implies #[trigger] occurrences(
                picks,
                v.members[p] as int,
            ) * common_gcd(w) == cycles * v.member(p).weight by {
                let got = occurrences(v.schedule, p);
                let g = common_gcd(w);
                assert(got * g == w[p]);
                assert((cycles * got) * g == cycles * (got * g)) by (nonlinear_arith);
            }
        }
        if forall|q: int| 0 <= q < v.members.len() ==> (#[trigger] v.member(q)).weight == 0 {
            assert forall|j: int| 0 <= j < w.len() implies #[trigger] w[j] == 0 by {
                assert(v.member(j).weight == 0);
            }
            assert forall|p: int| 0 <= p < v.members.len() implies #[trigger] occurrences(
                picks,
                v.members[p] as int,
            ) == cycles by {
                assert(occurrences(v.schedule, p) == 1);
                assert(cycles * 1 == cycles);
            }
        }
    }
}

/// Routing cannot come to a halt while everybody is up: whatever the weights, somebody is picked.
pub proof fn law_healthy_pool_always_picks(v: PoolView)
    requires
        v.wf(),
        v.members.len() > 0,
        forall|p: int| 0 <= p < v.members.len() ==> (#[trigger] v.member(p)).healthy,
    ensures
        !v.is_pick(None),
{
    match v.strategy {
        Strategy::RoundRobin => {
            lemma_schedule_is_the_line(v);
            law_schedule_serves_positive_weights(v.weights(), v.schedule);
            let n = v.schedule.len() as int;
            let at = (v.cursor + 0) % n;
            assert(0 <= at < n);
            assert(v.member(v.schedule[at] as int).healthy);
            assert(v.is_up(v.turn(0)));
        },
        Strategy::LeastConnections => {
            assert(v.member(0).healthy);
        },
    }
}

/// A new backend takes traffic at once: it counts as up, and round robin has it in its schedule
/// if it has a weight.
pub proof fn law_added_takes_traffic(v: PoolView, addr: Seq<char>, weight: u32, after: PoolView)
    requires
        v.wf(),
        v.is_added(addr, weight, after),
        weight > 0,
    ensures
        ({
            let last = v.members.len() as int;
            &&& after.member(last) == BackendView::fresh(addr, weight)
            &&& after.member(last).healthy
            &&& after.is_in_line(last)
            &&& occurrences(after.schedule, last) > 0
        }),
{
    let last = v.members.len() as int;
    assert(after.member(last).weight == weight);
    assert(after.weights()[last] == weight);
    law_schedule_serves_positive_weights(after.weights(), after.schedule);
}

/// A new weight takes effect with the next pick: the schedule is the one for the weights with
/// this one changed, and no others.
pub proof fn law_reweighting_changes_one_weight(v: PoolView, p: int, weight: u32, after: PoolView)
    requires
        v.wf(),
        0 <= p < v.members.len(),
        v.is_reweighted(p, weight, after),
    ensures
        after.weights() == v.weights().update(p, weight),
        is_schedule(v.weights().update(p, weight), after.schedule),
{
    assert(after.weights() == v.weights().update(p, weight));
}

/// A backend that was added is there, so that adding its address again is refused.
pub proof fn law_added_is_present(v: PoolView, addr: Seq<char>, weight: u32, after: PoolView)
    requires
        v.wf(),
        v.is_added(addr, weight, after),
    ensures
        after.has(addr),
        forall|other: Seq<char>| other != addr ==> (#[trigger] after.has(other) <==> v.has(other)),
{
    let last = v.members.len() as int;
    assert(after.member(last).addr == addr);
    assert forall|other: Seq<char>| other != addr implies (#[trigger] after.has(other) <==> v.has(
        other,
    )) by {
        if v.has(other) {
            let p = choose|p: int| 0 <= p < v.members.len() && (#[trigger] v.member(p)).addr == other;
            assert(after.member(p).addr == other);
        }
        if after.has(other) {
            let p = choose|p: int|
                0 <= p < after.members.len() && (#[trigger] after.member(p)).addr == other;
            assert(p < last);
            assert(v.member(p).addr == other);
        }
    }
}

pub proof fn lemma_filter_contains(s: Seq<usize>, pred: spec_fn(usize) -> bool, x: usize)
    ensures
        s.filter(pred).contains(x) <==> s.contains(x) && pred(x),
    decreases s.len(),
{
    reveal(Seq::filter);
    if s.len() > 0 {
        let before = s.drop_last();
        lemma_filter_contains(before, pred, x);
        let kept = before.filter(pred);
        if s.contains(x) && x != s.last() {
            let k = choose|k: int| 0 <= k < s.len() && s[k] == x;
            assert(before[k] == x);
        }
        if before.contains(x) {
            let k = choose|k: int| 0 <= k < before.len() && before[k] == x;
            assert(s[k] == x);
        }
        assert(s[s.len() - 1] == s.last());
        if pred(s.last()) {
            let longer = kept.push(s.last());
            assert(longer[longer.len() - 1] == s.last());
            if kept.contains(x) {
                let k = choose|k: int| 0 <= k < kept.len() && kept[k] == x;
                assert(longer[k] == x);
            }
            if longer.contains(x) && x != s.last() {
                let k = choose|k: int| 0 <= k < longer.len() && longer[k] == x;
                assert(kept[k] == x);
            }
        }
    }
}

/// An address that was removed is gone, so that removing it again is refused. Nobody else leaves.
pub proof fn law_removed_is_absent(v: PoolView, addr: Seq<char>, after: PoolView)
    requires
        v.wf(),
        v.is_removed(addr, after),
    ensures
        !after.has(addr),
        forall|other: Seq<char>| other != addr ==> (#[trigger] after.has(other) <==> v.has(other)),
{
    let keeps = |m: usize| v.slots[m as int].addr != addr;
    if after.has(addr) {
        let p = choose|p: int|
            0 <= p < after.members.len() && (#[trigger] after.member(p)).addr == addr;
        lemma_filter_contains(v.members, keeps, after.members[p]);
        assert(after.members.contains(after.members[p]));
    }
    assert forall|other: Seq<char>| other != addr implies (#[trigger] after.has(other) <==> v.has(
        other,
    )) by {
        if v.has(other) {
            let p = choose|p: int| 0 <= p < v.members.len() && (#[trigger] v.member(p)).addr == other;
            lemma_filter_contains(v.members, keeps, v.members[p]);
            assert(v.members.contains(v.members[p]));
            let k = choose|k: int| 0 <= k < after.members.len() && after.members[k] == v.members[p];
            assert(after.member(k).addr == other);
        }
        if after.has(other) {
            let p = choose|p: int|
                0 <= p < after.members.len() && (#[trigger] after.member(p)).addr == other;
            lemma_filter_contains(v.members, keeps, after.members[p]);
            assert(after.members.contains(after.members[p]));
            let k = choose|k: int| 0 <= k < v.members.len() && v.members[k] == after.members[p];
            assert(v.member(k).addr == other);
        }
    }
}

proof fn lemma_filter_all(s: Seq<usize>, pred: spec_fn(usize) -> bool)
    requires
        forall|i: int| 0 <= i < s.len() ==> pred(#[trigger] s[i]),
    ensures
        s.filter(pred) == s,
    decreases s.len(),
{
    reveal(Seq::filter);
    if s.len() > 0 {
        let before = s.drop_last();
        assert forall|i: int| 0 <= i < before.len() implies pred(#[trigger] before[i]) by {
            assert(before[i] == s[i]);
        }
        lemma_filter_all(before, pred);
        assert(pred(s[s.len() - 1]));
        assert(before.push(s.last()) == s);
    }
}

/// Adding a backend and removing it again leaves the same members and the same schedule.
pub proof fn law_remove_undoes_add(
    v: PoolView,
    addr: Seq<char>,
    weight: u32,
    mid: PoolView,
    after: PoolView,
)
    requires
        v.wf(),
        !v.has(addr),
        v.is_added(addr, weight, mid),
        mid.is_removed(addr, after),
    ensures
        after.members == v.members,
        after.schedule == v.schedule,
        after.strategy == v.strategy,
        after.cursor == v.cursor,
        forall|p: int| 0 <= p < v.members.len() ==> after.member(p) == #[trigger] v.member(p),
{
    let keeps = |m: usize| mid.slots[m as int].addr != addr;
    let fresh = v.slots.len() as usize;
    assert forall|i: int| 0 <= i < v.members.len() implies keeps(#[trigger] v.members[i]) by {
        assert(v.member(i).addr != addr);
    }
    lemma_filter_all(v.members, keeps);
    assert(mid.members.filter(keeps) == v.members) by {
        reveal(Seq::filter);
        assert(mid.members.drop_last() == v.members);
        assert(!keeps(fresh));
    }
    assert(after.weights() == v.weights());
    law_schedule_is_unique(v.weights(), after.schedule, v.schedule);
}

/// No two members have the same address.
pub open spec fn has_distinct_addresses(v: PoolView) -> bool {
    forall|p: int, q: int|
        0 <= p < q < v.members.len() ==> (#[trigger] v.member(p)).addr != (#[trigger] v.member(
            q,
        )).addr
}

/// A pool without two members at the same address stays so when a backend is added.
pub proof fn law_add_keeps_addresses_distinct(
    v: PoolView,
    addr: Seq<char>,
    weight: u32,
    after: PoolView,
)
    requires
        v.wf(),
        has_distinct_addresses(v),
        !v.has(addr),
        v.is_added(addr, weight, after),
    ensures
        has_distinct_addresses(after),
{
    assert forall|p: int, q: int| 0 <= p < q < after.members.len() implies (#[trigger] after.member(
        p,
    )).addr != (#[trigger] after.member(q)).addr by {
        assert(after.member(p) == v.member(p));
        if q < v.members.len() {
            assert(after.member(q) == v.member(q));
        } else {
            assert(v.member(p).addr != addr);
        }
    }
}

/// A slot number stays good whatever is added, removed or reweighted: the backend in it keeps its
/// address, its health and its connections. Requests in flight to a removed backend thus drain
/// naturally.
pub proof fn law_slots_outlive_changes(v: PoolView, after: PoolView, slot: int)
    requires
        v.wf(),
        0 <= slot < v.slots.len(),
        ({
            ||| exists|addr: Seq<char>, weight: u32| v.is_added(addr, weight, after)
            ||| exists|addr: Seq<char>| v.is_removed(addr, after)
            ||| exists|p: int, weight: u32|
                0 <= p < v.members.len() && v.is_reweighted(p, weight, after)
        }),
    ensures
        slot < after.slots.len(),
        after.slots[slot] == v.slots[slot].with_weight(after.slots[slot].weight),
{
}

/// A connection that was opened and closed again leaves the pool as it was.
pub proof fn law_guard_balances(v: PoolView, slot: usize)
    requires
        slot < v.slots.len(),
    ensures
        v.with_slot(slot, v.slots[slot as int].busier()).with_slot(
            slot,
            v.slots[slot as int].busier().idler(),
        ) == v,
{
    law_connections_balance(v.slots[slot as int]);
    assert(v.slots.update(slot as int, v.slots[slot as int].busier()).update(
        slot as int,
        v.slots[slot as int],
    ) == v.slots);
}

} // verus!
