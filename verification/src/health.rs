//! Active health checks: whom to probe where, what counts as a pass, and what a round of probes
//! does to the pool.

use crate::http::{uri_accepts, uri_parses};
use crate::pool::{BackendPool, PoolView};
use crate::text::joined;
use vstd::prelude::*;

verus! {

/// A probe to be made.
#[derive(Debug)]
pub struct ProbeTarget {
    pub slot: usize,
    pub url: String,
    /// Whether `url` is a URI. If it is not, the probe fails without being made.
    pub valid: bool,
}

/// What came of a probe.
#[derive(Debug, Clone, Copy, PartialEq, Eq, Structural)]
pub enum ProbeReply {
    /// The backend answered in time, with this status.
    Status(u16),
    /// It did not, or it could not be asked.
    NoReply,
}

/// The probes of a round: every member at its address, under the health check's path.
pub fn probe_targets(pool: &BackendPool, path: &str) -> (targets: Vec<ProbeTarget>)
    requires
        pool.wf(),
    ensures
        targets@.len() == pool@.members.len(),
        forall|i: int|
            0 <= i < targets@.len() ==> {
                let target = #[trigger] targets@[i];
                &&& target.slot == pool@.members[i]
                &&& target.url@ == pool@.member(i).addr + path@
                &&& target.valid == uri_accepts(pool@.member(i).addr + path@)
            },
{
    let members: Vec<usize> = pool.snapshot();
    let mut targets: Vec<ProbeTarget> = Vec::new();
    let mut i: usize = 0;
    while i < members.len()
        invariant
            pool.wf(),
            members@ == pool@.members,
            i <= members@.len(),
            targets@.len() == i,
            forall|j: int|
                0 <= j < i ==> {
                    let target = #[trigger] targets@[j];
                    &&& target.slot == pool@.members[j]
                    &&& target.url@ == pool@.member(j).addr + path@
                    &&& target.valid == uri_accepts(pool@.member(j).addr + path@)
                },
        decreases members@.len() - i,
    {
        let slot: usize = members[i];
        let url: String = joined(pool.backend(slot).addr(), path);
        let valid: bool = uri_parses(&url);
        targets.push(ProbeTarget { slot, url, valid });
        i = i + 1;
    }
    targets
}

/// Whether a probe was passed: it could be made, and was answered in time with a status of 200 to
/// 299.
pub fn probe_passed(valid: bool, reply: ProbeReply) -> (passed: bool)
    ensures
        passed == (valid && match reply {
            ProbeReply::Status(status) => 200 <= status < 300,
            ProbeReply::NoReply => false,
        }),
{
    valid && match reply {
        ProbeReply::Status(status) => 200 <= status && status < 300,
        ProbeReply::NoReply => false,
    }
}

/// The pool after a round of probes: the results of `(slot, passed)`, recorded in order.
pub open spec fn after_round(
    pool: PoolView,
    results: Seq<(usize, bool)>,
    fall: u32,
    rise: u32,
) -> PoolView
    decreases results.len(),
{
    if results.len() == 0 {
        pool
    } else {
        let before = after_round(pool, results.drop_last(), fall, rise);
        let (slot, passed) = results.last();
        before.with_slot(slot, before.slots[slot as int].probed(passed, fall, rise))
    }
}

/// What the `i`-th result of a round changed about its backend's health.
pub open spec fn change_at(
    pool: PoolView,
    results: Seq<(usize, bool)>,
    fall: u32,
    rise: u32,
    i: int,
) -> Option<bool> {
    let (slot, passed) = results[i];
    after_round(pool, results.take(i), fall, rise).slots[slot as int].verdict(passed, fall, rise)
}

/// How many results of a round left their backend healthy.
pub open spec fn healthy_in_round(
    pool: PoolView,
    results: Seq<(usize, bool)>,
    fall: u32,
    rise: u32,
) -> nat
    decreases results.len(),
{
    if results.len() == 0 {
        0
    } else {
        let slot = results.last().0;
        healthy_in_round(pool, results.drop_last(), fall, rise) + if after_round(
            pool,
            results,
            fall,
            rise,
        ).slots[slot as int].healthy {
            1nat
        } else {
            0nat
        }
    }
}

/// What a round of probes found.
#[derive(Debug)]
pub struct RoundOutcome {
    /// How many of the probed backends are healthy.
    pub healthy: usize,
    /// For each result, the backend's new health if the result changed it.
    pub changes: Vec<Option<bool>>,
}

/// Records the results of a round of probes.
pub fn record_round(
    pool: &mut BackendPool,
    results: &Vec<(usize, bool)>,
    fall: u32,
    rise: u32,
) -> (outcome: RoundOutcome)
    requires
        old(pool).wf(),
        forall|i: int| 0 <= i < results@.len() ==> (#[trigger] results@[i]).0 < old(pool)@.slots.len(),
    ensures
        final(pool).wf(),
        final(pool)@ == after_round(old(pool)@, results@, fall, rise),
        outcome.healthy == healthy_in_round(old(pool)@, results@, fall, rise),
        outcome.changes@.len() == results@.len(),
        forall|i: int|
            0 <= i < results@.len() ==> #[trigger] outcome.changes@[i] == change_at(
                old(pool)@,
                results@,
                fall,
                rise,
                i,
            ),
{
    let mut healthy: usize = 0;
    let mut changes: Vec<Option<bool>> = Vec::new();
    let mut i: usize = 0;
    while i < results.len()
        invariant
            pool.wf(),
            pool@.slots.len() == old(pool)@.slots.len(),
            forall|j: int|
                0 <= j < results@.len() ==> (#[trigger] results@[j]).0 < old(pool)@.slots.len(),
            i <= results@.len(),
            pool@ == after_round(old(pool)@, results@.take(i as int), fall, rise),
            healthy <= i,
            healthy == healthy_in_round(old(pool)@, results@.take(i as int), fall, rise),
            changes@.len() == i,
            forall|j: int|
                0 <= j < i ==> #[trigger] changes@[j] == change_at(
                    old(pool)@,
                    results@,
                    fall,
                    rise,
                    j,
                ),
        decreases results@.len() - i,
    {
        let (slot, passed): (usize, bool) = results[i];
        assert(results@.take(i + 1).drop_last() == results@.take(i as int));
        let change: Option<bool> = pool.record_probe(slot, passed, fall, rise);
        changes.push(change);
        if pool.backend(slot).is_healthy() {
            healthy = healthy + 1;
        }
        i = i + 1;
    }
    assert(results@.take(i as int) == results@);
    RoundOutcome { healthy, changes }
}

/// No backend has two results.
pub open spec fn has_distinct_slots(results: Seq<(usize, bool)>) -> bool {
    forall|i: int, j: int|
        0 <= i < j < results.len() ==> (#[trigger] results[i]).0 != (#[trigger] results[j]).0
}

/// How many of the backends that `results` name are healthy in `pool`.
pub open spec fn healthy_among(pool: PoolView, results: Seq<(usize, bool)>) -> nat
    decreases results.len(),
{
    if results.len() == 0 {
        0
    } else {
        healthy_among(pool, results.drop_last()) + if pool.slots[results.last().0 as int].healthy {
            1nat
        } else {
            0nat
        }
    }
}

proof fn lemma_healthy_among_elsewhere(
    pool: PoolView,
    slot: usize,
    backend: crate::backend::BackendView,
    results: Seq<(usize, bool)>,
)
    requires
        forall|i: int| 0 <= i < results.len() ==> (#[trigger] results[i]).0 != slot,
        slot < pool.slots.len(),
        forall|i: int| 0 <= i < results.len() ==> (#[trigger] results[i]).0 < pool.slots.len(),
    ensures
        healthy_among(pool.with_slot(slot, backend), results) == healthy_among(pool, results),
    decreases results.len(),
{
    if results.len() > 0 {
        let before = results.drop_last();
        assert forall|i: int| 0 <= i < before.len() implies (#[trigger] before[i]).0 != slot
            && before[i].0 < pool.slots.len() by {
            assert(before[i] == results[i]);
        }
        lemma_healthy_among_elsewhere(pool, slot, backend, before);
        assert(results[results.len() - 1].0 != slot);
    }
}

/// A round in which every backend was probed once records exactly one probe for each of those,
/// none for anybody else, and reports how many of them are healthy when it is over.
pub proof fn law_round_records_each_once(
    pool: PoolView,
    results: Seq<(usize, bool)>,
    fall: u32,
    rise: u32,
)
    requires
        has_distinct_slots(results),
        forall|i: int| 0 <= i < results.len() ==> (#[trigger] results[i]).0 < pool.slots.len(),
    ensures
        ({
            let after = after_round(pool, results, fall, rise);
            &&& after.slots.len() == pool.slots.len()
            &&& after.members == pool.members
            &&& after.schedule == pool.schedule
            &&& forall|i: int|
                0 <= i < results.len() ==> after.slots[(#[trigger] results[i]).0 as int]
                    == pool.slots[results[i].0 as int].probed(results[i].1, fall, rise)
            &&& forall|slot: int|
                0 <= slot < pool.slots.len() && (forall|i: int|
                    0 <= i < results.len() ==> (#[trigger] results[i]).0 != slot)
                    ==> #[trigger] after.slots[slot] == pool.slots[slot]
            &&& healthy_in_round(pool, results, fall, rise) == healthy_among(after, results)
        }),
    decreases results.len(),
{
    if results.len() > 0 {
        let before = results.drop_last();
        let (slot, passed) = results.last();
        let last = results.len() - 1;
        assert(results[last] == (slot, passed));
        assert forall|i: int, j: int| 0 <= i < j < before.len() implies (#[trigger] before[i]).0
            != (#[trigger] before[j]).0 by {
            assert(before[i] == results[i] && before[j] == results[j]);
        }
        assert forall|i: int| 0 <= i < before.len() implies (#[trigger] before[i]).0
            < pool.slots.len() by {
            assert(before[i] == results[i]);
        }
        law_round_records_each_once(pool, before, fall, rise);
        let mid = after_round(pool, before, fall, rise);
        let after = after_round(pool, results, fall, rise);
        assert forall|i: int| 0 <= i < before.len() implies (#[trigger] before[i]).0 != slot by {
            assert(results[i].0 != results[last].0);
        }
        assert(mid.slots[slot as int] == pool.slots[slot as int]);
        assert forall|i: int| 0 <= i < results.len() implies after.slots[(#[trigger] results[i]).0 as int]
            == pool.slots[results[i].0 as int].probed(results[i].1, fall, rise) by {
            if i < last {
                assert(before[i] == results[i]);
            }
        }
        assert forall|other: int|
            0 <= other < pool.slots.len() && (forall|i: int|
                0 <= i < results.len() ==> (#[trigger] results[i]).0 != other)
            implies #[trigger] after.slots[other] == pool.slots[other] by {
            assert(results[last].0 != other);
            assert forall|i: int| 0 <= i < before.len() implies (#[trigger] before[i]).0 != other by {
                assert(before[i] == results[i]);
            }
            assert(mid.slots[other] == pool.slots[other]);
        }
        lemma_healthy_among_elsewhere(
            mid,
            slot,
            mid.slots[slot as int].probed(passed, fall, rise),
            before,
        );
    }
}

/// A round goes by its results one after the other: recording `a` and then `b` is the same as
/// recording both in one round, and each reports its own share of healthy backends.
pub proof fn law_round_goes_in_order(
    pool: PoolView,
    a: Seq<(usize, bool)>,
    b: Seq<(usize, bool)>,
    fall: u32,
    rise: u32,
)
    ensures
        after_round(pool, a + b, fall, rise) == after_round(
            after_round(pool, a, fall, rise),
            b,
            fall,
            rise,
        ),
        healthy_in_round(pool, a + b, fall, rise) == healthy_in_round(pool, a, fall, rise)
            + healthy_in_round(after_round(pool, a, fall, rise), b, fall, rise),
    decreases b.len(),
{
    if b.len() == 0 {
        assert(a + b == a);
    } else {
        law_round_goes_in_order(pool, a, b.drop_last(), fall, rise);
        assert((a + b).drop_last() == a + b.drop_last());
        assert((a + b).last() == b.last());
    }
}

/// A round of one result records one probe for that backend, touches nobody else, and counts the
/// backend exactly if it is healthy afterwards. A round without results does nothing.
pub proof fn law_round_of_one(pool: PoolView, slot: usize, passed: bool, fall: u32, rise: u32)
    requires
        slot < pool.slots.len(),
    ensures
        ({
            let after = after_round(pool, seq![(slot, passed)], fall, rise);
            &&& after.slots.len() == pool.slots.len()
            &&& after.slots[slot as int] == pool.slots[slot as int].probed(passed, fall, rise)
            &&& forall|other: int|
                0 <= other < pool.slots.len() && other != slot ==> #[trigger] after.slots[other]
                    == pool.slots[other]
            &&& after.members == pool.members
            &&& after.schedule == pool.schedule
            &&& after.strategy == pool.strategy
            &&& after.cursor == pool.cursor
            &&& healthy_in_round(pool, seq![(slot, passed)], fall, rise) == if pool.slots[slot as int].probed(
                passed,
                fall,
                rise,
            ).healthy {
                1nat
            } else {
                0nat
            }
        }),
        after_round(pool, seq![], fall, rise) == pool,
        healthy_in_round(pool, seq![], fall, rise) == 0,
{
    let one = seq![(slot, passed)];
    assert(one.drop_last() == Seq::<(usize, bool)>::empty());
    assert(one.last() == (slot, passed));
    reveal_with_fuel(after_round, 2);
    reveal_with_fuel(healthy_in_round, 2);
}

/// A result of a round is reported as a change if and only if the backend's health is another
/// after it than before it, and then with the new health.
pub proof fn law_round_reports_changes(
    pool: PoolView,
    results: Seq<(usize, bool)>,
    fall: u32,
    rise: u32,
    i: int,
)
    requires
        0 <= i < results.len(),
        forall|k: int| 0 <= k < results.len() ==> (#[trigger] results[k]).0 < pool.slots.len(),
    ensures
        ({
            let slot = results[i].0 as int;
            let before = after_round(pool, results.take(i), fall, rise).slots[slot].healthy;
            let after = after_round(pool, results.take(i + 1), fall, rise).slots[slot].healthy;
            change_at(pool, results, fall, rise, i) == if before == after {
                None
            } else {
                Some(after)
            }
        }),
{
    assert(results.take(i + 1).drop_last() == results.take(i));
    assert(results.take(i + 1).last() == results[i]);
    assert forall|k: int| 0 <= k < i implies (#[trigger] results.take(i)[k]).0
        < pool.slots.len() by {
        assert(results.take(i)[k] == results[k]);
    }
    lemma_round_keeps_slots(pool, results.take(i), fall, rise);
    assert(results[i].0 < pool.slots.len());
}

proof fn lemma_round_keeps_slots(
    pool: PoolView,
    results: Seq<(usize, bool)>,
    fall: u32,
    rise: u32,
)
    requires
        forall|k: int| 0 <= k < results.len() ==> (#[trigger] results[k]).0 < pool.slots.len(),
    ensures
        after_round(pool, results, fall, rise).slots.len() == pool.slots.len(),
    decreases results.len(),
{
    if results.len() > 0 {
        assert(results[results.len() - 1].0 < pool.slots.len());
        assert forall|k: int| 0 <= k < results.drop_last().len() implies (
        #[trigger] results.drop_last()[k]).0 < pool.slots.len() by {
            assert(results.drop_last()[k] == results[k]);
        }
        lemma_round_keeps_slots(pool, results.drop_last(), fall, rise);
    }
}

/// A probe is passed by every answer of success, which is to say of a status in the two hundreds,
/// and by nothing else: by no other status, not without an answer, and not if it could not be made.
pub proof fn law_only_success_passes(valid: bool, reply: ProbeReply, passed: bool)
    requires
        call_ensures(probe_passed, (valid, reply), passed),
    ensures
        passed <==> valid && exists|status: u16|
            reply == ProbeReply::Status(status) && #[trigger] (status as int / 100) == 2,
{
    if passed {
        let status = reply->Status_0;
        assert(status as int / 100 == 2);
    }
}

} // verus!
